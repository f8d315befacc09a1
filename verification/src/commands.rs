//! Laws of single commands, spelled out: what each gives back for what the
//! journal holds at its position, what it journals where it runs live, and
//! what it leaves behind where it is cut off.

use vstd::prelude::*;

use crate::command::CommandKind;
use crate::context::EngineErrorView;
use crate::failpoints::FailpointDecision;
use crate::failpoints::Window;
use crate::journal::EventView;
use crate::journal::JournalErrorView;
use crate::laws;
use crate::model;
use crate::model::Act;
use crate::model::Effect;
use crate::model::RunState;
use crate::recovery;
use crate::recovery::Cmd;
use crate::step::StepErrorView;
use crate::time::ClockCall;

verus! {

/// Which events belong to which command: those of a step to the step, those
/// of a timer to the timer, a reading and a draw to themselves, and the start
/// and the ends of an execution to none.
pub proof fn events_belong_to_their_commands(event: EventView)
    ensures
        event.command_kind() == Some(CommandKind::RunStep) <==> event is StepScheduled || event
            is StepStarted || event is StepCompleted || event is StepFailed,
        event.command_kind() == Some(CommandKind::Sleep) <==> event is TimerScheduled || event
            is TimerFired,
        event.command_kind() == Some(CommandKind::ReadNow) <==> event is NowRecorded,
        event.command_kind() == Some(CommandKind::DrawRandom) <==> event is RandomRecorded,
        event.command_kind() is None <==> event is ExecutionStarted || event is ExecutionCompleted
            || event is ExecutionFailed,
{
}

/// The command at the position of `before` was answered without being run:
/// it took up its position and left `rest` to replay, and nothing else was
/// touched.
pub open spec fn only_replayed(before: RunState, after: RunState, rest: Seq<EventView>) -> bool {
    &&& after.position == before.position + 1
    &&& after.replay == Some(rest)
    &&& after.execution == before.execution
    &&& after.crash == before.crash
    &&& after.armed == before.armed
    &&& after.decisions == before.decisions
    &&& after.journals == before.journals
    &&& after.fallible == before.fallible
    &&& after.failures == before.failures
    &&& after.consulted == before.consulted
    &&& after.clock == before.clock
    &&& after.reading == before.reading
    &&& after.draws == before.draws
    &&& after.source == before.source
    &&& after.effects == before.effects
}

/// The error for a command of kind `got` at `position` where `event` is
/// journaled: it names the position and both kinds, and for an event that
/// belongs to no command the asked kind twice.
pub open spec fn is_divergence(
    error: EngineErrorView,
    position: nat,
    event: EventView,
    got: CommandKind,
) -> bool {
    error matches EngineErrorView::Nondeterminism { seq, expected, got: asked } && seq == position
        && asked == got && expected == (if event is StepScheduled || event is StepStarted || event
        is StepCompleted || event is StepFailed {
        CommandKind::RunStep
    } else if event is TimerScheduled || event is TimerFired {
        CommandKind::Sleep
    } else if event is NowRecorded {
        CommandKind::ReadNow
    } else if event is RandomRecorded {
        CommandKind::DrawRandom
    } else {
        got
    })
}

/// A clock reading is answered from the journal if a reading comes next
/// there, and refused if anything else does.
pub proof fn readings_are_replayed(
    before: RunState,
    after: RunState,
    r: Result<nat, EngineErrorView>,
    events: Seq<EventView>,
)
    requires
        model::now_does(before, after, r),
        before.crash is None,
        before.replay == Some(events),
        events.len() > 0,
    ensures
        events[0] is NowRecorded ==> r == Ok::<nat, EngineErrorView>(
            events[0]->NowRecorded_value,
        ) && only_replayed(before, after, events.skip(1)),
        !(events[0] is NowRecorded) ==> (r matches Err(error) && is_divergence(
            error,
            before.position,
            events[0],
            CommandKind::ReadNow,
        )) && only_replayed(before, after, events),
{
}

/// A draw is answered from the journal if a draw comes next there, and
/// refused if anything else does.
pub proof fn draws_are_replayed(
    before: RunState,
    after: RunState,
    r: Result<Seq<u8>, EngineErrorView>,
    events: Seq<EventView>,
)
    requires
        model::random_does(before, after, r),
        before.crash is None,
        before.replay == Some(events),
        events.len() > 0,
    ensures
        events[0] is RandomRecorded ==> r == Ok::<Seq<u8>, EngineErrorView>(
            events[0]->RandomRecorded_value,
        ) && only_replayed(before, after, events.skip(1)),
        !(events[0] is RandomRecorded) ==> (r matches Err(error) && is_divergence(
            error,
            before.position,
            events[0],
            CommandKind::DrawRandom,
        )) && only_replayed(before, after, events),
{
}

/// A timer is refused, and nothing of the journal consumed, unless a timer
/// with the very same deadline comes next there: an earlier one will not do,
/// nor a later one.
pub proof fn changed_deadlines_are_refused(
    before: RunState,
    deadline: nat,
    after: RunState,
    r: Result<(), EngineErrorView>,
    events: Seq<EventView>,
)
    requires
        model::sleep_does(before, deadline, after, r),
        before.crash is None,
        before.replay == Some(events),
        events.len() > 0,
        !(events[0] is TimerScheduled) || events[0]->deadline != deadline,
    ensures
        r matches Err(error) && is_divergence(
            error,
            before.position,
            events[0],
            CommandKind::Sleep,
        ),
        only_replayed(before, after, events),
{
}

/// A timer that is journaled with its deadline and as fired is over; one that
/// is followed by another event is refused.
pub proof fn timers_are_replayed(
    before: RunState,
    deadline: nat,
    after: RunState,
    r: Result<(), EngineErrorView>,
    events: Seq<EventView>,
)
    requires
        model::sleep_does(before, deadline, after, r),
        before.crash is None,
        before.replay == Some(events),
        events.len() > 1,
        events[0] is TimerScheduled,
        events[0]->deadline == deadline,
    ensures
        events[1] is TimerFired ==> r is Ok && only_replayed(before, after, events.skip(2)),
        !(events[1] is TimerFired) ==> (r matches Err(error) && is_divergence(
            error,
            before.position,
            events[1],
            CommandKind::Sleep,
        )) && only_replayed(before, after, events.skip(1)),
{
}

/// A step is refused, and nothing of the journal consumed, unless a step of
/// the very same name comes next there, at whatever position it is asked for.
pub proof fn changed_steps_are_refused(
    before: RunState,
    name: Seq<char>,
    after: RunState,
    r: Result<Seq<u8>, StepErrorView>,
    events: Seq<EventView>,
)
    requires
        model::step_does(before, name, after, r),
        before.crash is None,
        before.replay == Some(events),
        events.len() > 0,
        !(events[0] is StepScheduled) || events[0]->name != name,
    ensures
        r matches Err(StepErrorView::Engine(error)) && is_divergence(
            error,
            before.position,
            events[0],
            CommandKind::RunStep,
        ),
        only_replayed(before, after, events),
{
}

/// `events` starts with the step `name`, scheduled and started `starts` times.
pub open spec fn step_begun(events: Seq<EventView>, name: Seq<char>, starts: nat) -> bool {
    &&& events.len() > starts
    &&& events[0] is StepScheduled
    &&& events[0]->name == name
    &&& forall|i: int| 1 <= i <= starts ==> #[trigger] events[i] is StepStarted
}

proof fn lemma_starts_counted(events: Seq<EventView>, n: nat)
    requires
        n <= events.len(),
        forall|i: int| 0 <= i < n ==> #[trigger] events[i] is StepStarted,
        n < events.len() ==> !(events[n as int] is StepStarted),
    ensures
        model::leading_starts(events) == n,
    decreases n,
{
    if n > 0 {
        let later = events.skip(1);
        assert forall|i: int| 0 <= i < n - 1 implies #[trigger] later[i] is StepStarted by {
            assert(later[i] == events[i + 1]);
        }
        lemma_starts_counted(later, (n - 1) as nat);
    }
}

/// A step is answered from the journal with the outcome that is journaled
/// after its attempts, however many there were: with the result that it
/// completed with, or with the failure that it failed with. If another event
/// comes after the attempts, it is refused.
pub proof fn steps_are_replayed(
    before: RunState,
    name: Seq<char>,
    after: RunState,
    r: Result<Seq<u8>, StepErrorView>,
    events: Seq<EventView>,
    starts: nat,
)
    requires
        model::step_does(before, name, after, r),
        before.crash is None,
        before.replay == Some(events),
        step_begun(events, name, starts),
        events.len() > starts + 1,
        !(events[starts as int + 1] is StepStarted),
    ensures
        ({
            let end = events[starts as int + 1];
            &&& end is StepCompleted ==> r == Ok::<Seq<u8>, StepErrorView>(end->result)
                && only_replayed(before, after, events.skip(starts as int + 2))
            &&& end is StepFailed ==> r == Err::<Seq<u8>, _>(
                StepErrorView::Failed(end->StepFailed_error),
            ) && only_replayed(before, after, events.skip(starts as int + 2))
            &&& !(end is StepCompleted || end is StepFailed) ==> (r matches Err(
                StepErrorView::Engine(error),
            ) && is_divergence(error, before.position, end, CommandKind::RunStep))
                && only_replayed(before, after, events.skip(starts as int + 1))
        }),
{
    let left = events.skip(1);
    assert forall|i: int| 0 <= i < starts implies #[trigger] left[i] is StepStarted by {
        assert(left[i] == events[i + 1]);
    }
    lemma_starts_counted(left, starts);
    let rest = left.skip(starts as int);
    assert(rest =~= events.skip(starts as int + 1));
    assert(rest[0] == events[starts as int + 1]);
    assert(rest.skip(1) =~= events.skip(starts as int + 2));
}

/// How often a step was started that the journal leaves to be run: never if
/// nothing is left to replay, and as often as journaled if its attempts are
/// all that is left.
pub open spec fn runs_live(before: RunState, name: Seq<char>, starts: Option<nat>) -> bool {
    match starts {
        None => before.replay is None || (before.replay matches Some(events) && events.len() == 0),
        Some(n) => before.replay matches Some(events) && step_begun(events, name, n)
            && events.len() == n + 1,
    }
}

proof fn lemma_runs_live(before: RunState, name: Seq<char>, starts: Option<nat>)
    requires
        before.crash is None,
        runs_live(before, name, starts),
    ensures
        model::step_is_live(before, name),
        match starts {
            None => model::plan_step(before.replay, before.position, name) is Fresh,
            Some(n) => model::plan_step(before.replay, before.position, name) == (
            model::StepPlan::Retry { attempt: n + 1 }),
        },
{
    if let Some(n) = starts {
        let events = before.replay->0;
        let left = events.skip(1);
        assert forall|i: int| 0 <= i < n implies #[trigger] left[i] is StepStarted by {
            assert(left[i] == events[i + 1]);
        }
        lemma_starts_counted(left, n);
        assert(left.skip(n as int) =~= Seq::<EventView>::empty());
    }
}

/// The number of the attempt that such a step makes.
pub open spec fn attempt_of(starts: Option<nat>) -> nat {
    match starts {
        None => 1,
        Some(n) => n + 1,
    }
}

/// What a live step journals before its closure runs: that it is scheduled,
/// if it was not before, and that the next attempt at it is started.
pub open spec fn step_opening(
    seq: nat,
    name: Seq<char>,
    starts: Option<nat>,
) -> Seq<EventView> {
    let started = EventView::StepStarted { seq, attempt: attempt_of(starts) };
    match starts {
        None => seq![EventView::StepScheduled { seq, name }, started],
        Some(_) => seq![started],
    }
}

/// What a live step journals once its closure has answered.
pub open spec fn step_ending(
    seq: nat,
    starts: Option<nat>,
    answer: Result<Seq<u8>, Seq<char>>,
) -> EventView {
    match answer {
        Ok(result) => EventView::StepCompleted { seq, result },
        Err(error) => EventView::StepFailed { seq, attempt: attempt_of(starts), error },
    }
}

/// The windows that a live step comes to.
pub open spec fn step_windows(
    seq: nat,
    starts: Option<nat>,
    answer: Result<Seq<u8>, Seq<char>>,
) -> Seq<Window> {
    let first = match starts {
        None => seq![Window::BeforeStepScheduled(seq), Window::AfterStepScheduled(seq)],
        Some(_) => Seq::empty(),
    };
    let last = match answer {
        Ok(_) => seq![Window::AfterSideEffect(seq), Window::AfterStepCompleted(seq)],
        Err(_) => Seq::empty(),
    };
    first + seq![Window::AfterStepStarted(seq)] + last
}

/// The windows that `acts` consult the failpoints at.
pub open spec fn consulted_by(acts: Seq<Act>) -> Seq<Window>
    decreases acts.len(),
{
    if acts.len() == 0 {
        Seq::empty()
    } else {
        match acts.last() {
            Act::Consult(window) => consulted_by(acts.drop_last()).push(window),
            _ => consulted_by(acts.drop_last()),
        }
    }
}

/// The failpoints let a run pass `windows`.
pub open spec fn passing(windows: Seq<Window>) -> Seq<(Window, FailpointDecision)> {
    Seq::new(windows.len(), |i: int| (windows[i], FailpointDecision::Continue))
}

/// The requests that `acts` make of the clock.
pub open spec fn clocked_by(acts: Seq<Act>) -> Seq<ClockCall>
    decreases acts.len(),
{
    if acts.len() == 0 {
        Seq::empty()
    } else {
        match acts.last() {
            Act::Read(instant) => clocked_by(acts.drop_last()).push(ClockCall::Now(instant)),
            Act::Wait(deadline) => clocked_by(acts.drop_last()).push(
                ClockCall::SleepUntil(deadline),
            ),
            _ => clocked_by(acts.drop_last()),
        }
    }
}

/// The draws among `acts`.
pub open spec fn drawn_by(acts: Seq<Act>) -> Seq<Seq<u8>>
    decreases acts.len(),
{
    if acts.len() == 0 {
        Seq::empty()
    } else {
        match acts.last() {
            Act::Draw(bytes) => drawn_by(acts.drop_last()).push(bytes),
            _ => drawn_by(acts.drop_last()),
        }
    }
}

/// What acts that succeed do to everything but the journal and the effects.
proof fn lemma_acts_add(before: RunState, acts: Seq<Act>)
    ensures
        ({
            let after = before.does_all(acts);
            &&& after.consulted == before.consulted + passing(consulted_by(acts))
            &&& after.clock == before.clock + clocked_by(acts)
            &&& after.draws == before.draws + drawn_by(acts)
            &&& after.journals.remove(before.execution) == before.journals.remove(
                before.execution,
            )
            &&& after.execution == before.execution
            &&& after.armed == before.armed
            &&& after.fallible == before.fallible
        }),
    decreases acts.len(),
{
    let after = before.does_all(acts);
    if acts.len() == 0 {
        assert(after.consulted =~= before.consulted + passing(consulted_by(acts)));
        assert(after.clock =~= before.clock + clocked_by(acts));
        assert(after.draws =~= before.draws + drawn_by(acts));
    } else {
        lemma_acts_add(before, acts.drop_last());
        assert(after.consulted =~= before.consulted + passing(consulted_by(acts)));
        assert(after.clock =~= before.clock + clocked_by(acts));
        assert(after.draws =~= before.draws + drawn_by(acts));
        assert(after.journals.remove(before.execution) =~= before.journals.remove(
            before.execution,
        ));
    }
}

/// What the acts of a live step come to.
proof fn lemma_step_acts(
    before: RunState,
    name: Seq<char>,
    starts: Option<nat>,
    answer: Result<Seq<u8>, Seq<char>>,
)
    requires
        before.crash is None,
        runs_live(before, name, starts),
    ensures
        ({
            let seq = before.position;
            let acts = laws::live_step_acts(before, name, answer);
            &&& laws::journaled_by(acts) == step_opening(seq, name, starts).push(
                step_ending(seq, starts, answer),
            )
            &&& laws::performed_by(acts) == seq![Effect { seq, name, answer }]
            &&& consulted_by(acts) == step_windows(seq, starts, answer)
            &&& clocked_by(acts) == Seq::<ClockCall>::empty()
            &&& drawn_by(acts) == Seq::<Seq<u8>>::empty()
            &&& laws::appends_command_events(acts)
        }),
{
    lemma_runs_live(before, name, starts);
    let seq = before.position;
    let attempt = attempt_of(starts);
    let acts = laws::live_step_acts(before, name, answer);
    let effect = Effect { seq, name, answer };
    let opening = step_opening(seq, name, starts);
    let n: int = if starts is None {
        3
    } else {
        0
    };
    if starts is None {
        lemma_take(acts, 0);
        lemma_take(acts, 1);
        lemma_take(acts, 2);
        assert(acts[0] == Act::Consult(Window::BeforeStepScheduled(seq)));
        assert(acts[1] == Act::Append(EventView::StepScheduled { seq, name }));
        assert(acts[2] == Act::Consult(Window::AfterStepScheduled(seq)));
        assert(laws::journaled_by(acts.take(3)) =~= seq![EventView::StepScheduled { seq, name }]);
        assert(consulted_by(acts.take(3)) =~= seq![
            Window::BeforeStepScheduled(seq),
            Window::AfterStepScheduled(seq),
        ]);
    }
    lemma_take(acts, n);
    lemma_take(acts, n + 1);
    lemma_take(acts, n + 2);
    assert(acts[n] == Act::Append(EventView::StepStarted { seq, attempt }));
    assert(acts[n + 1] == Act::Consult(Window::AfterStepStarted(seq)));
    assert(acts[n + 2] == Act::Perform(effect));
    assert(laws::journaled_by(acts.take(n + 3)) =~= opening);
    assert(laws::performed_by(acts.take(n + 3)) =~= seq![effect]);
    lemma_take(acts, n + 3);
    match answer {
        Ok(result) => {
            lemma_take(acts, n + 4);
            lemma_take(acts, n + 5);
            assert(acts[n + 3] == Act::Consult(Window::AfterSideEffect(seq)));
            assert(acts[n + 4] == Act::Append(EventView::StepCompleted { seq, result }));
            assert(acts[n + 5] == Act::Consult(Window::AfterStepCompleted(seq)));
            assert(acts.take(n + 6) =~= acts);
        },
        Err(error) => {
            assert(acts[n + 3] == Act::Append(EventView::StepFailed { seq, attempt, error }));
            assert(acts.take(n + 4) =~= acts);
        },
    }
    assert(laws::journaled_by(acts) =~= opening.push(step_ending(seq, starts, answer)));
    assert(consulted_by(acts) =~= step_windows(seq, starts, answer));
}

/// What is known of the first `n` of `acts`, and of one more.
proof fn lemma_take(acts: Seq<Act>, n: int)
    requires
        0 <= n < acts.len(),
    ensures
        laws::journaled_by(acts.take(n + 1)) == match acts[n] {
            Act::Append(event) => laws::journaled_by(acts.take(n)).push(event),
            _ => laws::journaled_by(acts.take(n)),
        },
        laws::performed_by(acts.take(n + 1)) == match acts[n] {
            Act::Perform(effect) => laws::performed_by(acts.take(n)).push(effect),
            _ => laws::performed_by(acts.take(n)),
        },
        consulted_by(acts.take(n + 1)) == match acts[n] {
            Act::Consult(window) => consulted_by(acts.take(n)).push(window),
            _ => consulted_by(acts.take(n)),
        },
        clocked_by(acts.take(n + 1)) == match acts[n] {
            Act::Read(instant) => clocked_by(acts.take(n)).push(ClockCall::Now(instant)),
            Act::Wait(deadline) => clocked_by(acts.take(n)).push(ClockCall::SleepUntil(deadline)),
            _ => clocked_by(acts.take(n)),
        },
        drawn_by(acts.take(n + 1)) == match acts[n] {
            Act::Draw(bytes) => drawn_by(acts.take(n)).push(bytes),
            _ => drawn_by(acts.take(n)),
        },
        n == 0 ==> laws::journaled_by(acts.take(0)) == Seq::<EventView>::empty()
            && laws::performed_by(acts.take(0)) == Seq::<Effect>::empty() && consulted_by(
            acts.take(0),
        ) == Seq::<Window>::empty() && clocked_by(acts.take(0)) == Seq::<ClockCall>::empty()
            && drawn_by(acts.take(0)) == Seq::<Seq<u8>>::empty(),
{
    assert(acts.take(n + 1).drop_last() =~= acts.take(n));
    assert(acts.take(n + 1).last() == acts[n]);
}

/// A step that the journal leaves to be run, without failpoints and on a
/// store that does not fail, runs its closure once, gives what the closure
/// answers, and journals just this, in order: that it is scheduled, unless it
/// was before; that the next attempt is started; and how it ended. The
/// failpoints are passed at each of its windows, and the clock and the
/// randomness are left alone.
pub proof fn live_steps_are_journaled(
    before: RunState,
    name: Seq<char>,
    after: RunState,
    r: Result<Seq<u8>, StepErrorView>,
    starts: Option<nat>,
)
    requires
        model::step_does(before, name, after, r),
        before.crash is None,
        runs_live(before, name, starts),
        !before.armed,
        !before.fallible,
    ensures
        ({
            let seq = before.position;
            let answer = after.effects.last().answer;
            &&& after.effects == before.effects.push(Effect { seq, name, answer })
            &&& r == (match answer {
                Ok(result) => Ok::<Seq<u8>, StepErrorView>(result),
                Err(error) => Err(StepErrorView::Failed(error)),
            })
            &&& after.journal() == before.journal() + step_opening(seq, name, starts).push(
                step_ending(seq, starts, answer),
            )
            &&& after.consulted == before.consulted + passing(step_windows(seq, starts, answer))
            &&& after.position == seq + 1
            &&& after.replay is None
            &&& after.crash is None
            &&& after.clock == before.clock
            &&& after.draws == before.draws
            &&& after.failures == before.failures
            &&& after.execution == before.execution
            &&& after.armed == before.armed
            &&& after.fallible == before.fallible
            &&& after.journals.remove(before.execution) == before.journals.remove(
                before.execution,
            )
        }),
{
    lemma_runs_live(before, name, starts);
    let start = before.live();
    let (answer, error) = laws::lemma_live_step(before, name, after, r);
    let acts = laws::live_step_acts(before, name, answer);
    lemma_step_acts(before, name, starts, answer);
    laws::lemma_runs_evolve(start, acts, after, error);
    assert(error is None);
    laws::lemma_acts_evolve(start, acts);
    lemma_acts_add(start, acts);
    let effect = Effect { seq: before.position, name, answer };
    assert(after.effects =~= before.effects.push(effect));
    assert(after.effects.last() == effect);
    assert(after.clock =~= before.clock);
    assert(after.draws =~= before.draws);
}

/// A closure runs only for a step that is started: where one ran, it is the
/// one of this step, it ran once, and among what was journaled before is the
/// start of this step's attempt.
pub proof fn closures_run_only_once_started(
    before: RunState,
    name: Seq<char>,
    after: RunState,
    r: Result<Seq<u8>, StepErrorView>,
    starts: Option<nat>,
)
    requires
        model::step_does(before, name, after, r),
        before.crash is None,
        runs_live(before, name, starts),
        after.effects != before.effects,
    ensures
        after.effects == before.effects.push(after.effects.last()),
        after.effects.last().seq == before.position,
        after.effects.last().name == name,
        (before.journal() + step_opening(before.position, name, starts)).is_prefix_of(
            after.journal(),
        ),
{
    lemma_runs_live(before, name, starts);
    let start = before.live();
    let (answer, error) = laws::lemma_live_step(before, name, after, r);
    let acts = laws::live_step_acts(before, name, answer);
    lemma_step_acts(before, name, starts, answer);
    let opening = step_opening(before.position, name, starts);
    match error {
        None => {
            laws::lemma_acts_evolve(start, acts);
            assert(after.effects =~= before.effects.push(
                Effect { seq: before.position, name, answer },
            ));
            assert(before.journal() + opening =~= after.journal().subrange(
                0,
                (before.journal() + opening).len() as int,
            ));
        },
        Some(e) => {
            let n = choose|n: int|
                0 <= n < acts.len() && model::halts(
                    start.does_all(acts.take(n)),
                    #[trigger] acts[n],
                    after,
                    e,
                );
            laws::lemma_halt_evolves(start, acts, n, after, e);
            let done = acts.take(n);
            let k: int = if starts is None {
                5
            } else {
                2
            };
            assert forall|i: int| 0 <= i < done.len() implies laws::is_command_act(
                #[trigger] done[i],
            ) by {
                assert(done[i] == acts[i]);
            }
            laws::lemma_acts_evolve(start, done);
            if n <= k {
                lemma_performs_nothing(acts, n, k);
                assert(after.effects =~= before.effects);
            }
            lemma_opening_done(before, name, starts, answer, n);
            let middle = start.does_all(done);
            assert(after.effects =~= before.effects.push(
                Effect { seq: before.position, name, answer },
            ));
            assert(before.journal() + opening =~= middle.journal().subrange(
                0,
                (before.journal() + opening).len() as int,
            ));
            assert(middle.journal().is_prefix_of(after.journal())) by {
                match acts[n] {
                    Act::Append(event) => {
                        assert(after.journal() == middle.journal() || after.journal()
                            =~= middle.journal().push(event));
                        assert(middle.journal() =~= after.journal().subrange(
                            0,
                            middle.journal().len() as int,
                        ));
                    },
                    _ => {
                        assert(middle.journal() =~= after.journal().subrange(
                            0,
                            middle.journal().len() as int,
                        ));
                    },
                }
            }
            assert(before.journal() + opening =~= after.journal().subrange(
                0,
                (before.journal() + opening).len() as int,
            ));
        },
    }
}

proof fn lemma_performs_nothing(acts: Seq<Act>, n: int, k: int)
    requires
        0 <= n <= k <= acts.len(),
        forall|i: int| 0 <= i < k ==> !(#[trigger] acts[i] is Perform),
    ensures
        laws::performed_by(acts.take(n)) == Seq::<Effect>::empty(),
    decreases n,
{
    if n > 0 {
        lemma_performs_nothing(acts, n - 1, k);
        lemma_take(acts, n - 1);
    }
}

/// What the first `n` acts of a live step journal and perform, once its
/// closure is among them.
proof fn lemma_opening_done(
    before: RunState,
    name: Seq<char>,
    starts: Option<nat>,
    answer: Result<Seq<u8>, Seq<char>>,
    n: int,
)
    requires
        before.crash is None,
        runs_live(before, name, starts),
        n <= laws::live_step_acts(before, name, answer).len(),
        n >= (if starts is None {
            6int
        } else {
            3
        }),
    ensures
        ({
            let seq = before.position;
            let done = laws::live_step_acts(before, name, answer).take(n);
            &&& step_opening(seq, name, starts).is_prefix_of(laws::journaled_by(done))
            &&& laws::performed_by(done) == seq![Effect { seq, name, answer }]
        }),
    decreases n,
{
    lemma_runs_live(before, name, starts);
    let seq = before.position;
    let acts = laws::live_step_acts(before, name, answer);
    let opening = step_opening(seq, name, starts);
    let k: int = if starts is None {
        6
    } else {
        3
    };
    if n > k {
        lemma_opening_done(before, name, starts, answer, n - 1);
        lemma_take(acts, n - 1);
        let earlier = laws::journaled_by(acts.take(n - 1));
        let all = laws::journaled_by(acts.take(n));
        assert(opening =~= all.subrange(0, opening.len() as int));
    } else {
        if starts is None {
            lemma_take(acts, 0);
            lemma_take(acts, 1);
            lemma_take(acts, 2);
            assert(laws::journaled_by(acts.take(3)) =~= seq![
                EventView::StepScheduled { seq, name },
            ]);
        }
        lemma_take(acts, k - 3);
        lemma_take(acts, k - 2);
        lemma_take(acts, k - 1);
        assert(acts[k - 1] == Act::Perform(Effect { seq, name, answer }));
        assert(laws::journaled_by(acts.take(k)) =~= opening);
        assert(opening =~= laws::journaled_by(acts.take(k)).subrange(0, opening.len() as int));
        assert(laws::performed_by(acts.take(k)) =~= seq![Effect { seq, name, answer }]);
    }
}

/// What the first acts of a live step, up to its `n`-th window, journal and
/// perform. A step that was scheduled before starts at the third act.
proof fn lemma_step_prefix(
    before: RunState,
    name: Seq<char>,
    starts: Option<nat>,
    answer: Result<Seq<u8>, Seq<char>>,
    m: int,
)
    requires
        before.crash is None,
        runs_live(before, name, starts),
        0 <= m <= 8,
        starts is Some ==> m >= 3,
        m > 6 ==> answer is Ok,
    ensures
        ({
            let seq = before.position;
            let n = if starts is None {
                m
            } else {
                m - 3
            };
            let done = laws::live_step_acts(before, name, answer).take(n);
            let scheduled = EventView::StepScheduled { seq, name };
            let opening = step_opening(seq, name, starts);
            &&& laws::journaled_by(done) == if m <= 1 {
                Seq::empty()
            } else if m <= 3 {
                if starts is None {
                    seq![scheduled]
                } else {
                    Seq::empty()
                }
            } else if m <= 7 {
                opening
            } else {
                opening.push(step_ending(seq, starts, answer))
            }
            &&& laws::performed_by(done) == if m <= 5 {
                Seq::empty()
            } else {
                seq![Effect { seq, name, answer }]
            }
        }),
    decreases m,
{
    lemma_runs_live(before, name, starts);
    let seq = before.position;
    let acts = laws::live_step_acts(before, name, answer);
    let n = if starts is None {
        m
    } else {
        m - 3
    };
    let opening = step_opening(seq, name, starts);
    let done = acts.take(n);
    if n == 0 {
        lemma_take(acts, 0);
    } else {
        lemma_step_prefix(before, name, starts, answer, m - 1);
        lemma_take(acts, n - 1);
        if m == 2 {
            assert(laws::journaled_by(done) =~= seq![EventView::StepScheduled { seq, name }]);
        } else if m == 4 {
            assert(laws::journaled_by(done) =~= opening);
        } else if m == 6 {
            assert(laws::performed_by(done) =~= seq![Effect { seq, name, answer }]);
        } else if m == 8 {
            assert(laws::journaled_by(done) =~= opening.push(step_ending(seq, starts, answer)));
        }
    }
}

/// A step that is cut off by a crash leaves in the journal just what was
/// durable at the window of the crash, and its closure has run, once, if and
/// only if the window comes after its side effect. Before an attempt is
/// started a crash can only cut off a step that was not scheduled before.
pub proof fn crashed_steps_leave_what_was_durable(
    before: RunState,
    name: Seq<char>,
    after: RunState,
    r: Result<Seq<u8>, StepErrorView>,
    starts: Option<nat>,
    window: Window,
)
    requires
        model::step_does(before, name, after, r),
        before.crash is None,
        runs_live(before, name, starts),
        r == Err::<Seq<u8>, _>(StepErrorView::Engine(EngineErrorView::InjectedCrash(window))),
    ensures
        ({
            let seq = before.position;
            let opening = step_opening(seq, name, starts);
            let new = after.journal().skip(before.journal().len() as int);
            &&& before.armed
            &&& after.crash == Some(window)
            &&& window.position() == seq
            &&& before.decisions.contains_key(window) ==> before.decisions[window] is Crash
            &&& before.consulted.len() < after.consulted.len()
            &&& after.consulted.last() == (window, FailpointDecision::Crash)
            &&& before.journal().is_prefix_of(after.journal())
            &&& match window {
                Window::BeforeStepScheduled(_) => {
                    &&& starts is None
                    &&& new == Seq::<EventView>::empty()
                    &&& after.effects == before.effects
                },
                Window::AfterStepScheduled(_) => {
                    &&& starts is None
                    &&& new == seq![EventView::StepScheduled { seq, name }]
                    &&& after.effects == before.effects
                },
                Window::AfterStepStarted(_) => new == opening && after.effects == before.effects,
                Window::AfterSideEffect(_) => {
                    let effect = after.effects.last();
                    &&& new == opening
                    &&& after.effects == before.effects.push(effect)
                    &&& effect.seq == seq && effect.name == name && effect.answer is Ok
                },
                Window::AfterStepCompleted(_) => {
                    let effect = after.effects.last();
                    &&& after.effects == before.effects.push(effect)
                    &&& effect.seq == seq && effect.name == name && effect.answer is Ok
                    &&& new == opening.push(
                        EventView::StepCompleted { seq, result: effect.answer->Ok_0 },
                    )
                },
                _ => false,
            }
        }),
{
    lemma_runs_live(before, name, starts);
    let seq = before.position;
    let start = before.live();
    let (answer, error) = laws::lemma_live_step(before, name, after, r);
    let acts = laws::live_step_acts(before, name, answer);
    lemma_step_acts(before, name, starts, answer);
    let e = error->0;
    assert(e == EngineErrorView::InjectedCrash(window));
    let n = choose|n: int|
        0 <= n < acts.len() && model::halts(
            start.does_all(acts.take(n)),
            #[trigger] acts[n],
            after,
            e,
        );
    laws::lemma_halt_evolves(start, acts, n, after, e);
    let m = if starts is None {
        n
    } else {
        n + 3
    };
    assert(acts[n] == Act::Consult(window));
    assert(m <= 8);
    assert(m > 6 ==> answer is Ok);
    assert(m == 6 ==> answer is Ok);
    lemma_step_prefix(before, name, starts, answer, m);
    model::lemma_does_all_settled(start, acts.take(n));
    lemma_acts_add(start, acts.take(n));
    let new = laws::journaled_by(acts.take(n));
    assert(after.journal() == before.journal() + new);
    assert(after.journal().skip(before.journal().len() as int) =~= new);
    assert(before.journal() =~= after.journal().subrange(0, before.journal().len() as int));
    let effect = Effect { seq, name, answer };
    assert(m > 5 ==> after.effects =~= before.effects.push(effect));
    assert(m <= 5 ==> after.effects =~= before.effects);
}

/// How a timer stands that the journal leaves to be waited for: it is armed
/// if it is scheduled with this deadline and nothing else is left to replay,
/// and new if nothing is.
pub open spec fn timer_is_live(before: RunState, deadline: nat, scheduled: bool) -> bool {
    if scheduled {
        before.replay matches Some(events) && events.len() == 1 && events[0] is TimerScheduled
            && events[0]->deadline == deadline
    } else {
        before.replay is None || (before.replay matches Some(events) && events.len() == 0)
    }
}

/// What a live timer journals before it waits.
pub open spec fn timer_opening(seq: nat, deadline: nat, scheduled: bool) -> Seq<EventView> {
    if scheduled {
        Seq::empty()
    } else {
        seq![EventView::TimerScheduled { seq, deadline }]
    }
}

spec fn timer_acts(before: RunState, deadline: nat, scheduled: bool) -> Seq<Act> {
    if scheduled {
        model::rearm_acts(before.position, deadline)
    } else {
        model::sleep_acts(before.position, deadline)
    }
}

proof fn lemma_timer_acts(before: RunState, deadline: nat, scheduled: bool)
    ensures
        ({
            let seq = before.position;
            let acts = timer_acts(before, deadline, scheduled);
            let opening = timer_opening(seq, deadline, scheduled);
            let n: int = if scheduled {
                0
            } else {
                2
            };
            &&& laws::appends_command_events(acts)
            &&& acts.len() == n + 3
            &&& acts[n + 2] == Act::Consult(Window::AfterTimerFired(seq))
            &&& !scheduled ==> acts[1] == Act::Consult(Window::AfterTimerScheduled(seq))
            &&& forall|i: int|
                0 <= i < acts.len() && #[trigger] acts[i] is Consult ==> i == n + 2 || !scheduled
                    && i == 1
            &&& !scheduled ==> laws::journaled_by(acts.take(1)) == opening && clocked_by(
                acts.take(1),
            ) == Seq::<ClockCall>::empty()
            &&& laws::journaled_by(acts.take(n + 2)) == opening.push(EventView::TimerFired { seq })
            &&& clocked_by(acts.take(n + 2)) == seq![ClockCall::SleepUntil(deadline)]
            &&& laws::journaled_by(acts) == opening.push(EventView::TimerFired { seq })
            &&& clocked_by(acts) == seq![ClockCall::SleepUntil(deadline)]
            &&& laws::performed_by(acts) == Seq::<Effect>::empty()
            &&& drawn_by(acts) == Seq::<Seq<u8>>::empty()
            &&& consulted_by(acts) == if scheduled {
                seq![Window::AfterTimerFired(seq)]
            } else {
                seq![Window::AfterTimerScheduled(seq), Window::AfterTimerFired(seq)]
            }
        }),
{
    let seq = before.position;
    let acts = timer_acts(before, deadline, scheduled);
    let opening = timer_opening(seq, deadline, scheduled);
    let n: int = if scheduled {
        0
    } else {
        2
    };
    if !scheduled {
        lemma_take(acts, 0);
        lemma_take(acts, 1);
        assert(laws::journaled_by(acts.take(1)) =~= opening);
        assert(laws::journaled_by(acts.take(2)) =~= opening);
    } else {
        lemma_take(acts, 0);
        assert(laws::journaled_by(acts.take(0)) =~= opening);
    }
    lemma_take(acts, n);
    lemma_take(acts, n + 1);
    lemma_take(acts, n + 2);
    assert(acts[n] == Act::Wait(deadline));
    assert(acts[n + 1] == Act::Append(EventView::TimerFired { seq }));
    assert(clocked_by(acts.take(n + 2)) =~= seq![ClockCall::SleepUntil(deadline)]);
    assert(acts.take(n + 3) =~= acts);
    assert(consulted_by(acts) =~= if scheduled {
        seq![Window::AfterTimerFired(seq)]
    } else {
        seq![Window::AfterTimerScheduled(seq), Window::AfterTimerFired(seq)]
    });
}

/// A timer that the journal leaves to be waited for, without failpoints and
/// on a store that does not fail, waits once, for its own deadline, and
/// journals just this: that it is scheduled for that deadline, unless it was
/// before, and then that it fired.
pub proof fn live_timers_are_journaled(
    before: RunState,
    deadline: nat,
    after: RunState,
    r: Result<(), EngineErrorView>,
    scheduled: bool,
)
    requires
        model::sleep_does(before, deadline, after, r),
        before.crash is None,
        timer_is_live(before, deadline, scheduled),
        !before.armed,
        !before.fallible,
    ensures
        r is Ok,
        after.journal() == before.journal() + timer_opening(
            before.position,
            deadline,
            scheduled,
        ).push(EventView::TimerFired { seq: before.position }),
        after.clock == before.clock.push(ClockCall::SleepUntil(deadline)),
        after.consulted == before.consulted + passing(
            if scheduled {
                seq![Window::AfterTimerFired(before.position)]
            } else {
                seq![
                    Window::AfterTimerScheduled(before.position),
                    Window::AfterTimerFired(before.position),
                ]
            },
        ),
        after.position == before.position + 1,
        after.replay is None,
        after.crash is None,
        after.effects == before.effects,
        after.draws == before.draws,
        after.failures == before.failures,
        after.execution == before.execution,
        after.journals.remove(before.execution) == before.journals.remove(before.execution),
{
    let start = before.live();
    let acts = timer_acts(before, deadline, scheduled);
    lemma_timer_acts(before, deadline, scheduled);
    laws::lemma_runs_evolve(start, acts, after, model::error_of(r));
    assert(r is Ok);
    laws::lemma_acts_evolve(start, acts);
    lemma_acts_add(start, acts);
    assert(after.clock =~= before.clock.push(ClockCall::SleepUntil(deadline)));
    assert(after.effects =~= before.effects);
    assert(after.draws =~= before.draws);
}

/// A timer that is cut off by a crash leaves in the journal just what was
/// durable at the window of the crash: as fired it is journaled only once it
/// was waited for.
pub proof fn crashed_timers_leave_what_was_durable(
    before: RunState,
    deadline: nat,
    after: RunState,
    r: Result<(), EngineErrorView>,
    scheduled: bool,
    window: Window,
)
    requires
        model::sleep_does(before, deadline, after, r),
        before.crash is None,
        timer_is_live(before, deadline, scheduled),
        r == Err::<(), _>(EngineErrorView::InjectedCrash(window)),
    ensures
        ({
            let seq = before.position;
            let opening = timer_opening(seq, deadline, scheduled);
            let new = after.journal().skip(before.journal().len() as int);
            &&& before.armed
            &&& after.crash == Some(window)
            &&& before.decisions.contains_key(window) ==> before.decisions[window] is Crash
            &&& before.consulted.len() < after.consulted.len()
            &&& after.consulted.last() == (window, FailpointDecision::Crash)
            &&& after.effects == before.effects
            &&& before.journal().is_prefix_of(after.journal())
            &&& window == Window::AfterTimerScheduled(seq) || window == Window::AfterTimerFired(seq)
            &&& window is AfterTimerScheduled ==> !scheduled && new == opening && after.clock
                == before.clock
            &&& window is AfterTimerFired ==> new == opening.push(EventView::TimerFired { seq })
                && after.clock == before.clock.push(ClockCall::SleepUntil(deadline))
        }),
{
    let seq = before.position;
    let start = before.live();
    let acts = timer_acts(before, deadline, scheduled);
    lemma_timer_acts(before, deadline, scheduled);
    let e = EngineErrorView::InjectedCrash(window);
    let n = choose|n: int|
        0 <= n < acts.len() && model::halts(
            start.does_all(acts.take(n)),
            #[trigger] acts[n],
            after,
            e,
        );
    laws::lemma_halt_evolves(start, acts, n, after, e);
    lemma_acts_add(start, acts.take(n));
    lemma_performs_nothing(acts, n, acts.len() as int);
    model::lemma_does_all_settled(start, acts.take(n));
    let new = laws::journaled_by(acts.take(n));
    assert(acts[n] == Act::Consult(window));
    assert(after.journal() == before.journal() + new);
    assert(after.journal().skip(before.journal().len() as int) =~= new);
    assert(before.journal() =~= after.journal().subrange(0, before.journal().len() as int));
    assert(after.effects =~= before.effects);
    assert(after.clock =~= before.clock + clocked_by(acts.take(n)));
}

/// A clock reading that the journal leaves to be made, on a store that does
/// not fail, reads the clock once, gives what it showed and journals it.
pub proof fn live_readings_are_journaled(
    before: RunState,
    after: RunState,
    r: Result<nat, EngineErrorView>,
)
    requires
        model::now_does(before, after, r),
        before.crash is None,
        before.replay is None || (before.replay matches Some(events) && events.len() == 0),
        !before.fallible,
    ensures
        r matches Ok(value) && after.clock == before.clock.push(ClockCall::Now(value))
            && after.journal() == before.journal().push(
            EventView::NowRecorded { seq: before.position, value },
        ),
        after.position == before.position + 1,
        after.replay is None,
        after.crash is None,
        after.effects == before.effects,
        after.draws == before.draws,
        after.consulted == before.consulted,
        after.failures == before.failures,
        after.journals.remove(before.execution) == before.journals.remove(before.execution),
{
    let start = before.live();
    let value = choose|value: nat|
        {
            &&& model::runs(
                start,
                #[trigger] model::now_acts(before.position, value),
                after,
                model::error_of(r),
            )
            &&& r is Ok ==> r == Ok::<nat, EngineErrorView>(value)
        };
    let acts = model::now_acts(before.position, value);
    if let Err(error) = r {
        let n = choose|n: int|
            0 <= n < acts.len() && model::halts(
                start.does_all(acts.take(n)),
                #[trigger] acts[n],
                after,
                error,
            );
        laws::lemma_halt_evolves(start, acts, n, after, error);
        assert(n == 0 || n == 1);
    }
    lemma_take(acts, 0);
    lemma_take(acts, 1);
    assert(acts.take(2) =~= acts);
    laws::lemma_acts_evolve(start, acts);
    lemma_acts_add(start, acts);
    let event = EventView::NowRecorded { seq: before.position, value };
    assert(after.journal() =~= before.journal().push(event));
    assert(after.clock =~= before.clock.push(ClockCall::Now(value)));
    assert(after.effects =~= before.effects);
    assert(after.draws =~= before.draws);
    assert(after.consulted =~= before.consulted);
}

/// A draw that the journal leaves to be made, on a store that does not fail,
/// draws once, gives what came and journals it.
pub proof fn live_draws_are_journaled(
    before: RunState,
    after: RunState,
    r: Result<Seq<u8>, EngineErrorView>,
)
    requires
        model::random_does(before, after, r),
        before.crash is None,
        before.replay is None || (before.replay matches Some(events) && events.len() == 0),
        !before.fallible,
    ensures
        r matches Ok(value) && after.draws == before.draws.push(value) && after.journal()
            == before.journal().push(EventView::RandomRecorded { seq: before.position, value }),
        after.position == before.position + 1,
        after.replay is None,
        after.crash is None,
        after.effects == before.effects,
        after.clock == before.clock,
        after.consulted == before.consulted,
        after.failures == before.failures,
        after.journals.remove(before.execution) == before.journals.remove(before.execution),
{
    let start = before.live();
    let value = choose|value: Seq<u8>|
        {
            &&& model::runs(
                start,
                #[trigger] model::random_acts(before.position, value),
                after,
                model::error_of(r),
            )
            &&& r is Ok ==> r == Ok::<Seq<u8>, EngineErrorView>(value)
        };
    let acts = model::random_acts(before.position, value);
    if let Err(error) = r {
        let n = choose|n: int|
            0 <= n < acts.len() && model::halts(
                start.does_all(acts.take(n)),
                #[trigger] acts[n],
                after,
                error,
            );
        laws::lemma_halt_evolves(start, acts, n, after, error);
        assert(n == 0 || n == 1);
    }
    lemma_take(acts, 0);
    lemma_take(acts, 1);
    assert(acts.take(2) =~= acts);
    laws::lemma_acts_evolve(start, acts);
    lemma_acts_add(start, acts);
    let event = EventView::RandomRecorded { seq: before.position, value };
    assert(after.journal() =~= before.journal().push(event));
    assert(after.draws =~= before.draws.push(value));
    assert(after.effects =~= before.effects);
    assert(after.clock =~= before.clock);
    assert(after.consulted =~= before.consulted);
}

/// A failure of the store is handed on as it came: a command that fails with
/// it was refused by a store that can fail, and the store notes that same
/// failure last. It is no crash.
pub proof fn failures_of_the_store_are_handed_on(
    cmd: Cmd,
    before: RunState,
    after: RunState,
    fault: JournalErrorView,
)
    requires
        recovery::command_does(cmd, before, after, Err(EngineErrorView::Journal(fault))),
    ensures
        before.fallible,
        before.crash is None,
        after.crash is None,
        after.failures == before.failures.push(fault),
        after.journals.remove(before.execution) == before.journals.remove(before.execution),
{
    let error = EngineErrorView::Journal(fault);
    let start = before.live();
    match cmd {
        Cmd::Step { name, .. } => {
            let result = Err::<Seq<u8>, _>(StepErrorView::Engine(error));
            assert(model::step_is_live(before, name));
            let (answer, stopped) = laws::lemma_live_step(before, name, after, result);
            lemma_failure(start, laws::live_step_acts(before, name, answer), after, fault);
        },
        Cmd::Now => {
            let value = choose|value: nat|
                model::runs(
                    start,
                    #[trigger] model::now_acts(before.position, value),
                    after,
                    Some(error),
                );
            lemma_failure(start, model::now_acts(before.position, value), after, fault);
        },
        Cmd::Random => {
            let value = choose|value: Seq<u8>|
                model::runs(
                    start,
                    #[trigger] model::random_acts(before.position, value),
                    after,
                    Some(error),
                );
            lemma_failure(start, model::random_acts(before.position, value), after, fault);
        },
        Cmd::Sleep { deadline } => {
            match model::plan_sleep(before.replay, before.position, deadline) {
                model::SleepPlan::Rearm => {
                    lemma_failure(
                        start,
                        model::rearm_acts(before.position, deadline),
                        after,
                        fault,
                    );
                },
                _ => {
                    lemma_failure(
                        start,
                        model::sleep_acts(before.position, deadline),
                        after,
                        fault,
                    );
                },
            }
        },
    }
}

proof fn lemma_failure(
    start: RunState,
    acts: Seq<Act>,
    after: RunState,
    fault: JournalErrorView,
)
    requires
        start.crash is None,
        laws::appends_command_events(acts),
        model::runs(start, acts, after, Some(EngineErrorView::Journal(fault))),
    ensures
        start.fallible,
        after.crash is None,
        after.failures == start.failures.push(fault),
        after.journals.remove(start.execution) == start.journals.remove(start.execution),
{
    let error = EngineErrorView::Journal(fault);
    let n = choose|n: int|
        0 <= n < acts.len() && model::halts(
            start.does_all(acts.take(n)),
            #[trigger] acts[n],
            after,
            error,
        );
    laws::lemma_halt_evolves(start, acts, n, after, error);
}

} // verus!
