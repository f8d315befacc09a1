//! Laws of whole runs: a workflow that asks for the same commands every time
//! can be crashed at any window, any number of times, and recovered from its
//! journal. Recovery never diverges, gives every command the reply it had
//! before, and runs no step's closure again but one that was cut off between
//! its effect and its journal record.

use vstd::prelude::*;

use crate::command::CommandKind;
use crate::context::EngineErrorView;
use crate::failpoints::Window;
use crate::journal::EventView;
use crate::laws;
use crate::model;
use crate::model::Act;
use crate::model::Effect;
use crate::model::RunState;
use crate::step::StepErrorView;

verus! {

/// A command that a workflow asks for. A step comes with what its closure
/// answers every time it runs.
pub enum Cmd {
    Step { name: Seq<char>, answer: Result<Seq<u8>, Seq<char>> },
    Now,
    Random,
    Sleep { deadline: nat },
}

/// What a command gives back.
pub enum Reply {
    Answer(Result<Seq<u8>, Seq<char>>),
    Instant(nat),
    Bytes(Seq<u8>),
    Woken,
}

/// The reply in the result of a step; a failure of its closure is one.
pub open spec fn step_reply(r: Result<Seq<u8>, StepErrorView>) -> Result<Reply, EngineErrorView> {
    match r {
        Ok(payload) => Ok(Reply::Answer(Ok(payload))),
        Err(StepErrorView::Failed(message)) => Ok(Reply::Answer(Err(message))),
        Err(StepErrorView::Engine(error)) => Err(error),
    }
}

/// The result of a step that gives the reply `r`.
pub open spec fn step_result(r: Result<Reply, EngineErrorView>) -> Result<Seq<u8>, StepErrorView> {
    match r {
        Ok(Reply::Answer(Ok(payload))) => Ok(payload),
        Ok(Reply::Answer(Err(message))) => Err(StepErrorView::Failed(message)),
        Ok(_) => arbitrary(),
        Err(error) => Err(StepErrorView::Engine(error)),
    }
}

/// The reply in the result of a clock reading.
pub open spec fn now_reply(r: Result<nat, EngineErrorView>) -> Result<Reply, EngineErrorView> {
    match r {
        Ok(value) => Ok(Reply::Instant(value)),
        Err(error) => Err(error),
    }
}

/// The result of a clock reading that gives the reply `r`.
pub open spec fn now_result(r: Result<Reply, EngineErrorView>) -> Result<nat, EngineErrorView> {
    match r {
        Ok(Reply::Instant(value)) => Ok(value),
        Ok(_) => arbitrary(),
        Err(error) => Err(error),
    }
}

/// The reply in the result of a draw.
pub open spec fn random_reply(r: Result<Seq<u8>, EngineErrorView>) -> Result<
    Reply,
    EngineErrorView,
> {
    match r {
        Ok(value) => Ok(Reply::Bytes(value)),
        Err(error) => Err(error),
    }
}

/// The result of a draw that gives the reply `r`.
pub open spec fn random_result(r: Result<Reply, EngineErrorView>) -> Result<
    Seq<u8>,
    EngineErrorView,
> {
    match r {
        Ok(Reply::Bytes(value)) => Ok(value),
        Ok(_) => arbitrary(),
        Err(error) => Err(error),
    }
}

/// The reply in the result of a timer.
pub open spec fn sleep_reply(r: Result<(), EngineErrorView>) -> Result<Reply, EngineErrorView> {
    match r {
        Ok(()) => Ok(Reply::Woken),
        Err(error) => Err(error),
    }
}

/// The result of a timer that gives the reply `r`.
pub open spec fn sleep_result(r: Result<Reply, EngineErrorView>) -> Result<(), EngineErrorView> {
    match r {
        Ok(_) => Ok(()),
        Err(error) => Err(error),
    }
}

/// What `cmd` does to the run and gives back.
pub open spec fn command_does(
    cmd: Cmd,
    before: RunState,
    after: RunState,
    r: Result<Reply, EngineErrorView>,
) -> bool {
    match cmd {
        Cmd::Step { name, answer } => {
            &&& r == step_reply(step_result(r))
            &&& model::step_does(before, name, after, step_result(r))
            &&& after.effects != before.effects ==> after.effects.last().answer == answer
        },
        Cmd::Now => {
            &&& r == now_reply(now_result(r))
            &&& model::now_does(before, after, now_result(r))
        },
        Cmd::Random => {
            &&& r == random_reply(random_result(r))
            &&& model::random_does(before, after, random_result(r))
        },
        Cmd::Sleep { deadline } => {
            &&& r == sleep_reply(sleep_result(r))
            &&& model::sleep_does(before, deadline, after, sleep_result(r))
        },
    }
}

/// The record of the command `cmd` at `position` that `events` starts with:
/// its reply, and the events after it. `None` if `events` does not start
/// with a whole record of `cmd`.
pub open spec fn completed(events: Seq<EventView>, cmd: Cmd, position: nat) -> Option<
    (Reply, Seq<EventView>),
> {
    match cmd {
        Cmd::Step { name, answer } => {
            let attempts = events.skip(1);
            let rest = attempts.skip(model::leading_starts(attempts) as int);
            if events.len() > 0 && events[0] == (EventView::StepScheduled { seq: position, name })
                && rest.len() > 0 && is_outcome(rest[0], position, answer) {
                Some((Reply::Answer(answer), rest.skip(1)))
            } else {
                None
            }
        },
        Cmd::Now => {
            if events.len() > 0 {
                match events[0] {
                    EventView::NowRecorded { seq, value } if seq == position => Some(
                        (Reply::Instant(value), events.skip(1)),
                    ),
                    _ => None,
                }
            } else {
                None
            }
        },
        Cmd::Random => {
            if events.len() > 0 {
                match events[0] {
                    EventView::RandomRecorded { seq, value } if seq == position => Some(
                        (Reply::Bytes(value), events.skip(1)),
                    ),
                    _ => None,
                }
            } else {
                None
            }
        },
        Cmd::Sleep { deadline } => {
            if events.len() > 1 && events[0] == (EventView::TimerScheduled {
                seq: position,
                deadline,
            }) && events[1] == (EventView::TimerFired { seq: position }) {
                Some((Reply::Woken, events.skip(2)))
            } else {
                None
            }
        },
    }
}

/// `event` journals that the step at `position` answered `answer`.
pub open spec fn is_outcome(
    event: EventView,
    position: nat,
    answer: Result<Seq<u8>, Seq<char>>,
) -> bool {
    match answer {
        Ok(result) => event == (EventView::StepCompleted { seq: position, result }),
        Err(message) => event matches EventView::StepFailed { seq, error, .. } && seq == position
            && error == message,
    }
}

/// `events` is what is journaled of the command `cmd` at `position` before it
/// is over.
pub open spec fn begun(events: Seq<EventView>, cmd: Cmd, position: nat) -> bool {
    ||| events.len() == 0
    ||| match cmd {
        Cmd::Step { name, .. } => {
            &&& events[0] == (EventView::StepScheduled { seq: position, name })
            &&& model::leading_starts(events.skip(1)) == events.len() - 1
        },
        Cmd::Sleep { deadline } => events == seq![
            EventView::TimerScheduled { seq: position, deadline },
        ],
        _ => false,
    }
}

/// The events still to be replayed: none in a live run.
pub open spec fn left_to_replay(state: RunState) -> Seq<EventView> {
    match state.replay {
        Some(events) => events,
        None => Seq::empty(),
    }
}

/// What was journaled between `before` and `after`.
pub open spec fn journaled(before: RunState, after: RunState) -> Seq<EventView> {
    after.journal().skip(before.journal().len() as int)
}

/// The step closures that ran between `before` and `after`.
pub open spec fn performed(before: RunState, after: RunState) -> Seq<Effect> {
    after.effects.skip(before.effects.len() as int)
}

/// The closure that the command `cmd` at `position` runs.
pub open spec fn effect_of(cmd: Cmd, position: nat) -> Seq<Effect> {
    match cmd {
        Cmd::Step { name, answer } => seq![Effect { seq: position, name, answer }],
        _ => Seq::empty(),
    }
}

proof fn lemma_leading_starts_all(starts: Seq<EventView>, more: Seq<EventView>)
    requires
        model::leading_starts(starts) == starts.len(),
    ensures
        model::leading_starts(starts + more) == starts.len() + model::leading_starts(more),
    decreases starts.len(),
{
    if starts.len() == 0 {
        assert(starts + more =~= more);
    } else {
        model::lemma_leading_starts_bound(starts.skip(1));
        lemma_leading_starts_all(starts.skip(1), more);
        assert((starts + more).skip(1) =~= starts.skip(1) + more);
    }
}

proof fn lemma_leading_starts_cut(events: Seq<EventView>, more: Seq<EventView>)
    requires
        model::leading_starts(events) < events.len(),
    ensures
        model::leading_starts(events + more) == model::leading_starts(events),
    decreases events.len(),
{
    if events[0] is StepStarted {
        lemma_leading_starts_cut(events.skip(1), more);
        assert((events + more).skip(1) =~= events.skip(1) + more);
    }
}

/// A whole record stays one when more is journaled after it.
proof fn lemma_completed_extends(
    events: Seq<EventView>,
    cmd: Cmd,
    position: nat,
    more: Seq<EventView>,
)
    requires
        completed(events, cmd, position) is Some,
    ensures
        completed(events + more, cmd, position) == Some(
            (
                (completed(events, cmd, position)->0).0,
                (completed(events, cmd, position)->0).1 + more,
            ),
        ),
{
    let all = events + more;
    match cmd {
        Cmd::Step { name, answer } => {
            let attempts = events.skip(1);
            let starts = model::leading_starts(attempts);
            model::lemma_leading_starts_bound(attempts);
            assert(all.skip(1) =~= attempts + more);
            lemma_leading_starts_cut(attempts, more);
            let rest = attempts.skip(starts as int);
            assert((attempts + more).skip(starts as int) =~= rest + more);
            assert((rest + more).skip(1) =~= rest.skip(1) + more);
        },
        Cmd::Sleep { deadline } => {
            assert(all.skip(2) =~= events.skip(2) + more);
        },
        _ => {
            assert(all.skip(1) =~= events.skip(1) + more);
        },
    }
}

/// Replay gives back what is recorded: a command whose whole record comes
/// next is answered with the recorded reply, and only its record is
/// consumed. Nothing else happens.
pub proof fn recorded_replies_come_back(
    cmd: Cmd,
    before: RunState,
    after: RunState,
    r: Result<Reply, EngineErrorView>,
)
    requires
        before.crash is None,
        command_does(cmd, before, after, r),
        completed(left_to_replay(before), cmd, before.position) is Some,
    ensures
        r == Ok::<Reply, EngineErrorView>(
            (completed(left_to_replay(before), cmd, before.position)->0).0,
        ),
        after == before.replayed((completed(left_to_replay(before), cmd, before.position)->0).1),
{
    let events = left_to_replay(before);
    match cmd {
        Cmd::Step { name, answer } => {
            model::lemma_leading_starts_bound(events.skip(1));
        },
        _ => {},
    }
}

/// The kind of a command.
pub open spec fn kind_of(cmd: Cmd) -> CommandKind {
    match cmd {
        Cmd::Step { .. } => CommandKind::RunStep,
        Cmd::Now => CommandKind::ReadNow,
        Cmd::Random => CommandKind::DrawRandom,
        Cmd::Sleep { .. } => CommandKind::Sleep,
    }
}

/// A workflow that changes its mind is caught: a command of another kind
/// than the one journaled at its position is refused with both kinds. It
/// does nothing, and consumes nothing of the journal.
pub proof fn diverging_commands_are_refused(
    cmd: Cmd,
    before: RunState,
    after: RunState,
    r: Result<Reply, EngineErrorView>,
)
    requires
        before.crash is None,
        command_does(cmd, before, after, r),
        left_to_replay(before).len() > 0,
        left_to_replay(before)[0].command_kind() matches Some(kind) && kind != kind_of(cmd),
    ensures
        r == Err::<Reply, _>(
            EngineErrorView::Nondeterminism {
                seq: before.position,
                expected: left_to_replay(before)[0].command_kind()->0,
                got: kind_of(cmd),
            },
        ),
        after == before.replayed(left_to_replay(before)),
{
}

/// A crash is final: a crashed run answers every command with its crash and
/// does nothing.
pub proof fn crashed_runs_refuse_commands(
    cmd: Cmd,
    before: RunState,
    after: RunState,
    r: Result<Reply, EngineErrorView>,
    window: Window,
)
    requires
        before.crash == Some(window),
        command_does(cmd, before, after, r),
    ensures
        r == Err::<Reply, _>(EngineErrorView::InjectedCrash(window)),
        after == before,
{
}

/// `cmds` are asked for one after the other, whatever each of them gives
/// back; `results` are what they give back.
pub open spec fn keeps_asking(
    cmds: Seq<Cmd>,
    before: RunState,
    results: Seq<Result<Reply, EngineErrorView>>,
    after: RunState,
) -> bool
    decreases cmds.len(),
{
    if cmds.len() == 0 {
        results.len() == 0 && after == before
    } else {
        &&& results.len() > 0
        &&& exists|middle: RunState| #[trigger]
            command_does(cmds[0], before, middle, results[0]) && keeps_asking(
                cmds.skip(1),
                middle,
                results.skip(1),
                after,
            )
    }
}

/// A crash is final: after a command that failed with it, any commands
/// whatever, any number of times, each fail with that same crash and change
/// nothing. No event is appended, no closure runs, clock, randomness and
/// failpoints are left alone, and no position is taken up.
pub proof fn a_crash_is_final(
    cmd: Cmd,
    before: RunState,
    crashed: RunState,
    window: Window,
    cmds: Seq<Cmd>,
    results: Seq<Result<Reply, EngineErrorView>>,
    after: RunState,
)
    requires
        command_does(cmd, before, crashed, Err(EngineErrorView::InjectedCrash(window))),
        keeps_asking(cmds, crashed, results, after),
    ensures
        crashed.crash == Some(window),
        after == crashed,
        results.len() == cmds.len(),
        forall|i: int|
            0 <= i < results.len() ==> #[trigger] results[i] == Err::<Reply, _>(
                EngineErrorView::InjectedCrash(window),
            ),
{
    lemma_crashes_are_noted(cmd, before, crashed, window);
    lemma_nothing_after_a_crash(crashed, window, cmds, results, after);
}

proof fn lemma_nothing_after_a_crash(
    crashed: RunState,
    window: Window,
    cmds: Seq<Cmd>,
    results: Seq<Result<Reply, EngineErrorView>>,
    after: RunState,
)
    requires
        crashed.crash == Some(window),
        keeps_asking(cmds, crashed, results, after),
    ensures
        after == crashed,
        results.len() == cmds.len(),
        forall|i: int|
            0 <= i < results.len() ==> #[trigger] results[i] == Err::<Reply, _>(
                EngineErrorView::InjectedCrash(window),
            ),
    decreases cmds.len(),
{
    if cmds.len() > 0 {
        let later = results.skip(1);
        let middle = choose|middle: RunState| #[trigger]
            command_does(cmds[0], crashed, middle, results[0]) && keeps_asking(
                cmds.skip(1),
                middle,
                later,
                after,
            );
        crashed_runs_refuse_commands(cmds[0], crashed, middle, results[0], window);
        lemma_nothing_after_a_crash(crashed, window, cmds.skip(1), later, after);
        assert forall|i: int| 0 <= i < results.len() implies #[trigger] results[i] == Err::<
            Reply,
            _,
        >(EngineErrorView::InjectedCrash(window)) by {
            if i > 0 {
                assert(results[i] == later[i - 1]);
            }
        }
    }
}

/// A command that fails with a crash leaves the run crashed.
proof fn lemma_crashes_are_noted(cmd: Cmd, before: RunState, after: RunState, window: Window)
    requires
        command_does(cmd, before, after, Err(EngineErrorView::InjectedCrash(window))),
    ensures
        after.crash == Some(window),
{
    let error = EngineErrorView::InjectedCrash(window);
    if before.crash is None {
        match cmd {
            Cmd::Step { name, .. } => {
                let result = Err::<Seq<u8>, _>(StepErrorView::Engine(error));
                assert(model::step_is_live(before, name));
                let (answer, stopped) = laws::lemma_live_step(before, name, after, result);
                assert(model::runs(
                    before.live(),
                    laws::live_step_acts(before, name, answer),
                    after,
                    Some(error),
                ));
            },
            _ => {},
        }
    }
}

/// How a command ends that the journal does not answer.
pub open spec fn ran_live(
    cmd: Cmd,
    before: RunState,
    after: RunState,
    r: Result<Reply, EngineErrorView>,
) -> bool {
    let position = before.position;
    let record = left_to_replay(before) + journaled(before, after);
    &&& after.replay is None
    &&& after.position == position + 1
    &&& match r {
        Ok(reply) => {
            &&& after.crash is None
            &&& completed(record, cmd, position) == Some((reply, Seq::<EventView>::empty()))
            &&& performed(before, after) == effect_of(cmd, position)
        },
        Err(EngineErrorView::InjectedCrash(window)) => {
            &&& before.armed
            &&& after.crash == Some(window)
            &&& window.position() == position
            &&& match completed(record, cmd, position) {
                Some((_, rest)) => {
                    &&& rest == Seq::<EventView>::empty()
                    &&& performed(before, after) == effect_of(cmd, position)
                    &&& !(window is AfterSideEffect)
                },
                None => {
                    &&& begun(record, cmd, position)
                    &&& window is AfterSideEffect ==> performed(before, after) == effect_of(
                        cmd,
                        position,
                    ) && cmd is Step
                    &&& !(window is AfterSideEffect) ==> performed(before, after) == Seq::<
                        Effect,
                    >::empty()
                },
            }
        },
        Err(_) => false,
    }
}

proof fn lemma_cut_off(whole: Seq<EventView>, first: Seq<EventView>, second: Seq<EventView>)
    requires
        whole == first + second,
    ensures
        whole.skip(first.len() as int) == second,
{
    assert(whole.skip(first.len() as int) =~= second);
}

proof fn lemma_cut_off_effects(whole: Seq<Effect>, first: Seq<Effect>, second: Seq<Effect>)
    requires
        whole == first + second,
    ensures
        whole.skip(first.len() as int) == second,
{
    assert(whole.skip(first.len() as int) =~= second);
}

proof fn lemma_now_live(before: RunState, after: RunState, result: Result<nat, EngineErrorView>)
    requires
        before.crash is None,
        left_to_replay(before).len() == 0,
        model::now_does(before, after, result),
        after.failures == before.failures,
    ensures
        ran_live(
            Cmd::Now,
            before,
            after,
            now_reply(result),
        ),
{
    let value = choose|value: nat|
        {
            &&& model::runs(
                before.live(),
                #[trigger] model::now_acts(before.position, value),
                after,
                model::error_of(result),
            )
            &&& result is Ok ==> result == Ok::<nat, EngineErrorView>(value)
        };
    let acts = model::now_acts(before.position, value);
    match result {
        Ok(_) => {
            laws::lemma_acts_evolve(before.live(), acts);
            reveal_with_fuel(laws::journaled_by, 3);
            reveal_with_fuel(laws::performed_by, 3);
            let event = EventView::NowRecorded { seq: before.position, value };
            assert(acts.drop_last() =~= seq![Act::Read(value)]);
            assert(acts.drop_last().drop_last() =~= Seq::<Act>::empty());
            assert(laws::journaled_by(acts) =~= seq![event]);
            lemma_cut_off(after.journal(), before.journal(), seq![event]);
            lemma_cut_off_effects(after.effects, before.effects, Seq::empty());
            let record = left_to_replay(before) + journaled(before, after);
            assert(record =~= seq![event]);
            assert(record.skip(1) =~= Seq::<EventView>::empty());
        },
        Err(error) => {
            let n = choose|n: int|
                0 <= n < acts.len() && model::halts(
                    before.live().does_all(acts.take(n)),
                    #[trigger] acts[n],
                    after,
                    error,
                );
            laws::lemma_halt_evolves(before.live(), acts, n, after, error);
            assert(n == 0 || n == 1);
        },
    }
}

proof fn lemma_random_live(
    before: RunState,
    after: RunState,
    result: Result<Seq<u8>, EngineErrorView>,
)
    requires
        before.crash is None,
        left_to_replay(before).len() == 0,
        model::random_does(before, after, result),
        after.failures == before.failures,
    ensures
        ran_live(
            Cmd::Random,
            before,
            after,
            random_reply(result),
        ),
{
    let value = choose|value: Seq<u8>|
        {
            &&& model::runs(
                before.live(),
                #[trigger] model::random_acts(before.position, value),
                after,
                model::error_of(result),
            )
            &&& result is Ok ==> result == Ok::<Seq<u8>, EngineErrorView>(value)
        };
    let acts = model::random_acts(before.position, value);
    match result {
        Ok(_) => {
            laws::lemma_acts_evolve(before.live(), acts);
            reveal_with_fuel(laws::journaled_by, 3);
            reveal_with_fuel(laws::performed_by, 3);
            let event = EventView::RandomRecorded { seq: before.position, value };
            assert(acts.drop_last() =~= seq![Act::Draw(value)]);
            assert(acts.drop_last().drop_last() =~= Seq::<Act>::empty());
            assert(laws::journaled_by(acts) =~= seq![event]);
            lemma_cut_off(after.journal(), before.journal(), seq![event]);
            lemma_cut_off_effects(after.effects, before.effects, Seq::empty());
            let record = left_to_replay(before) + journaled(before, after);
            assert(record =~= seq![event]);
            assert(record.skip(1) =~= Seq::<EventView>::empty());
        },
        Err(error) => {
            let n = choose|n: int|
                0 <= n < acts.len() && model::halts(
                    before.live().does_all(acts.take(n)),
                    #[trigger] acts[n],
                    after,
                    error,
                );
            laws::lemma_halt_evolves(before.live(), acts, n, after, error);
            assert(n == 0 || n == 1);
        },
    }
}

/// What one more act journals and performs.
proof fn lemma_next_act(acts: Seq<Act>, n: int)
    requires
        0 <= n < acts.len(),
    ensures
        laws::journaled_by(acts.take(0)) == Seq::<EventView>::empty(),
        laws::performed_by(acts.take(0)) == Seq::<Effect>::empty(),
        laws::journaled_by(acts.take(n + 1)) == match acts[n] {
            Act::Append(event) => laws::journaled_by(acts.take(n)).push(event),
            _ => laws::journaled_by(acts.take(n)),
        },
        laws::performed_by(acts.take(n + 1)) == match acts[n] {
            Act::Perform(effect) => laws::performed_by(acts.take(n)).push(effect),
            _ => laws::performed_by(acts.take(n)),
        },
        n + 1 == acts.len() ==> acts.take(n + 1) == acts,
{
    assert(acts.take(n + 1).drop_last() =~= acts.take(n));
    assert(n + 1 == acts.len() ==> acts.take(n + 1) =~= acts);
}

/// How far `acts` got: all of them were done, or the `n`-th crashed the run.
/// A store failure is ruled out by the unchanged failures.
proof fn lemma_how_far(
    before: RunState,
    acts: Seq<Act>,
    after: RunState,
    error: Option<EngineErrorView>,
) -> (n: int)
    requires
        before.crash is None,
        laws::appends_command_events(acts),
        model::runs(before, acts, after, error),
        after.failures == before.failures,
    ensures
        0 <= n <= acts.len(),
        after.position == before.position,
        after.replay == before.replay,
        after.journal() == before.journal() + laws::journaled_by(acts.take(n)),
        after.effects == before.effects + laws::performed_by(acts.take(n)),
        error is None <==> n == acts.len(),
        error is None ==> after.crash is None,
        error matches Some(e) ==> {
            &&& e matches EngineErrorView::InjectedCrash(window)
            &&& before.armed
            &&& acts[n] == Act::Consult(window)
            &&& after.crash == Some(window)
        },
{
    match error {
        None => {
            laws::lemma_acts_evolve(before, acts);
            assert(acts.take(acts.len() as int) =~= acts);
            acts.len() as int
        },
        Some(e) => {
            let n = choose|n: int|
                0 <= n < acts.len() && model::halts(
                    before.does_all(acts.take(n)),
                    #[trigger] acts[n],
                    after,
                    e,
                );
            laws::lemma_halt_evolves(before, acts, n, after, e);
            n
        },
    }
}

proof fn lemma_sleep_live(
    before: RunState,
    deadline: nat,
    after: RunState,
    result: Result<(), EngineErrorView>,
)
    requires
        before.crash is None,
        begun(left_to_replay(before), Cmd::Sleep { deadline }, before.position),
        model::sleep_does(before, deadline, after, result),
        after.failures == before.failures,
    ensures
        ran_live(
            Cmd::Sleep { deadline },
            before,
            after,
            sleep_reply(result),
        ),
{
    let position = before.position;
    let events = left_to_replay(before);
    let scheduled = EventView::TimerScheduled { seq: position, deadline };
    let fired = EventView::TimerFired { seq: position };
    let none = Seq::<EventView>::empty();
    let error = model::error_of(result);
    if events.len() == 0 {
        let acts = model::sleep_acts(position, deadline);
        let n = lemma_how_far(before.live(), acts, after, error);
        lemma_next_act(acts, 0);
        lemma_next_act(acts, 1);
        lemma_next_act(acts, 2);
        lemma_next_act(acts, 3);
        lemma_next_act(acts, 4);
        assert(laws::journaled_by(acts.take(1)) =~= seq![scheduled]);
        assert(laws::journaled_by(acts.take(4)) =~= seq![scheduled, fired]);
        lemma_cut_off(after.journal(), before.journal(), laws::journaled_by(acts.take(n)));
        lemma_cut_off_effects(after.effects, before.effects, laws::performed_by(acts.take(n)));
        let record = events + journaled(before, after);
        assert(record =~= journaled(before, after));
        assert(n == 1 || n == 4 || n == 5);
        assert(n == 1 ==> record == seq![scheduled]);
        assert(n > 1 ==> record == seq![scheduled, fired]);
        assert(n > 1 ==> record.skip(2) =~= none);
    } else {
        let acts = model::rearm_acts(position, deadline);
        let n = lemma_how_far(before.live(), acts, after, error);
        lemma_next_act(acts, 0);
        lemma_next_act(acts, 1);
        lemma_next_act(acts, 2);
        assert(laws::journaled_by(acts.take(2)) =~= seq![fired]);
        lemma_cut_off(after.journal(), before.journal(), laws::journaled_by(acts.take(n)));
        lemma_cut_off_effects(after.effects, before.effects, laws::performed_by(acts.take(n)));
        let record = events + journaled(before, after);
        assert(n == 2 || n == 3);
        assert(record =~= seq![scheduled, fired]);
        assert(record.skip(2) =~= none);
    }
}

/// The record of a step that is over: it was scheduled, its attempts were
/// started, and its outcome followed.
proof fn lemma_step_record(
    name: Seq<char>,
    answer: Result<Seq<u8>, Seq<char>>,
    position: nat,
    starts: Seq<EventView>,
    outcome: EventView,
)
    requires
        model::leading_starts(starts) == starts.len(),
        is_outcome(outcome, position, answer),
    ensures
        completed(
            seq![EventView::StepScheduled { seq: position, name }] + starts + seq![outcome],
            Cmd::Step { name, answer },
            position,
        ) == Some((Reply::Answer(answer), Seq::<EventView>::empty())),
{
    let scheduled = EventView::StepScheduled { seq: position, name };
    let record = seq![scheduled] + starts + seq![outcome];
    assert(record.skip(1) =~= starts + seq![outcome]);
    lemma_leading_starts_all(starts, seq![outcome]);
    assert(!(outcome is StepStarted));
    assert(model::leading_starts(seq![outcome]) == 0);
    assert((starts + seq![outcome]).skip(starts.len() as int) =~= seq![outcome]);
    assert(seq![outcome].skip(1) =~= Seq::<EventView>::empty());
}

/// The record of a step that is not over.
proof fn lemma_step_unfinished(
    name: Seq<char>,
    answer: Result<Seq<u8>, Seq<char>>,
    position: nat,
    starts: Seq<EventView>,
)
    requires
        model::leading_starts(starts) == starts.len(),
    ensures
        ({
            let record = seq![EventView::StepScheduled { seq: position, name }] + starts;
            &&& begun(record, Cmd::Step { name, answer }, position)
            &&& completed(record, Cmd::Step { name, answer }, position) is None
        }),
{
    let record = seq![EventView::StepScheduled { seq: position, name }] + starts;
    assert(record.skip(1) =~= starts);
}

proof fn lemma_one_more_start(starts: Seq<EventView>, start: EventView)
    requires
        model::leading_starts(starts) == starts.len(),
        start is StepStarted,
    ensures
        model::leading_starts(starts + seq![start]) == (starts + seq![start]).len(),
{
    lemma_leading_starts_all(starts, seq![start]);
    assert(seq![start].skip(1) =~= Seq::<EventView>::empty());
    reveal_with_fuel(model::leading_starts, 2);
}

/// What is journaled and performed by the first `n` acts of an attempt that
/// follow the `opening` acts of a step.
proof fn lemma_attempt_prefix(
    opening: Seq<Act>,
    position: nat,
    name: Seq<char>,
    attempt: nat,
    answer: Result<Seq<u8>, Seq<char>>,
    n: int,
)
    requires
        0 <= n <= model::attempt_acts(position, name, attempt, answer).len(),
        laws::performed_by(opening) == Seq::<Effect>::empty(),
    ensures
        ({
            let acts = opening + model::attempt_acts(position, name, attempt, answer);
            let m = opening.len() + n;
            let started = EventView::StepStarted { seq: position, attempt };
            let outcome = match answer {
                Ok(result) => EventView::StepCompleted { seq: position, result },
                Err(error) => EventView::StepFailed { seq: position, attempt, error },
            };
            let over = match answer {
                Ok(_) => n >= 5,
                Err(_) => n >= 4,
            };
            let opened = laws::journaled_by(opening);
            &&& laws::journaled_by(acts.take(m)) == if over {
                opened + seq![started] + seq![outcome]
            } else if n >= 1 {
                opened + seq![started]
            } else {
                opened
            }
            &&& laws::performed_by(acts.take(m)) == if n >= 3 {
                seq![Effect { seq: position, name, answer }]
            } else {
                Seq::<Effect>::empty()
            }
        }),
{
    let attempt_acts = model::attempt_acts(position, name, attempt, answer);
    let acts = opening + attempt_acts;
    let base = opening.len() as int;
    assert(acts.take(base) =~= opening);
    let opened = laws::journaled_by(opening);
    let started = EventView::StepStarted { seq: position, attempt };
    let effect = Effect { seq: position, name, answer };
    lemma_next_act(acts, base);
    assert(acts[base] == Act::Append(started));
    assert(laws::journaled_by(acts.take(base + 1)) =~= opened + seq![started]);
    lemma_next_act(acts, base + 1);
    assert(acts[base + 1] == Act::Consult(Window::AfterStepStarted(position)));
    lemma_next_act(acts, base + 2);
    assert(acts[base + 2] == Act::Perform(effect));
    assert(laws::performed_by(acts.take(base + 3)) =~= seq![effect]);
    lemma_next_act(acts, base + 3);
    match answer {
        Ok(result) => {
            let outcome = EventView::StepCompleted { seq: position, result };
            assert(acts[base + 3] == Act::Consult(Window::AfterSideEffect(position)));
            lemma_next_act(acts, base + 4);
            assert(acts[base + 4] == Act::Append(outcome));
            assert(laws::journaled_by(acts.take(base + 5)) =~= opened + seq![started]
                + seq![outcome]);
            lemma_next_act(acts, base + 5);
            assert(acts[base + 5] == Act::Consult(Window::AfterStepCompleted(position)));
        },
        Err(error) => {
            let outcome = EventView::StepFailed { seq: position, attempt, error };
            assert(acts[base + 3] == Act::Append(outcome));
            assert(laws::journaled_by(acts.take(base + 4)) =~= opened + seq![started]
                + seq![outcome]);
        },
    }
}

proof fn lemma_retry_live(
    before: RunState,
    name: Seq<char>,
    answer: Result<Seq<u8>, Seq<char>>,
    after: RunState,
    result: Result<Seq<u8>, StepErrorView>,
)
    requires
        before.crash is None,
        left_to_replay(before).len() > 0,
        begun(left_to_replay(before), Cmd::Step { name, answer }, before.position),
        model::step_does(before, name, after, result),
        after.effects != before.effects ==> after.effects.last().answer == answer,
        after.failures == before.failures,
    ensures
        ran_live(Cmd::Step { name, answer }, before, after, step_reply(result)),
{
    let position = before.position;
    let events = left_to_replay(before);
    let starts = events.skip(1);
    let attempt = starts.len() + 1;
    assert(starts.skip(starts.len() as int) =~= Seq::<EventView>::empty());
    let (given, error) = laws::lemma_live_step(before, name, after, result);
    let acts = laws::live_step_acts(before, name, given);
    let attempt_acts = model::attempt_acts(position, name, attempt, given);
    let opening = Seq::<Act>::empty();
    assert(opening + attempt_acts =~= acts);
    let n = lemma_how_far(before.live(), acts, after, error);
    lemma_attempt_prefix(opening, position, name, attempt, given, n);
    let started = EventView::StepStarted { seq: position, attempt };
    let scheduled = EventView::StepScheduled { seq: position, name };
    lemma_cut_off(after.journal(), before.journal(), laws::journaled_by(acts.take(n)));
    lemma_cut_off_effects(after.effects, before.effects, laws::performed_by(acts.take(n)));
    let new = journaled(before, after);
    let record = events + new;
    assert(events =~= seq![scheduled] + starts);
    let more = starts + seq![started];
    lemma_one_more_start(starts, started);
    lemma_step_unfinished(name, answer, position, starts);
    lemma_step_unfinished(name, answer, position, more);
    if n >= 3 {
        assert(after.effects.last() == Effect { seq: position, name, answer: given });
        assert(given == answer);
    }
    match given {
        Ok(payload) => {
            assert(acts.len() == 6);
            assert(n == 1 || n == 3 || n == 5 || n == 6);
            let outcome = EventView::StepCompleted { seq: position, result: payload };
            if n >= 5 {
                lemma_step_record(name, answer, position, more, outcome);
                assert(record =~= seq![scheduled] + more + seq![outcome]);
            } else {
                assert(record =~= seq![scheduled] + more);
            }
        },
        Err(message) => {
            assert(acts.len() == 4);
            assert(n == 1 || n == 4);
            let outcome = EventView::StepFailed { seq: position, attempt, error: message };
            if n == 4 {
                lemma_step_record(name, answer, position, more, outcome);
                assert(record =~= seq![scheduled] + more + seq![outcome]);
            } else {
                assert(record =~= seq![scheduled] + more);
            }
        },
    }
}

proof fn lemma_fresh_live(
    before: RunState,
    name: Seq<char>,
    answer: Result<Seq<u8>, Seq<char>>,
    after: RunState,
    result: Result<Seq<u8>, StepErrorView>,
)
    requires
        before.crash is None,
        left_to_replay(before).len() == 0,
        model::step_does(before, name, after, result),
        after.effects != before.effects ==> after.effects.last().answer == answer,
        after.failures == before.failures,
    ensures
        ran_live(Cmd::Step { name, answer }, before, after, step_reply(result)),
{
    let position = before.position;
    let events = left_to_replay(before);
    let none = Seq::<EventView>::empty();
    let (given, error) = laws::lemma_live_step(before, name, after, result);
    let acts = laws::live_step_acts(before, name, given);
    let opening = model::schedule_acts(position, name);
    let attempt_acts = model::attempt_acts(position, name, 1, given);
    assert(acts == opening + attempt_acts);
    let n = lemma_how_far(before.live(), acts, after, error);
    let started = EventView::StepStarted { seq: position, attempt: 1 };
    let scheduled = EventView::StepScheduled { seq: position, name };
    lemma_next_act(opening, 0);
    lemma_next_act(opening, 1);
    lemma_next_act(opening, 2);
    assert(opening.take(3) =~= opening);
    assert(laws::journaled_by(opening.take(2)) =~= seq![scheduled]);
    lemma_cut_off(after.journal(), before.journal(), laws::journaled_by(acts.take(n)));
    lemma_cut_off_effects(after.effects, before.effects, laws::performed_by(acts.take(n)));
    let record = events + journaled(before, after);
    assert(record =~= journaled(before, after));
    lemma_step_unfinished(name, answer, position, none);
    lemma_one_more_start(none, started);
    let more = none + seq![started];
    lemma_step_unfinished(name, answer, position, more);
    if n < 3 {
        assert(acts.take(n) =~= opening.take(n));
        assert(acts[n] == opening[n]);
        assert(n == 0 || n == 2);
        assert(n == 2 ==> record =~= seq![scheduled] + none);
    } else {
        lemma_attempt_prefix(opening, position, name, 1, given, n - 3);
        assert(acts[n] == attempt_acts[n - 3] || n == acts.len());
        if n >= 6 {
            assert(after.effects.last() == Effect { seq: position, name, answer: given });
            assert(given == answer);
        }
        match given {
            Ok(payload) => {
                assert(acts.len() == 9);
                assert(n == 4 || n == 6 || n == 8 || n == 9);
                let outcome = EventView::StepCompleted { seq: position, result: payload };
                if n >= 8 {
                    lemma_step_record(name, answer, position, more, outcome);
                    assert(record =~= seq![scheduled] + more + seq![outcome]);
                } else {
                    assert(record =~= seq![scheduled] + more);
                }
            },
            Err(message) => {
                assert(acts.len() == 7);
                assert(n == 4 || n == 7);
                let outcome = EventView::StepFailed { seq: position, attempt: 1, error: message };
                if n == 7 {
                    lemma_step_record(name, answer, position, more, outcome);
                    assert(record =~= seq![scheduled] + more + seq![outcome]);
                } else {
                    assert(record =~= seq![scheduled] + more);
                }
            },
        }
    }
}

/// A step that is not refused gives back what its closure answers, whether
/// the closure runs or its record is replayed.
pub proof fn steps_answer_as_their_closures(
    name: Seq<char>,
    answer: Result<Seq<u8>, Seq<char>>,
    before: RunState,
    after: RunState,
    reply: Reply,
)
    requires
        before.crash is None,
        command_does(Cmd::Step { name, answer }, before, after, Ok(reply)),
        completed(left_to_replay(before), Cmd::Step { name, answer }, before.position) is Some
            || begun(left_to_replay(before), Cmd::Step { name, answer }, before.position),
    ensures
        reply == Reply::Answer(answer),
{
    let cmd = Cmd::Step { name, answer };
    let position = before.position;
    let events = left_to_replay(before);
    if completed(events, cmd, position) is Some {
        recorded_replies_come_back(cmd, before, after, Ok(reply));
    } else {
        if events.len() > 0 {
            let starts = events.skip(1);
            assert(starts.skip(starts.len() as int) =~= Seq::<EventView>::empty());
        }
        let result = step_result(Ok(reply));
        let (given, error) = laws::lemma_live_step(before, name, after, result);
        let acts = laws::live_step_acts(before, name, given);
        laws::lemma_acts_evolve(before.live(), acts);
        let opening = if events.len() > 0 {
            Seq::<Act>::empty()
        } else {
            model::schedule_acts(position, name)
        };
        let attempt = if events.len() > 0 {
            events.len()
        } else {
            1
        };
        let attempt_acts = model::attempt_acts(position, name, attempt, given);
        if events.len() == 0 {
            lemma_next_act(opening, 0);
            lemma_next_act(opening, 1);
            lemma_next_act(opening, 2);
            assert(opening.take(3) =~= opening);
        }
        assert(acts =~= opening + attempt_acts);
        lemma_attempt_prefix(opening, position, name, attempt, given, attempt_acts.len() as int);
        assert(acts.take(acts.len() as int) =~= acts);
        assert(after.effects.last().answer == given);
    }
}

/// A command that the journal has not wholly recorded runs live, or takes up
/// what an earlier run left of it. What is journaled then is its record: a
/// whole one if the command comes back. If a crash cuts it off, its closure
/// has run without a record in one window only, after the side effect.
pub proof fn unrecorded_commands_run_live(
    cmd: Cmd,
    before: RunState,
    after: RunState,
    r: Result<Reply, EngineErrorView>,
)
    requires
        before.crash is None,
        command_does(cmd, before, after, r),
        begun(left_to_replay(before), cmd, before.position),
        after.failures == before.failures,
    ensures
        ran_live(cmd, before, after, r),
{
    match cmd {
        Cmd::Step { name, answer } => {
            if left_to_replay(before).len() == 0 {
                lemma_fresh_live(before, name, answer, after, step_result(r));
            } else {
                lemma_retry_live(before, name, answer, after, step_result(r));
            }
        },
        Cmd::Now => {
            lemma_now_live(before, after, now_result(r));
        },
        Cmd::Random => {
            lemma_random_live(before, after, random_result(r));
        },
        Cmd::Sleep { deadline } => {
            lemma_sleep_live(before, deadline, after, sleep_result(r));
        },
    }
}

/// Every command keeps what all commands keep.
pub proof fn commands_evolve(
    cmd: Cmd,
    before: RunState,
    after: RunState,
    r: Result<Reply, EngineErrorView>,
)
    requires
        command_does(cmd, before, after, r),
    ensures
        model::evolves(before, after),
{
    match cmd {
        Cmd::Step { name, answer } => {
            laws::step_evolves(before, name, after, step_result(r));
        },
        Cmd::Now => {
            laws::now_evolves(before, after, now_result(r));
        },
        Cmd::Random => {
            laws::random_evolves(before, after, random_result(r));
        },
        Cmd::Sleep { deadline } => {
            laws::sleep_evolves(before, deadline, after, sleep_result(r));
        },
    }
}

/// A run that asks for `cmds` in order and stops at the first error of the
/// engine: `replies` are what its commands gave back until then.
pub open spec fn program_does(
    cmds: Seq<Cmd>,
    before: RunState,
    replies: Seq<Reply>,
    after: RunState,
    error: Option<EngineErrorView>,
) -> bool
    decreases cmds.len(),
{
    if cmds.len() == 0 {
        replies.len() == 0 && after == before && error is None
    } else {
        exists|middle: RunState, r: Result<Reply, EngineErrorView>| #[trigger]
            command_does(cmds[0], before, middle, r) && match r {
                Ok(reply) => {
                    &&& replies.len() > 0
                    &&& replies[0] == reply
                    &&& program_does(cmds.skip(1), middle, replies.skip(1), after, error)
                },
                Err(e) => replies.len() == 0 && after == middle && error == Some(e),
            }
    }
}

/// `events` is what runs of `cmds`, the first of them at `position`, journal
/// until they are over or cut off.
pub open spec fn covered(events: Seq<EventView>, cmds: Seq<Cmd>, position: nat) -> bool
    decreases cmds.len(),
{
    if cmds.len() == 0 {
        events.len() == 0
    } else {
        match completed(events, cmds[0], position) {
            Some((_, rest)) => covered(rest, cmds.skip(1), position + 1),
            None => begun(events, cmds[0], position),
        }
    }
}

/// The replies that `events` records, one for each of `cmds` that is over.
pub open spec fn recorded(events: Seq<EventView>, cmds: Seq<Cmd>, position: nat) -> Seq<Reply>
    decreases cmds.len(),
{
    if cmds.len() == 0 {
        Seq::empty()
    } else {
        match completed(events, cmds[0], position) {
            Some((reply, rest)) => seq![reply] + recorded(rest, cmds.skip(1), position + 1),
            None => Seq::empty(),
        }
    }
}

/// The closures that `cmds` run, the first of them at `position`, once each.
pub open spec fn effects_of(cmds: Seq<Cmd>, position: nat) -> Seq<Effect>
    decreases cmds.len(),
{
    if cmds.len() == 0 {
        Seq::empty()
    } else {
        effect_of(cmds[0], position) + effects_of(cmds.skip(1), position + 1)
    }
}

/// A run of commands keeps what every command keeps.
pub proof fn lemma_program_evolves(
    cmds: Seq<Cmd>,
    before: RunState,
    replies: Seq<Reply>,
    after: RunState,
    error: Option<EngineErrorView>,
)
    requires
        program_does(cmds, before, replies, after, error),
    ensures
        model::evolves(before, after),
    decreases cmds.len(),
{
    if cmds.len() == 0 {
        laws::evolving_is_reflexive(before);
    } else {
        let (middle, r) = choose|middle: RunState, r: Result<Reply, EngineErrorView>| #[trigger]
            command_does(cmds[0], before, middle, r) && match r {
                Ok(reply) => {
                    &&& replies.len() > 0
                    &&& replies[0] == reply
                    &&& program_does(cmds.skip(1), middle, replies.skip(1), after, error)
                },
                Err(e) => replies.len() == 0 && after == middle && error == Some(e),
            };
        commands_evolve(cmds[0], before, middle, r);
        if r is Ok {
            lemma_program_evolves(cmds.skip(1), middle, replies.skip(1), after, error);
            laws::evolving_is_transitive(before, middle, after);
        }
    }
}

/// What two stretches of a run journal and perform, together.
pub proof fn lemma_stretches_add(first: RunState, second: RunState, third: RunState)
    requires
        model::evolves(first, second),
        model::evolves(second, third),
    ensures
        journaled(first, third) == journaled(first, second) + journaled(second, third),
        performed(first, third) == performed(first, second) + performed(second, third),
        third.journal() == first.journal() + journaled(first, third),
{
    laws::evolving_is_transitive(first, second, third);
    assert(journaled(first, third) =~= journaled(first, second) + journaled(second, third));
    assert(performed(first, third) =~= performed(first, second) + performed(second, third));
    assert(third.journal() =~= first.journal() + journaled(first, third));
}

/// Nothing is recorded in an empty journal, which can be continued.
pub proof fn lemma_nothing_recorded(cmds: Seq<Cmd>, position: nat)
    ensures
        covered(Seq::empty(), cmds, position),
        recorded(Seq::empty(), cmds, position) == Seq::<Reply>::empty(),
{
    if cmds.len() > 0 {
        assert(completed(Seq::empty(), cmds[0], position) is None);
    }
}

/// The closure that ran without a record when `error` stopped a run of
/// `cmds` after `done` of them: none, but for a crash after a side effect.
pub open spec fn lost_effect(
    error: Option<EngineErrorView>,
    cmds: Seq<Cmd>,
    position: nat,
    done: nat,
) -> Seq<Effect> {
    match error {
        Some(EngineErrorView::InjectedCrash(Window::AfterSideEffect(_))) => effect_of(
            cmds[done as int],
            position + done,
        ),
        _ => Seq::empty(),
    }
}

/// How a run of `cmds` that continued the journal ended.
pub open spec fn continued(
    cmds: Seq<Cmd>,
    before: RunState,
    replies: Seq<Reply>,
    after: RunState,
    error: Option<EngineErrorView>,
) -> bool {
    let position = before.position;
    let earlier = left_to_replay(before);
    let all = earlier + journaled(before, after);
    let had = recorded(earlier, cmds, position);
    let has = recorded(all, cmds, position);
    &&& covered(all, cmds, position)
    &&& had.is_prefix_of(has)
    &&& replies.is_prefix_of(has)
    &&& has.len() <= cmds.len()
    &&& performed(before, after) == effects_of(
        cmds.subrange(had.len() as int, has.len() as int),
        position + had.len(),
    ) + lost_effect(error, cmds, position, has.len())
    &&& match error {
        None => after.crash is None && has.len() == cmds.len() && replies == has,
        Some(e) => {
            &&& e matches EngineErrorView::InjectedCrash(window)
            &&& before.armed
            &&& after.crash == Some(window)
            &&& window is AfterSideEffect ==> has.len() < cmds.len() && window.position()
                == position + has.len() && cmds[has.len() as int] is Step
        },
    }
}

/// The first command is answered from the journal.
proof fn lemma_continued_recorded(
    cmds: Seq<Cmd>,
    before: RunState,
    middle: RunState,
    replies: Seq<Reply>,
    after: RunState,
    error: Option<EngineErrorView>,
)
    requires
        cmds.len() > 0,
        replies.len() > 0,
        completed(left_to_replay(before), cmds[0], before.position) matches Some((reply, rest))
            && reply == replies[0] && middle == before.replayed(rest),
        continued(cmds.skip(1), middle, replies.skip(1), after, error),
    ensures
        continued(cmds, before, replies, after, error),
{
    let position = before.position;
    let earlier = left_to_replay(before);
    let new = journaled(before, after);
    let all = earlier + new;
    let later = cmds.skip(1);
    let (reply, rest) = completed(earlier, cmds[0], position)->0;
    assert(journaled(middle, after) == new);
    assert(performed(middle, after) == performed(before, after));
    lemma_completed_extends(earlier, cmds[0], position, new);
    let had = recorded(earlier, cmds, position);
    let has = recorded(all, cmds, position);
    let later_had = recorded(rest, later, position + 1);
    let later_has = recorded(rest + new, later, position + 1);
    assert(had == seq![reply] + later_had);
    assert(has == seq![reply] + later_has);
    assert(had =~= has.subrange(0, had.len() as int));
    assert(replies =~= seq![reply] + replies.skip(1));
    assert(replies =~= has.subrange(0, replies.len() as int));
    assert(later.subrange(later_had.len() as int, later_has.len() as int) =~= cmds.subrange(
        had.len() as int,
        has.len() as int,
    ));
}

/// The first command runs live and comes back.
#[verifier::rlimit(40)]
proof fn lemma_continued_live(
    cmds: Seq<Cmd>,
    before: RunState,
    middle: RunState,
    replies: Seq<Reply>,
    after: RunState,
    error: Option<EngineErrorView>,
)
    requires
        cmds.len() > 0,
        replies.len() > 0,
        completed(left_to_replay(before), cmds[0], before.position) is None,
        ran_live(cmds[0], before, middle, Ok(replies[0])),
        model::evolves(before, middle),
        model::evolves(middle, after),
        continued(cmds.skip(1), middle, replies.skip(1), after, error),
    ensures
        continued(cmds, before, replies, after, error),
{
    let position = before.position;
    let earlier = left_to_replay(before);
    let all = earlier + journaled(before, after);
    let later = cmds.skip(1);
    let none = Seq::<EventView>::empty();
    let reply = replies[0];
    lemma_stretches_add(before, middle, after);
    lemma_nothing_recorded(later, position + 1);
    let record = earlier + journaled(before, middle);
    let further = journaled(middle, after);
    lemma_completed_extends(record, cmds[0], position, further);
    assert(record + further =~= all);
    assert(none + further =~= further);
    let has = recorded(all, cmds, position);
    let later_has = recorded(further, later, position + 1);
    assert(has == seq![reply] + later_has);
    assert(recorded(earlier, cmds, position) =~= has.subrange(0, 0));
    assert(replies =~= seq![reply] + replies.skip(1));
    assert(replies =~= has.subrange(0, replies.len() as int));
    let reached = cmds.subrange(0, has.len() as int);
    let later_reached = later.subrange(0, later_has.len() as int);
    assert(reached[0] == cmds[0]);
    assert(reached.skip(1) =~= later_reached);
    let lost = lost_effect(error, cmds, position, has.len());
    assert(lost == lost_effect(error, later, position + 1, later_has.len()));
    assert(effect_of(cmds[0], position) + (effects_of(later_reached, position + 1) + lost)
        =~= effects_of(reached, position) + lost);
}

/// A crash cuts the first command off.
proof fn lemma_continued_cut(
    cmds: Seq<Cmd>,
    before: RunState,
    after: RunState,
    error: EngineErrorView,
)
    requires
        cmds.len() > 0,
        completed(left_to_replay(before), cmds[0], before.position) is None,
        ran_live(cmds[0], before, after, Err(error)),
    ensures
        continued(cmds, before, Seq::empty(), after, Some(error)),
{
    let position = before.position;
    let earlier = left_to_replay(before);
    let all = earlier + journaled(before, after);
    let later = cmds.skip(1);
    let has = recorded(all, cmds, position);
    let lost = lost_effect(Some(error), cmds, position, has.len());
    assert(recorded(earlier, cmds, position) =~= has.subrange(0, 0));
    assert(Seq::<Reply>::empty() =~= has.subrange(0, 0));
    match completed(all, cmds[0], position) {
        Some((reply, rest)) => {
            lemma_nothing_recorded(later, position + 1);
            assert(has =~= seq![reply]);
            let reached = cmds.subrange(0, 1);
            assert(reached.skip(1) =~= Seq::<Cmd>::empty());
            reveal_with_fuel(effects_of, 2);
            assert(effects_of(reached, position) =~= effect_of(cmds[0], position));
            assert(performed(before, after) =~= effects_of(reached, position) + lost);
        },
        None => {
            let reached = cmds.subrange(0, 0);
            assert(effects_of(reached, position) =~= Seq::<Effect>::empty());
            assert(performed(before, after) =~= effects_of(reached, position) + lost);
        },
    }
}

/// A run of `cmds` over a journal that earlier runs of `cmds` left behind
/// never diverges from it. It goes on where the journal ends, leaves a
/// journal that can be continued in turn, and keeps every reply recorded
/// before. If the store does not fail, only a crash can stop it. It runs the
/// closure of each step that was not over exactly once; a crash between a
/// side effect and its record costs the one closure that the next run
/// repeats.
pub proof fn runs_continue_the_journal(
    cmds: Seq<Cmd>,
    before: RunState,
    replies: Seq<Reply>,
    after: RunState,
    error: Option<EngineErrorView>,
)
    requires
        before.crash is None,
        program_does(cmds, before, replies, after, error),
        covered(left_to_replay(before), cmds, before.position),
        after.failures == before.failures,
    ensures
        continued(cmds, before, replies, after, error),
    decreases cmds.len(),
{
    let position = before.position;
    let earlier = left_to_replay(before);
    if cmds.len() == 0 {
        let all = earlier + journaled(before, after);
        assert(all =~= Seq::<EventView>::empty());
        assert(replies =~= Seq::<Reply>::empty());
        assert(replies.is_prefix_of(replies)) by {
            assert(replies =~= replies.subrange(0, 0));
        }
        assert(cmds.subrange(0, 0) =~= cmds);
        assert(performed(before, after) =~= effects_of(cmds, position) + Seq::<Effect>::empty());
    } else {
        let (middle, r) = choose|middle: RunState, r: Result<Reply, EngineErrorView>| #[trigger]
            command_does(cmds[0], before, middle, r) && match r {
                Ok(reply) => {
                    &&& replies.len() > 0
                    &&& replies[0] == reply
                    &&& program_does(cmds.skip(1), middle, replies.skip(1), after, error)
                },
                Err(e) => replies.len() == 0 && after == middle && error == Some(e),
            };
        let later = cmds.skip(1);
        commands_evolve(cmds[0], before, middle, r);
        match completed(earlier, cmds[0], position) {
            Some((reply, rest)) => {
                recorded_replies_come_back(cmds[0], before, middle, r);
                runs_continue_the_journal(later, middle, replies.skip(1), after, error);
                lemma_continued_recorded(cmds, before, middle, replies, after, error);
            },
            None => {
                match r {
                    Ok(reply) => {
                        lemma_program_evolves(later, middle, replies.skip(1), after, error);
                        assert(middle.failures =~= before.failures);
                        unrecorded_commands_run_live(cmds[0], before, middle, r);
                        lemma_nothing_recorded(later, position + 1);
                        runs_continue_the_journal(later, middle, replies.skip(1), after, error);
                        lemma_continued_live(cmds, before, middle, replies, after, error);
                    },
                    Err(e) => {
                        unrecorded_commands_run_live(cmds[0], before, middle, r);
                        lemma_continued_cut(cmds, before, after, e);
                        assert(replies =~= Seq::<Reply>::empty());
                    },
                }
            },
        }
    }
}

} // verus!
