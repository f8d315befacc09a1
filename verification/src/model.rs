//! What a run of a workflow does, as mathematics: the state of a run, the
//! acts that change it, and for each command the acts it consists of.

use vstd::prelude::*;

use crate::command::CommandKind;
use crate::context::EngineErrorView;
use crate::failpoints::FailpointDecision;
use crate::failpoints::Window;
use crate::journal;
use crate::journal::EventView;
use crate::journal::JournalErrorView;
use crate::step::StepErrorView;
use crate::time::ClockCall;

verus! {

/// One run of a step's closure: the position and the name of the step, and
/// what the closure answered.
pub struct Effect {
    pub seq: nat,
    pub name: Seq<char>,
    pub answer: Result<Seq<u8>, Seq<char>>,
}

/// Everything that a command reads or changes.
#[verifier::ext_equal]
pub struct RunState {
    /// The identity of the execution.
    pub execution: Seq<u8>,
    /// The position of the next command.
    pub position: nat,
    /// While replaying, the journaled events not yet consumed; `None` once
    /// the run is live.
    pub replay: Option<Seq<EventView>>,
    /// The window an injected crash fired at, if one did.
    pub crash: Option<Window>,
    /// Whether a failpoint policy is consulted that may decide to crash.
    pub armed: bool,
    /// The decisions of the failpoint policy that are settled beforehand.
    pub decisions: Map<Window, FailpointDecision>,
    /// The journals of the store.
    pub journals: Map<Seq<u8>, Seq<EventView>>,
    /// Whether the store can fail to append or to load.
    pub fallible: bool,
    /// The errors that the store's appends returned.
    pub failures: Seq<JournalErrorView>,
    /// The windows the failpoint policy was consulted at, and its decisions.
    pub consulted: Seq<(Window, FailpointDecision)>,
    /// The requests made of the clock.
    pub clock: Seq<ClockCall>,
    /// The instant that every reading of the clock shows, where that is
    /// settled beforehand.
    pub reading: Option<nat>,
    /// The draws from the source of randomness.
    pub draws: Seq<Seq<u8>>,
    /// The bytes that every draw gives, where that is settled beforehand.
    pub source: Option<Seq<u8>>,
    /// The runs of step closures.
    pub effects: Seq<Effect>,
}

/// One elementary act of a live command.
pub enum Act {
    /// The failpoint policy is consulted at a window and lets the run go on.
    Consult(Window),
    /// An event is appended to the journal of the execution.
    Append(EventView),
    /// The clock is read, and shows this instant.
    Read(nat),
    /// Randomness is drawn, and these bytes come.
    Draw(Seq<u8>),
    /// The clock waits until this instant.
    Wait(nat),
    /// A step's closure runs.
    Perform(Effect),
}

impl RunState {
    /// The journal of this run's execution.
    pub open spec fn journal(self) -> Seq<EventView> {
        journal::journal_of(self.journals, self.execution)
    }

    /// The state after `act`.
    pub open spec fn does(self, act: Act) -> RunState {
        match act {
            Act::Consult(window) => RunState {
                consulted: self.consulted.push((window, FailpointDecision::Continue)),
                ..self
            },
            Act::Append(event) => RunState {
                journals: journal::appended(self.journals, self.execution, event),
                ..self
            },
            Act::Read(instant) => RunState {
                clock: self.clock.push(ClockCall::Now(instant)),
                ..self
            },
            Act::Draw(bytes) => RunState { draws: self.draws.push(bytes), ..self },
            Act::Wait(deadline) => RunState {
                clock: self.clock.push(ClockCall::SleepUntil(deadline)),
                ..self
            },
            Act::Perform(effect) => RunState { effects: self.effects.push(effect), ..self },
        }
    }

    /// The state after all of `acts`, in order.
    pub open spec fn does_all(self, acts: Seq<Act>) -> RunState
        decreases acts.len(),
    {
        if acts.len() == 0 {
            self
        } else {
            self.does_all(acts.drop_last()).does(acts.last())
        }
    }

    /// Whether `act` agrees with what is settled beforehand: a window that is
    /// known to crash the run is not passed, and a reading or a draw that is
    /// known shows what it is known to show.
    pub open spec fn allows(self, act: Act) -> bool {
        match act {
            Act::Consult(window) => !(self.decisions.contains_key(window) && self.decisions[window]
                is Crash),
            Act::Read(instant) => self.reading matches Some(known) ==> instant == known,
            Act::Draw(bytes) => self.source matches Some(known) ==> bytes == known,
            _ => true,
        }
    }

    /// Whether each of `acts` agrees with what is settled beforehand.
    pub open spec fn allows_all(self, acts: Seq<Act>) -> bool {
        forall|i: int| 0 <= i < acts.len() ==> self.allows(#[trigger] acts[i])
    }

    /// The state of a live run that has taken up the command at `position`.
    pub open spec fn live(self) -> RunState {
        RunState { position: self.position + 1, replay: None, ..self }
    }

    /// The state of a replaying run that has answered the command at
    /// `position` from its journal and has `rest` of it left.
    pub open spec fn replayed(self, rest: Seq<EventView>) -> RunState {
        RunState { position: self.position + 1, replay: Some(rest), ..self }
    }

    /// Whether the events left to replay leave every retry attempt within
    /// the range of an attempt number.
    pub open spec fn attempts_fit(self) -> bool {
        self.replay matches Some(events) ==> retries_fit(events)
    }

    /// Whether a command can be taken up: its position, and the attempt it
    /// may have to make, are within the range of their numbers.
    pub open spec fn ready(self) -> bool {
        self.position < u64::MAX && self.attempts_fit()
    }
}

/// The state of a run at its start, with `events` to replay.
pub open spec fn starting(
    execution: Seq<u8>,
    events: Seq<EventView>,
    armed: bool,
    decisions: Map<Window, FailpointDecision>,
    journals: Map<Seq<u8>, Seq<EventView>>,
    fallible: bool,
    failures: Seq<JournalErrorView>,
    consulted: Seq<(Window, FailpointDecision)>,
    clock: Seq<ClockCall>,
    reading: Option<nat>,
    draws: Seq<Seq<u8>>,
    source: Option<Seq<u8>>,
) -> RunState {
    RunState {
        execution,
        position: 0,
        replay: if events.len() == 0 {
            None
        } else {
            Some(events)
        },
        crash: None,
        armed,
        decisions,
        journals,
        fallible,
        failures,
        consulted,
        clock,
        reading,
        draws,
        source,
        effects: Seq::empty(),
    }
}

/// `act` is tried in state `before` and does not succeed: the run is left in
/// state `after` and the command fails with `error`. A consulted policy may
/// crash the run, which leaves the journal as it is; what the policy decides
/// after that is left open. A fallible store may fail to append; whether the
/// event landed is left open.
pub open spec fn halts(
    before: RunState,
    act: Act,
    after: RunState,
    error: EngineErrorView,
) -> bool {
    match (act, error) {
        (Act::Consult(window), EngineErrorView::InjectedCrash(fired)) => {
            &&& before.armed
            &&& before.decisions.contains_key(window) ==> before.decisions[window] is Crash
            &&& fired == window
            &&& after == RunState {
                crash: Some(window),
                decisions: after.decisions,
                consulted: before.consulted.push((window, FailpointDecision::Crash)),
                ..before
            }
        },
        (Act::Append(event), EngineErrorView::Journal(fault)) => {
            let failed = RunState { failures: before.failures.push(fault), ..before };
            before.fallible && (after == failed || after == failed.does(act))
        },
        _ => false,
    }
}

/// `acts` are done in order from state `before`. With no `error` all of them
/// succeed; otherwise the one that fails is the last one tried.
pub open spec fn runs(
    before: RunState,
    acts: Seq<Act>,
    after: RunState,
    error: Option<EngineErrorView>,
) -> bool {
    match error {
        None => after == before.does_all(acts) && before.allows_all(acts),
        Some(e) => exists|n: int|
            0 <= n < acts.len() && before.allows_all(acts.take(n)) && halts(
                before.does_all(acts.take(n)),
                #[trigger] acts[n],
                after,
                e,
            ),
    }
}

/// Every event after the first `from` of `journal` belongs to a command: none
/// of them starts or ends an execution.
pub open spec fn only_command_events(journal: Seq<EventView>, from: nat) -> bool {
    forall|i: int| from <= i < journal.len() ==> (#[trigger] journal[i]).command_kind() is Some
}

/// What any sequence of commands keeps: a run stays with its execution and
/// its failpoints, adds to its own journal alone and only events of commands,
/// only ever adds to what it has done, crashes only if its failpoints are
/// armed, and does nothing after a crash.
pub open spec fn evolves(before: RunState, after: RunState) -> bool {
    &&& after.execution == before.execution
    &&& after.armed == before.armed
    &&& after.crash is None ==> after.decisions == before.decisions
    &&& after.reading == before.reading
    &&& after.source == before.source
    &&& after.fallible == before.fallible
    &&& after.position >= before.position
    &&& before.journal().is_prefix_of(after.journal())
    &&& only_command_events(after.journal(), before.journal().len())
    &&& after.journals.remove(after.execution) == before.journals.remove(before.execution)
    &&& before.failures.is_prefix_of(after.failures)
    &&& before.consulted.is_prefix_of(after.consulted)
    &&& before.clock.is_prefix_of(after.clock)
    &&& before.draws.is_prefix_of(after.draws)
    &&& before.effects.is_prefix_of(after.effects)
    &&& before.crash is Some ==> after == before
    &&& after.crash is Some ==> before.crash is Some || before.armed
    &&& after.failures != before.failures ==> before.fallible
}

/// The error of `r`, if it is one.
pub open spec fn error_of<T>(r: Result<T, EngineErrorView>) -> Option<EngineErrorView> {
    match r {
        Ok(_) => None,
        Err(e) => Some(e),
    }
}

/// A journaled `event` stands where the workflow asked for a command of kind
/// `got`. An event that belongs to no command is reported as `got` itself.
pub open spec fn divergence(seq: nat, event: EventView, got: CommandKind) -> EngineErrorView {
    EngineErrorView::Nondeterminism {
        seq,
        expected: match event.command_kind() {
            Some(kind) => kind,
            None => got,
        },
        got,
    }
}

/// What the journal has to say about a clock reading or a draw.
pub enum ValuePlan<V> {
    /// The journal answers; `rest` of it is left.
    Recorded { result: Result<V, EngineErrorView>, rest: Seq<EventView> },
    /// Nothing is journaled at this position.
    Live,
}

/// What replay makes of a clock reading, with `events` left to replay.
pub open spec fn plan_now(events: Option<Seq<EventView>>, seq: nat) -> ValuePlan<nat> {
    match events {
        Some(left) if left.len() > 0 => match left[0] {
            EventView::NowRecorded { value, .. } => {
                ValuePlan::Recorded { result: Ok(value), rest: left.skip(1) }
            },
            event => ValuePlan::Recorded {
                result: Err(divergence(seq, event, CommandKind::ReadNow)),
                rest: left,
            },
        },
        _ => ValuePlan::Live,
    }
}

/// The acts of a live clock reading that shows `value`.
pub open spec fn now_acts(seq: nat, value: nat) -> Seq<Act> {
    seq![Act::Read(value), Act::Append(EventView::NowRecorded { seq, value })]
}

/// What `WorkflowCtx::now` does to the run and returns. A crashed run does
/// nothing any more and reports its crash.
pub open spec fn now_does(
    before: RunState,
    after: RunState,
    r: Result<nat, EngineErrorView>,
) -> bool {
    match before.crash {
        Some(window) => after == before && r == Err::<nat, _>(
            EngineErrorView::InjectedCrash(window),
        ),
        None => match plan_now(before.replay, before.position) {
            ValuePlan::Recorded { result, rest } => r == result && after == before.replayed(rest),
            ValuePlan::Live => exists|value: nat|
                {
                    &&& runs(
                        before.live(),
                        #[trigger] now_acts(before.position, value),
                        after,
                        error_of(r),
                    )
                    &&& r is Ok ==> r == Ok::<nat, EngineErrorView>(value)
                },
        },
    }
}

/// What replay makes of a draw, with `events` left to replay.
pub open spec fn plan_random(events: Option<Seq<EventView>>, seq: nat) -> ValuePlan<Seq<u8>> {
    match events {
        Some(left) if left.len() > 0 => match left[0] {
            EventView::RandomRecorded { value, .. } => {
                ValuePlan::Recorded { result: Ok(value), rest: left.skip(1) }
            },
            event => ValuePlan::Recorded {
                result: Err(divergence(seq, event, CommandKind::DrawRandom)),
                rest: left,
            },
        },
        _ => ValuePlan::Live,
    }
}

/// The acts of a live draw that gives `value`.
pub open spec fn random_acts(seq: nat, value: Seq<u8>) -> Seq<Act> {
    seq![Act::Draw(value), Act::Append(EventView::RandomRecorded { seq, value })]
}

/// What `WorkflowCtx::random` does to the run and returns. A crashed run
/// does nothing any more and reports its crash.
pub open spec fn random_does(
    before: RunState,
    after: RunState,
    r: Result<Seq<u8>, EngineErrorView>,
) -> bool {
    match before.crash {
        Some(window) => after == before && r == Err::<Seq<u8>, _>(
            EngineErrorView::InjectedCrash(window),
        ),
        None => match plan_random(before.replay, before.position) {
            ValuePlan::Recorded { result, rest } => r == result && after == before.replayed(rest),
            ValuePlan::Live => exists|value: Seq<u8>|
                {
                    &&& runs(
                        before.live(),
                        #[trigger] random_acts(before.position, value),
                        after,
                        error_of(r),
                    )
                    &&& r is Ok ==> r == Ok::<Seq<u8>, EngineErrorView>(value)
                },
        },
    }
}

/// What the journal has to say about a timer.
pub enum SleepPlan {
    /// The journal answers; `rest` of it is left.
    Recorded { result: Result<(), EngineErrorView>, rest: Seq<EventView> },
    /// The timer was scheduled and has not fired.
    Rearm,
    /// Nothing is journaled at this position.
    Fresh,
}

/// What replay makes of a timer for `deadline`, with `events` left to replay.
pub open spec fn plan_sleep(
    events: Option<Seq<EventView>>,
    seq: nat,
    deadline: nat,
) -> SleepPlan {
    match events {
        Some(left) if left.len() > 0 => match left[0] {
            EventView::TimerScheduled { deadline: journaled, .. } if journaled == deadline => {
                if left.len() == 1 {
                    SleepPlan::Rearm
                } else {
                    match left[1] {
                        EventView::TimerFired { .. } => {
                            SleepPlan::Recorded { result: Ok(()), rest: left.skip(2) }
                        },
                        event => SleepPlan::Recorded {
                            result: Err(divergence(seq, event, CommandKind::Sleep)),
                            rest: left.skip(1),
                        },
                    }
                }
            },
            event => SleepPlan::Recorded {
                result: Err(divergence(seq, event, CommandKind::Sleep)),
                rest: left,
            },
        },
        _ => SleepPlan::Fresh,
    }
}

/// The acts that schedule a timer.
pub open spec fn schedule_timer_acts(seq: nat, deadline: nat) -> Seq<Act> {
    seq![
        Act::Append(EventView::TimerScheduled { seq, deadline }),
        Act::Consult(Window::AfterTimerScheduled(seq)),
    ]
}

/// The acts of a timer that was scheduled before: it waits for what is left
/// until its deadline, and fires.
pub open spec fn rearm_acts(seq: nat, deadline: nat) -> Seq<Act> {
    seq![
        Act::Wait(deadline),
        Act::Append(EventView::TimerFired { seq }),
        Act::Consult(Window::AfterTimerFired(seq)),
    ]
}

/// The acts of a new timer.
pub open spec fn sleep_acts(seq: nat, deadline: nat) -> Seq<Act> {
    schedule_timer_acts(seq, deadline) + rearm_acts(seq, deadline)
}

/// What `WorkflowCtx::sleep_until` does to the run and returns. A crashed
/// run does nothing any more and reports its crash.
pub open spec fn sleep_does(
    before: RunState,
    deadline: nat,
    after: RunState,
    r: Result<(), EngineErrorView>,
) -> bool {
    match before.crash {
        Some(window) => after == before && r == Err::<(), _>(
            EngineErrorView::InjectedCrash(window),
        ),
        None => match plan_sleep(before.replay, before.position, deadline) {
            SleepPlan::Recorded { result, rest } => r == result && after == before.replayed(rest),
            SleepPlan::Rearm => runs(
                before.live(),
                rearm_acts(before.position, deadline),
                after,
                error_of(r),
            ),
            SleepPlan::Fresh => runs(
                before.live(),
                sleep_acts(before.position, deadline),
                after,
                error_of(r),
            ),
        },
    }
}

/// The number of `StepStarted` events that `events` begins with.
pub open spec fn leading_starts(events: Seq<EventView>) -> nat
    decreases events.len(),
{
    if events.len() > 0 && events[0] is StepStarted {
        leading_starts(events.skip(1)) + 1
    } else {
        0
    }
}

/// No run of consecutive `StepStarted` events is so long that the attempt
/// after it would leave the range of an attempt number.
pub open spec fn retries_fit(events: Seq<EventView>) -> bool {
    forall|i: int|
        0 <= i <= events.len() ==> leading_starts(#[trigger] events.skip(i)) < u32::MAX
}

/// What the journal has to say about a step.
pub enum StepPlan {
    /// The journal answers; `rest` of it is left.
    Recorded { result: Result<Seq<u8>, StepErrorView>, rest: Seq<EventView> },
    /// The journal ends inside this step: run it as `attempt`, without
    /// scheduling it again.
    Retry { attempt: nat },
    /// Nothing is journaled at this position.
    Fresh,
}

/// What replay makes of a step whose `StepScheduled` it has consumed, with
/// `left` left to replay. Every `StepStarted` that follows is one attempt.
pub open spec fn plan_outcome(left: Seq<EventView>, seq: nat) -> StepPlan {
    let attempts = leading_starts(left);
    let rest = left.skip(attempts as int);
    if rest.len() == 0 {
        StepPlan::Retry { attempt: attempts + 1 }
    } else {
        match rest[0] {
            EventView::StepCompleted { result, .. } => {
                StepPlan::Recorded { result: Ok(result), rest: rest.skip(1) }
            },
            EventView::StepFailed { error, .. } => StepPlan::Recorded {
                result: Err(StepErrorView::Failed(error)),
                rest: rest.skip(1),
            },
            event => StepPlan::Recorded {
                result: Err(StepErrorView::Engine(divergence(seq, event, CommandKind::RunStep))),
                rest,
            },
        }
    }
}

/// What replay makes of the step `name`, with `events` left to replay.
pub open spec fn plan_step(
    events: Option<Seq<EventView>>,
    seq: nat,
    name: Seq<char>,
) -> StepPlan {
    match events {
        Some(left) if left.len() > 0 => match left[0] {
            EventView::StepScheduled { name: journaled, .. } if journaled == name => {
                plan_outcome(left.skip(1), seq)
            },
            event => StepPlan::Recorded {
                result: Err(StepErrorView::Engine(divergence(seq, event, CommandKind::RunStep))),
                rest: left,
            },
        },
        _ => StepPlan::Fresh,
    }
}

/// The acts that schedule a step for the first time.
pub open spec fn schedule_acts(seq: nat, name: Seq<char>) -> Seq<Act> {
    seq![
        Act::Consult(Window::BeforeStepScheduled(seq)),
        Act::Append(EventView::StepScheduled { seq, name }),
        Act::Consult(Window::AfterStepScheduled(seq)),
    ]
}

/// The acts that start an attempt.
pub open spec fn start_acts(seq: nat, attempt: nat) -> Seq<Act> {
    seq![
        Act::Append(EventView::StepStarted { seq, attempt }),
        Act::Consult(Window::AfterStepStarted(seq)),
    ]
}

/// The acts that journal the answer of a step's closure.
pub open spec fn outcome_acts(
    seq: nat,
    attempt: nat,
    answer: Result<Seq<u8>, Seq<char>>,
) -> Seq<Act> {
    match answer {
        Ok(result) => seq![
            Act::Consult(Window::AfterSideEffect(seq)),
            Act::Append(EventView::StepCompleted { seq, result }),
            Act::Consult(Window::AfterStepCompleted(seq)),
        ],
        Err(error) => seq![Act::Append(EventView::StepFailed { seq, attempt, error })],
    }
}

/// The acts of one attempt at a scheduled step, whose closure gives `answer`.
pub open spec fn attempt_acts(
    seq: nat,
    name: Seq<char>,
    attempt: nat,
    answer: Result<Seq<u8>, Seq<char>>,
) -> Seq<Act> {
    start_acts(seq, attempt) + seq![Act::Perform(Effect { seq, name, answer })] + outcome_acts(
        seq,
        attempt,
        answer,
    )
}

/// What a step returns whose acts ended with `error`, or all succeeded with
/// the closure giving `answer`.
pub open spec fn step_return(
    answer: Result<Seq<u8>, Seq<char>>,
    error: Option<EngineErrorView>,
) -> Result<Seq<u8>, StepErrorView> {
    match error {
        Some(e) => Err(StepErrorView::Engine(e)),
        None => match answer {
            Ok(result) => Ok(result),
            Err(message) => Err(StepErrorView::Failed(message)),
        },
    }
}

/// `acts` run a step whose closure gives `answer`, and the step returns `r`.
pub open spec fn step_runs(
    before: RunState,
    acts: Seq<Act>,
    answer: Result<Seq<u8>, Seq<char>>,
    after: RunState,
    r: Result<Seq<u8>, StepErrorView>,
) -> bool {
    exists|error: Option<EngineErrorView>| #[trigger]
        runs(before, acts, after, error) && r == step_return(answer, error)
}

/// What `WorkflowCtx::step` does to the run and returns. A crashed run does
/// nothing any more and reports its crash.
pub open spec fn step_does(
    before: RunState,
    name: Seq<char>,
    after: RunState,
    r: Result<Seq<u8>, StepErrorView>,
) -> bool {
    match before.crash {
        Some(window) => after == before && r == Err::<Seq<u8>, _>(
            StepErrorView::Engine(EngineErrorView::InjectedCrash(window)),
        ),
        None => match plan_step(before.replay, before.position, name) {
            StepPlan::Recorded { result, rest } => r == result && after == before.replayed(rest),
            StepPlan::Retry { attempt } => exists|answer: Result<Seq<u8>, Seq<char>>|
                step_runs(
                    before.live(),
                    #[trigger] attempt_acts(before.position, name, attempt, answer),
                    answer,
                    after,
                    r,
                ),
            StepPlan::Fresh => exists|answer: Result<Seq<u8>, Seq<char>>|
                step_runs(
                    before.live(),
                    schedule_acts(before.position, name) + #[trigger] attempt_acts(
                        before.position,
                        name,
                        1,
                        answer,
                    ),
                    answer,
                    after,
                    r,
                ),
        },
    }
}

/// Whether the step `name` is run by its closure rather than answered from
/// the journal or refused.
pub open spec fn step_is_live(before: RunState, name: Seq<char>) -> bool {
    before.crash is None && !(plan_step(before.replay, before.position, name) is Recorded)
}

/// One more act of `acts` done.
pub proof fn lemma_does_next(before: RunState, acts: Seq<Act>, n: int)
    requires
        0 <= n < acts.len(),
    ensures
        before.does_all(acts.take(n + 1)) == before.does_all(acts.take(n)).does(acts[n]),
        n == 0 ==> before.does_all(acts.take(n)) == before,
        n + 1 == acts.len() ==> acts.take(n + 1) == acts,
{
    assert(acts.take(n + 1).drop_last() =~= acts.take(n));
    assert(n + 1 == acts.len() ==> acts.take(n + 1) =~= acts);
}

/// Acts done one after the other.
pub proof fn lemma_does_all_add(before: RunState, first: Seq<Act>, second: Seq<Act>)
    ensures
        before.does_all(first + second) == before.does_all(first).does_all(second),
    decreases second.len(),
{
    if second.len() == 0 {
        assert(first + second =~= first);
    } else {
        lemma_does_all_add(before, first, second.drop_last());
        assert((first + second).drop_last() =~= first + second.drop_last());
        assert((first + second).last() == second.last());
    }
}

/// Acts leave what is settled beforehand as it is.
pub proof fn lemma_does_all_settled(before: RunState, acts: Seq<Act>)
    ensures
        before.does_all(acts).decisions == before.decisions,
        before.does_all(acts).reading == before.reading,
        before.does_all(acts).source == before.source,
    decreases acts.len(),
{
    if acts.len() > 0 {
        lemma_does_all_settled(before, acts.drop_last());
    }
}

/// A run of acts that went through, followed by another run of acts.
pub proof fn lemma_runs_add(
    before: RunState,
    first: Seq<Act>,
    middle: RunState,
    second: Seq<Act>,
    after: RunState,
    error: Option<EngineErrorView>,
)
    requires
        runs(before, first, middle, None),
        runs(middle, second, after, error),
    ensures
        runs(before, first + second, after, error),
{
    lemma_does_all_settled(before, first);
    match error {
        None => {
            lemma_does_all_add(before, first, second);
            assert(before.allows_all(first + second)) by {
                assert forall|i: int| 0 <= i < (first + second).len() implies before.allows(
                    #[trigger] (first + second)[i],
                ) by {
                    if i < first.len() {
                        assert(before.allows(first[i]));
                    } else {
                        assert(middle.allows(second[i - first.len()]));
                    }
                }
            }
        },
        Some(e) => {
            let n = choose|n: int|
                0 <= n < second.len() && middle.allows_all(second.take(n)) && halts(
                    middle.does_all(second.take(n)),
                    #[trigger] second[n],
                    after,
                    e,
                );
            let acts = first + second;
            let m = first.len() + n;
            lemma_does_all_add(before, first, second.take(n));
            assert(acts.take(m) =~= first + second.take(n));
            assert(acts[m] == second[n]);
            assert(before.allows_all(acts.take(m))) by {
                assert forall|i: int| 0 <= i < m implies before.allows(
                    #[trigger] acts.take(m)[i],
                ) by {
                    if i < first.len() {
                        assert(before.allows(first[i]));
                    } else {
                        assert(middle.allows(second.take(n)[i - first.len()]));
                    }
                }
            }
        },
    }
}

/// A run of acts that halted halts just so with more acts to come.
pub proof fn lemma_runs_halted(
    before: RunState,
    first: Seq<Act>,
    second: Seq<Act>,
    after: RunState,
    error: EngineErrorView,
)
    requires
        runs(before, first, after, Some(error)),
    ensures
        runs(before, first + second, after, Some(error)),
{
    let n = choose|n: int|
        0 <= n < first.len() && before.allows_all(first.take(n)) && halts(
            before.does_all(first.take(n)),
            #[trigger] first[n],
            after,
            error,
        );
    let acts = first + second;
    assert(acts.take(n) =~= first.take(n));
    assert(acts[n] == first[n]);
}

/// What is left of a replay has no more retries than the whole.
pub proof fn lemma_retries_fit_skip(events: Seq<EventView>, n: int)
    requires
        retries_fit(events),
        0 <= n <= events.len(),
    ensures
        retries_fit(events.skip(n)),
{
    assert forall|i: int| 0 <= i <= events.skip(n).len() implies leading_starts(
        #[trigger] events.skip(n).skip(i),
    ) < u32::MAX by {
        assert(events.skip(n).skip(i) =~= events.skip(n + i));
    }
}

/// `leading_starts` counts events.
pub proof fn lemma_leading_starts_bound(events: Seq<EventView>)
    ensures
        leading_starts(events) <= events.len(),
    decreases events.len(),
{
    if events.len() > 0 && events[0] is StepStarted {
        lemma_leading_starts_bound(events.skip(1));
    }
}

/// `events` begin with at least `n` starts if and only if their first `n` are
/// starts.
pub proof fn lemma_leading_starts_at_least(events: Seq<EventView>, n: nat)
    ensures
        leading_starts(events) >= n <==> n <= events.len() && forall|k: int|
            0 <= k < n ==> #[trigger] events[k] is StepStarted,
    decreases n,
{
    if n > 0 && events.len() > 0 {
        let rest = events.skip(1);
        lemma_leading_starts_at_least(rest, (n - 1) as nat);
        assert(forall|k: int|
            0 <= k < n - 1 && n <= events.len() ==> #[trigger] rest[k] == events[k + 1]);
        if events[0] is StepStarted && n <= events.len() && (forall|k: int|
            0 <= k < n - 1 ==> #[trigger] rest[k] is StepStarted) {
            assert forall|k: int| 0 <= k < n implies #[trigger] events[k] is StepStarted by {
                if k > 0 {
                    assert(rest[k - 1] == events[k]);
                }
            }
        }
    }
}

} // verus!
