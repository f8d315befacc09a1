//! `WorkflowCtx`: the sole capability a workflow receives. Every effect a
//! workflow requests goes through here, so replay can intercept it.

use vstd::prelude::*;

use crate::command::CommandKind;
use crate::engine;
use crate::execution::ExecutionId;
use crate::execution::WorkflowVersion;
use crate::failpoints;
use crate::failpoints::CrashPoint;
use crate::failpoints::CrashStatus;
use crate::failpoints::FailpointDecision;
use crate::failpoints::FailpointPolicy;
use crate::failpoints::NeverCrash;
use crate::failpoints::Window;
use crate::journal;
use crate::journal::EventPayload;
use crate::journal::EventView;
use crate::journal::Journal;
use crate::journal::JournalError;
use crate::journal::JournalErrorView;
use crate::journal::JournalEvent;
use crate::journal::JournalStore;
use crate::journal::SeqNum;
use crate::model;
use crate::model::Act;
use crate::model::Effect;
use crate::model::RunState;
use crate::model::SleepPlan;
use crate::model::StepPlan;
use crate::model::ValuePlan;
use crate::random::RandomBytes;
use crate::random::RngSource;
use crate::step;
use crate::step::Attempt;
use crate::step::IdempotencyKey;
use crate::step::StepError;
use crate::step::StepErrorRecord;
use crate::step::StepErrorView;
use crate::step::StepName;
use crate::time::Clock;
use crate::time::Deadline;
use crate::time::Timestamp;

verus! {

/// Errors from running or recovering an execution.
#[derive(Debug, PartialEq, Eq)]
pub enum EngineError {
    /// The workflow asked for another command than the journal holds at this
    /// position.
    Nondeterminism { seq: SeqNum, expected: CommandKind, got: CommandKind },
    /// The journal was started by another version of the workflow.
    VersionMismatch { recorded: WorkflowVersion, current: WorkflowVersion },
    /// The store failed.
    Journal(JournalError),
    /// A failpoint fired.
    InjectedCrash(CrashPoint),
}

/// An `EngineError` as a mathematical value.
pub enum EngineErrorView {
    Nondeterminism { seq: nat, expected: CommandKind, got: CommandKind },
    VersionMismatch { recorded: Seq<char>, current: Seq<char> },
    Journal(JournalErrorView),
    InjectedCrash(Window),
}

impl View for EngineError {
    type V = EngineErrorView;

    open spec fn view(&self) -> EngineErrorView {
        match self {
            EngineError::Nondeterminism { seq, expected, got } => EngineErrorView::Nondeterminism {
                seq: seq@,
                expected: *expected,
                got: *got,
            },
            EngineError::VersionMismatch { recorded, current } => {
                EngineErrorView::VersionMismatch { recorded: recorded@, current: current@ }
            },
            EngineError::Journal(error) => EngineErrorView::Journal(error@),
            EngineError::InjectedCrash(point) => EngineErrorView::InjectedCrash(point@),
        }
    }
}

/// `text` holds the words for a command of kind `got` where the journal has
/// one of kind `expected`.
pub open spec fn tells_divergence(
    seq: SeqNum,
    expected: CommandKind,
    got: CommandKind,
    text: Seq<char>,
) -> bool {
    exists|at: Seq<char>, journaled: Seq<char>, asked: Seq<char>|
        {
            &&& #[trigger] engine::debug_writes(seq, at)
            &&& #[trigger] engine::debug_writes(expected, journaled)
            &&& #[trigger] engine::debug_writes(got, asked)
            &&& text == "nondeterministic workflow at seq "@ + at + ": journal has "@ + journaled
                + ", code produced "@ + asked
        }
}

/// `text` holds the words for a journal of another version.
pub open spec fn tells_mismatch(
    recorded: WorkflowVersion,
    current: WorkflowVersion,
    text: Seq<char>,
) -> bool {
    exists|journaled: Seq<char>, asked: Seq<char>|
        {
            &&& #[trigger] engine::debug_writes(recorded, journaled)
            &&& #[trigger] engine::debug_writes(current, asked)
            &&& text == "workflow version mismatch: journal "@ + journaled + ", code "@ + asked
        }
}

/// `text` holds the words for an injected crash.
pub open spec fn tells_crash(point: CrashPoint, text: Seq<char>) -> bool {
    exists|at: Seq<char>| #[trigger]
        engine::debug_writes(point, at) && text == "injected crash at "@ + at
}

/// `text` holds the words for `error`. Positions, kinds, versions and windows
/// are put as their `Debug` writes them.
pub open spec fn tells(error: EngineError, text: Seq<char>) -> bool {
    match error {
        EngineError::Nondeterminism { seq, expected, got } => tells_divergence(
            seq,
            expected,
            got,
            text,
        ),
        EngineError::VersionMismatch { recorded, current } => tells_mismatch(
            recorded,
            current,
            text,
        ),
        EngineError::Journal(fault) => text == "journal error: "@ + journal::journal_error_text(
            fault@,
        ),
        EngineError::InjectedCrash(point) => tells_crash(point, text),
    }
}

impl EngineError {
    pub fn message(&self) -> (r: String)
        ensures
            tells(*self, r@),
    {
        match self {
            EngineError::Nondeterminism { seq, expected, got } => {
                let at = engine::debug_text(seq);
                let journaled = engine::debug_text(expected);
                let asked = engine::debug_text(got);
                proof {
                    engine::lemma_debug_writes(seq, at);
                    engine::lemma_debug_writes(expected, journaled);
                    engine::lemma_debug_writes(got, asked);
                }
                let mut text = "nondeterministic workflow at seq ".to_owned();
                text.append(at.as_str());
                text.append(": journal has ");
                text.append(journaled.as_str());
                text.append(", code produced ");
                text.append(asked.as_str());
                assert(tells_divergence(*seq, *expected, *got, text@));
                text
            },
            EngineError::VersionMismatch { recorded, current } => {
                let journaled = engine::debug_text(recorded);
                let asked = engine::debug_text(current);
                proof {
                    engine::lemma_debug_writes(recorded, journaled);
                    engine::lemma_debug_writes(current, asked);
                }
                let mut text = "workflow version mismatch: journal ".to_owned();
                text.append(journaled.as_str());
                text.append(", code ");
                text.append(asked.as_str());
                assert(tells_mismatch(*recorded, *current, text@));
                text
            },
            EngineError::Journal(fault) => {
                let mut text = "journal error: ".to_owned();
                text.append(fault.message().as_str());
                text
            },
            EngineError::InjectedCrash(point) => {
                let at = engine::debug_text(point);
                proof {
                    engine::lemma_debug_writes(point, at);
                }
                let mut text = "injected crash at ".to_owned();
                text.append(at.as_str());
                text
            },
        }
    }
}

impl From<JournalError> for EngineError {
    fn from(error: JournalError) -> (r: Self) {
        EngineError::Journal(error)
    }
}

impl vstd::std_specs::convert::FromSpecImpl<JournalError> for EngineError {
    open spec fn obeys_from_spec() -> bool {
        true
    }

    open spec fn from_spec(error: JournalError) -> EngineError {
        EngineError::Journal(error)
    }
}

/// The result of a command as a mathematical value.
pub open spec fn result_view<T: View>(r: Result<T, EngineError>) -> Result<
    T::V,
    EngineErrorView,
> {
    match r {
        Ok(value) => Ok(value@),
        Err(error) => Err(error@),
    }
}

/// The result of a step as a mathematical value.
pub open spec fn step_result_view(r: Result<EventPayload, StepError>) -> Result<
    Seq<u8>,
    StepErrorView,
> {
    match r {
        Ok(value) => Ok(value@),
        Err(error) => Err(error@),
    }
}

/// Walks a loaded `Journal` command by command during replay.
#[derive(Debug)]
pub struct ReplayCursor {
    events: Vec<JournalEvent>,
    position: usize,
}

impl View for ReplayCursor {
    type V = Seq<EventView>;

    /// The events not yet consumed.
    closed spec fn view(&self) -> Seq<EventView> {
        if self.position <= self.events@.len() {
            journal::event_views(self.events@).skip(self.position as int)
        } else {
            Seq::empty()
        }
    }
}

impl ReplayCursor {
    /// How often the cursor was advanced.
    pub closed spec fn advanced(&self) -> nat {
        self.position as nat
    }

    pub fn new(journal: Journal) -> (r: Self)
        ensures
            r@ == journal@,
            r.advanced() == 0,
    {
        let r = Self { events: journal.into_events(), position: 0 };
        assert(r@ =~= journal@);
        r
    }

    /// True once every journaled event has been consumed.
    pub fn is_exhausted(&self) -> (r: bool)
        ensures
            r == (self@.len() == 0),
    {
        self.position >= self.events.len()
    }

    /// The next unconsumed event, without advancing.
    pub fn peek(&self) -> (r: Option<&JournalEvent>)
        ensures
            r is Some <==> self@.len() > 0,
            r matches Some(event) ==> event@ == self@[0],
            r is Some ==> self.advanced() < usize::MAX,
    {
        if self.position < self.events.len() {
            Some(&self.events[self.position])
        } else {
            None
        }
    }

    /// Consumes the event returned by the last `peek`.
    pub fn advance(&mut self)
        requires
            old(self).advanced() < usize::MAX,
        ensures
            final(self).advanced() == old(self).advanced() + 1,
            old(self)@.len() > 0 ==> final(self)@ == old(self)@.skip(1),
            old(self)@.len() == 0 ==> final(self)@.len() == 0,
    {
        self.position = self.position + 1;
        assert(old(self)@.len() > 0 ==> self@ =~= old(self)@.skip(1));
    }
}

impl Clone for ReplayCursor {
    fn clone(&self) -> (r: Self)
        ensures
            r@ == self@,
            r.advanced() == self.advanced(),
    {
        Self { events: journal::clone_events(self.events.as_slice()), position: self.position }
    }
}

/// What replay found at the cursor while resolving a `now()`/`random()`
/// call: either a recorded terminal outcome, or replay has run out and the
/// value must be drawn live.
enum ReplayedEffect<T> {
    Recorded(Result<T, EngineError>),
    Live,
}

/// A decision made while resolving one `sleep_until()` call.
enum SleepDecision {
    /// `TimerScheduled` + `TimerFired` both journaled, or a divergence.
    UseRecorded(Result<(), EngineError>),
    /// `TimerScheduled` journaled, `TimerFired` missing: the process died
    /// mid-wait. Re-arm toward the already-journaled deadline without
    /// re-appending `TimerScheduled`, and journal `TimerFired` once the wait
    /// (a no-op if the deadline already passed) returns.
    Rearm,
    /// Nothing journaled at this position: a brand-new timer.
    RunLive,
}

/// A decision made while resolving one `step()` call: either the recorded
/// journal already answers it, or replay has run out and this step must be
/// executed live.
enum StepDecision {
    UseRecorded(Result<EventPayload, StepError>),
    RunLive(LiveEntry),
}

/// How a live step run enters the journal.
enum LiveEntry {
    /// Nothing is journaled at this position: schedule the step, and start
    /// its first attempt.
    Fresh,
    /// `StepScheduled` is already durable from an attempt a crash cut short.
    /// Start a new attempt without re-scheduling. A second `StepScheduled` at
    /// the same position would make every later replay ambiguous.
    Retry { attempt: Attempt },
}

/// The error for a journaled `event` where a command of kind `got` was asked
/// for.
fn diverged(seq: SeqNum, event: &JournalEvent, got: CommandKind) -> (r: EngineError)
    ensures
        r@ == model::divergence(seq@, event@, got),
{
    let expected = match event.command_kind() {
        Some(kind) => kind,
        None => got,
    };
    EngineError::Nondeterminism { seq, expected, got }
}

/// Resolves a clock reading against the journal.
fn replay_now(cursor: &mut ReplayCursor, seq: SeqNum) -> (r: ReplayedEffect<Timestamp>)
    ensures
        match model::plan_now(Some(old(cursor)@), seq@) {
            ValuePlan::Recorded { result, rest } => {
                &&& r matches ReplayedEffect::Recorded(found)
                &&& result_view(found) == result
                &&& final(cursor)@ == rest
            },
            ValuePlan::Live => r is Live && final(cursor)@ == old(cursor)@,
        },
{
    match cursor.peek() {
        Some(JournalEvent::NowRecorded { value, .. }) => {
            let value = *value;
            cursor.advance();
            ReplayedEffect::Recorded(Ok(value))
        },
        Some(event) => ReplayedEffect::Recorded(Err(diverged(seq, event, CommandKind::ReadNow))),
        None => ReplayedEffect::Live,
    }
}

/// Resolves a draw against the journal.
fn replay_random(cursor: &mut ReplayCursor, seq: SeqNum) -> (r: ReplayedEffect<RandomBytes>)
    ensures
        match model::plan_random(Some(old(cursor)@), seq@) {
            ValuePlan::Recorded { result, rest } => {
                &&& r matches ReplayedEffect::Recorded(found)
                &&& result_view(found) == result
                &&& final(cursor)@ == rest
            },
            ValuePlan::Live => r is Live && final(cursor)@ == old(cursor)@,
        },
{
    match cursor.peek() {
        Some(JournalEvent::RandomRecorded { value, .. }) => {
            let value = *value;
            cursor.advance();
            ReplayedEffect::Recorded(Ok(value))
        },
        Some(event) => ReplayedEffect::Recorded(
            Err(diverged(seq, event, CommandKind::DrawRandom)),
        ),
        None => ReplayedEffect::Live,
    }
}

/// Resolves a timer against the journal.
fn replay_sleep(cursor: &mut ReplayCursor, seq: SeqNum, deadline: Deadline) -> (r: SleepDecision)
    ensures
        match model::plan_sleep(Some(old(cursor)@), seq@, deadline@) {
            SleepPlan::Recorded { result, rest } => {
                &&& r matches SleepDecision::UseRecorded(found)
                &&& result_view(found) == result
                &&& final(cursor)@ == rest
            },
            SleepPlan::Rearm => r is Rearm && final(cursor)@.len() == 0,
            SleepPlan::Fresh => r is RunLive && final(cursor)@.len() == 0,
        },
{
    let ghost left = cursor@;
    let is_scheduled = match cursor.peek() {
        Some(JournalEvent::TimerScheduled { deadline: journaled, .. }) => journaled.same_instant(
            &deadline,
        ),
        _ => false,
    };
    if is_scheduled {
        cursor.advance();
        match cursor.peek() {
            Some(JournalEvent::TimerFired { .. }) => {
                cursor.advance();
                assert(cursor@ =~= left.skip(2));
                SleepDecision::UseRecorded(Ok(()))
            },
            Some(event) => SleepDecision::UseRecorded(
                Err(diverged(seq, event, CommandKind::Sleep)),
            ),
            None => SleepDecision::Rearm,
        }
    } else {
        match cursor.peek() {
            Some(event) => SleepDecision::UseRecorded(
                Err(diverged(seq, event, CommandKind::Sleep)),
            ),
            None => SleepDecision::RunLive,
        }
    }
}

/// Resolves a step already matched against a journaled `StepScheduled`:
/// consumes the attempts that follow and returns the recorded
/// `StepCompleted`/`StepFailed` outcome, or signals a rerun.
fn replay_step_outcome(cursor: &mut ReplayCursor, seq: SeqNum) -> (r: StepDecision)
    requires
        model::leading_starts(old(cursor)@) < u32::MAX,
    ensures
        match model::plan_outcome(old(cursor)@, seq@) {
            StepPlan::Recorded { result, rest } => {
                &&& r matches StepDecision::UseRecorded(found)
                &&& step_result_view(found) == result
                &&& final(cursor)@ == rest
            },
            StepPlan::Retry { attempt: next } => {
                &&& r matches StepDecision::RunLive(LiveEntry::Retry { attempt })
                &&& attempt@ == next
                &&& final(cursor)@.len() == 0
            },
            StepPlan::Fresh => false,
        },
{
    let ghost left = cursor@;
    // Every `StepStarted` at this position is one attempt; a crash-cut
    // attempt leaves its `StepStarted` behind with no outcome after it, so
    // several can accumulate before one completes.
    let mut attempts: u32 = 0;
    assert(left.skip(0) =~= left);
    while matches!(cursor.peek(), Some(JournalEvent::StepStarted { .. }))
        invariant
            attempts <= left.len(),
            cursor@ == left.skip(attempts as int),
            model::leading_starts(left) == attempts + model::leading_starts(cursor@),
            model::leading_starts(left) < u32::MAX,
        decreases cursor@.len(),
    {
        cursor.advance();
        attempts = attempts + 1;
        assert(cursor@ =~= left.skip(attempts as int));
    }
    match cursor.peek() {
        Some(JournalEvent::StepCompleted { result, .. }) => {
            let result = result.clone();
            cursor.advance();
            StepDecision::UseRecorded(Ok(result))
        },
        Some(JournalEvent::StepFailed { error, .. }) => {
            let error = error.clone();
            cursor.advance();
            StepDecision::UseRecorded(Err(StepError::Failed(error)))
        },
        Some(event) => StepDecision::UseRecorded(
            Err(StepError::Engine(diverged(seq, event, CommandKind::RunStep))),
        ),
        // Journal ends here: the process died mid-step, after
        // `StepScheduled` (`CrashPoint::AfterStepScheduled`) or after
        // `StepStarted` (`AfterStepStarted` / `AfterSideEffect`). No outcome
        // was recorded either way, so rerun as the next attempt.
        None => {
            let mut attempt = Attempt::first();
            let mut counted: u32 = 0;
            while counted < attempts
                invariant
                    counted <= attempts,
                    attempts < u32::MAX,
                    attempt@ == counted + 1,
                decreases attempts - counted,
            {
                attempt = attempt.next();
                counted = counted + 1;
            }
            StepDecision::RunLive(LiveEntry::Retry { attempt })
        },
    }
}

/// Resolves a step against the journal.
fn replay_step(cursor: &mut ReplayCursor, seq: SeqNum, name: &StepName) -> (r: StepDecision)
    requires
        model::retries_fit(old(cursor)@),
    ensures
        match model::plan_step(Some(old(cursor)@), seq@, name@) {
            StepPlan::Recorded { result, rest } => {
                &&& r matches StepDecision::UseRecorded(found)
                &&& step_result_view(found) == result
                &&& final(cursor)@ == rest
            },
            StepPlan::Retry { attempt: next } => {
                &&& r matches StepDecision::RunLive(LiveEntry::Retry { attempt })
                &&& attempt@ == next
                &&& final(cursor)@.len() == 0
            },
            StepPlan::Fresh => {
                &&& r matches StepDecision::RunLive(LiveEntry::Fresh)
                &&& final(cursor)@.len() == 0
            },
        },
{
    let is_scheduled = match cursor.peek() {
        Some(JournalEvent::StepScheduled { name: journaled, .. }) => journaled.same_name(name),
        _ => false,
    };
    if is_scheduled {
        cursor.advance();
        replay_step_outcome(cursor, seq)
    } else {
        match cursor.peek() {
            Some(event) => StepDecision::UseRecorded(
                Err(StepError::Engine(diverged(seq, event, CommandKind::RunStep))),
            ),
            None => StepDecision::RunLive(LiveEntry::Fresh),
        }
    }
}

/// Replay-vs-live execution mode. Not a typestate: the transition happens
/// mid-run at journal exhaustion, inside one `&mut` borrow of `WorkflowCtx`,
/// so it is a runtime enum with an exhaustive match instead.
enum Mode {
    Replaying(ReplayCursor),
    Live,
}

impl View for Mode {
    type V = Option<Seq<EventView>>;

    closed spec fn view(&self) -> Option<Seq<EventView>> {
        match self {
            Mode::Replaying(cursor) => Some(cursor@),
            Mode::Live => None,
        }
    }
}

/// The acts that come before the attempt of a live step.
spec fn entry_acts(entry: LiveEntry, seq: nat, name: Seq<char>) -> Seq<Act> {
    match entry {
        LiveEntry::Fresh => model::schedule_acts(seq, name),
        LiveEntry::Retry { .. } => Seq::empty(),
    }
}

/// The number of the attempt that a live step makes.
spec fn entry_attempt(entry: LiveEntry) -> nat {
    match entry {
        LiveEntry::Fresh => 1,
        LiveEntry::Retry { attempt } => attempt@,
    }
}

/// `answer` is what `f` gave when it was called with the idempotency key of
/// the step at `seq`.
pub open spec fn answered<F>(
    f: F,
    execution: Seq<u8>,
    seq: nat,
    answer: Result<Seq<u8>, Seq<char>>,
) -> bool where F: FnOnce(IdempotencyKey) -> Result<EventPayload, StepErrorRecord> {
    exists|key: IdempotencyKey, given: Result<EventPayload, StepErrorRecord>|
        {
            &&& key@ == (execution, seq)
            &&& #[trigger] call_ensures(f, (key,), given)
            &&& step::answer_view(given) == answer
        }
}

/// The attempt at the step at `seq` has begun: its `StepStarted` is durable,
/// and the run has passed the window after it.
pub open spec fn started<S: JournalStore, P: FailpointPolicy>(
    execution: Seq<u8>,
    seq: nat,
) -> bool {
    &&& P::passed(Window::AfterStepStarted(seq))
    &&& exists|attempt: nat| #[trigger]
        S::acknowledged(execution, EventView::StepStarted { seq, attempt })
}

/// `f` can be called with the idempotency key of the step at `seq` once the
/// attempt at it has begun.
pub open spec fn callable_once_started<S, P, F>(f: F, execution: Seq<u8>, seq: nat) -> bool where
    S: JournalStore,
    P: FailpointPolicy,
    F: FnOnce(IdempotencyKey) -> Result<EventPayload, StepErrorRecord>,
 {
    started::<S, P>(execution, seq) ==> forall|key: IdempotencyKey|
        key@ == (execution, seq) ==> #[trigger] call_requires(f, (key,))
}

/// The window after the side effect of the step at `seq` can be reached once
/// `f` has answered.
pub open spec fn reached_once_answered<P, F>(f: F, execution: Seq<u8>, seq: nat) -> bool where
    P: FailpointPolicy,
    F: FnOnce(IdempotencyKey) -> Result<EventPayload, StepErrorRecord>,
 {
    forall|answer: Result<Seq<u8>, Seq<char>>| #[trigger]
        answered(f, execution, seq, answer) ==> P::admits(Window::AfterSideEffect(seq))
}

/// The timer at `seq` can be journaled as fired once the clock has waited for
/// its `deadline`.
pub open spec fn fires_after_waiting<S: JournalStore, C: Clock>(
    execution: Seq<u8>,
    seq: nat,
    deadline: nat,
) -> bool {
    C::waited(deadline) ==> S::admits(execution, EventView::TimerFired { seq })
}

/// The only capability a workflow receives. Every effect goes through here
/// so replay can intercept it.
pub struct WorkflowCtx<S: JournalStore, C: Clock, R: RngSource, P: FailpointPolicy> {
    store: S,
    execution: ExecutionId,
    seq: SeqNum,
    mode: Mode,
    clock: C,
    rng: R,
    failpoints: P,
    crash: CrashStatus,
    effects: Ghost<Seq<Effect>>,
}

impl<S: JournalStore, C: Clock, R: RngSource> WorkflowCtx<S, C, R, NeverCrash> {
    /// Builds a context over `cursor` that never crashes. A cursor already
    /// exhausted (fresh execution, or one whose journal has just
    /// `ExecutionStarted`) starts live; otherwise replay begins from the
    /// cursor's first event.
    pub fn new(
        store: S,
        execution: ExecutionId,
        cursor: ReplayCursor,
        clock: C,
        rng: R,
    ) -> (r: Self)
        ensures
            r.state() == model::starting(
                execution@,
                cursor@,
                false,
                failpoints::never_crashes(),
                store.journals(),
                store.fallible(),
                store.failures(),
                Seq::empty(),
                clock.calls(),
                clock.reads(),
                rng.draws(),
                rng.gives(),
            ),
    {
        Self::with_failpoints(store, execution, cursor, clock, rng, NeverCrash::new())
    }
}

impl<S: JournalStore, C: Clock, R: RngSource, P: FailpointPolicy> WorkflowCtx<S, C, R, P> {
    /// The state of this run.
    pub closed spec fn state(&self) -> RunState {
        RunState {
            execution: self.execution@,
            position: self.seq@,
            replay: self.mode@,
            crash: self.crash@,
            armed: self.failpoints.armed(),
            decisions: self.failpoints.decides(),
            journals: self.store.journals(),
            fallible: self.store.fallible(),
            failures: self.store.failures(),
            consulted: self.failpoints.consulted(),
            clock: self.clock.calls(),
            reading: self.clock.reads(),
            draws: self.rng.draws(),
            source: self.rng.gives(),
            effects: self.effects@,
        }
    }

    /// Builds a context whose live paths consult `failpoints` at every
    /// `CrashPoint`.
    pub fn with_failpoints(
        store: S,
        execution: ExecutionId,
        cursor: ReplayCursor,
        clock: C,
        rng: R,
        failpoints: P,
    ) -> (r: Self)
        ensures
            r.state() == model::starting(
                execution@,
                cursor@,
                failpoints.armed(),
                failpoints.decides(),
                store.journals(),
                store.fallible(),
                store.failures(),
                failpoints.consulted(),
                clock.calls(),
                clock.reads(),
                rng.draws(),
                rng.gives(),
            ),
    {
        let mode = if cursor.is_exhausted() {
            Mode::Live
        } else {
            Mode::Replaying(cursor)
        };
        Self {
            store,
            execution,
            seq: SeqNum::zero(),
            mode,
            clock,
            rng,
            failpoints,
            crash: CrashStatus::Intact,
            effects: Ghost(Seq::empty()),
        }
    }

    /// The store, the failpoints, the clock and the source of randomness,
    /// once the run is over.
    pub(crate) fn into_parts(self) -> (r: (S, P, C, R))
        ensures
            r.0.journals() == self.state().journals,
            r.0.fallible() == self.state().fallible,
            r.0.failures() == self.state().failures,
            r.1.armed() == self.state().armed,
            r.1.decides() == self.state().decisions,
            r.1.consulted() == self.state().consulted,
            r.2.calls() == self.state().clock,
            r.2.reads() == self.state().reading,
            r.3.draws() == self.state().draws,
            r.3.gives() == self.state().source,
    {
        (self.store, self.failpoints, self.clock, self.rng)
    }

    /// The store this run journals to.
    pub fn store(&self) -> (r: &S)
        ensures
            r.journals() == self.state().journals,
            r.fallible() == self.state().fallible,
            r.failures() == self.state().failures,
    {
        &self.store
    }

    /// Whether an injected crash fired during this run.
    pub fn crash_status(&self) -> (r: CrashStatus)
        ensures
            r@ == self.state().crash,
    {
        self.crash
    }

    /// Consults the policy at `point`. On `Crash`, records the crash and
    /// returns the error without journaling anything: the journal is left
    /// exactly as a process death at this window would leave it.
    fn checkpoint(&mut self, point: CrashPoint) -> (r: Result<(), EngineError>)
        requires
            point@ is AfterSideEffect ==> P::admits(point@),
        ensures
            r is Ok ==> final(self).state() == old(self).state().does(Act::Consult(point@)),
            r is Ok ==> old(self).state().allows(Act::Consult(point@)),
            r is Ok ==> P::passed(point@),
            r matches Err(e) ==> model::halts(
                old(self).state(),
                Act::Consult(point@),
                final(self).state(),
                e@,
            ),
    {
        match self.failpoints.at(point) {
            FailpointDecision::Continue => Ok(()),
            FailpointDecision::Crash => {
                self.crash = CrashStatus::Crashed(point);
                Err(EngineError::InjectedCrash(point))
            },
        }
    }

    /// Appends `event` to the journal of this execution.
    fn append(&mut self, event: JournalEvent) -> (r: Result<(), EngineError>)
        requires
            event@ is TimerFired ==> S::admits(old(self).state().execution, event@),
        ensures
            r is Ok ==> final(self).state() == old(self).state().does(Act::Append(event@)),
            r is Ok ==> S::acknowledged(old(self).state().execution, event@),
            r matches Err(e) ==> model::halts(
                old(self).state(),
                Act::Append(event@),
                final(self).state(),
                e@,
            ),
    {
        match self.store.append(&self.execution, event) {
            Ok(_) => Ok(()),
            Err(error) => Err(EngineError::from(error)),
        }
    }

    /// A crashed process runs no further commands. Once a failpoint has
    /// fired, every later `ctx` call fails with the same crash without
    /// consuming a position or touching the journal, so a workflow that
    /// swallows the first error cannot journal past its own death.
    fn refuse_after_crash(&self) -> (r: Result<(), EngineError>)
        ensures
            r is Ok <==> self.state().crash is None,
            r matches Err(e) ==> self.state().crash matches Some(window) && e@
                == EngineErrorView::InjectedCrash(window),
    {
        match self.crash {
            CrashStatus::Intact => Ok(()),
            CrashStatus::Crashed(point) => Err(EngineError::InjectedCrash(point)),
        }
    }

    /// Journaled clock read. Replay returns the original timestamp.
    ///
    /// # Errors
    /// `Nondeterminism` if the journal expected a different command at this
    /// position. `Journal` if the store cannot be reached.
    pub fn now(&mut self) -> (r: Result<Timestamp, EngineError>)
        requires
            old(self).state().ready(),
        ensures
            model::now_does(old(self).state(), final(self).state(), result_view(r)),
            final(self).state().attempts_fit(),
    {
        let ghost before = self.state();
        if let Err(error) = self.refuse_after_crash() {
            return Err(error);
        }
        let seq = self.seq;
        self.seq = self.seq.next();
        let decision = match &mut self.mode {
            Mode::Replaying(cursor) => replay_now(cursor, seq),
            Mode::Live => ReplayedEffect::Live,
        };
        match decision {
            ReplayedEffect::Recorded(result) => {
                proof {
                    model::lemma_retries_fit_skip(before.replay->0, 1);
                }
                result
            },
            ReplayedEffect::Live => {
                self.mode = Mode::Live;
                assert(self.state() == before.live());
                let value = self.clock.now();
                let ghost acts = model::now_acts(seq@, value@);
                proof {
                    model::lemma_does_next(before.live(), acts, 0);
                    model::lemma_does_next(before.live(), acts, 1);
                }
                match self.append(JournalEvent::NowRecorded { seq, value }) {
                    Ok(()) => Ok(value),
                    Err(error) => {
                        assert(model::halts(
                            before.live().does_all(acts.take(1)),
                            acts[1],
                            self.state(),
                            error@,
                        ));
                        Err(error)
                    },
                }
            },
        }
    }

    /// Journaled randomness. Replay returns the original bytes.
    ///
    /// # Errors
    /// `Nondeterminism` if the journal expected a different command at this
    /// position. `Journal` if the store cannot be reached.
    pub fn random(&mut self) -> (r: Result<RandomBytes, EngineError>)
        requires
            old(self).state().ready(),
        ensures
            model::random_does(old(self).state(), final(self).state(), result_view(r)),
            final(self).state().attempts_fit(),
    {
        let ghost before = self.state();
        if let Err(error) = self.refuse_after_crash() {
            return Err(error);
        }
        let seq = self.seq;
        self.seq = self.seq.next();
        let decision = match &mut self.mode {
            Mode::Replaying(cursor) => replay_random(cursor, seq),
            Mode::Live => ReplayedEffect::Live,
        };
        match decision {
            ReplayedEffect::Recorded(result) => {
                proof {
                    model::lemma_retries_fit_skip(before.replay->0, 1);
                }
                result
            },
            ReplayedEffect::Live => {
                self.mode = Mode::Live;
                assert(self.state() == before.live());
                let value = self.rng.next_bytes();
                let ghost acts = model::random_acts(seq@, value@);
                proof {
                    model::lemma_does_next(before.live(), acts, 0);
                    model::lemma_does_next(before.live(), acts, 1);
                }
                match self.append(JournalEvent::RandomRecorded { seq, value }) {
                    Ok(()) => Ok(value),
                    Err(error) => {
                        assert(model::halts(
                            before.live().does_all(acts.take(1)),
                            acts[1],
                            self.state(),
                            error@,
                        ));
                        Err(error)
                    },
                }
            },
        }
    }

    /// Durable timer. Journals the wall-clock `deadline`; survives restart.
    /// Blocks through the `Clock` trait, so it is instant under `TestClock`.
    /// The timer is journaled as fired only once the clock has waited for it.
    ///
    /// # Errors
    /// `Nondeterminism` if the journal expected a different command at this
    /// position. `Journal` if the store cannot be reached.
    pub fn sleep_until(&mut self, deadline: Deadline) -> (r: Result<(), EngineError>)
        requires
            old(self).state().ready(),
            fires_after_waiting::<S, C>(
                old(self).state().execution,
                old(self).state().position,
                deadline@,
            ),
        ensures
            model::sleep_does(old(self).state(), deadline@, final(self).state(), result_view(r)),
            final(self).state().attempts_fit(),
    {
        let ghost before = self.state();
        if let Err(error) = self.refuse_after_crash() {
            return Err(error);
        }
        let seq = self.seq;
        self.seq = self.seq.next();
        let decision = match &mut self.mode {
            Mode::Replaying(cursor) => replay_sleep(cursor, seq, deadline),
            Mode::Live => SleepDecision::RunLive,
        };
        match decision {
            SleepDecision::UseRecorded(result) => {
                proof {
                    let left = before.replay->0;
                    model::lemma_retries_fit_skip(left, 1);
                    if left.len() > 1 {
                        model::lemma_retries_fit_skip(left, 2);
                    }
                }
                result
            },
            SleepDecision::Rearm => {
                self.mode = Mode::Live;
                assert(self.state() == before.live());
                self.wait_and_fire(seq, deadline)
            },
            SleepDecision::RunLive => {
                self.mode = Mode::Live;
                let ghost start = self.state();
                assert(start == before.live());
                let ghost acts = model::schedule_timer_acts(seq@, deadline@);
                let ghost ending = model::rearm_acts(seq@, deadline@);
                proof {
                    model::lemma_does_next(start, acts, 0);
                    model::lemma_does_next(start, acts, 1);
                    assert(model::sleep_acts(seq@, deadline@) == acts + ending);
                }
                if let Err(error) = self.append(JournalEvent::TimerScheduled { seq, deadline }) {
                    proof {
                        assert(model::halts(
                            start.does_all(acts.take(0)),
                            acts[0],
                            self.state(),
                            error@,
                        ));
                        model::lemma_runs_halted(start, acts, ending, self.state(), error@);
                    }
                    return Err(error);
                }
                if let Err(error) = self.checkpoint(CrashPoint::AfterTimerScheduled(seq)) {
                    proof {
                        assert(model::halts(
                            start.does_all(acts.take(1)),
                            acts[1],
                            self.state(),
                            error@,
                        ));
                        model::lemma_runs_halted(start, acts, ending, self.state(), error@);
                    }
                    return Err(error);
                }
                let ghost middle = self.state();
                let r = self.wait_and_fire(seq, deadline);
                proof {
                    model::lemma_runs_add(
                        start,
                        acts,
                        middle,
                        ending,
                        self.state(),
                        model::error_of(result_view(r)),
                    );
                }
                r
            },
        }
    }

    /// Waits for `deadline` and journals that the timer fired.
    fn wait_and_fire(&mut self, seq: SeqNum, deadline: Deadline) -> (r: Result<(), EngineError>)
        requires
            fires_after_waiting::<S, C>(old(self).state().execution, seq@, deadline@),
        ensures
            model::runs(
                old(self).state(),
                model::rearm_acts(seq@, deadline@),
                final(self).state(),
                model::error_of(result_view(r)),
            ),
            final(self).state().replay == old(self).state().replay,
    {
        let ghost start = self.state();
        let ghost acts = model::rearm_acts(seq@, deadline@);
        proof {
            model::lemma_does_next(start, acts, 0);
            model::lemma_does_next(start, acts, 1);
            model::lemma_does_next(start, acts, 2);
        }
        self.clock.sleep_until(deadline.timestamp());
        if let Err(error) = self.append(JournalEvent::TimerFired { seq }) {
            assert(model::halts(start.does_all(acts.take(1)), acts[1], self.state(), error@));
            return Err(error);
        }
        match self.checkpoint(CrashPoint::AfterTimerFired(seq)) {
            Ok(()) => Ok(()),
            Err(error) => {
                assert(model::halts(start.does_all(acts.take(2)), acts[2], self.state(), error@));
                Err(error)
            },
        }
    }

    /// Runs (or replays) a step. `f` receives an `IdempotencyKey` and may do
    /// arbitrary I/O; it is the unit of atomicity and recovery. `f` is called
    /// at most once, and only where the step runs live: once its
    /// `StepStarted` is durable and the run has passed the window after it,
    /// and before the run comes to the window after its side effect.
    pub fn step<F>(&mut self, name: StepName, f: F) -> (r: Result<EventPayload, StepError>) where
        F: FnOnce(IdempotencyKey) -> Result<EventPayload, StepErrorRecord>,

        requires
            old(self).state().ready(),
            model::step_is_live(old(self).state(), name@) ==> callable_once_started::<S, P, F>(
                f,
                old(self).state().execution,
                old(self).state().position,
            ),
            reached_once_answered::<P, F>(
                f,
                old(self).state().execution,
                old(self).state().position,
            ),
        ensures
            model::step_does(old(self).state(), name@, final(self).state(), step_result_view(r)),
            final(self).state().effects != old(self).state().effects ==> answered(
                f,
                old(self).state().execution,
                old(self).state().position,
                final(self).state().effects.last().answer,
            ),
            final(self).state().attempts_fit(),
    {
        let ghost before = self.state();
        if let Err(error) = self.refuse_after_crash() {
            return Err(StepError::Engine(error));
        }
        let seq = self.seq;
        self.seq = self.seq.next();
        let decision = match &mut self.mode {
            Mode::Replaying(cursor) => replay_step(cursor, seq, &name),
            Mode::Live => StepDecision::RunLive(LiveEntry::Fresh),
        };
        match decision {
            StepDecision::UseRecorded(result) => {
                proof {
                    let left = before.replay->0;
                    let rest = left.skip(1);
                    let attempts = model::leading_starts(rest);
                    model::lemma_leading_starts_bound(rest);
                    model::lemma_retries_fit_skip(left, 1);
                    model::lemma_retries_fit_skip(rest, attempts as int);
                    if attempts < rest.len() {
                        model::lemma_retries_fit_skip(rest.skip(attempts as int), 1);
                    }
                }
                result
            },
            StepDecision::RunLive(entry) => {
                self.mode = Mode::Live;
                assert(self.state() == before.live());
                self.run_live(seq, name, f, entry)
            },
        }
    }

    /// Executes `f` for real: schedules (unless a crash-cut attempt already
    /// did), starts, runs, and journals the outcome.
    fn run_live<F>(&mut self, seq: SeqNum, name: StepName, f: F, entry: LiveEntry) -> (r: Result<
        EventPayload,
        StepError,
    >) where F: FnOnce(IdempotencyKey) -> Result<EventPayload, StepErrorRecord>
        requires
            callable_once_started::<S, P, F>(f, old(self).state().execution, seq@),
            reached_once_answered::<P, F>(f, old(self).state().execution, seq@),
        ensures
            exists|answer: Result<Seq<u8>, Seq<char>>|
                model::step_runs(
                    old(self).state(),
                    entry_acts(entry, seq@, name@) + #[trigger] model::attempt_acts(
                        seq@,
                        name@,
                        entry_attempt(entry),
                        answer,
                    ),
                    answer,
                    final(self).state(),
                    step_result_view(r),
                ),
            final(self).state().effects != old(self).state().effects ==> answered(
                f,
                old(self).state().execution,
                seq@,
                final(self).state().effects.last().answer,
            ),
            final(self).state().replay == old(self).state().replay,
    {
        let ghost start = self.state();
        let ghost opening = entry_acts(entry, seq@, name@);
        let ghost number = entry_attempt(entry);
        let attempt = match entry {
            LiveEntry::Fresh => {
                if let Err(error) = self.schedule(seq, &name) {
                    proof {
                        let answer = Ok::<Seq<u8>, Seq<char>>(Seq::empty());
                        let ending = model::attempt_acts(seq@, name@, number, answer);
                        model::lemma_runs_halted(start, opening, ending, self.state(), error@);
                        assert(model::step_runs(
                            start,
                            opening + ending,
                            answer,
                            self.state(),
                            Err(StepErrorView::Engine(error@)),
                        ));
                    }
                    return Err(StepError::Engine(error));
                }
                Attempt::first()
            },
            LiveEntry::Retry { attempt } => attempt,
        };
        let ghost middle = self.state();
        assert(model::runs(start, opening, middle, None));
        assert(attempt@ == number);
        let r = self.run_attempt(seq, name, attempt, f);
        proof {
            let answer = choose|answer: Result<Seq<u8>, Seq<char>>|
                model::step_runs(
                    middle,
                    #[trigger] model::attempt_acts(seq@, name@, number, answer),
                    answer,
                    self.state(),
                    step_result_view(r),
                );
            let ending = model::attempt_acts(seq@, name@, number, answer);
            let error = choose|error: Option<EngineErrorView>| #[trigger]
                model::runs(middle, ending, self.state(), error) && step_result_view(r)
                    == model::step_return(answer, error);
            model::lemma_runs_add(start, opening, middle, ending, self.state(), error);
            assert(model::step_runs(
                start,
                opening + ending,
                answer,
                self.state(),
                step_result_view(r),
            ));
        }
        r
    }

    /// Schedules a step.
    fn schedule(&mut self, seq: SeqNum, name: &StepName) -> (r: Result<(), EngineError>)
        ensures
            model::runs(
                old(self).state(),
                model::schedule_acts(seq@, name@),
                final(self).state(),
                model::error_of(result_view(r)),
            ),
            final(self).state().effects == old(self).state().effects,
            final(self).state().replay == old(self).state().replay,
            final(self).state().execution == old(self).state().execution,
    {
        let ghost start = self.state();
        let ghost acts = model::schedule_acts(seq@, name@);
        proof {
            model::lemma_does_next(start, acts, 0);
            model::lemma_does_next(start, acts, 1);
            model::lemma_does_next(start, acts, 2);
        }
        if let Err(error) = self.checkpoint(CrashPoint::BeforeStepScheduled(seq)) {
            assert(model::halts(start.does_all(acts.take(0)), acts[0], self.state(), error@));
            return Err(error);
        }
        assert(self.state() == start.does_all(acts.take(1)));
        if let Err(error) = self.append(
            JournalEvent::StepScheduled { seq, name: name.clone() },
        ) {
            assert(model::halts(start.does_all(acts.take(1)), acts[1], self.state(), error@));
            return Err(error);
        }
        assert(self.state() == start.does_all(acts.take(2)));
        match self.checkpoint(CrashPoint::AfterStepScheduled(seq)) {
            Ok(()) => {
                assert(self.state() == start.does_all(acts));
                Ok(())
            },
            Err(error) => {
                assert(model::halts(start.does_all(acts.take(2)), acts[2], self.state(), error@));
                Err(error)
            },
        }
    }

    /// Makes one attempt at a scheduled step.
    fn run_attempt<F>(&mut self, seq: SeqNum, name: StepName, attempt: Attempt, f: F) -> (r: Result<
        EventPayload,
        StepError,
    >) where F: FnOnce(IdempotencyKey) -> Result<EventPayload, StepErrorRecord>
        requires
            callable_once_started::<S, P, F>(f, old(self).state().execution, seq@),
            reached_once_answered::<P, F>(f, old(self).state().execution, seq@),
        ensures
            exists|answer: Result<Seq<u8>, Seq<char>>|
                model::step_runs(
                    old(self).state(),
                    #[trigger] model::attempt_acts(seq@, name@, attempt@, answer),
                    answer,
                    final(self).state(),
                    step_result_view(r),
                ),
            final(self).state().effects != old(self).state().effects ==> answered(
                f,
                old(self).state().execution,
                seq@,
                final(self).state().effects.last().answer,
            ),
            final(self).state().replay == old(self).state().replay,
    {
        let ghost start = self.state();
        let ghost opening = model::start_acts(seq@, attempt@);
        if let Err(error) = self.start_attempt(seq, attempt) {
            proof {
                let answer = Ok::<Seq<u8>, Seq<char>>(Seq::empty());
                let effect = Effect { seq: seq@, name: name@, answer };
                let performing = seq![Act::Perform(effect)];
                let ending = model::outcome_acts(seq@, attempt@, answer);
                model::lemma_runs_halted(start, opening, performing, self.state(), error@);
                model::lemma_runs_halted(
                    start,
                    opening + performing,
                    ending,
                    self.state(),
                    error@,
                );
                assert(model::step_runs(
                    start,
                    model::attempt_acts(seq@, name@, attempt@, answer),
                    answer,
                    self.state(),
                    Err(StepErrorView::Engine(error@)),
                ));
            }
            return Err(StepError::Engine(error));
        }
        let ghost started = self.state();
        let key = IdempotencyKey::new(self.execution, seq);
        let answer = f(key);
        let ghost given = step::answer_view(answer);
        let ghost effect = Effect { seq: seq@, name: name@, answer: given };
        let ghost performing = seq![Act::Perform(effect)];
        assert(answered(f, start.execution, seq@, given));
        self.effects = Ghost(self.effects@.push(effect));
        let ghost performed = self.state();
        proof {
            model::lemma_does_next(started, performing, 0);
            model::lemma_runs_add(start, opening, started, performing, performed, None);
        }
        match self.journal_outcome(seq, attempt, &answer) {
            Err(error) => {
                proof {
                    model::lemma_runs_add(
                        start,
                        opening + performing,
                        performed,
                        model::outcome_acts(seq@, attempt@, given),
                        self.state(),
                        Some(error@),
                    );
                    assert(model::step_runs(
                        start,
                        model::attempt_acts(seq@, name@, attempt@, given),
                        given,
                        self.state(),
                        Err(StepErrorView::Engine(error@)),
                    ));
                }
                Err(StepError::Engine(error))
            },
            Ok(()) => {
                proof {
                    model::lemma_runs_add(
                        start,
                        opening + performing,
                        performed,
                        model::outcome_acts(seq@, attempt@, given),
                        self.state(),
                        None,
                    );
                    assert(model::step_runs(
                        start,
                        model::attempt_acts(seq@, name@, attempt@, given),
                        given,
                        self.state(),
                        model::step_return(given, None),
                    ));
                }
                match answer {
                    Ok(result) => Ok(result),
                    Err(error) => Err(StepError::Failed(error)),
                }
            },
        }
    }

    /// Journals the start of an attempt.
    fn start_attempt(&mut self, seq: SeqNum, attempt: Attempt) -> (r: Result<(), EngineError>)
        ensures
            model::runs(
                old(self).state(),
                model::start_acts(seq@, attempt@),
                final(self).state(),
                model::error_of(result_view(r)),
            ),
            r is Ok ==> started::<S, P>(old(self).state().execution, seq@),
            final(self).state().effects == old(self).state().effects,
            final(self).state().replay == old(self).state().replay,
            final(self).state().execution == old(self).state().execution,
    {
        let ghost start = self.state();
        let ghost acts = model::start_acts(seq@, attempt@);
        proof {
            model::lemma_does_next(start, acts, 0);
            model::lemma_does_next(start, acts, 1);
        }
        if let Err(error) = self.append(JournalEvent::StepStarted { seq, attempt }) {
            assert(model::halts(start.does_all(acts.take(0)), acts[0], self.state(), error@));
            return Err(error);
        }
        assert(self.state() == start.does_all(acts.take(1)));
        match self.checkpoint(CrashPoint::AfterStepStarted(seq)) {
            Ok(()) => {
                assert(self.state() == start.does_all(acts));
                Ok(())
            },
            Err(error) => {
                assert(model::halts(start.does_all(acts.take(1)), acts[1], self.state(), error@));
                Err(error)
            },
        }
    }

    /// Journals what a step's closure answered.
    fn journal_outcome(
        &mut self,
        seq: SeqNum,
        attempt: Attempt,
        answer: &Result<EventPayload, StepErrorRecord>,
    ) -> (r: Result<(), EngineError>)
        requires
            answer is Ok ==> P::admits(Window::AfterSideEffect(seq@)),
        ensures
            model::runs(
                old(self).state(),
                model::outcome_acts(seq@, attempt@, step::answer_view(*answer)),
                final(self).state(),
                model::error_of(result_view(r)),
            ),
            final(self).state().effects == old(self).state().effects,
            final(self).state().replay == old(self).state().replay,
            final(self).state().execution == old(self).state().execution,
    {
        let ghost start = self.state();
        let ghost acts = model::outcome_acts(seq@, attempt@, step::answer_view(*answer));
        proof {
            model::lemma_does_next(start, acts, 0);
        }
        match answer {
            Ok(result) => {
                proof {
                    model::lemma_does_next(start, acts, 1);
                    model::lemma_does_next(start, acts, 2);
                }
                if let Err(error) = self.checkpoint(CrashPoint::AfterSideEffect(seq)) {
                    assert(model::halts(
                        start.does_all(acts.take(0)),
                        acts[0],
                        self.state(),
                        error@,
                    ));
                    return Err(error);
                }
                if let Err(error) = self.append(
                    JournalEvent::StepCompleted { seq, result: result.clone() },
                ) {
                    assert(model::halts(
                        start.does_all(acts.take(1)),
                        acts[1],
                        self.state(),
                        error@,
                    ));
                    return Err(error);
                }
                match self.checkpoint(CrashPoint::AfterStepCompleted(seq)) {
                    Ok(()) => Ok(()),
                    Err(error) => {
                        assert(model::halts(
                            start.does_all(acts.take(2)),
                            acts[2],
                            self.state(),
                            error@,
                        ));
                        Err(error)
                    },
                }
            },
            Err(failure) => {
                match self.append(
                    JournalEvent::StepFailed { seq, attempt, error: failure.clone() },
                ) {
                    Ok(()) => Ok(()),
                    Err(error) => {
                        assert(model::halts(
                            start.does_all(acts.take(0)),
                            acts[0],
                            self.state(),
                            error@,
                        ));
                        Err(error)
                    },
                }
            },
        }
    }
}

/// Every closure is called with the key of its own step: the execution and
/// the position that the key gives out are those of the step, and what came
/// back is what the step journals.
pub proof fn closures_get_the_key_of_their_step<F>(
    f: F,
    execution: Seq<u8>,
    seq: nat,
    answer: Result<Seq<u8>, Seq<char>>,
) -> (call: (IdempotencyKey, Result<EventPayload, StepErrorRecord>)) where
    F: FnOnce(IdempotencyKey) -> Result<EventPayload, StepErrorRecord>,

    requires
        answered(f, execution, seq, answer),
    ensures
        call_ensures(f, (call.0,), call.1),
        forall|id: ExecutionId|
            #[trigger] call_ensures(IdempotencyKey::execution, (&call.0,), id) ==> id@ == execution,
        forall|position: SeqNum|
            #[trigger] call_ensures(IdempotencyKey::seq, (&call.0,), position) ==> position@ == seq,
        call.1 matches Ok(payload) ==> answer == Ok::<Seq<u8>, Seq<char>>(payload@),
        call.1 matches Err(error) ==> answer == Err::<Seq<u8>, Seq<char>>(error@),
{
    let (key, given) = choose|key: IdempotencyKey, given: Result<EventPayload, StepErrorRecord>|
        {
            &&& key@ == (execution, seq)
            &&& #[trigger] call_ensures(f, (key,), given)
            &&& step::answer_view(given) == answer
        };
    (key, given)
}

/// An engine error is told in full: a store's failure as the store's own
/// error is, and each of the others with all its parts, as their `Debug`
/// writes them, in this order.
pub proof fn engine_errors_are_told_in_full(error: EngineError, told: String)
    requires
        call_ensures(EngineError::message, (&error,), told),
    ensures
        error matches EngineError::Journal(fault) ==> forall|cause: String|
            #[trigger] call_ensures(JournalError::message, (&fault,), cause) ==> told@
                == "journal error: "@ + cause@,
        error matches EngineError::InjectedCrash(point) ==> exists|at: Seq<char>| #[trigger]
            engine::debug_writes(point, at) && told@ == "injected crash at "@ + at,
        error matches EngineError::VersionMismatch { recorded, current } ==> exists|
            journaled: Seq<char>,
            asked: Seq<char>,
        | #[trigger]
            engine::debug_writes(recorded, journaled) && #[trigger] engine::debug_writes(
                current,
                asked,
            ) && told@ == "workflow version mismatch: journal "@ + journaled + ", code "@ + asked,
        error matches EngineError::Nondeterminism { seq, expected, got } ==> exists|
            at: Seq<char>,
            journaled: Seq<char>,
            asked: Seq<char>,
        | #[trigger]
            engine::debug_writes(seq, at) && #[trigger] engine::debug_writes(expected, journaled)
                && #[trigger] engine::debug_writes(got, asked) && told@
                == "nondeterministic workflow at seq "@ + at + ": journal has "@ + journaled
                + ", code produced "@ + asked,
{
}

} // verus!
