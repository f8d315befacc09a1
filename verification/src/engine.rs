//! Execution lifecycle typestate, workflow orchestration, and the engine
//! itself.

use std::fmt::Debug;
use std::marker::PhantomData;

use vstd::prelude::*;

use crate::context;
use crate::context::EngineError;
use crate::context::EngineErrorView;
use crate::context::ReplayCursor;
use crate::context::WorkflowCtx;
use crate::equivalence::SupportedOn;
use crate::execution::ExecutionId;
use crate::execution::WorkflowErrorRecord;
use crate::execution::WorkflowName;
use crate::execution::WorkflowVersion;
use crate::failpoints;
use crate::failpoints::CrashStatus;
use crate::failpoints::FailpointDecision;
use crate::failpoints::FailpointPolicy;
use crate::failpoints::NeverCrash;
use crate::failpoints::Window;
use crate::journal;
use crate::journal::EventPayload;
use crate::journal::EventView;
use crate::journal::Journal;
use crate::journal::JournalEvent;
use crate::journal::JournalStore;
use crate::model;
use crate::model::Act;
use crate::model::RunState;
use crate::random::RngSource;
use crate::time::Clock;

verus! {

/// Journal empty: no `ExecutionStarted` yet.
pub struct Created;

/// `ExecutionStarted` appended; workflow run in progress.
pub struct Running;

/// Terminal: `ExecutionCompleted` appended.
pub struct Completed;

/// Terminal: `ExecutionFailed` appended.
pub struct Failed;

/// An execution's identity, tagged with its lifecycle state at the type
/// level. Illegal transitions (completing a `Created` execution, resuming a
/// `Completed` one) do not compile.
pub struct Execution<State> {
    id: ExecutionId,
    state: PhantomData<State>,
}

/// `event` is appended to the journal of the execution `id`, or the store
/// fails and the error is `r`'s.
pub open spec fn appends<S: JournalStore, T>(
    before: S,
    id: Seq<u8>,
    event: EventView,
    after: S,
    r: Result<T, EngineError>,
) -> bool {
    &&& after.fallible() == before.fallible()
    &&& match r {
        Ok(_) => {
            &&& after.journals() == journal::appended(before.journals(), id, event)
            &&& after.failures() == before.failures()
        },
        Err(error) => {
            &&& before.fallible()
            &&& error matches EngineError::Journal(fault)
            &&& after.failures() == before.failures().push(fault@)
            &&& after.journals() == before.journals() || after.journals() == journal::appended(
                before.journals(),
                id,
                event,
            )
        },
    }
}

/// Appends `event` to the journal of `id`.
fn append_event<S: JournalStore>(store: &mut S, id: &ExecutionId, event: JournalEvent) -> (r: Result<
    (),
    EngineError,
>)
    requires
        !(event@ is TimerFired),
    ensures
        appends(*old(store), id@, event@, *final(store), r),
{
    match store.append(id, event) {
        Ok(_) => Ok(()),
        Err(error) => Err(EngineError::from(error)),
    }
}

impl<State> Execution<State> {
    /// The identity of this execution.
    pub closed spec fn identity(&self) -> Seq<u8> {
        self.id@
    }

    pub fn id(&self) -> (r: ExecutionId)
        ensures
            r@ == self.identity(),
    {
        self.id
    }
}

impl Execution<Created> {
    pub fn new(id: ExecutionId) -> (r: Self)
        ensures
            r.identity() == id@,
    {
        Self { id, state: PhantomData }
    }

    /// Appends `ExecutionStarted`, transitions to `Running`. Consumes self.
    pub fn start<S: JournalStore>(
        self,
        store: &mut S,
        workflow: WorkflowName,
        version: WorkflowVersion,
        input: EventPayload,
    ) -> (r: Result<Execution<Running>, EngineError>)
        ensures
            appends(
                *old(store),
                self.identity(),
                EventView::ExecutionStarted {
                    workflow: workflow@,
                    version: version@,
                    input: input@,
                },
                *final(store),
                r,
            ),
            r matches Ok(running) ==> running.identity() == self.identity(),
    {
        match append_event(
            store,
            &self.id,
            JournalEvent::ExecutionStarted { workflow, version, input },
        ) {
            Ok(()) => Ok(Execution { id: self.id, state: PhantomData }),
            Err(error) => Err(error),
        }
    }

    /// Inspects the journal tail and re-enters the correct state.
    ///
    /// # Errors
    /// `VersionMismatch` if the journal's recorded workflow version differs
    /// from `current_version`. `Journal` if the store cannot be reached.
    pub fn recover<S: JournalStore>(
        store: &S,
        id: ExecutionId,
        current_version: &WorkflowVersion,
    ) -> (r: Result<RecoveredExecution, EngineError>)
        ensures
            ({
                ||| r matches Err(EngineError::Journal(fault)) && call_ensures(
                    S::load,
                    (store, &id),
                    Err(fault),
                )
                ||| recovers(
                    journal::journal_of(store.journals(), id@),
                    id@,
                    current_version@,
                    r,
                )
            }),
    {
        match store.load(&id) {
            Ok(journal) => Self::recover_from(journal, id, current_version),
            Err(error) => Err(EngineError::from(error)),
        }
    }

    /// Where the loaded `journal` of `id` leaves the execution.
    ///
    /// # Errors
    /// `VersionMismatch` if the journal's recorded workflow version differs
    /// from `current_version`.
    pub fn recover_from(
        journal: Journal,
        id: ExecutionId,
        current_version: &WorkflowVersion,
    ) -> (r: Result<RecoveredExecution, EngineError>)
        ensures
            recovers(journal@, id@, current_version@, r),
    {
        let events = journal.events();
        let count = events.len();
        if count == 0 {
            assert(journal@ =~= Seq::<EventView>::empty());
            let cursor = ReplayCursor::new(journal);
            return Ok(
                RecoveredExecution::StillRunning(Execution { id, state: PhantomData }, cursor),
            );
        }
        assert(journal@[0] == events@[0]@);
        assert(journal@.last() == events@.last()@);
        if let JournalEvent::ExecutionStarted { version: recorded, .. } = &events[0] {
            if !recorded.same_version(current_version) {
                return Err(
                    EngineError::VersionMismatch {
                        recorded: recorded.clone(),
                        current: current_version.clone(),
                    },
                );
            }
        }
        match &events[count - 1] {
            JournalEvent::ExecutionCompleted { output } => {
                let execution = Execution { id, state: PhantomData };
                Ok(RecoveredExecution::AlreadyCompleted(execution, output.clone()))
            },
            JournalEvent::ExecutionFailed { error } => {
                let execution = Execution { id, state: PhantomData };
                Ok(RecoveredExecution::AlreadyFailed(execution, error.clone()))
            },
            _ => {
                // `ExecutionStarted` is the execution-level bookmark, not a
                // per-command event; the replay cursor walks commands only.
                let mut cursor = ReplayCursor::new(journal);
                cursor.advance();
                let execution = Execution { id, state: PhantomData };
                Ok(RecoveredExecution::StillRunning(execution, cursor))
            },
        }
    }
}

impl Execution<Running> {
    /// Appends `ExecutionCompleted`, transitions to `Completed`. Terminal:
    /// no further transitions exist for `Execution<Completed>`.
    pub fn complete<S: JournalStore>(self, store: &mut S, output: EventPayload) -> (r: Result<
        Execution<Completed>,
        EngineError,
    >)
        ensures
            appends(
                *old(store),
                self.identity(),
                EventView::ExecutionCompleted { output: output@ },
                *final(store),
                r,
            ),
            r matches Ok(completed) ==> completed.identity() == self.identity(),
    {
        match append_event(store, &self.id, JournalEvent::ExecutionCompleted { output }) {
            Ok(()) => Ok(Execution { id: self.id, state: PhantomData }),
            Err(error) => Err(error),
        }
    }

    /// Appends `ExecutionFailed`, transitions to `Failed`. Terminal: no
    /// further transitions exist for `Execution<Failed>`.
    pub fn fail<S: JournalStore>(self, store: &mut S, error: WorkflowErrorRecord) -> (r: Result<
        Execution<Failed>,
        EngineError,
    >)
        ensures
            appends(
                *old(store),
                self.identity(),
                EventView::ExecutionFailed { error: error@ },
                *final(store),
                r,
            ),
            r matches Ok(failed) ==> failed.identity() == self.identity(),
    {
        match append_event(store, &self.id, JournalEvent::ExecutionFailed { error }) {
            Ok(()) => Ok(Execution { id: self.id, state: PhantomData }),
            Err(error) => Err(error),
        }
    }
}

/// Where `Execution::recover` found an execution, from the journal tail.
pub enum RecoveredExecution {
    StillRunning(Execution<Running>, ReplayCursor),
    AlreadyCompleted(Execution<Completed>, EventPayload),
    AlreadyFailed(Execution<Failed>, WorkflowErrorRecord),
}

/// Where a journal leaves its execution.
pub enum Recovery {
    /// It was started by another version of the workflow.
    Mismatch { recorded: Seq<char> },
    /// It is not over; `rest` is to be replayed.
    Running { rest: Seq<EventView> },
    Completed { output: Seq<u8> },
    Failed { error: Seq<char> },
}

/// Where `journal` leaves its execution for version `current` of the
/// workflow. A recorded version is checked before anything else; the last
/// event tells whether the execution is over.
pub open spec fn recovery(journal: Seq<EventView>, current: Seq<char>) -> Recovery {
    if journal.len() == 0 {
        Recovery::Running { rest: Seq::empty() }
    } else {
        match (journal[0], journal.last()) {
            (EventView::ExecutionStarted { version, .. }, _) if version != current => {
                Recovery::Mismatch { recorded: version }
            },
            (_, EventView::ExecutionCompleted { output }) => Recovery::Completed { output },
            (_, EventView::ExecutionFailed { error }) => Recovery::Failed { error },
            _ => Recovery::Running { rest: journal.skip(1) },
        }
    }
}

/// `r` is the recovery of `journal` for the execution `id`.
pub open spec fn recovers(
    journal: Seq<EventView>,
    id: Seq<u8>,
    current: Seq<char>,
    r: Result<RecoveredExecution, EngineError>,
) -> bool {
    match recovery(journal, current) {
        Recovery::Mismatch { recorded } => r matches Err(error) && error@
            == (EngineErrorView::VersionMismatch { recorded, current }),
        Recovery::Running { rest } => {
            &&& r matches Ok(RecoveredExecution::StillRunning(execution, cursor))
            &&& execution.identity() == id
            &&& cursor@ == rest
        },
        Recovery::Completed { output } => {
            &&& r matches Ok(RecoveredExecution::AlreadyCompleted(execution, recorded))
            &&& execution.identity() == id
            &&& recorded@ == output
        },
        Recovery::Failed { error } => {
            &&& r matches Ok(RecoveredExecution::AlreadyFailed(execution, recorded))
            &&& execution.identity() == id
            &&& recorded@ == error
        },
    }
}

/// The commands of a run can be done in order: the firing of a timer can be
/// journaled once the clock has waited, and the window after a side effect
/// can be reached.
pub open spec fn in_order<S: JournalStore, C: Clock, P: FailpointPolicy>(execution: Seq<u8>) -> bool {
    &&& forall|seq: nat, deadline: nat| #[trigger]
        context::fires_after_waiting::<S, C>(execution, seq, deadline)
    &&& forall|seq: nat| #[trigger] P::admits(Window::AfterSideEffect(seq))
}

/// A workflow definition. Pure except for effects requested through `ctx`.
/// Input and output cross the boundary as opaque payloads; a typed
/// wrapper's own encode/decode lives at the caller's boundary, not here.
pub trait Workflow<S: JournalStore> {
    type Error: Debug;

    /// The name of this workflow.
    closed spec fn named(&self) -> Seq<char> {
        arbitrary()
    }

    /// The version of this workflow.
    closed spec fn versioned(&self) -> Seq<char> {
        arbitrary()
    }

    /// Whether a run over `input` can take the state `before` to `after` and
    /// return `result`.
    open spec fn outcome(
        &self,
        input: Seq<u8>,
        before: RunState,
        after: RunState,
        result: Result<EventPayload, Self::Error>,
    ) -> bool {
        true
    }

    fn name(&self) -> (r: WorkflowName)
        ensures
            r@ == self.named(),
    ;

    fn version(&self) -> (r: WorkflowVersion)
        ensures
            r@ == self.versioned(),
    ;

    fn run<C: Clock, R: RngSource, P: FailpointPolicy>(
        &self,
        ctx: &mut WorkflowCtx<S, C, R, P>,
        input: EventPayload,
    ) -> (r: Result<EventPayload, Self::Error>)
        requires
            old(ctx).state().position == 0,
            old(ctx).state().crash is None,
            old(ctx).state().attempts_fit(),
            in_order::<S, C, P>(old(ctx).state().execution),
        ensures
            model::evolves(old(ctx).state(), final(ctx).state()),
            self.outcome(input@, old(ctx).state(), final(ctx).state(), r),
    ;
}

/// Failures from `Engine::run` / `Engine::recover_and_run`. A recovered
/// failure surfaces only the journaled `WorkflowErrorRecord`: once an error
/// crosses the journal boundary as a record, the original typed `E` cannot
/// be reconstructed without a codec, so pretending otherwise would lie.
#[derive(Debug)]
pub enum RunError<E> {
    Engine(EngineError),
    Workflow(E),
    Recovered(WorkflowErrorRecord),
}

/// `format!` with `{:?}` of an error: the text that the error's own `Debug`
/// writes. Nothing is claimed of the text, nor that it is the same each time.
#[verifier::external_body]
pub(crate) fn debug_text<E: Debug>(error: &E) -> (r: String) {
    format!("{error:?}")
}

/// `text` is what the `Debug` of `error` can write.
pub closed spec fn debug_writes<E: Debug>(error: E, text: Seq<char>) -> bool {
    exists|s: String| s@ == text && #[trigger] call_ensures(debug_text::<E>, (&error,), s)
}

/// What `debug_text` returned is what the `Debug` of its argument can write.
pub(crate) proof fn lemma_debug_writes<E: Debug>(error: &E, text: String)
    requires
        call_ensures(debug_text::<E>, (error,), text),
    ensures
        debug_writes(*error, text@),
{
}

/// How a run ends whose workflow came back with `result` in state `ran`. A
/// crash stands for process death: nothing more is journaled, whatever the
/// workflow made of it. Otherwise the result is journaled before it is
/// returned.
pub open spec fn ends<E: Debug>(
    ran: RunState,
    result: Result<EventPayload, E>,
    after: RunState,
    r: Result<EventPayload, RunError<E>>,
) -> bool {
    match ran.crash {
        Some(window) => {
            &&& after == ran
            &&& r matches Err(RunError::Engine(error))
            &&& error@ == EngineErrorView::InjectedCrash(window)
        },
        None => match result {
            Ok(output) => {
                let act = Act::Append(EventView::ExecutionCompleted { output: output@ });
                match r {
                    Ok(returned) => returned@ == output@ && after == ran.does(act),
                    Err(RunError::Engine(error)) => model::halts(ran, act, after, error@),
                    Err(_) => false,
                }
            },
            Err(failure) => exists|text: Seq<char>| #[trigger]
                debug_writes(failure, text) && {
                    let act = Act::Append(EventView::ExecutionFailed { error: text });
                    match r {
                        Ok(_) => false,
                        Err(RunError::Workflow(returned)) => returned == failure && after
                            == ran.does(act),
                        Err(RunError::Engine(error)) => model::halts(ran, act, after, error@),
                        Err(RunError::Recovered(_)) => false,
                    }
                },
        },
    }
}

/// What it takes to run `workflow` over `input` from the state `start` to
/// its end.
pub open spec fn finishes<S: JournalStore, W: Workflow<S>>(
    workflow: W,
    input: Seq<u8>,
    start: RunState,
    after: RunState,
    r: Result<EventPayload, RunError<W::Error>>,
) -> bool {
    exists|ran: RunState, result: Result<EventPayload, W::Error>|
        {
            &&& #[trigger] workflow.outcome(input, start, ran, result)
            &&& model::evolves(start, ran)
            &&& ends(ran, result, after, r)
        }
}

/// What `Engine::run` comes to: `before` is the engine that the workflow
/// starts on and `after` the engine that is left; `clock` and `rng` are
/// handed in, and end as `clock_left` and `rng_left`.
pub open spec fn ran<S, E, P, W, C, R>(
    workflow: W,
    id: Seq<u8>,
    input: Seq<u8>,
    before: Engine<S, E, P>,
    clock: C,
    rng: R,
    after: Engine<S, E, P>,
    clock_left: C,
    rng_left: R,
    r: Result<EventPayload, RunError<W::Error>>,
) -> bool where
    S: JournalStore,
    E: SupportedOn<S>,
    P: FailpointPolicy,
    W: Workflow<S>,
    C: Clock,
    R: RngSource,
 {
    let act = Act::Append(
        EventView::ExecutionStarted {
            workflow: workflow.named(),
            version: workflow.versioned(),
            input,
        },
    );
    let start = before.starting(id, Seq::empty(), clock, rng);
    exists|state: RunState| #[trigger]
        after.left_in(clock_left, rng_left, state) && {
            ||| r matches Err(RunError::Engine(error)) && model::halts(start, act, state, error@)
            ||| finishes(workflow, input, start.does(act), state, r)
        }
}

/// What `Engine::recover_and_run` comes to, with the engine `before` and
/// `after` it, and the clock and the source of randomness that are handed in
/// and left. Unless the execution is still running, nothing is changed.
pub open spec fn recovered_and_ran<S, E, P, W, C, R>(
    workflow: W,
    id: ExecutionId,
    input: Seq<u8>,
    before: Engine<S, E, P>,
    clock: C,
    rng: R,
    after: Engine<S, E, P>,
    clock_left: C,
    rng_left: R,
    r: Result<EventPayload, RunError<W::Error>>,
) -> bool where
    S: JournalStore,
    E: SupportedOn<S>,
    P: FailpointPolicy,
    W: Workflow<S>,
    C: Clock,
    R: RngSource,
 {
    let unchanged = after == before && clock_left == clock && rng_left == rng;
    let journal = journal::journal_of(before.inner().journals(), id@);
    ||| unchanged && (r matches Err(RunError::Engine(EngineError::Journal(fault)))
        && call_ensures(S::load, (&before.inner(), &id), Err(fault)))
    ||| match recovery(journal, workflow.versioned()) {
        Recovery::Mismatch { recorded } => {
            &&& unchanged
            &&& r matches Err(RunError::Engine(error))
            &&& error@ == (EngineErrorView::VersionMismatch {
                recorded,
                current: workflow.versioned(),
            })
        },
        Recovery::Completed { output } => {
            &&& unchanged
            &&& r matches Ok(returned)
            &&& returned@ == output
        },
        Recovery::Failed { error } => {
            &&& unchanged
            &&& r matches Err(RunError::Recovered(returned))
            &&& returned@ == error
        },
        Recovery::Running { rest } => {
            let start = before.starting(id@, rest, clock, rng);
            exists|state: RunState| #[trigger]
                after.left_in(clock_left, rng_left, state) && finishes(
                    workflow,
                    input,
                    start,
                    state,
                    r,
                )
        },
    }
}

/// Runs workflows against a `JournalStore`, live or recovered, under
/// recovery-equivalence mode `E`. "Wipe the engine, keep the store" is:
/// take the store back with `into_store`, and build a fresh engine over it.
///
/// `E` is a compile-time contract, not yet a runtime behavior switch: an
/// engine in mode `ExactlyOnce` over a store that is not a
/// `TransactionalBoundary` does not compile. The API teaches the
/// impossibility before any workflow runs.
pub struct Engine<S: JournalStore, E: SupportedOn<S>, P: FailpointPolicy = NeverCrash> {
    held: Option<(S, P)>,
    mode: PhantomData<E>,
}

impl<S: JournalStore, E: SupportedOn<S>> Engine<S, E, NeverCrash> {
    /// An engine that never crashes.
    pub fn new(store: S) -> (r: Self)
        ensures
            r.idle(),
            r.inner() == store,
            !r.armed(),
            r.decides() == failpoints::never_crashes(),
            r.consulted() == Seq::<(Window, FailpointDecision)>::empty(),
    {
        Self::with_failpoints(store, NeverCrash::new())
    }
}

impl<S: JournalStore, E: SupportedOn<S>, P: FailpointPolicy> Engine<S, E, P> {
    /// The engine is not in the middle of a run.
    pub closed spec fn idle(&self) -> bool {
        self.held is Some
    }

    /// The store of this engine.
    pub closed spec fn inner(&self) -> S {
        (self.held->0).0
    }

    /// Whether this engine's runs consult a failpoint policy.
    pub closed spec fn armed(&self) -> bool {
        (self.held->0).1.armed()
    }

    /// The decisions of the failpoint policy that are settled beforehand.
    pub closed spec fn decides(&self) -> Map<Window, FailpointDecision> {
        (self.held->0).1.decides()
    }

    /// Every window this engine's runs were consulted at.
    pub closed spec fn consulted(&self) -> Seq<(Window, FailpointDecision)> {
        (self.held->0).1.consulted()
    }

    /// The state that a run of the execution `id` starts in, with `events`
    /// to replay.
    pub open spec fn starting<C: Clock, R: RngSource>(
        &self,
        id: Seq<u8>,
        events: Seq<EventView>,
        clock: C,
        rng: R,
    ) -> RunState {
        model::starting(
            id,
            events,
            self.armed(),
            self.decides(),
            self.inner().journals(),
            self.inner().fallible(),
            self.inner().failures(),
            self.consulted(),
            clock.calls(),
            clock.reads(),
            rng.draws(),
            rng.gives(),
        )
    }

    /// Whether this engine, and the clock and the source of randomness that
    /// a run was handed, are left as a run that ended in `state` leaves them.
    pub open spec fn left_in<C: Clock, R: RngSource>(
        &self,
        clock: C,
        rng: R,
        state: RunState,
    ) -> bool {
        &&& self.inner().journals() == state.journals
        &&& self.inner().fallible() == state.fallible
        &&& self.inner().failures() == state.failures
        &&& self.armed() == state.armed
        &&& self.decides() == state.decisions
        &&& self.consulted() == state.consulted
        &&& clock.calls() == state.clock
        &&& clock.reads() == state.reading
        &&& rng.draws() == state.draws
        &&& rng.gives() == state.source
    }

    /// An engine whose runs consult `failpoints` at every crash window.
    pub fn with_failpoints(store: S, failpoints: P) -> (r: Self)
        ensures
            r.idle(),
            r.inner() == store,
            r.armed() == failpoints.armed(),
            r.decides() == failpoints.decides(),
            r.consulted() == failpoints.consulted(),
    {
        Self { held: Some((store, failpoints)), mode: PhantomData }
    }

    pub fn store(&self) -> (r: &S)
        requires
            self.idle(),
        ensures
            *r == self.inner(),
    {
        &self.held.as_ref().unwrap().0
    }

    /// Gives the store back.
    pub fn into_store(self) -> (r: S)
        requires
            self.idle(),
        ensures
            r == self.inner(),
    {
        self.held.unwrap().0
    }

    /// Starts a brand-new execution and runs `workflow` to completion, with
    /// `clock` and `rng`.
    pub fn run<W: Workflow<S>, C: Clock, R: RngSource>(
        &mut self,
        id: ExecutionId,
        workflow: &W,
        input: EventPayload,
        clock: C,
        rng: R,
    ) -> (r: Result<EventPayload, RunError<W::Error>>)
        requires
            old(self).idle(),
            in_order::<S, C, P>(id@),
        ensures
            final(self).idle(),
            exists|clock_left: C, rng_left: R|
                ran(
                    *workflow,
                    id@,
                    input@,
                    *old(self),
                    clock,
                    rng,
                    *final(self),
                    clock_left,
                    rng_left,
                    r,
                ),
    {
        let (r, _, _) = self.run_with(id, workflow, input, clock, rng);
        r
    }

    /// `run`, for a caller that wants its clock and its source of randomness
    /// back.
    pub fn run_with<W: Workflow<S>, C: Clock, R: RngSource>(
        &mut self,
        id: ExecutionId,
        workflow: &W,
        input: EventPayload,
        clock: C,
        rng: R,
    ) -> (r: (Result<EventPayload, RunError<W::Error>>, C, R))
        requires
            old(self).idle(),
            in_order::<S, C, P>(id@),
        ensures
            final(self).idle(),
            ran(
                *workflow,
                id@,
                input@,
                *old(self),
                clock,
                rng,
                *final(self),
                r.1,
                r.2,
                r.0,
            ),
    {
        let ghost start = self.starting(id@, Seq::empty(), clock, rng);
        let (store, failpoints) = self.held.take().unwrap();
        let mut store = store;
        let started = Execution::new(id).start(
            &mut store,
            workflow.name(),
            workflow.version(),
            input.clone(),
        );
        let execution = match started {
            Ok(execution) => execution,
            Err(error) => {
                let ghost after = RunState {
                    journals: store.journals(),
                    failures: store.failures(),
                    ..start
                };
                self.held = Some((store, failpoints));
                assert(self.left_in(clock, rng, after));
                return (Err(RunError::Engine(error)), clock, rng);
            },
        };
        let cursor = ReplayCursor::new(Journal::empty());
        let ctx = WorkflowCtx::with_failpoints(store, id, cursor, clock, rng, failpoints);
        self.finish(execution, ctx, workflow, input)
    }

    /// Recovers `id` and continues it, with `clock` and `rng`: replays
    /// journaled commands, and runs any unjournaled remainder live. An
    /// execution already terminal returns its recorded outcome without
    /// invoking `workflow.run` again.
    pub fn recover_and_run<W: Workflow<S>, C: Clock, R: RngSource>(
        &mut self,
        id: ExecutionId,
        workflow: &W,
        input: EventPayload,
        clock: C,
        rng: R,
    ) -> (r: Result<EventPayload, RunError<W::Error>>)
        requires
            old(self).idle(),
            in_order::<S, C, P>(id@),
            recovery(
                journal::journal_of(old(self).inner().journals(), id@),
                workflow.versioned(),
            ) matches Recovery::Running { rest } ==> model::retries_fit(rest),
        ensures
            final(self).idle(),
            exists|clock_left: C, rng_left: R|
                recovered_and_ran(
                    *workflow,
                    id,
                    input@,
                    *old(self),
                    clock,
                    rng,
                    *final(self),
                    clock_left,
                    rng_left,
                    r,
                ),
    {
        let (r, _, _) = self.recover_and_run_with(id, workflow, input, clock, rng);
        r
    }

    /// `recover_and_run`, for a caller that wants its clock and its source of
    /// randomness back.
    pub fn recover_and_run_with<W: Workflow<S>, C: Clock, R: RngSource>(
        &mut self,
        id: ExecutionId,
        workflow: &W,
        input: EventPayload,
        clock: C,
        rng: R,
    ) -> (r: (Result<EventPayload, RunError<W::Error>>, C, R))
        requires
            old(self).idle(),
            in_order::<S, C, P>(id@),
            recovery(
                journal::journal_of(old(self).inner().journals(), id@),
                workflow.versioned(),
            ) matches Recovery::Running { rest } ==> model::retries_fit(rest),
        ensures
            final(self).idle(),
            recovered_and_ran(
                *workflow,
                id,
                input@,
                *old(self),
                clock,
                rng,
                *final(self),
                r.1,
                r.2,
                r.0,
            ),
    {
        let version = workflow.version();
        let recovered = Execution::recover(self.store(), id, &version);
        match recovered {
            Err(error) => (Err(RunError::Engine(error)), clock, rng),
            Ok(RecoveredExecution::AlreadyCompleted(_, output)) => (Ok(output), clock, rng),
            Ok(RecoveredExecution::AlreadyFailed(_, error)) => (
                Err(RunError::Recovered(error)),
                clock,
                rng,
            ),
            Ok(RecoveredExecution::StillRunning(execution, cursor)) => {
                let (store, failpoints) = self.held.take().unwrap();
                let ctx = WorkflowCtx::with_failpoints(store, id, cursor, clock, rng, failpoints);
                self.finish(execution, ctx, workflow, input)
            },
        }
    }

    /// Runs `workflow` in `ctx`, journals how it ended, takes the store and the
    /// failpoints back, and hands out the clock and the source of randomness.
    fn finish<W: Workflow<S>, C: Clock, R: RngSource>(
        &mut self,
        execution: Execution<Running>,
        ctx: WorkflowCtx<S, C, R, P>,
        workflow: &W,
        input: EventPayload,
    ) -> (r: (Result<EventPayload, RunError<W::Error>>, C, R))
        requires
            in_order::<S, C, P>(execution.identity()),
            ctx.state().position == 0,
            ctx.state().crash is None,
            ctx.state().attempts_fit(),
            ctx.state().execution == execution.identity(),
        ensures
            final(self).idle(),
            exists|after: RunState| #[trigger]
                final(self).left_in(r.1, r.2, after) && finishes(
                    *workflow,
                    input@,
                    ctx.state(),
                    after,
                    r.0,
                ),
    {
        let mut ctx = ctx;
        let ghost start = ctx.state();
        let result = workflow.run(&mut ctx, input);
        let ghost ran = ctx.state();
        let status = ctx.crash_status();
        let (store, failpoints, clock, rng) = ctx.into_parts();
        let mut store = store;
        if let CrashStatus::Crashed(point) = status {
            self.held = Some((store, failpoints));
            let r = Err(RunError::Engine(EngineError::InjectedCrash(point)));
            assert(ends(ran, result, ran, r));
            let handed = (r, clock, rng);
            assert(self.left_in(handed.1, handed.2, ran));
            return handed;
        }
        match result {
            Ok(output) => {
                let completed = execution.complete(&mut store, output.clone());
                let ghost after = RunState {
                    journals: store.journals(),
                    failures: store.failures(),
                    ..ran
                };
                self.held = Some((store, failpoints));
                match completed {
                    Ok(_) => {
                        let ghost given: Result<EventPayload, W::Error> = Ok(output);
                        let r = Ok(output);
                        assert(ends(ran, given, after, r));
                        let handed = (r, clock, rng);
                        assert(self.left_in(handed.1, handed.2, after));
                        handed
                    },
                    Err(error) => {
                        let ghost given: Result<EventPayload, W::Error> = Ok(output);
                        let r = Err(RunError::Engine(error));
                        assert(ends(ran, given, after, r));
                        let handed = (r, clock, rng);
                        assert(self.left_in(handed.1, handed.2, after));
                        handed
                    },
                }
            },
            Err(failure) => {
                let text = debug_text(&failure);
                assert(debug_writes(failure, text@));
                let failed = execution.fail(&mut store, WorkflowErrorRecord::new(text.as_str()));
                let ghost after = RunState {
                    journals: store.journals(),
                    failures: store.failures(),
                    ..ran
                };
                self.held = Some((store, failpoints));
                let ghost given: Result<EventPayload, W::Error> = Err(failure);
                match failed {
                    Ok(_) => {
                        let r = Err(RunError::Workflow(failure));
                        assert(ends(ran, given, after, r));
                        let handed = (r, clock, rng);
                        assert(self.left_in(handed.1, handed.2, after));
                        handed
                    },
                    Err(error) => {
                        let r = Err(RunError::Engine(error));
                        assert(ends(ran, given, after, r));
                        let handed = (r, clock, rng);
                        assert(self.left_in(handed.1, handed.2, after));
                        handed
                    },
                }
            },
        }
    }
}

/// A run that completes is recovered as completed: over the journal that it
/// leaves, recovery finds its output, and has nothing to run.
pub proof fn completed_runs_are_recovered<S: JournalStore, W: Workflow<S>>(
    workflow: W,
    input: Seq<u8>,
    start: RunState,
    after: RunState,
    output: EventPayload,
)
    requires
        start.journal().len() > 0,
        start.journal()[0] matches EventView::ExecutionStarted { version, .. } && version
            == workflow.versioned(),
        finishes::<S, W>(workflow, input, start, after, Ok(output)),
    ensures
        recovery(after.journal(), workflow.versioned()) == (Recovery::Completed {
            output: output@,
        }),
{
    let (ran, result) = choose|ran: RunState, result: Result<EventPayload, W::Error>|
        {
            &&& #[trigger] workflow.outcome(input, start, ran, result)
            &&& model::evolves(start, ran)
            &&& ends(ran, result, after, Ok(output))
        };
    let event = EventView::ExecutionCompleted { output: output@ };
    assert(after == ran.does(Act::Append(event)));
    assert(after.journal() == ran.journal().push(event));
    assert(after.journal()[0] == start.journal()[0]);
}

/// A run whose workflow fails is recovered as failed, with the error text
/// that it journaled.
pub proof fn failed_runs_are_recovered<S: JournalStore, W: Workflow<S>>(
    workflow: W,
    input: Seq<u8>,
    start: RunState,
    after: RunState,
    failure: W::Error,
)
    requires
        start.journal().len() > 0,
        start.journal()[0] matches EventView::ExecutionStarted { version, .. } && version
            == workflow.versioned(),
        finishes::<S, W>(workflow, input, start, after, Err(RunError::Workflow(failure))),
    ensures
        exists|text: Seq<char>| #[trigger]
            debug_writes(failure, text) && recovery(after.journal(), workflow.versioned()) == (
            Recovery::Failed { error: text }),
{
    let r = Err::<EventPayload, RunError<W::Error>>(RunError::Workflow(failure));
    let (ran, result) = choose|ran: RunState, result: Result<EventPayload, W::Error>|
        {
            &&& #[trigger] workflow.outcome(input, start, ran, result)
            &&& model::evolves(start, ran)
            &&& ends(ran, result, after, r)
        };
    let text = choose|text: Seq<char>| #[trigger]
        debug_writes(failure, text) && after == ran.does(
            Act::Append(EventView::ExecutionFailed { error: text }),
        );
    let event = EventView::ExecutionFailed { error: text };
    assert(after.journal() == ran.journal().push(event));
    assert(after.journal()[0] == start.journal()[0]);
}

/// A crashed run stays recoverable: it journals no end of its execution, so
/// recovery finds it still running.
pub proof fn crashed_runs_are_resumed<S: JournalStore, W: Workflow<S>>(
    workflow: W,
    input: Seq<u8>,
    start: RunState,
    after: RunState,
    error: EngineError,
)
    requires
        start.journal().len() > 0,
        start.journal()[0] matches EventView::ExecutionStarted { version, .. } && version
            == workflow.versioned(),
        !start.journal().last().is_terminal(),
        finishes::<S, W>(workflow, input, start, after, Err(RunError::Engine(error))),
        error is InjectedCrash,
    ensures
        recovery(after.journal(), workflow.versioned()) == (Recovery::Running {
            rest: after.journal().skip(1),
        }),
{
    let r = Err::<EventPayload, RunError<W::Error>>(RunError::Engine(error));
    let (ran, result) = choose|ran: RunState, result: Result<EventPayload, W::Error>|
        {
            &&& #[trigger] workflow.outcome(input, start, ran, result)
            &&& model::evolves(start, ran)
            &&& ends(ran, result, after, r)
        };
    assert(after.journal()[0] == start.journal()[0]);
    let last = after.journal().len() - 1;
    if last < start.journal().len() {
        assert(after.journal()[last] == start.journal()[last]);
    }
}

/// A journal of another version is refused, however much follows its first
/// event and however it ends, with both versions in the error.
pub proof fn other_versions_are_refused(
    journal: Journal,
    id: ExecutionId,
    current: WorkflowVersion,
    r: Result<RecoveredExecution, EngineError>,
)
    requires
        call_ensures(Execution::<Created>::recover_from, (journal, id, &current), r),
        journal@.len() > 0,
        journal@[0] is ExecutionStarted,
        journal@[0]->ExecutionStarted_version != current@,
    ensures
        r matches Err(EngineError::VersionMismatch { recorded, current: asked }) && recorded@
            == journal@[0]->ExecutionStarted_version && asked@ == current@,
{
}

/// A journal of the current version that ends with the end of its execution
/// gives that end back, whatever comes before it; one that does not end so is
/// still running, and everything after its first event is to be replayed, in
/// order. The execution stays the one that was asked for.
pub proof fn journals_tell_where_they_ended(
    journal: Journal,
    id: ExecutionId,
    current: WorkflowVersion,
    r: Result<RecoveredExecution, EngineError>,
)
    requires
        call_ensures(Execution::<Created>::recover_from, (journal, id, &current), r),
        journal@.len() > 0 && journal@[0] is ExecutionStarted
            ==> journal@[0]->ExecutionStarted_version == current@,
    ensures
        journal@.len() > 0 && journal@.last() is ExecutionCompleted ==> (r matches Ok(
            RecoveredExecution::AlreadyCompleted(execution, output),
        ) && output@ == journal@.last()->output && execution.identity() == id@),
        journal@.len() > 0 && journal@.last() is ExecutionFailed ==> (r matches Ok(
            RecoveredExecution::AlreadyFailed(execution, error),
        ) && error@ == journal@.last()->ExecutionFailed_error && execution.identity() == id@),
        journal@.len() == 0 || !(journal@.last() is ExecutionCompleted || journal@.last()
            is ExecutionFailed) ==> (r matches Ok(
            RecoveredExecution::StillRunning(execution, cursor),
        ) && execution.identity() == id@ && cursor@.len() == (if journal@.len() == 0 {
            0
        } else {
            journal@.len() - 1
        }) && forall|i: int| 0 <= i < cursor@.len() ==> #[trigger] cursor@[i] == journal@[i + 1]),
{
}

/// Recovery from a store that does not fail says what the journal of the
/// execution says, and a journal of another version is refused there too.
pub proof fn recovery_goes_by_the_stored_journal<S: JournalStore>(
    store: S,
    id: ExecutionId,
    current: WorkflowVersion,
    r: Result<RecoveredExecution, EngineError>,
    journal: Seq<EventView>,
)
    requires
        call_ensures(Execution::<Created>::recover::<S>, (&store, id, &current), r),
        !store.fallible(),
        store.journals().dom().contains(id@),
        journal == store.journals()[id@],
        journal.len() > 0,
        journal[0] is ExecutionStarted,
    ensures
        journal[0]->ExecutionStarted_version != current@ ==> (r matches Err(
            EngineError::VersionMismatch { recorded, current: asked },
        ) && recorded@ == journal[0]->ExecutionStarted_version && asked@ == current@),
        journal[0]->ExecutionStarted_version == current@ && journal.last() is ExecutionCompleted
            ==> (r matches Ok(RecoveredExecution::AlreadyCompleted(_, output)) && output@
            == journal.last()->output),
        journal[0]->ExecutionStarted_version == current@ && journal.last() is ExecutionFailed ==> (
        r matches Ok(RecoveredExecution::AlreadyFailed(_, error)) && error@
            == journal.last()->ExecutionFailed_error),
        journal[0]->ExecutionStarted_version == current@ && !(journal.last() is ExecutionCompleted
            || journal.last() is ExecutionFailed) ==> (r matches Ok(
            RecoveredExecution::StillRunning(_, cursor),
        ) && cursor@ == journal.skip(1)),
{
}

/// An engine does not run what is over, nor what another version started: it
/// gives back what the journal says, or refuses, and leaves the store, the
/// failpoints, the clock and the randomness as they are.
pub proof fn ended_executions_are_not_run_again<S, E, P, W, C, R>(
    workflow: W,
    id: ExecutionId,
    input: Seq<u8>,
    before: Engine<S, E, P>,
    clock: C,
    rng: R,
    after: Engine<S, E, P>,
    clock_left: C,
    rng_left: R,
    r: Result<EventPayload, RunError<W::Error>>,
    journal: Seq<EventView>,
) where
    S: JournalStore,
    E: SupportedOn<S>,
    P: FailpointPolicy,
    W: Workflow<S>,
    C: Clock,
    R: RngSource,

    requires
        recovered_and_ran(
            workflow,
            id,
            input,
            before,
            clock,
            rng,
            after,
            clock_left,
            rng_left,
            r,
        ),
        !before.inner().fallible(),
        before.inner().journals().dom().contains(id@),
        journal == before.inner().journals()[id@],
        journal.len() > 0,
        journal[0] is ExecutionStarted,
        journal[0]->ExecutionStarted_version != workflow.versioned() || journal.last()
            is ExecutionCompleted || journal.last() is ExecutionFailed,
    ensures
        after == before,
        clock_left == clock,
        rng_left == rng,
        journal[0]->ExecutionStarted_version != workflow.versioned() ==> (r matches Err(
            RunError::Engine(EngineError::VersionMismatch { recorded, current }),
        ) && recorded@ == journal[0]->ExecutionStarted_version && current@
            == workflow.versioned()),
        journal[0]->ExecutionStarted_version == workflow.versioned() && journal.last()
            is ExecutionCompleted ==> (r matches Ok(output) && output@ == journal.last()->output),
        journal[0]->ExecutionStarted_version == workflow.versioned() && journal.last()
            is ExecutionFailed ==> (r matches Err(RunError::Recovered(error)) && error@
            == journal.last()->ExecutionFailed_error),
{
}

/// `start` is a run at its very beginning: of this execution, on this store
/// and with these failpoints, this clock and this randomness, with `events`
/// to replay.
pub open spec fn begins<S, E, P, C, R>(
    start: RunState,
    engine: Engine<S, E, P>,
    id: Seq<u8>,
    events: Seq<EventView>,
    clock: C,
    rng: R,
) -> bool where
    S: JournalStore,
    E: SupportedOn<S>,
    P: FailpointPolicy,
    C: Clock,
    R: RngSource,
 {
    &&& start.execution == id
    &&& start.position == 0
    &&& start.crash is None
    &&& start.effects.len() == 0
    &&& events.len() > 0 ==> start.replay == Some(events)
    &&& events.len() == 0 ==> start.replay is None || start.replay == Some(events)
    &&& start.journals == engine.inner().journals()
    &&& start.fallible == engine.inner().fallible()
    &&& start.failures == engine.inner().failures()
    &&& start.armed == engine.armed()
    &&& start.decisions == engine.decides()
    &&& start.consulted == engine.consulted()
    &&& start.clock == clock.calls()
    &&& start.reading == clock.reads()
    &&& start.draws == rng.draws()
    &&& start.source == rng.gives()
}

/// An execution that is not over is taken up where its journal ends: the
/// workflow runs with everything after the first event to replay, on this
/// engine's store, with the clock and the randomness that were handed in.
pub proof fn running_executions_are_taken_up<S, E, P, W, C, R>(
    workflow: W,
    id: ExecutionId,
    input: Seq<u8>,
    before: Engine<S, E, P>,
    clock: C,
    rng: R,
    after: Engine<S, E, P>,
    clock_left: C,
    rng_left: R,
    r: Result<EventPayload, RunError<W::Error>>,
    journal: Seq<EventView>,
) where
    S: JournalStore,
    E: SupportedOn<S>,
    P: FailpointPolicy,
    W: Workflow<S>,
    C: Clock,
    R: RngSource,

    requires
        recovered_and_ran(
            workflow,
            id,
            input,
            before,
            clock,
            rng,
            after,
            clock_left,
            rng_left,
            r,
        ),
        !before.inner().fallible(),
        before.inner().journals().dom().contains(id@),
        journal == before.inner().journals()[id@],
        journal.len() > 0,
        journal[0] is ExecutionStarted,
        journal[0]->ExecutionStarted_version == workflow.versioned(),
        !(journal.last() is ExecutionCompleted || journal.last() is ExecutionFailed),
    ensures
        exists|start: RunState, state: RunState|
            {
                &&& begins(start, before, id@, journal.skip(1), clock, rng)
                &&& #[trigger] finishes::<S, W>(workflow, input, start, state, r)
                &&& after.inner().journals() == state.journals
                &&& after.inner().failures() == state.failures
                &&& after.consulted() == state.consulted
                &&& clock_left.calls() == state.clock
                &&& rng_left.draws() == state.draws
            },
{
    let start = before.starting(id@, journal.skip(1), clock, rng);
    let state = choose|state: RunState| #[trigger]
        after.left_in(clock_left, rng_left, state) && finishes::<S, W>(
            workflow,
            input,
            start,
            state,
            r,
        );
    assert(begins(start, before, id@, journal.skip(1), clock, rng));
    assert(finishes::<S, W>(workflow, input, start, state, r));
}

/// A new execution is journaled as started, with the workflow's name, its
/// version and its input, before the workflow runs; and the workflow runs
/// from there with nothing to replay.
pub proof fn new_executions_start_their_journal<S, E, P, W, C, R>(
    workflow: W,
    id: ExecutionId,
    input: Seq<u8>,
    before: Engine<S, E, P>,
    clock: C,
    rng: R,
    after: Engine<S, E, P>,
    clock_left: C,
    rng_left: R,
    r: Result<EventPayload, RunError<W::Error>>,
) where
    S: JournalStore,
    E: SupportedOn<S>,
    P: FailpointPolicy,
    W: Workflow<S>,
    C: Clock,
    R: RngSource,

    requires
        ran(workflow, id@, input, before, clock, rng, after, clock_left, rng_left, r),
        !before.inner().fallible(),
    ensures
        exists|start: RunState, state: RunState|
            {
                &&& start.execution == id@
                &&& start.position == 0
                &&& start.crash is None
                &&& start.effects.len() == 0
                &&& start.replay is None
                &&& start.journal() == journal::journal_of(before.inner().journals(), id@).push(
                    EventView::ExecutionStarted {
                        workflow: workflow.named(),
                        version: workflow.versioned(),
                        input,
                    },
                )
                &&& start.journals.remove(id@) == before.inner().journals().remove(id@)
                &&& start.armed == before.armed()
                &&& start.decisions == before.decides()
                &&& start.clock == clock.calls()
                &&& start.draws == rng.draws()
                &&& #[trigger] finishes::<S, W>(workflow, input, start, state, r)
                &&& after.inner().journals() == state.journals
                &&& after.inner().failures() == state.failures
                &&& after.consulted() == state.consulted
                &&& clock_left.calls() == state.clock
                &&& rng_left.draws() == state.draws
            },
{
    let event = EventView::ExecutionStarted {
        workflow: workflow.named(),
        version: workflow.versioned(),
        input,
    };
    let act = Act::Append(event);
    let first = before.starting(id@, Seq::empty(), clock, rng);
    let start = first.does(act);
    let state = choose|state: RunState| #[trigger]
        after.left_in(clock_left, rng_left, state) && {
            ||| r matches Err(RunError::Engine(error)) && model::halts(first, act, state, error@)
            ||| finishes::<S, W>(workflow, input, start, state, r)
        };
    assert(finishes::<S, W>(workflow, input, start, state, r));
    assert(start.journal() =~= journal::journal_of(before.inner().journals(), id@).push(event));
    assert(start.journals.remove(id@) =~= before.inner().journals().remove(id@));
}

/// A crash is process death: a run in which one fired ends with that crash,
/// whatever the workflow made of it, and nothing more is journaled.
pub proof fn a_crashed_run_reports_its_crash<E: Debug>(
    ran: RunState,
    result: Result<EventPayload, E>,
    after: RunState,
    r: Result<EventPayload, RunError<E>>,
)
    requires
        ends(ran, result, after, r),
        ran.crash is Some,
    ensures
        r matches Err(RunError::Engine(EngineError::InjectedCrash(point))) && Some(point@)
            == ran.crash,
        after == ran,
{
}

/// A run that was not crashed is journaled as ended before it returns: as
/// completed with the output that the workflow gave, or as failed with the
/// debug text of the error that it gave; and it returns just that.
pub proof fn ends_are_journaled<E: Debug>(
    ran: RunState,
    result: Result<EventPayload, E>,
    after: RunState,
    r: Result<EventPayload, RunError<E>>,
)
    requires
        ends(ran, result, after, r),
        ran.crash is None,
        !ran.fallible,
    ensures
        after.journals.remove(ran.execution) == ran.journals.remove(ran.execution),
        after.effects == ran.effects && after.clock == ran.clock && after.draws == ran.draws
            && after.consulted == ran.consulted && after.failures == ran.failures,
        match result {
            Ok(output) => {
                &&& r matches Ok(returned)
                &&& returned@ == output@
                &&& after.journal() == ran.journal().push(
                    EventView::ExecutionCompleted { output: output@ },
                )
            },
            Err(failure) => {
                &&& r matches Err(RunError::Workflow(returned))
                &&& returned == failure
                &&& exists|text: Seq<char>| #[trigger]
                    debug_writes(failure, text) && after.journal() == ran.journal().push(
                        EventView::ExecutionFailed { error: text },
                    )
            },
        },
{
    assert(after.journals.remove(ran.execution) =~= ran.journals.remove(ran.execution));
    match result {
        Ok(output) => {
            assert(after.journal() =~= ran.journal().push(
                EventView::ExecutionCompleted { output: output@ },
            ));
        },
        Err(failure) => {
            let text = choose|text: Seq<char>| #[trigger]
                debug_writes(failure, text) && after == ran.does(
                    Act::Append(EventView::ExecutionFailed { error: text }),
                );
            assert(after.journal() =~= ran.journal().push(
                EventView::ExecutionFailed { error: text },
            ));
        },
    }
}

/// A run without failpoints, on a store that does not fail, is the workflow's
/// own run over the input that was handed in, and its end: what the workflow
/// gave is journaled behind everything that it did, and returned.
pub proof fn runs_end_as_their_workflows_do<S: JournalStore, W: Workflow<S>>(
    workflow: W,
    input: Seq<u8>,
    start: RunState,
    after: RunState,
    r: Result<EventPayload, RunError<W::Error>>,
)
    requires
        finishes::<S, W>(workflow, input, start, after, r),
        start.crash is None,
        !start.armed,
        !start.fallible,
    ensures
        exists|ran: RunState, result: Result<EventPayload, W::Error>|
            {
                &&& #[trigger] workflow.outcome(input, start, ran, result)
                &&& ran.execution == start.execution
                &&& start.journal().is_prefix_of(ran.journal())
                &&& after.journal().len() == ran.journal().len() + 1
                &&& after.journal().drop_last() == ran.journal()
                &&& after.effects == ran.effects
                &&& result matches Ok(output) ==> r matches Ok(returned) && returned@ == output@
                    && after.journal().last() == (EventView::ExecutionCompleted {
                    output: output@,
                })
                &&& result matches Err(failure) ==> r matches Err(RunError::Workflow(returned))
                    && returned == failure && after.journal().last() is ExecutionFailed
                    && debug_writes(failure, after.journal().last()->ExecutionFailed_error)
            },
{
    let (ran, result) = choose|ran: RunState, result: Result<EventPayload, W::Error>|
        {
            &&& #[trigger] workflow.outcome(input, start, ran, result)
            &&& model::evolves(start, ran)
            &&& ends(ran, result, after, r)
        };
    ends_are_journaled(ran, result, after, r);
    assert(after.journal().drop_last() =~= ran.journal());
    assert(workflow.outcome(input, start, ran, result));
}

/// The store says what it appended: an accepted event is the last of its
/// journal, behind everything before it. A refusal is the store's own, noted
/// by it, and comes only from a store that can fail; the event is then there
/// as a whole or not at all. Other journals are left alone either way.
pub proof fn events_are_appended_or_refused<S: JournalStore, T>(
    before: S,
    id: Seq<u8>,
    event: EventView,
    after: S,
    r: Result<T, EngineError>,
)
    requires
        appends(before, id, event, after, r),
    ensures
        ({
            let old_journal = journal::journal_of(before.journals(), id);
            let new_journal = journal::journal_of(after.journals(), id);
            &&& after.journals().remove(id) == before.journals().remove(id)
            &&& r is Ok ==> {
                &&& new_journal.len() == old_journal.len() + 1
                &&& new_journal.last() == event
                &&& new_journal.drop_last() == old_journal
                &&& after.failures() == before.failures()
            }
            &&& r matches Err(error) ==> {
                &&& before.fallible()
                &&& after.failures().len() == before.failures().len() + 1
                &&& after.failures().drop_last() == before.failures()
                &&& error@ == EngineErrorView::Journal(after.failures().last())
                &&& new_journal == old_journal || new_journal == old_journal.push(event)
            }
        }),
{
    let old_journal = journal::journal_of(before.journals(), id);
    let new_journal = journal::journal_of(after.journals(), id);
    assert(after.journals().remove(id) =~= before.journals().remove(id));
    assert(r is Ok ==> new_journal.drop_last() =~= old_journal);
    assert(r is Err ==> after.failures().drop_last() =~= before.failures());
}

/// A journal that cannot be loaded is not taken for an empty one: what the
/// store said is handed on. Where a recovery fails with the store's error the
/// store did give that error, and can fail.
pub proof fn failed_loads_are_handed_on<S: JournalStore>(
    store: S,
    id: ExecutionId,
    current: WorkflowVersion,
    r: Result<RecoveredExecution, EngineError>,
    journal: Seq<EventView>,
)
    requires
        call_ensures(Execution::<Created>::recover::<S>, (&store, id, &current), r),
        journal == journal::journal_of(store.journals(), id@),
    ensures
        r matches Err(EngineError::Journal(fault)) ==> store.fallible() && call_ensures(
            S::load,
            (&store, &id),
            Err(fault),
        ),
        r matches Ok(RecoveredExecution::StillRunning(_, cursor)) ==> cursor@ == journal.skip(
            if journal.len() == 0 {
                0
            } else {
                1
            },
        ),
        r matches Ok(RecoveredExecution::AlreadyCompleted(_, output)) ==> journal.len() > 0
            && journal.last() == (EventView::ExecutionCompleted { output: output@ }),
        r matches Ok(RecoveredExecution::AlreadyFailed(_, error)) ==> journal.len() > 0
            && journal.last() == (EventView::ExecutionFailed { error: error@ }),
{
    if journal.len() == 0 {
        assert(journal.skip(0) =~= Seq::<EventView>::empty());
    }
}

/// A recovery that cannot load the journal runs nothing: where it fails with
/// the store's error, either the store gave that error at once and all is as
/// before, or the execution was taken up and the store refused an event.
pub proof fn a_failed_load_runs_nothing<S, E, P, W, C, R>(
    workflow: W,
    id: ExecutionId,
    input: Seq<u8>,
    before: Engine<S, E, P>,
    clock: C,
    rng: R,
    after: Engine<S, E, P>,
    clock_left: C,
    rng_left: R,
    r: Result<EventPayload, RunError<W::Error>>,
) where
    S: JournalStore,
    E: SupportedOn<S>,
    P: FailpointPolicy,
    W: Workflow<S>,
    C: Clock,
    R: RngSource,

    requires
        recovered_and_ran(
            workflow,
            id,
            input,
            before,
            clock,
            rng,
            after,
            clock_left,
            rng_left,
            r,
        ),
        r matches Err(RunError::Engine(EngineError::Journal(_))),
        after.inner().failures() == before.inner().failures(),
    ensures
        after == before,
        clock_left == clock,
        rng_left == rng,
        before.inner().fallible(),
        r matches Err(RunError::Engine(EngineError::Journal(fault))) && call_ensures(
            S::load,
            (&before.inner(), &id),
            Err(fault),
        ),
{
    let journal = journal::journal_of(before.inner().journals(), id@);
    if let Recovery::Running { rest } = recovery(journal, workflow.versioned()) {
        let start = before.starting(id@, rest, clock, rng);
        if exists|state: RunState| #[trigger]
            after.left_in(clock_left, rng_left, state) && finishes::<S, W>(
                workflow,
                input,
                start,
                state,
                r,
            ) {
            let state = choose|state: RunState| #[trigger]
                after.left_in(clock_left, rng_left, state) && finishes::<S, W>(
                    workflow,
                    input,
                    start,
                    state,
                    r,
                );
            let (ran, result) = choose|ran: RunState, result: Result<EventPayload, W::Error>|
                {
                    &&& #[trigger] workflow.outcome(input, start, ran, result)
                    &&& model::evolves(start, ran)
                    &&& ends(ran, result, state, r)
                };
            assert(state.failures.len() > ran.failures.len());
            assert(state.failures.len() > start.failures.len());
        }
    }
}

/// An execution that the store knows nothing of is run from its beginning,
/// with nothing to replay.
pub proof fn unknown_executions_run_from_the_beginning<S, E, P, W, C, R>(
    workflow: W,
    id: ExecutionId,
    input: Seq<u8>,
    before: Engine<S, E, P>,
    clock: C,
    rng: R,
    after: Engine<S, E, P>,
    clock_left: C,
    rng_left: R,
    r: Result<EventPayload, RunError<W::Error>>,
) where
    S: JournalStore,
    E: SupportedOn<S>,
    P: FailpointPolicy,
    W: Workflow<S>,
    C: Clock,
    R: RngSource,

    requires
        recovered_and_ran(
            workflow,
            id,
            input,
            before,
            clock,
            rng,
            after,
            clock_left,
            rng_left,
            r,
        ),
        !before.inner().fallible(),
        !before.inner().journals().dom().contains(id@),
    ensures
        exists|start: RunState, state: RunState|
            {
                &&& begins(start, before, id@, Seq::empty(), clock, rng)
                &&& #[trigger] finishes::<S, W>(workflow, input, start, state, r)
                &&& after.inner().journals() == state.journals
                &&& after.inner().failures() == state.failures
                &&& after.consulted() == state.consulted
                &&& clock_left.calls() == state.clock
                &&& rng_left.draws() == state.draws
            },
{
    let start = before.starting(id@, Seq::empty(), clock, rng);
    let state = choose|state: RunState| #[trigger]
        after.left_in(clock_left, rng_left, state) && finishes::<S, W>(
            workflow,
            input,
            start,
            state,
            r,
        );
    assert(begins(start, before, id@, Seq::empty(), clock, rng));
    assert(finishes::<S, W>(workflow, input, start, state, r));
}

/// A new execution that the store refuses to start is not run: the store's
/// error is returned, and the workflow has read, drawn and passed nothing. A
/// start that is not refused is journaled first.
pub proof fn a_refused_start_runs_nothing<S, E, P, W, C, R>(
    workflow: W,
    id: ExecutionId,
    input: Seq<u8>,
    before: Engine<S, E, P>,
    clock: C,
    rng: R,
    after: Engine<S, E, P>,
    clock_left: C,
    rng_left: R,
    r: Result<EventPayload, RunError<W::Error>>,
) where
    S: JournalStore,
    E: SupportedOn<S>,
    P: FailpointPolicy,
    W: Workflow<S>,
    C: Clock,
    R: RngSource,

    requires
        ran(workflow, id@, input, before, clock, rng, after, clock_left, rng_left, r),
        !(journal::journal_of(before.inner().journals(), id@).push(
            EventView::ExecutionStarted {
                workflow: workflow.named(),
                version: workflow.versioned(),
                input,
            },
        ).is_prefix_of(journal::journal_of(after.inner().journals(), id@))),
    ensures
        before.inner().fallible(),
        after.inner().journals() == before.inner().journals(),
        after.inner().failures().len() == before.inner().failures().len() + 1,
        after.inner().failures().drop_last() == before.inner().failures(),
        r matches Err(RunError::Engine(error)) && error@ == EngineErrorView::Journal(
            after.inner().failures().last(),
        ),
        clock_left.calls() == clock.calls(),
        rng_left.draws() == rng.draws(),
        after.consulted() == before.consulted(),
{
    let event = EventView::ExecutionStarted {
        workflow: workflow.named(),
        version: workflow.versioned(),
        input,
    };
    let act = Act::Append(event);
    let first = before.starting(id@, Seq::empty(), clock, rng);
    let start = first.does(act);
    let state = choose|state: RunState| #[trigger]
        after.left_in(clock_left, rng_left, state) && {
            ||| r matches Err(RunError::Engine(error)) && model::halts(first, act, state, error@)
            ||| finishes::<S, W>(workflow, input, start, state, r)
        };
    assert(first.journal() == journal::journal_of(before.inner().journals(), id@));
    assert(start.journal() == first.journal().push(event));
    if finishes::<S, W>(workflow, input, start, state, r) {
        let (ran, result) = choose|ran: RunState, result: Result<EventPayload, W::Error>|
            {
                &&& #[trigger] workflow.outcome(input, start, ran, result)
                &&& model::evolves(start, ran)
                &&& ends(ran, result, state, r)
            };
        lemma_ends_keep_the_journal(ran, result, state, r);
        assert(start.journal().is_prefix_of(state.journal()));
        assert(state.execution == id@);
    }
    assert(after.inner().failures().drop_last() =~= before.inner().failures());
}

/// The end of a run adds to its journal.
proof fn lemma_ends_keep_the_journal<E: Debug>(
    ran: RunState,
    result: Result<EventPayload, E>,
    after: RunState,
    r: Result<EventPayload, RunError<E>>,
)
    requires
        ends(ran, result, after, r),
    ensures
        after.execution == ran.execution,
        ran.journal().is_prefix_of(after.journal()),
{
    let old_journal = ran.journal();
    assert(old_journal =~= after.journal().subrange(0, old_journal.len() as int));
}

} // verus!
