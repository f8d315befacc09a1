//! The words of the engine's errors, and the text that a failed workflow
//! leaves in its journal.

use yaoki::command::CommandKind;
use yaoki::context::EngineError;
use yaoki::context::WorkflowCtx;
use yaoki::engine::Engine;
use yaoki::engine::Execution;
use yaoki::engine::RunError;
use yaoki::engine::Workflow;
use yaoki::equivalence::DuplicateLast;
use yaoki::execution::execution_id_from_seed;
use yaoki::execution::ExecutionId;
use yaoki::execution::WorkflowErrorRecord;
use yaoki::execution::WorkflowName;
use yaoki::execution::WorkflowVersion;
use yaoki::failpoints::CrashPoint;
use yaoki::failpoints::FailpointPolicy;
use yaoki::journal::EventPayload;
use yaoki::journal::JournalError;
use yaoki::journal::JournalEvent;
use yaoki::journal::JournalStore;
use yaoki::journal::SeqNum;
use yaoki::random::RngSource;
use yaoki::random::SeededRng;
use yaoki::stores::memory::MemoryJournal;
use yaoki::time::Clock;
use yaoki::time::TestClock;
use yaoki::time::Timestamp;

fn version(raw: &str) -> WorkflowVersion {
    WorkflowVersion::new(raw).unwrap()
}

fn name() -> WorkflowName {
    WorkflowName::new("report").unwrap()
}

fn execution() -> ExecutionId {
    execution_id_from_seed("report")
}

#[test]
fn a_divergence_is_put_in_words() {
    let error = EngineError::Nondeterminism {
        seq: SeqNum::from_index(2),
        expected: CommandKind::ReadNow,
        got: CommandKind::RunStep,
    };

    assert_eq!(
        error.message(),
        "nondeterministic workflow at seq Seq(2): journal has ReadNow, code produced RunStep"
    );
}

#[test]
fn a_version_mismatch_is_put_in_words() {
    let error = EngineError::VersionMismatch {
        recorded: version("2026.07.19"),
        current: version("2026.08.01"),
    };

    assert_eq!(
        error.message(),
        "workflow version mismatch: journal WorkflowVersion(\"2026.07.19\"), \
         code WorkflowVersion(\"2026.08.01\")"
    );
}

#[test]
fn a_failure_of_the_store_is_put_in_words() {
    let error = EngineError::from(JournalError::Poisoned);

    assert_eq!(error.message(), "journal error: journal lock is poisoned");
}

#[test]
fn an_injected_crash_is_put_in_words() {
    let error = EngineError::InjectedCrash(CrashPoint::AfterSideEffect(SeqNum::from_index(1)));

    assert_eq!(error.message(), "injected crash at AfterSideEffect(Seq(1))");
}

/// Reads the clock, and fails with whatever the engine fails with.
struct Report;

impl<S: JournalStore> Workflow<S> for Report {
    type Error = EngineError;

    fn name(&self) -> WorkflowName {
        name()
    }

    fn version(&self) -> WorkflowVersion {
        version("1")
    }

    fn run<C: Clock, R: RngSource, P: FailpointPolicy>(
        &self,
        ctx: &mut WorkflowCtx<S, C, R, P>,
        input: EventPayload,
    ) -> Result<EventPayload, EngineError> {
        ctx.now()?;
        Ok(input)
    }
}

#[test]
fn a_failed_workflow_journals_the_debug_text_of_its_error() {
    let mut store = MemoryJournal::new();
    let input = EventPayload::new(Vec::new());
    Execution::new(execution())
        .start(&mut store, name(), version("1"), input.clone())
        .unwrap();
    store
        .append(
            &execution(),
            JournalEvent::TimerFired {
                seq: SeqNum::zero(),
            },
        )
        .unwrap();

    let result = Engine::<_, DuplicateLast>::new(&mut store).recover_and_run(
        execution(),
        &Report,
        input,
        TestClock::at(Timestamp::from_millis_since_epoch(0)),
        SeededRng::from_label(b"report"),
    );

    assert!(matches!(
        result,
        Err(RunError::Workflow(EngineError::Nondeterminism { .. }))
    ));
    let journal = store.load(&execution()).unwrap();
    assert_eq!(
        journal.events().last(),
        Some(&JournalEvent::ExecutionFailed {
            error: WorkflowErrorRecord::new(
                "Nondeterminism { seq: Seq(0), expected: Sleep, got: ReadNow }"
            ),
        })
    );
}
