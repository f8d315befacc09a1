use yaoki::context::EngineError;
use yaoki::context::WorkflowCtx;
use yaoki::engine::Engine;
use yaoki::engine::Execution;
use yaoki::engine::RecoveredExecution;
use yaoki::engine::RunError;
use yaoki::engine::Workflow;
use yaoki::equivalence::DuplicateLast;
use yaoki::execution::ExecutionId;
use yaoki::execution::WorkflowErrorRecord;
use yaoki::execution::WorkflowName;
use yaoki::execution::WorkflowVersion;
use yaoki::failpoints::FailpointPolicy;
use yaoki::journal::EventPayload;
use yaoki::journal::JournalEvent;
use yaoki::journal::JournalStore;
use yaoki::journal::SeqNum;
use yaoki::random::RandomBytes;
use yaoki::random::RngSource;
use yaoki::step::Attempt;
use yaoki::step::StepErrorRecord;
use yaoki::step::StepName;
use yaoki::stores::memory::MemoryJournal;
use yaoki::time::Clock;
use yaoki::time::TestClock;
use yaoki::time::Timestamp;

struct FixedRng {
    bytes: [u8; 32],
}

impl RngSource for FixedRng {
    fn next_bytes(&mut self) -> RandomBytes {
        RandomBytes::new(self.bytes)
    }
}

fn signup_execution() -> ExecutionId {
    let mut bytes = [0u8; 32];
    bytes[0] = 0x51; // 'Q', arbitrary deterministic marker
    let mut rng = FixedRng { bytes };
    ExecutionId::generate(&mut rng)
}

fn signup_name() -> WorkflowName {
    WorkflowName::new("signup").unwrap()
}

fn signup_version() -> WorkflowVersion {
    WorkflowVersion::new("2026.07.18").unwrap()
}

fn signup_input() -> EventPayload {
    EventPayload::new(br#"{"email":"john.smith@example.com"}"#.to_vec())
}

/// Neither `SignupWorkflow` nor `AlwaysFailsWorkflow` call `ctx.now()`
/// or `ctx.random()`; these exist only to satisfy `Engine::run` /
/// `Engine::recover_and_run`'s signature.
fn unused_clock() -> TestClock {
    TestClock::at(Timestamp::from_millis_since_epoch(1_753_401_600_000))
}

fn unused_rng() -> FixedRng {
    FixedRng { bytes: [0u8; 32] }
}

/// Two steps: `charge-card` then `create-account`, each returning its
/// input back out as its result so the test can assert on it.
struct SignupWorkflow;

impl Workflow<MemoryJournal> for SignupWorkflow {
    type Error = String;

    fn name(&self) -> WorkflowName {
        signup_name()
    }

    fn version(&self) -> WorkflowVersion {
        signup_version()
    }

    fn run<C: Clock, R: RngSource, P: FailpointPolicy>(
        &self,
        ctx: &mut WorkflowCtx<MemoryJournal, C, R, P>,
        input: EventPayload,
    ) -> Result<EventPayload, String> {
        let charge_card = StepName::new("charge-card").unwrap();
        let charge_confirmation = ctx
            .step(charge_card, |_key| {
                Ok(EventPayload::new(
                    br#"{"charge_id":"ch_2026_0718"}"#.to_vec(),
                ))
            })
            .map_err(|error| format!("{error:?}"))?;

        let create_account = StepName::new("create-account").unwrap();
        let _account_created = ctx
            .step(create_account, |_key| {
                Ok(EventPayload::new(
                    br#"{"account_id":"acct_2026_0718"}"#.to_vec(),
                ))
            })
            .map_err(|error| format!("{error:?}"))?;

        let _ = input;
        Ok(charge_confirmation)
    }
}

/// Fails on its one step, every time, to exercise the `fail` transition.
struct AlwaysFailsWorkflow;

impl Workflow<MemoryJournal> for AlwaysFailsWorkflow {
    type Error = String;

    fn name(&self) -> WorkflowName {
        WorkflowName::new("renewal").unwrap()
    }

    fn version(&self) -> WorkflowVersion {
        signup_version()
    }

    fn run<C: Clock, R: RngSource, P: FailpointPolicy>(
        &self,
        ctx: &mut WorkflowCtx<MemoryJournal, C, R, P>,
        _input: EventPayload,
    ) -> Result<EventPayload, String> {
        let charge_card = StepName::new("charge-card").unwrap();
        ctx.step(charge_card, |_key| {
            Err(StepErrorRecord::new("payment gateway timed out"))
        })
        .map_err(|error| format!("{error:?}"))
    }
}

#[test]
fn execution_start_appends_execution_started_and_transitions_to_running() {
    let mut store = MemoryJournal::new();
    let execution = signup_execution();

    let running = Execution::new(execution)
        .start(&mut store, signup_name(), signup_version(), signup_input())
        .unwrap();

    assert_eq!(running.id(), execution);
    let journal = store.load(&execution).unwrap();
    assert_eq!(
        journal.events(),
        &[JournalEvent::ExecutionStarted {
            workflow: signup_name(),
            version: signup_version(),
            input: signup_input(),
        }]
    );
}

#[test]
fn execution_complete_appends_execution_completed_and_transitions_to_completed() {
    let mut store = MemoryJournal::new();
    let execution = signup_execution();
    let running = Execution::new(execution)
        .start(&mut store, signup_name(), signup_version(), signup_input())
        .unwrap();
    let output = EventPayload::new(b"done".to_vec());

    let _completed = running.complete(&mut store, output.clone()).unwrap();

    let journal = store.load(&execution).unwrap();
    assert_eq!(
        journal.events().last(),
        Some(&JournalEvent::ExecutionCompleted { output })
    );
}

#[test]
fn execution_fail_appends_execution_failed_and_transitions_to_failed() {
    let mut store = MemoryJournal::new();
    let execution = signup_execution();
    let running = Execution::new(execution)
        .start(&mut store, signup_name(), signup_version(), signup_input())
        .unwrap();
    let error = WorkflowErrorRecord::new("account creation rolled back");

    let _failed = running.fail(&mut store, error.clone()).unwrap();

    let journal = store.load(&execution).unwrap();
    assert_eq!(
        journal.events().last(),
        Some(&JournalEvent::ExecutionFailed { error })
    );
}

#[test]
fn recover_with_completed_tail_returns_already_completed_with_output() {
    let mut store = MemoryJournal::new();
    let execution = signup_execution();
    let output = EventPayload::new(b"done".to_vec());
    Execution::new(execution)
        .start(&mut store, signup_name(), signup_version(), signup_input())
        .unwrap()
        .complete(&mut store, output.clone())
        .unwrap();

    let recovered = Execution::recover(&store, execution, &signup_version()).unwrap();

    match recovered {
        RecoveredExecution::AlreadyCompleted(_, recovered_output) => {
            assert_eq!(recovered_output, output);
        }
        _ => panic!("expected AlreadyCompleted"),
    }
}

#[test]
fn recover_with_failed_tail_returns_already_failed_with_error() {
    let mut store = MemoryJournal::new();
    let execution = signup_execution();
    let error = WorkflowErrorRecord::new("account creation rolled back");
    Execution::new(execution)
        .start(&mut store, signup_name(), signup_version(), signup_input())
        .unwrap()
        .fail(&mut store, error.clone())
        .unwrap();

    let recovered = Execution::recover(&store, execution, &signup_version()).unwrap();

    match recovered {
        RecoveredExecution::AlreadyFailed(_, recovered_error) => {
            assert_eq!(recovered_error, error);
        }
        _ => panic!("expected AlreadyFailed"),
    }
}

#[test]
fn recover_with_no_terminal_tail_returns_still_running_with_a_cursor_over_the_remaining_commands()
 {
    let mut store = MemoryJournal::new();
    let execution = signup_execution();
    let charge_card = StepName::new("charge-card").unwrap();
    Execution::new(execution)
        .start(&mut store, signup_name(), signup_version(), signup_input())
        .unwrap();
    store
        .append(
            &execution,
            JournalEvent::StepScheduled {
                seq: SeqNum::zero(),
                name: charge_card.clone(),
            },
        )
        .unwrap();

    let recovered = Execution::recover(&store, execution, &signup_version()).unwrap();

    match recovered {
        RecoveredExecution::StillRunning(_, cursor) => {
            assert_eq!(
                cursor.peek(),
                Some(&JournalEvent::StepScheduled {
                    seq: SeqNum::zero(),
                    name: charge_card,
                })
            );
        }
        _ => panic!("expected StillRunning"),
    }
}

#[test]
fn recover_with_mismatched_version_returns_version_mismatch_error() {
    let mut store = MemoryJournal::new();
    let execution = signup_execution();
    Execution::new(execution)
        .start(&mut store, signup_name(), signup_version(), signup_input())
        .unwrap();
    let newer_version = WorkflowVersion::new("2026.08.01").unwrap();

    let result = Execution::recover(&store, execution, &newer_version);

    assert_eq!(
        result.err(),
        Some(EngineError::VersionMismatch {
            recorded: signup_version(),
            current: newer_version,
        })
    );
}

#[test]
fn engine_run_starts_and_completes_a_fresh_execution() {
    let store = MemoryJournal::new();
    let mut engine = Engine::<_, DuplicateLast>::new(store);
    let execution = signup_execution();

    let output = engine
        .run(
            execution,
            &SignupWorkflow,
            signup_input(),
            &mut unused_clock(),
            &mut unused_rng(),
        )
        .unwrap();

    assert_eq!(
        output,
        EventPayload::new(br#"{"charge_id":"ch_2026_0718"}"#.to_vec())
    );
    let journal = engine.store().load(&execution).unwrap();
    assert_eq!(
        journal.events().last(),
        Some(&JournalEvent::ExecutionCompleted {
            output: EventPayload::new(br#"{"charge_id":"ch_2026_0718"}"#.to_vec()),
        })
    );
}

#[test]
fn engine_run_fails_and_journals_execution_failed_when_the_workflow_errs() {
    let store = MemoryJournal::new();
    let mut engine = Engine::<_, DuplicateLast>::new(store);
    let execution = signup_execution();

    let result = engine.run(
        execution,
        &AlwaysFailsWorkflow,
        signup_input(),
        &mut unused_clock(),
        &mut unused_rng(),
    );

    assert!(matches!(result, Err(RunError::Workflow(_))));
    let journal = engine.store().load(&execution).unwrap();
    assert!(matches!(
        journal.events().last(),
        Some(JournalEvent::ExecutionFailed { .. })
    ));
}

#[test]
fn engine_recover_and_run_on_a_completed_execution_returns_the_recorded_output_without_rerunning_steps()
 {
    // Run to completion once.
    let store = MemoryJournal::new();
    let execution = signup_execution();
    let (first_output, store) = {
        let mut engine = Engine::<_, DuplicateLast>::new(store);
        let output = engine
            .run(
                execution,
                &SignupWorkflow,
                signup_input(),
                &mut unused_clock(),
                &mut unused_rng(),
            )
            .unwrap();
        (output, engine.into_store())
    };
    let events_after_first_run = store.load(&execution).unwrap().len();

    // "wipe the engine, keep the store". The first `engine` value
    // above is already gone (dropped at the end of its block); build a
    // fresh `Engine` over the same `store` binding and recover.
    let mut recovered_engine = Engine::<_, DuplicateLast>::new(store);
    let second_output = recovered_engine
        .recover_and_run(
            execution,
            &SignupWorkflow,
            signup_input(),
            &mut unused_clock(),
            &mut unused_rng(),
        )
        .unwrap();

    // Identical output, and not a single event was re-appended
    // (both steps were answered from the journal, not re-executed).
    assert_eq!(first_output, second_output);
    assert_eq!(
        recovered_engine.store().load(&execution).unwrap().len(),
        events_after_first_run
    );
}

#[test]
fn engine_recover_and_run_on_a_still_running_execution_replays_then_continues_live() {
    // Journal a fully-recorded first step only (simulating a
    // crash between the first and second step of the signup workflow).
    let mut store = MemoryJournal::new();
    let execution = signup_execution();
    Execution::new(execution)
        .start(&mut store, signup_name(), signup_version(), signup_input())
        .unwrap();
    let charge_card = StepName::new("charge-card").unwrap();
    store
        .append(
            &execution,
            JournalEvent::StepScheduled {
                seq: SeqNum::zero(),
                name: charge_card,
            },
        )
        .unwrap();
    store
        .append(
            &execution,
            JournalEvent::StepStarted {
                seq: SeqNum::zero(),
                attempt: Attempt::first(),
            },
        )
        .unwrap();
    store
        .append(
            &execution,
            JournalEvent::StepCompleted {
                seq: SeqNum::zero(),
                result: EventPayload::new(br#"{"charge_id":"ch_2026_0718"}"#.to_vec()),
            },
        )
        .unwrap();

    let mut engine = Engine::<_, DuplicateLast>::new(store);
    let output = engine
        .recover_and_run(
            execution,
            &SignupWorkflow,
            signup_input(),
            &mut unused_clock(),
            &mut unused_rng(),
        )
        .unwrap();

    // Charge-card was not re-run (its result came from the
    // journal); create-account ran live and was journaled.
    assert_eq!(
        output,
        EventPayload::new(br#"{"charge_id":"ch_2026_0718"}"#.to_vec())
    );
    let journal = engine.store().load(&execution).unwrap();
    // ExecutionStarted + 3 (charge-card, pre-existing) + 3 (create-account,
    // run live) + ExecutionCompleted.
    assert_eq!(journal.len(), 8);
    assert!(matches!(
        journal.events().last(),
        Some(JournalEvent::ExecutionCompleted { .. })
    ));
}
