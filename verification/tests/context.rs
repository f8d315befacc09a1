use std::cell::Cell;
use yaoki::command::CommandKind;
use yaoki::context::EngineError;
use yaoki::context::ReplayCursor;
use yaoki::context::WorkflowCtx;
use yaoki::execution::ExecutionId;
use yaoki::failpoints::CrashOnce;
use yaoki::failpoints::CrashPoint;
use yaoki::failpoints::CrashStatus;
use yaoki::journal::EventPayload;
use yaoki::journal::Journal;
use yaoki::journal::JournalError;
use yaoki::journal::JournalEvent;
use yaoki::journal::JournalStore;
use yaoki::journal::SeqNum;
use yaoki::random::RandomBytes;
use yaoki::random::RngSource;
use yaoki::step::Attempt;
use yaoki::step::StepError;
use yaoki::step::StepErrorRecord;
use yaoki::step::StepName;
use yaoki::stores::memory::MemoryJournal;
use yaoki::time::Clock;
use yaoki::time::Deadline;
use yaoki::time::TestClock;
use yaoki::time::Timestamp;

struct FixedRng {
    bytes: [u8; 32],
}

impl RngSource for FixedRng {
    fn next_bytes(&mut self) -> RandomBytes {
        RandomBytes::new(self.bytes)
    }
}

/// Records the deadline it was told to sleep toward, without ever
/// blocking. This lets `sleep_until` tests assert what the engine asked
/// the clock to wait for.
struct RecordingClock {
    now: Timestamp,
    slept_until: Option<Timestamp>,
}

impl RecordingClock {
    fn at(now: Timestamp) -> Self {
        Self {
            now,
            slept_until: None,
        }
    }
}

impl Clock for RecordingClock {
    fn now(&mut self) -> Timestamp {
        self.now
    }

    fn sleep_until(&mut self, deadline: Timestamp) {
        self.slept_until = Some(deadline);
    }
}

fn signup_execution() -> ExecutionId {
    let mut bytes = [0u8; 32];
    bytes[0] = 0x51; // 'Q', arbitrary deterministic marker
    let mut rng = FixedRng { bytes };
    ExecutionId::generate(&mut rng)
}

/// Fixed clock reading for `step()` tests, which never call `ctx.now()`.
fn unused_clock() -> TestClock {
    TestClock::at(Timestamp::from_millis_since_epoch(1_753_401_600_000))
}

/// Fixed rng draw for `step()` tests, which never call `ctx.random()`.
fn unused_rng() -> FixedRng {
    FixedRng { bytes: [0u8; 32] }
}

fn charge_renewal_deadline() -> Timestamp {
    Timestamp::from_millis_since_epoch(1_753_401_600_000)
}

fn charge_renewal_bytes() -> [u8; 32] {
    let mut bytes = [0u8; 32];
    bytes[0] = 0x52; // 'R', arbitrary deterministic marker
    bytes
}

fn charge_card() -> StepName {
    StepName::new("charge-card").unwrap()
}

fn create_account() -> StepName {
    StepName::new("create-account").unwrap()
}

fn charge_confirmation() -> EventPayload {
    EventPayload::new(br#"{"charge_id":"ch_2026_0718"}"#.to_vec())
}

fn gateway_timeout() -> StepErrorRecord {
    StepErrorRecord::new("payment gateway timed out")
}

/// Always fails every append and load, to exercise the journal-error
/// path without needing to poison a real lock.
struct AlwaysFailingJournal;

impl JournalStore for AlwaysFailingJournal {
    fn append(&mut self, _id: &ExecutionId, _event: JournalEvent) -> Result<SeqNum, JournalError> {
        Err(JournalError::Poisoned)
    }

    fn load(&self, _id: &ExecutionId) -> Result<Journal, JournalError> {
        Err(JournalError::Poisoned)
    }
}

#[test]
fn live_step_with_ok_closure_journals_and_returns_the_result() {
    let mut store = MemoryJournal::new();
    let execution = signup_execution();
    let mut clock = unused_clock();
    let mut rng = unused_rng();
    let mut ctx = WorkflowCtx::new(
        &mut store,
        execution,
        ReplayCursor::new(Journal::empty()),
        &mut clock,
        &mut rng,
    );

    let result = ctx.step(charge_card(), |_key| Ok(charge_confirmation()));

    assert_eq!(result, Ok(charge_confirmation()));
    let journal = store.load(&execution).unwrap();
    assert_eq!(
        journal.events(),
        &[
            JournalEvent::StepScheduled {
                seq: SeqNum::zero(),
                name: charge_card(),
            },
            JournalEvent::StepStarted {
                seq: SeqNum::zero(),
                attempt: Attempt::first(),
            },
            JournalEvent::StepCompleted {
                seq: SeqNum::zero(),
                result: charge_confirmation(),
            },
        ]
    );
}

#[test]
fn live_step_with_err_closure_journals_step_failed() {
    let mut store = MemoryJournal::new();
    let execution = signup_execution();
    let mut clock = unused_clock();
    let mut rng = unused_rng();
    let mut ctx = WorkflowCtx::new(
        &mut store,
        execution,
        ReplayCursor::new(Journal::empty()),
        &mut clock,
        &mut rng,
    );

    let result = ctx.step(charge_card(), |_key| Err(gateway_timeout()));

    assert_eq!(result, Err(StepError::Failed(gateway_timeout())));
    let journal = store.load(&execution).unwrap();
    assert_eq!(
        journal.events(),
        &[
            JournalEvent::StepScheduled {
                seq: SeqNum::zero(),
                name: charge_card(),
            },
            JournalEvent::StepStarted {
                seq: SeqNum::zero(),
                attempt: Attempt::first(),
            },
            JournalEvent::StepFailed {
                seq: SeqNum::zero(),
                attempt: Attempt::first(),
                error: gateway_timeout(),
            },
        ]
    );
}

#[test]
fn live_step_returns_journal_error_when_append_fails() {
    let mut store = AlwaysFailingJournal;
    let execution = signup_execution();
    let mut clock = unused_clock();
    let mut rng = unused_rng();
    let mut ctx = WorkflowCtx::new(
        &mut store,
        execution,
        ReplayCursor::new(Journal::empty()),
        &mut clock,
        &mut rng,
    );

    let result = ctx.step(charge_card(), |_key| Ok(charge_confirmation()));

    assert_eq!(
        result,
        Err(StepError::Engine(EngineError::Journal(
            JournalError::Poisoned
        )))
    );
}

#[test]
fn replaying_step_completed_returns_recorded_result_without_running_closure() {
    let mut store = MemoryJournal::new();
    let execution = signup_execution();
    let journal = Journal::new(vec![
        JournalEvent::StepScheduled {
            seq: SeqNum::zero(),
            name: charge_card(),
        },
        JournalEvent::StepStarted {
            seq: SeqNum::zero(),
            attempt: Attempt::first(),
        },
        JournalEvent::StepCompleted {
            seq: SeqNum::zero(),
            result: charge_confirmation(),
        },
    ]);
    let mut clock = unused_clock();
    let mut rng = unused_rng();
    let mut ctx = WorkflowCtx::new(
        &mut store,
        execution,
        ReplayCursor::new(journal),
        &mut clock,
        &mut rng,
    );

    let result = ctx.step(charge_card(), |_key| {
        panic!("closure must not run during replay of a completed step")
    });

    assert_eq!(result, Ok(charge_confirmation()));
}

#[test]
fn replaying_step_failed_returns_recorded_error_without_running_closure() {
    let mut store = MemoryJournal::new();
    let execution = signup_execution();
    let journal = Journal::new(vec![
        JournalEvent::StepScheduled {
            seq: SeqNum::zero(),
            name: charge_card(),
        },
        JournalEvent::StepStarted {
            seq: SeqNum::zero(),
            attempt: Attempt::first(),
        },
        JournalEvent::StepFailed {
            seq: SeqNum::zero(),
            attempt: Attempt::first(),
            error: gateway_timeout(),
        },
    ]);
    let mut clock = unused_clock();
    let mut rng = unused_rng();
    let mut ctx = WorkflowCtx::new(
        &mut store,
        execution,
        ReplayCursor::new(journal),
        &mut clock,
        &mut rng,
    );

    let result = ctx.step(charge_card(), |_key| {
        panic!("closure must not run during replay of a failed step")
    });

    assert_eq!(result, Err(StepError::Failed(gateway_timeout())));
}

#[test]
fn replaying_kind_mismatch_returns_nondeterminism_error() {
    // Journal recorded a timer, code now asks to run a step.
    let mut store = MemoryJournal::new();
    let execution = signup_execution();
    let journal = Journal::new(vec![JournalEvent::TimerScheduled {
        seq: SeqNum::zero(),
        deadline: Deadline::at(Timestamp::from_millis_since_epoch(1_753_401_600_000)),
    }]);
    let mut clock = unused_clock();
    let mut rng = unused_rng();
    let mut ctx = WorkflowCtx::new(
        &mut store,
        execution,
        ReplayCursor::new(journal),
        &mut clock,
        &mut rng,
    );

    let result = ctx.step(charge_card(), |_key| {
        panic!("closure must not run when replay diverges")
    });

    assert_eq!(
        result,
        Err(StepError::Engine(EngineError::Nondeterminism {
            seq: SeqNum::zero(),
            expected: CommandKind::Sleep,
            got: CommandKind::RunStep,
        }))
    );
}

#[test]
fn replaying_name_mismatch_returns_nondeterminism_error() {
    // Journal recorded a different step name at this position.
    let mut store = MemoryJournal::new();
    let execution = signup_execution();
    let journal = Journal::new(vec![JournalEvent::StepScheduled {
        seq: SeqNum::zero(),
        name: StepName::new("create-account").unwrap(),
    }]);
    let mut clock = unused_clock();
    let mut rng = unused_rng();
    let mut ctx = WorkflowCtx::new(
        &mut store,
        execution,
        ReplayCursor::new(journal),
        &mut clock,
        &mut rng,
    );

    let result = ctx.step(charge_card(), |_key| {
        panic!("closure must not run when replay diverges")
    });

    assert_eq!(
        result,
        Err(StepError::Engine(EngineError::Nondeterminism {
            seq: SeqNum::zero(),
            expected: CommandKind::RunStep,
            got: CommandKind::RunStep,
        }))
    );
}

#[test]
fn replaying_cursor_exhausted_mid_run_switches_to_live() {
    // Journal has exactly one recorded step; a second step()
    // call during the same run must find replay exhausted and go live.
    let mut store = MemoryJournal::new();
    let execution = signup_execution();
    let journal = Journal::new(vec![
        JournalEvent::StepScheduled {
            seq: SeqNum::zero(),
            name: charge_card(),
        },
        JournalEvent::StepStarted {
            seq: SeqNum::zero(),
            attempt: Attempt::first(),
        },
        JournalEvent::StepCompleted {
            seq: SeqNum::zero(),
            result: charge_confirmation(),
        },
    ]);
    let mut clock = unused_clock();
    let mut rng = unused_rng();
    let mut ctx = WorkflowCtx::new(
        &mut store,
        execution,
        ReplayCursor::new(journal),
        &mut clock,
        &mut rng,
    );
    let replayed = ctx.step(charge_card(), |_key| {
        panic!("closure must not run during replay")
    });
    assert_eq!(replayed, Ok(charge_confirmation()));

    let create_account = StepName::new("create-account").unwrap();
    let account_created = EventPayload::new(br#"{"account_id":"acct_2026_0718"}"#.to_vec());
    let live_result = ctx.step(create_account.clone(), |_key| Ok(account_created.clone()));

    assert_eq!(live_result, Ok(account_created.clone()));
    let journal = store.load(&execution).unwrap();
    assert_eq!(
        journal.events(),
        &[
            JournalEvent::StepScheduled {
                seq: SeqNum::zero().next(),
                name: create_account,
            },
            JournalEvent::StepStarted {
                seq: SeqNum::zero().next(),
                attempt: Attempt::first(),
            },
            JournalEvent::StepCompleted {
                seq: SeqNum::zero().next(),
                result: account_created,
            },
        ]
    );
}

#[test]
fn replaying_step_started_with_no_further_events_reruns_the_step_live() {
    // Crash between StepStarted and StepCompleted: the journal
    // ends right after StepStarted. The step must rerun live, not error.
    let mut store = MemoryJournal::new();
    let execution = signup_execution();
    let journal = Journal::new(vec![
        JournalEvent::StepScheduled {
            seq: SeqNum::zero(),
            name: charge_card(),
        },
        JournalEvent::StepStarted {
            seq: SeqNum::zero(),
            attempt: Attempt::first(),
        },
    ]);
    let mut clock = unused_clock();
    let mut rng = unused_rng();
    let mut ctx = WorkflowCtx::new(
        &mut store,
        execution,
        ReplayCursor::new(journal),
        &mut clock,
        &mut rng,
    );

    let result = ctx.step(charge_card(), |_key| Ok(charge_confirmation()));

    // The StepScheduled/StepStarted pair above seeds the replay cursor
    // only; like the other tests here, it is never written to `store`.
    // The rerun is attempt 2 and does not re-schedule, keeping one
    // StepScheduled per Seq.
    assert_eq!(result, Ok(charge_confirmation()));
    let journal = store.load(&execution).unwrap();
    assert_eq!(
        journal.events(),
        &[
            JournalEvent::StepStarted {
                seq: SeqNum::zero(),
                attempt: Attempt::first().next(),
            },
            JournalEvent::StepCompleted {
                seq: SeqNum::zero(),
                result: charge_confirmation(),
            },
        ]
    );
}

#[test]
fn replaying_two_crash_cut_attempts_reruns_the_step_as_the_third_attempt() {
    // Two crashes in a row, each leaving a StepStarted with no outcome
    // after it. Replay consumes both and numbers the rerun accordingly.
    let mut store = MemoryJournal::new();
    let execution = signup_execution();
    let journal = Journal::new(vec![
        JournalEvent::StepScheduled {
            seq: SeqNum::zero(),
            name: charge_card(),
        },
        JournalEvent::StepStarted {
            seq: SeqNum::zero(),
            attempt: Attempt::first(),
        },
        JournalEvent::StepStarted {
            seq: SeqNum::zero(),
            attempt: Attempt::first().next(),
        },
    ]);
    let mut clock = unused_clock();
    let mut rng = unused_rng();
    let mut ctx = WorkflowCtx::new(
        &mut store,
        execution,
        ReplayCursor::new(journal),
        &mut clock,
        &mut rng,
    );

    let result = ctx.step(charge_card(), |_key| Ok(charge_confirmation()));

    assert_eq!(result, Ok(charge_confirmation()));
    assert_eq!(
        store.load(&execution).unwrap().events().first(),
        Some(&JournalEvent::StepStarted {
            seq: SeqNum::zero(),
            attempt: Attempt::first().next().next(),
        })
    );
}

#[test]
fn replaying_a_completed_step_after_a_crash_cut_attempt_returns_the_recorded_result() {
    // A crash-cut attempt followed by a successful one: replay must skip
    // past both StepStarted events and answer from StepCompleted.
    let mut store = MemoryJournal::new();
    let execution = signup_execution();
    let journal = Journal::new(vec![
        JournalEvent::StepScheduled {
            seq: SeqNum::zero(),
            name: charge_card(),
        },
        JournalEvent::StepStarted {
            seq: SeqNum::zero(),
            attempt: Attempt::first(),
        },
        JournalEvent::StepStarted {
            seq: SeqNum::zero(),
            attempt: Attempt::first().next(),
        },
        JournalEvent::StepCompleted {
            seq: SeqNum::zero(),
            result: charge_confirmation(),
        },
    ]);
    let mut clock = unused_clock();
    let mut rng = unused_rng();
    let mut ctx = WorkflowCtx::new(
        &mut store,
        execution,
        ReplayCursor::new(journal),
        &mut clock,
        &mut rng,
    );

    let result = ctx.step(charge_card(), |_key| {
        panic!("replayed step must not run its closure")
    });

    assert_eq!(result, Ok(charge_confirmation()));
    assert_eq!(store.load(&execution).unwrap().events(), &[]);
}

#[test]
fn replaying_step_scheduled_with_no_further_events_reruns_the_step() {
    // The process died between StepScheduled and StepStarted
    // (`CrashPoint::AfterStepScheduled`): no outcome was recorded, so
    // the step runs live and journals a fresh attempt.
    let mut store = MemoryJournal::new();
    let execution = signup_execution();
    let journal = Journal::new(vec![JournalEvent::StepScheduled {
        seq: SeqNum::zero(),
        name: charge_card(),
    }]);
    let mut clock = unused_clock();
    let mut rng = unused_rng();
    let mut ctx = WorkflowCtx::new(
        &mut store,
        execution,
        ReplayCursor::new(journal),
        &mut clock,
        &mut rng,
    );

    let result = ctx.step(charge_card(), |_key| Ok(charge_confirmation()));

    assert_eq!(result, Ok(charge_confirmation()));
    assert_eq!(
        store.load(&execution).unwrap().events().last(),
        Some(&JournalEvent::StepCompleted {
            seq: SeqNum::zero(),
            result: charge_confirmation(),
        })
    );
}

#[test]
fn replaying_step_scheduled_followed_by_wrong_event_is_nondeterminism() {
    // Malformed journal, StepScheduled directly followed by
    // ExecutionCompleted, skipping StepStarted/StepCompleted entirely.
    let mut store = MemoryJournal::new();
    let execution = signup_execution();
    let journal = Journal::new(vec![
        JournalEvent::StepScheduled {
            seq: SeqNum::zero(),
            name: charge_card(),
        },
        JournalEvent::ExecutionCompleted {
            output: EventPayload::new(b"done".to_vec()),
        },
    ]);
    let mut clock = unused_clock();
    let mut rng = unused_rng();
    let mut ctx = WorkflowCtx::new(
        &mut store,
        execution,
        ReplayCursor::new(journal),
        &mut clock,
        &mut rng,
    );

    let result = ctx.step(charge_card(), |_key| Ok(charge_confirmation()));

    assert_eq!(
        result,
        Err(StepError::Engine(EngineError::Nondeterminism {
            seq: SeqNum::zero(),
            expected: CommandKind::RunStep,
            got: CommandKind::RunStep,
        }))
    );
}

#[test]
fn idempotency_key_passed_to_the_closure_pairs_execution_and_seq() {
    let mut store = MemoryJournal::new();
    let execution = signup_execution();
    let mut clock = unused_clock();
    let mut rng = unused_rng();
    let mut ctx = WorkflowCtx::new(
        &mut store,
        execution,
        ReplayCursor::new(Journal::empty()),
        &mut clock,
        &mut rng,
    );

    let mut observed_key = None;
    let _ = ctx.step(charge_card(), |key| {
        observed_key = Some(key);
        Ok(charge_confirmation())
    });

    let key = observed_key.unwrap();
    assert_eq!(key.execution(), execution);
    assert_eq!(key.seq(), SeqNum::zero());
}

#[test]
fn live_now_journals_the_clock_reading_and_returns_it() {
    let mut store = MemoryJournal::new();
    let execution = signup_execution();
    let mut clock = TestClock::at(charge_renewal_deadline());
    let mut rng = unused_rng();
    let mut ctx = WorkflowCtx::new(
        &mut store,
        execution,
        ReplayCursor::new(Journal::empty()),
        &mut clock,
        &mut rng,
    );

    let result = ctx.now();

    assert_eq!(result, Ok(charge_renewal_deadline()));
    let journal = store.load(&execution).unwrap();
    assert_eq!(
        journal.events(),
        &[JournalEvent::NowRecorded {
            seq: SeqNum::zero(),
            value: charge_renewal_deadline(),
        }]
    );
}

#[test]
fn replaying_now_recorded_returns_the_recorded_timestamp_without_reading_the_clock() {
    // The clock is set to a different instant than the one recorded, so
    // a live read here would fail the assertion.
    let mut store = MemoryJournal::new();
    let execution = signup_execution();
    let journal = Journal::new(vec![JournalEvent::NowRecorded {
        seq: SeqNum::zero(),
        value: charge_renewal_deadline(),
    }]);
    let mut clock = TestClock::at(Timestamp::from_millis_since_epoch(0));
    let mut rng = unused_rng();
    let mut ctx = WorkflowCtx::new(
        &mut store,
        execution,
        ReplayCursor::new(journal),
        &mut clock,
        &mut rng,
    );

    let result = ctx.now();

    assert_eq!(result, Ok(charge_renewal_deadline()));
}

#[test]
fn replaying_now_with_mismatched_event_returns_nondeterminism_error() {
    // Journal recorded a step at this position, code now asks for the
    // clock.
    let mut store = MemoryJournal::new();
    let execution = signup_execution();
    let journal = Journal::new(vec![JournalEvent::StepScheduled {
        seq: SeqNum::zero(),
        name: charge_card(),
    }]);
    let mut clock = unused_clock();
    let mut rng = unused_rng();
    let mut ctx = WorkflowCtx::new(
        &mut store,
        execution,
        ReplayCursor::new(journal),
        &mut clock,
        &mut rng,
    );

    let result = ctx.now();

    assert_eq!(
        result,
        Err(EngineError::Nondeterminism {
            seq: SeqNum::zero(),
            expected: CommandKind::RunStep,
            got: CommandKind::ReadNow,
        })
    );
}

#[test]
fn replaying_now_cursor_exhausted_switches_to_live() {
    // Journal has exactly one recorded step; a now() call after
    // replaying it must find replay exhausted and go live.
    let mut store = MemoryJournal::new();
    let execution = signup_execution();
    let journal = Journal::new(vec![
        JournalEvent::StepScheduled {
            seq: SeqNum::zero(),
            name: charge_card(),
        },
        JournalEvent::StepStarted {
            seq: SeqNum::zero(),
            attempt: Attempt::first(),
        },
        JournalEvent::StepCompleted {
            seq: SeqNum::zero(),
            result: charge_confirmation(),
        },
    ]);
    let mut clock = TestClock::at(charge_renewal_deadline());
    let mut rng = unused_rng();
    let mut ctx = WorkflowCtx::new(
        &mut store,
        execution,
        ReplayCursor::new(journal),
        &mut clock,
        &mut rng,
    );
    let replayed = ctx.step(charge_card(), |_key| {
        panic!("closure must not run during replay")
    });
    assert_eq!(replayed, Ok(charge_confirmation()));

    let result = ctx.now();

    assert_eq!(result, Ok(charge_renewal_deadline()));
    let journal = store.load(&execution).unwrap();
    assert_eq!(
        journal.events(),
        &[JournalEvent::NowRecorded {
            seq: SeqNum::zero().next(),
            value: charge_renewal_deadline(),
        }]
    );
}

#[test]
fn live_random_journals_the_drawn_bytes_and_returns_them() {
    let mut store = MemoryJournal::new();
    let execution = signup_execution();
    let mut clock = unused_clock();
    let mut rng = FixedRng {
        bytes: charge_renewal_bytes(),
    };
    let mut ctx = WorkflowCtx::new(
        &mut store,
        execution,
        ReplayCursor::new(Journal::empty()),
        &mut clock,
        &mut rng,
    );

    let result = ctx.random();

    assert_eq!(result, Ok(RandomBytes::new(charge_renewal_bytes())));
    let journal = store.load(&execution).unwrap();
    assert_eq!(
        journal.events(),
        &[JournalEvent::RandomRecorded {
            seq: SeqNum::zero(),
            value: RandomBytes::new(charge_renewal_bytes()),
        }]
    );
}

#[test]
fn replaying_random_recorded_returns_the_recorded_bytes_without_drawing() {
    // The rng is set to draw different bytes than the ones recorded, so
    // a live draw here would fail the assertion.
    let mut store = MemoryJournal::new();
    let execution = signup_execution();
    let journal = Journal::new(vec![JournalEvent::RandomRecorded {
        seq: SeqNum::zero(),
        value: RandomBytes::new(charge_renewal_bytes()),
    }]);
    let mut clock = unused_clock();
    let mut rng = FixedRng { bytes: [0u8; 32] };
    let mut ctx = WorkflowCtx::new(
        &mut store,
        execution,
        ReplayCursor::new(journal),
        &mut clock,
        &mut rng,
    );

    let result = ctx.random();

    assert_eq!(result, Ok(RandomBytes::new(charge_renewal_bytes())));
}

#[test]
fn replaying_random_with_mismatched_event_returns_nondeterminism_error() {
    // Journal recorded a step at this position, code now asks to draw
    // randomness.
    let mut store = MemoryJournal::new();
    let execution = signup_execution();
    let journal = Journal::new(vec![JournalEvent::StepScheduled {
        seq: SeqNum::zero(),
        name: charge_card(),
    }]);
    let mut clock = unused_clock();
    let mut rng = unused_rng();
    let mut ctx = WorkflowCtx::new(
        &mut store,
        execution,
        ReplayCursor::new(journal),
        &mut clock,
        &mut rng,
    );

    let result = ctx.random();

    assert_eq!(
        result,
        Err(EngineError::Nondeterminism {
            seq: SeqNum::zero(),
            expected: CommandKind::RunStep,
            got: CommandKind::DrawRandom,
        })
    );
}

#[test]
fn live_sleep_until_journals_the_timer_and_waits_for_the_deadline() {
    let mut store = MemoryJournal::new();
    let execution = signup_execution();
    let mut clock = RecordingClock::at(Timestamp::from_millis_since_epoch(0));
    let mut rng = unused_rng();
    let mut ctx = WorkflowCtx::new(
        &mut store,
        execution,
        ReplayCursor::new(Journal::empty()),
        &mut clock,
        &mut rng,
    );
    let deadline = Deadline::at(charge_renewal_deadline());

    let result = ctx.sleep_until(deadline);

    assert_eq!(result, Ok(()));
    assert_eq!(clock.slept_until, Some(charge_renewal_deadline()));
    let journal = store.load(&execution).unwrap();
    assert_eq!(
        journal.events(),
        &[
            JournalEvent::TimerScheduled {
                seq: SeqNum::zero(),
                deadline,
            },
            JournalEvent::TimerFired { seq: SeqNum::zero() },
        ]
    );
}

#[test]
fn replaying_timer_scheduled_and_fired_returns_ok_without_sleeping() {
    let mut store = MemoryJournal::new();
    let execution = signup_execution();
    let deadline = Deadline::at(charge_renewal_deadline());
    let journal = Journal::new(vec![
        JournalEvent::TimerScheduled {
            seq: SeqNum::zero(),
            deadline,
        },
        JournalEvent::TimerFired { seq: SeqNum::zero() },
    ]);
    let mut clock = RecordingClock::at(Timestamp::from_millis_since_epoch(0));
    let mut rng = unused_rng();
    let mut ctx = WorkflowCtx::new(
        &mut store,
        execution,
        ReplayCursor::new(journal),
        &mut clock,
        &mut rng,
    );

    let result = ctx.sleep_until(deadline);

    assert_eq!(result, Ok(()));
    assert_eq!(clock.slept_until, None);
}

#[test]
fn replaying_timer_deadline_mismatch_returns_nondeterminism_error() {
    let mut store = MemoryJournal::new();
    let execution = signup_execution();
    let journaled_deadline = Deadline::at(charge_renewal_deadline());
    let journal = Journal::new(vec![JournalEvent::TimerScheduled {
        seq: SeqNum::zero(),
        deadline: journaled_deadline,
    }]);
    let mut clock = unused_clock();
    let mut rng = unused_rng();
    let mut ctx = WorkflowCtx::new(
        &mut store,
        execution,
        ReplayCursor::new(journal),
        &mut clock,
        &mut rng,
    );
    let different_deadline = Deadline::at(Timestamp::from_millis_since_epoch(0));

    let result = ctx.sleep_until(different_deadline);

    assert_eq!(
        result,
        Err(EngineError::Nondeterminism {
            seq: SeqNum::zero(),
            expected: CommandKind::Sleep,
            got: CommandKind::Sleep,
        })
    );
}

#[test]
fn replaying_timer_with_mismatched_event_returns_nondeterminism_error() {
    // Journal recorded a step at this position, code now asks to sleep.
    let mut store = MemoryJournal::new();
    let execution = signup_execution();
    let journal = Journal::new(vec![JournalEvent::StepScheduled {
        seq: SeqNum::zero(),
        name: charge_card(),
    }]);
    let mut clock = unused_clock();
    let mut rng = unused_rng();
    let mut ctx = WorkflowCtx::new(
        &mut store,
        execution,
        ReplayCursor::new(journal),
        &mut clock,
        &mut rng,
    );

    let result = ctx.sleep_until(Deadline::at(charge_renewal_deadline()));

    assert_eq!(
        result,
        Err(EngineError::Nondeterminism {
            seq: SeqNum::zero(),
            expected: CommandKind::RunStep,
            got: CommandKind::Sleep,
        })
    );
}

#[test]
fn replaying_timer_scheduled_followed_by_wrong_event_is_nondeterminism() {
    let mut store = MemoryJournal::new();
    let execution = signup_execution();
    let deadline = Deadline::at(charge_renewal_deadline());
    let journal = Journal::new(vec![
        JournalEvent::TimerScheduled {
            seq: SeqNum::zero(),
            deadline,
        },
        JournalEvent::ExecutionCompleted {
            output: EventPayload::new(b"done".to_vec()),
        },
    ]);
    let mut clock = unused_clock();
    let mut rng = unused_rng();
    let mut ctx = WorkflowCtx::new(
        &mut store,
        execution,
        ReplayCursor::new(journal),
        &mut clock,
        &mut rng,
    );

    let result = ctx.sleep_until(deadline);

    assert_eq!(
        result,
        Err(EngineError::Nondeterminism {
            seq: SeqNum::zero(),
            expected: CommandKind::Sleep,
            got: CommandKind::Sleep,
        })
    );
}

#[test]
fn replaying_timer_scheduled_with_no_further_events_rearms_the_timer() {
    // The process died between TimerScheduled and TimerFired. Recovery
    // must not re-append TimerScheduled. It only waits out the
    // already-journaled deadline and journal TimerFired.
    let mut store = MemoryJournal::new();
    let execution = signup_execution();
    let deadline = Deadline::at(charge_renewal_deadline());
    let journal = Journal::new(vec![JournalEvent::TimerScheduled {
        seq: SeqNum::zero(),
        deadline,
    }]);
    let mut clock = RecordingClock::at(Timestamp::from_millis_since_epoch(0));
    let mut rng = unused_rng();
    let mut ctx = WorkflowCtx::new(
        &mut store,
        execution,
        ReplayCursor::new(journal),
        &mut clock,
        &mut rng,
    );

    let result = ctx.sleep_until(deadline);

    assert_eq!(result, Ok(()));
    assert_eq!(clock.slept_until, Some(charge_renewal_deadline()));
    let journal = store.load(&execution).unwrap();
    assert_eq!(
        journal.events(),
        &[JournalEvent::TimerFired { seq: SeqNum::zero() }]
    );
}

#[test]
fn replaying_timer_cursor_exhausted_switches_to_live() {
    let mut store = MemoryJournal::new();
    let execution = signup_execution();
    let journal = Journal::new(vec![
        JournalEvent::StepScheduled {
            seq: SeqNum::zero(),
            name: charge_card(),
        },
        JournalEvent::StepStarted {
            seq: SeqNum::zero(),
            attempt: Attempt::first(),
        },
        JournalEvent::StepCompleted {
            seq: SeqNum::zero(),
            result: charge_confirmation(),
        },
    ]);
    let mut clock = RecordingClock::at(Timestamp::from_millis_since_epoch(0));
    let mut rng = unused_rng();
    let mut ctx = WorkflowCtx::new(
        &mut store,
        execution,
        ReplayCursor::new(journal),
        &mut clock,
        &mut rng,
    );
    let replayed = ctx.step(charge_card(), |_key| {
        panic!("closure must not run during replay")
    });
    assert_eq!(replayed, Ok(charge_confirmation()));
    let deadline = Deadline::at(charge_renewal_deadline());

    let result = ctx.sleep_until(deadline);

    assert_eq!(result, Ok(()));
    assert_eq!(clock.slept_until, Some(charge_renewal_deadline()));
    let journal = store.load(&execution).unwrap();
    assert_eq!(
        journal.events(),
        &[
            JournalEvent::TimerScheduled {
                seq: SeqNum::zero().next(),
                deadline,
            },
            JournalEvent::TimerFired {
                seq: SeqNum::zero().next(),
            },
        ]
    );
}

#[test]
fn new_cursor_over_empty_journal_is_exhausted() {
    let cursor = ReplayCursor::new(Journal::empty());

    assert!(cursor.is_exhausted());
    assert_eq!(cursor.peek(), None);
}

#[test]
fn new_cursor_over_nonempty_journal_is_not_exhausted() {
    let journal = Journal::new(vec![JournalEvent::StepScheduled {
        seq: SeqNum::zero(),
        name: charge_card(),
    }]);

    let cursor = ReplayCursor::new(journal);

    assert!(!cursor.is_exhausted());
}

#[test]
fn peek_returns_the_event_at_the_current_position() {
    let scheduled = JournalEvent::StepScheduled {
        seq: SeqNum::zero(),
        name: charge_card(),
    };
    let cursor = ReplayCursor::new(Journal::new(vec![scheduled.clone()]));

    assert_eq!(cursor.peek(), Some(&scheduled));
}

#[test]
fn advance_moves_to_the_next_event() {
    let scheduled = JournalEvent::StepScheduled {
        seq: SeqNum::zero(),
        name: charge_card(),
    };
    let started = JournalEvent::StepStarted {
        seq: SeqNum::zero(),
        attempt: Attempt::first(),
    };
    let mut cursor = ReplayCursor::new(Journal::new(vec![scheduled, started.clone()]));

    cursor.advance();

    assert_eq!(cursor.peek(), Some(&started));
}

#[test]
fn advance_past_the_last_event_exhausts_the_cursor() {
    let scheduled = JournalEvent::StepScheduled {
        seq: SeqNum::zero(),
        name: charge_card(),
    };
    let mut cursor = ReplayCursor::new(Journal::new(vec![scheduled]));

    cursor.advance();

    assert!(cursor.is_exhausted());
    assert_eq!(cursor.peek(), None);
}

/// Counts closure executions, which is what the journal cannot be trusted
/// to report across a crash.
struct EffectCounter {
    runs: Cell<u32>,
}

impl EffectCounter {
    fn new() -> Self {
        Self { runs: Cell::new(0) }
    }

    fn charge(&self) -> EventPayload {
        self.runs.set(self.runs.get() + 1);
        charge_confirmation()
    }

    fn runs(&self) -> u32 {
        self.runs.get()
    }
}

/// Builds a live context whose failpoints crash once at `point`.
fn crashing_ctx<'a>(
    store: &'a mut MemoryJournal,
    execution: ExecutionId,
    clock: &'a mut TestClock,
    rng: &'a mut FixedRng,
    policy: &'a mut CrashOnce,
) -> WorkflowCtx<&'a mut MemoryJournal, &'a mut TestClock, &'a mut FixedRng, &'a mut CrashOnce> {
    WorkflowCtx::with_failpoints(
        store,
        execution,
        ReplayCursor::new(Journal::empty()),
        clock,
        rng,
        policy,
    )
}

#[test]
fn crash_before_step_scheduled_journals_nothing_and_never_runs_the_closure() {
    let mut store = MemoryJournal::new();
    let execution = signup_execution();
    let mut clock = unused_clock();
    let mut rng = unused_rng();
    let mut policy = CrashOnce::new(CrashPoint::BeforeStepScheduled(SeqNum::zero()));
    let effects = EffectCounter::new();
    let mut ctx = crashing_ctx(&mut store, execution, &mut clock, &mut rng, &mut policy);

    let result = ctx.step(charge_card(), |_key| Ok(effects.charge()));

    assert_eq!(
        result,
        Err(StepError::Engine(EngineError::InjectedCrash(
            CrashPoint::BeforeStepScheduled(SeqNum::zero())
        )))
    );
    assert_eq!(effects.runs(), 0);
    assert_eq!(store.load(&execution).unwrap().events(), &[]);
}

#[test]
fn crash_after_step_scheduled_leaves_only_step_scheduled_and_never_runs_the_closure() {
    let mut store = MemoryJournal::new();
    let execution = signup_execution();
    let mut clock = unused_clock();
    let mut rng = unused_rng();
    let mut policy = CrashOnce::new(CrashPoint::AfterStepScheduled(SeqNum::zero()));
    let effects = EffectCounter::new();
    let mut ctx = crashing_ctx(&mut store, execution, &mut clock, &mut rng, &mut policy);

    let result = ctx.step(charge_card(), |_key| Ok(effects.charge()));

    assert_eq!(
        result,
        Err(StepError::Engine(EngineError::InjectedCrash(
            CrashPoint::AfterStepScheduled(SeqNum::zero())
        )))
    );
    assert_eq!(effects.runs(), 0);
    assert_eq!(
        store.load(&execution).unwrap().events(),
        &[JournalEvent::StepScheduled {
            seq: SeqNum::zero(),
            name: charge_card(),
        }]
    );
}

#[test]
fn crash_after_step_started_leaves_the_step_unfinished_and_never_runs_the_closure() {
    let mut store = MemoryJournal::new();
    let execution = signup_execution();
    let mut clock = unused_clock();
    let mut rng = unused_rng();
    let mut policy = CrashOnce::new(CrashPoint::AfterStepStarted(SeqNum::zero()));
    let effects = EffectCounter::new();
    let mut ctx = crashing_ctx(&mut store, execution, &mut clock, &mut rng, &mut policy);

    let result = ctx.step(charge_card(), |_key| Ok(effects.charge()));

    assert_eq!(
        result,
        Err(StepError::Engine(EngineError::InjectedCrash(
            CrashPoint::AfterStepStarted(SeqNum::zero())
        )))
    );
    assert_eq!(effects.runs(), 0);
    assert_eq!(
        store.load(&execution).unwrap().events(),
        &[
            JournalEvent::StepScheduled {
                seq: SeqNum::zero(),
                name: charge_card(),
            },
            JournalEvent::StepStarted {
                seq: SeqNum::zero(),
                attempt: Attempt::first(),
            },
        ]
    );
}

#[test]
fn crash_after_the_side_effect_runs_the_closure_but_journals_no_step_completed() {
    // The side effect landed, StepCompleted did not. Recovery cannot
    // tell, so it reruns the step and the effect happens twice.
    let mut store = MemoryJournal::new();
    let execution = signup_execution();
    let mut clock = unused_clock();
    let mut rng = unused_rng();
    let mut policy = CrashOnce::new(CrashPoint::AfterSideEffect(SeqNum::zero()));
    let effects = EffectCounter::new();
    let mut ctx = crashing_ctx(&mut store, execution, &mut clock, &mut rng, &mut policy);

    let result = ctx.step(charge_card(), |_key| Ok(effects.charge()));

    assert_eq!(
        result,
        Err(StepError::Engine(EngineError::InjectedCrash(
            CrashPoint::AfterSideEffect(SeqNum::zero())
        )))
    );
    assert_eq!(effects.runs(), 1);
    let journal = store.load(&execution).unwrap();
    assert_eq!(journal.len(), 2);
    assert!(matches!(
        journal.events().last(),
        Some(JournalEvent::StepStarted { .. })
    ));
}

#[test]
fn crash_after_step_completed_leaves_the_step_fully_journaled() {
    let mut store = MemoryJournal::new();
    let execution = signup_execution();
    let mut clock = unused_clock();
    let mut rng = unused_rng();
    let mut policy = CrashOnce::new(CrashPoint::AfterStepCompleted(SeqNum::zero()));
    let effects = EffectCounter::new();
    let mut ctx = crashing_ctx(&mut store, execution, &mut clock, &mut rng, &mut policy);

    let result = ctx.step(charge_card(), |_key| Ok(effects.charge()));

    assert_eq!(
        result,
        Err(StepError::Engine(EngineError::InjectedCrash(
            CrashPoint::AfterStepCompleted(SeqNum::zero())
        )))
    );
    assert_eq!(effects.runs(), 1);
    assert_eq!(
        store.load(&execution).unwrap().events().last(),
        Some(&JournalEvent::StepCompleted {
            seq: SeqNum::zero(),
            result: charge_confirmation(),
        })
    );
}

#[test]
fn crash_after_timer_scheduled_leaves_the_timer_armed_and_unfired() {
    let mut store = MemoryJournal::new();
    let execution = signup_execution();
    let deadline = Deadline::at(charge_renewal_deadline());
    let mut clock = unused_clock();
    let mut rng = unused_rng();
    let mut policy = CrashOnce::new(CrashPoint::AfterTimerScheduled(SeqNum::zero()));
    let mut ctx = crashing_ctx(&mut store, execution, &mut clock, &mut rng, &mut policy);

    let result = ctx.sleep_until(deadline);

    assert_eq!(
        result,
        Err(EngineError::InjectedCrash(CrashPoint::AfterTimerScheduled(
            SeqNum::zero()
        )))
    );
    assert_eq!(
        store.load(&execution).unwrap().events(),
        &[JournalEvent::TimerScheduled {
            seq: SeqNum::zero(),
            deadline,
        }]
    );
}

#[test]
fn crash_after_timer_fired_leaves_the_timer_complete() {
    let mut store = MemoryJournal::new();
    let execution = signup_execution();
    let deadline = Deadline::at(charge_renewal_deadline());
    let mut clock = unused_clock();
    let mut rng = unused_rng();
    let mut policy = CrashOnce::new(CrashPoint::AfterTimerFired(SeqNum::zero()));
    let mut ctx = crashing_ctx(&mut store, execution, &mut clock, &mut rng, &mut policy);

    let result = ctx.sleep_until(deadline);

    assert_eq!(
        result,
        Err(EngineError::InjectedCrash(CrashPoint::AfterTimerFired(
            SeqNum::zero()
        )))
    );
    assert_eq!(
        store.load(&execution).unwrap().events().last(),
        Some(&JournalEvent::TimerFired { seq: SeqNum::zero() })
    );
}

#[test]
fn crash_during_a_rearmed_timer_leaves_the_journal_untouched_past_timer_fired() {
    // Recovery re-arms an already-journaled timer; the failpoint fires
    // after TimerFired lands, so TimerScheduled is never re-appended.
    let mut store = MemoryJournal::new();
    let execution = signup_execution();
    let deadline = Deadline::at(charge_renewal_deadline());
    let journal = Journal::new(vec![JournalEvent::TimerScheduled {
        seq: SeqNum::zero(),
        deadline,
    }]);
    let mut clock = unused_clock();
    let mut rng = unused_rng();
    let mut policy = CrashOnce::new(CrashPoint::AfterTimerFired(SeqNum::zero()));
    let mut ctx = WorkflowCtx::with_failpoints(
        &mut store,
        execution,
        ReplayCursor::new(journal),
        &mut clock,
        &mut rng,
        &mut policy,
    );

    let result = ctx.sleep_until(deadline);

    assert_eq!(
        result,
        Err(EngineError::InjectedCrash(CrashPoint::AfterTimerFired(
            SeqNum::zero()
        )))
    );
    assert_eq!(
        store.load(&execution).unwrap().events(),
        &[JournalEvent::TimerFired { seq: SeqNum::zero() }]
    );
}

#[test]
fn a_step_after_a_crash_is_refused_without_touching_the_journal() {
    // A workflow that swallows the crash error and carries on must not
    // journal anything: the process it models is already dead.
    let mut store = MemoryJournal::new();
    let execution = signup_execution();
    let mut clock = unused_clock();
    let mut rng = unused_rng();
    let mut policy = CrashOnce::new(CrashPoint::AfterSideEffect(SeqNum::zero()));
    let effects = EffectCounter::new();
    let mut ctx = crashing_ctx(&mut store, execution, &mut clock, &mut rng, &mut policy);
    let _crashed = ctx.step(charge_card(), |_key| Ok(effects.charge()));
    let events_at_crash = ctx.store().load(&execution).unwrap().len();

    let result = ctx.step(create_account(), |_key| Ok(effects.charge()));

    assert_eq!(
        result,
        Err(StepError::Engine(EngineError::InjectedCrash(
            CrashPoint::AfterSideEffect(SeqNum::zero())
        )))
    );
    assert_eq!(effects.runs(), 1);
    assert_eq!(ctx.store().load(&execution).unwrap().len(), events_at_crash);
}

#[test]
fn now_after_a_crash_is_refused_without_touching_the_journal() {
    let mut store = MemoryJournal::new();
    let execution = signup_execution();
    let mut clock = unused_clock();
    let mut rng = unused_rng();
    let mut policy = CrashOnce::new(CrashPoint::AfterSideEffect(SeqNum::zero()));
    let effects = EffectCounter::new();
    let mut ctx = crashing_ctx(&mut store, execution, &mut clock, &mut rng, &mut policy);
    let _crashed = ctx.step(charge_card(), |_key| Ok(effects.charge()));
    let events_at_crash = ctx.store().load(&execution).unwrap().len();

    let result = ctx.now();

    assert_eq!(
        result,
        Err(EngineError::InjectedCrash(CrashPoint::AfterSideEffect(
            SeqNum::zero()
        )))
    );
    assert_eq!(ctx.store().load(&execution).unwrap().len(), events_at_crash);
}

#[test]
fn random_after_a_crash_is_refused_without_touching_the_journal() {
    let mut store = MemoryJournal::new();
    let execution = signup_execution();
    let mut clock = unused_clock();
    let mut rng = unused_rng();
    let mut policy = CrashOnce::new(CrashPoint::AfterSideEffect(SeqNum::zero()));
    let effects = EffectCounter::new();
    let mut ctx = crashing_ctx(&mut store, execution, &mut clock, &mut rng, &mut policy);
    let _crashed = ctx.step(charge_card(), |_key| Ok(effects.charge()));
    let events_at_crash = ctx.store().load(&execution).unwrap().len();

    let result = ctx.random();

    assert_eq!(
        result,
        Err(EngineError::InjectedCrash(CrashPoint::AfterSideEffect(
            SeqNum::zero()
        )))
    );
    assert_eq!(ctx.store().load(&execution).unwrap().len(), events_at_crash);
}

#[test]
fn sleep_until_after_a_crash_is_refused_without_touching_the_journal() {
    let mut store = MemoryJournal::new();
    let execution = signup_execution();
    let mut clock = unused_clock();
    let mut rng = unused_rng();
    let mut policy = CrashOnce::new(CrashPoint::AfterSideEffect(SeqNum::zero()));
    let effects = EffectCounter::new();
    let mut ctx = crashing_ctx(&mut store, execution, &mut clock, &mut rng, &mut policy);
    let _crashed = ctx.step(charge_card(), |_key| Ok(effects.charge()));
    let events_at_crash = ctx.store().load(&execution).unwrap().len();

    let result = ctx.sleep_until(Deadline::at(charge_renewal_deadline()));

    assert_eq!(
        result,
        Err(EngineError::InjectedCrash(CrashPoint::AfterSideEffect(
            SeqNum::zero()
        )))
    );
    assert_eq!(ctx.store().load(&execution).unwrap().len(), events_at_crash);
}

#[test]
fn crash_status_is_intact_on_a_run_where_no_failpoint_fires() {
    let mut store = MemoryJournal::new();
    let execution = signup_execution();
    let mut clock = unused_clock();
    let mut rng = unused_rng();
    let mut policy = CrashOnce::new(CrashPoint::AfterSideEffect(SeqNum::zero().next()));
    let effects = EffectCounter::new();
    let mut ctx = crashing_ctx(&mut store, execution, &mut clock, &mut rng, &mut policy);

    let result = ctx.step(charge_card(), |_key| Ok(effects.charge()));

    assert_eq!(result, Ok(charge_confirmation()));
    assert_eq!(ctx.crash_status(), CrashStatus::Intact);
}
