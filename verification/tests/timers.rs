//! Durable timer recovery, exercised end to end through `Engine` (unit-level
//! coverage for the cursor-level re-arm decision already lives in
//! `context.rs`).
//!
//! A process dies between `TimerScheduled` and `TimerFired`, mid-wait.
//! Recovery must not re-append `TimerScheduled`: it re-arms toward the
//! already-journaled deadline and journals `TimerFired` once the wait (a
//! no-op under `TestClock`-like clocks) returns, then continues the
//! workflow live.

use yaoki::context::WorkflowCtx;
use yaoki::engine::Engine;
use yaoki::engine::Execution;
use yaoki::engine::Workflow;
use yaoki::equivalence::DuplicateLast;
use yaoki::execution::ExecutionId;
use yaoki::execution::WorkflowName;
use yaoki::execution::WorkflowVersion;
use yaoki::failpoints::FailpointPolicy;
use yaoki::journal::EventPayload;
use yaoki::journal::JournalEvent;
use yaoki::journal::JournalStore;
use yaoki::journal::SeqNum;
use yaoki::random::RandomBytes;
use yaoki::random::RngSource;
use yaoki::step::Attempt;
use yaoki::step::StepError;
use yaoki::step::StepName;
use yaoki::stores::memory::MemoryJournal;
use yaoki::time::Clock;
use yaoki::time::Deadline;
use yaoki::time::Timestamp;

struct FixedRng {
    bytes: [u8; 32],
}

impl RngSource for FixedRng {
    fn next_bytes(&mut self) -> RandomBytes {
        RandomBytes::new(self.bytes)
    }
}

fn renewal_execution() -> ExecutionId {
    let mut bytes = [0u8; 32];
    bytes[0] = 0x52; // 'R', arbitrary deterministic marker
    let mut rng = FixedRng { bytes };
    ExecutionId::generate(&mut rng)
}

fn unused_rng() -> FixedRng {
    FixedRng { bytes: [0u8; 32] }
}

fn renewal_workflow_name() -> WorkflowName {
    WorkflowName::new("subscription-renewal").unwrap()
}

fn renewal_workflow_version() -> WorkflowVersion {
    WorkflowVersion::new("2026.07.24").unwrap()
}

fn renewal_input() -> EventPayload {
    EventPayload::new(br#"{"subscription_id":"sub_2026_0724"}"#.to_vec())
}

/// 2026-07-25T00:00:00Z, the subscription's renewal deadline.
fn renewal_deadline() -> Deadline {
    Deadline::at(Timestamp::from_millis_since_epoch(1_784_937_600_000))
}

fn charge_renewal_name() -> StepName {
    StepName::new("charge-renewal").unwrap()
}

fn charge_renewal_confirmation() -> EventPayload {
    EventPayload::new(br#"{"charge_id":"ch_2026_0724"}"#.to_vec())
}

/// Records the deadline it is told to wait toward, without ever blocking.
/// This lets the test assert recovery re-armed through the `Clock`, not by
/// re-scheduling a fresh timer.
struct RecordingClock {
    now: Timestamp,
    slept_until: Option<Timestamp>,
}

impl RecordingClock {
    fn at(now: Timestamp) -> Self {
        Self {
            now,
            slept_until: None,
        }
    }
}

impl Clock for RecordingClock {
    fn now(&mut self) -> Timestamp {
        self.now
    }

    fn sleep_until(&mut self, deadline: Timestamp) {
        self.slept_until = Some(deadline);
    }
}

/// Waits out `deadline` then charges the renewal. Neither call touches
/// ambient time or randomness directly, only through `ctx`.
struct RenewalTimerWorkflow {
    deadline: Deadline,
}

impl<S: JournalStore> Workflow<S> for RenewalTimerWorkflow {
    type Error = StepError;

    fn name(&self) -> WorkflowName {
        renewal_workflow_name()
    }

    fn version(&self) -> WorkflowVersion {
        renewal_workflow_version()
    }

    fn run<C: Clock, R: RngSource, P: FailpointPolicy>(
        &self,
        ctx: &mut WorkflowCtx<S, C, R, P>,
        _input: EventPayload,
    ) -> Result<EventPayload, StepError> {
        ctx.sleep_until(self.deadline)?;
        ctx.step(charge_renewal_name(), |_key| {
            Ok(charge_renewal_confirmation())
        })
    }
}

#[test]
fn recovery_mid_timer_rearms_the_remainder_and_completes_the_workflow_live() {
    let mut store = MemoryJournal::new();
    let execution = renewal_execution();
    let deadline = renewal_deadline();

    // Simulate a crash between TimerScheduled and TimerFired: the prior
    // process died mid-wait, so the journal has the deadline but no fired
    // event.
    Execution::new(execution)
        .start(
            &mut store,
            renewal_workflow_name(),
            renewal_workflow_version(),
            renewal_input(),
        )
        .unwrap();
    store
        .append(
            &execution,
            JournalEvent::TimerScheduled {
                seq: SeqNum::zero(),
                deadline,
            },
        )
        .unwrap();

    let mut recovery_clock = RecordingClock::at(Timestamp::from_millis_since_epoch(0));
    let mut engine = Engine::<_, DuplicateLast>::new(&mut store);
    let workflow = RenewalTimerWorkflow { deadline };

    let result = engine.recover_and_run(
        execution,
        &workflow,
        renewal_input(),
        &mut recovery_clock,
        &mut unused_rng(),
    );

    assert_eq!(result.unwrap(), charge_renewal_confirmation());
    assert_eq!(
        recovery_clock.slept_until,
        Some(deadline.timestamp())
    );

    let journal = store.load(&execution).unwrap();
    assert_eq!(
        journal.events(),
        &[
            JournalEvent::ExecutionStarted {
                workflow: renewal_workflow_name(),
                version: renewal_workflow_version(),
                input: renewal_input(),
            },
            JournalEvent::TimerScheduled {
                seq: SeqNum::zero(),
                deadline,
            },
            JournalEvent::TimerFired { seq: SeqNum::zero() },
            JournalEvent::StepScheduled {
                seq: SeqNum::zero().next(),
                name: charge_renewal_name(),
            },
            JournalEvent::StepStarted {
                seq: SeqNum::zero().next(),
                attempt: Attempt::first(),
            },
            JournalEvent::StepCompleted {
                seq: SeqNum::zero().next(),
                result: charge_renewal_confirmation(),
            },
            JournalEvent::ExecutionCompleted {
                output: charge_renewal_confirmation(),
            },
        ]
    );
}

#[test]
fn a_run_hands_back_the_clock_it_was_given() {
    let deadline = renewal_deadline();
    let workflow = RenewalTimerWorkflow { deadline };
    let clock = RecordingClock::at(Timestamp::from_millis_since_epoch(0));
    let mut engine = Engine::<_, DuplicateLast>::new(MemoryJournal::new());

    let (result, clock, _rng) = engine.run_with(
        renewal_execution(),
        &workflow,
        renewal_input(),
        clock,
        unused_rng(),
    );

    assert_eq!(result.unwrap(), charge_renewal_confirmation());
    assert_eq!(clock.slept_until, Some(deadline.timestamp()));

    let fresh = RecordingClock::at(Timestamp::from_millis_since_epoch(0));
    let (result, clock, _rng) = engine.recover_and_run_with(
        renewal_execution(),
        &workflow,
        renewal_input(),
        fresh,
        unused_rng(),
    );

    assert_eq!(result.unwrap(), charge_renewal_confirmation());
    assert_eq!(clock.slept_until, None);
}
