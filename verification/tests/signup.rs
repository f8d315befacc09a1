//! The signup, crashed between the payment and the account.

use std::cell::RefCell;

use yaoki::context::EngineError;
use yaoki::engine::Engine;
use yaoki::engine::RunError;
use yaoki::engine::Workflow;
use yaoki::equivalence::DuplicateLast;
use yaoki::execution::execution_id_from_seed;
use yaoki::failpoints::CrashOnce;
use yaoki::failpoints::CrashPoint;
use yaoki::journal::EventPayload;
use yaoki::journal::JournalEvent;
use yaoki::journal::JournalStore;
use yaoki::journal::SeqNum;
use yaoki::random::SeededRng;
use yaoki::signup::SignupServices;
use yaoki::signup::SignupWorkflow;
use yaoki::step::IdempotencyKey;
use yaoki::stores::memory::MemoryJournal;
use yaoki::time::TestClock;
use yaoki::time::Timestamp;

/// Notes every call with its idempotency key.
struct NotedCalls<'a> {
    calls: &'a RefCell<Vec<(&'static str, IdempotencyKey)>>,
}

impl SignupServices for NotedCalls<'_> {
    fn charge_card(&self, key: IdempotencyKey) {
        self.calls.borrow_mut().push(("charge-card", key));
    }

    fn create_account(&self, key: IdempotencyKey) {
        self.calls.borrow_mut().push(("create-account", key));
    }
}

fn signup_input() -> EventPayload {
    EventPayload::new(br#"{"email":"john.smith@example.com"}"#.to_vec())
}

fn clock() -> TestClock {
    TestClock::at(Timestamp::from_millis_since_epoch(1_784_937_600_000))
}

/// Runs the signup into a crash at `point`, recovers it, and returns the
/// names and positions of the services called, with the journal.
fn crash_and_recover(point: CrashPoint) -> (Vec<(&'static str, u64)>, Vec<JournalEvent>) {
    let calls = RefCell::new(Vec::new());
    let workflow = SignupWorkflow {
        services: NotedCalls { calls: &calls },
    };
    let execution = execution_id_from_seed("signup-example-2026-08-01");
    let mut rng = SeededRng::from_label(b"signup-example-2026-08-01");
    let mut store = MemoryJournal::new();
    let mut policy = CrashOnce::new(point);

    let crashed = Engine::<_, DuplicateLast, _>::with_failpoints(&mut store, &mut policy).run(
        execution,
        &workflow,
        signup_input(),
        &mut clock(),
        &mut rng,
    );
    assert!(matches!(
        crashed,
        Err(RunError::Engine(EngineError::InjectedCrash(at))) if at == point
    ));
    let output = Engine::<_, DuplicateLast>::new(&mut store)
        .recover_and_run(execution, &workflow, signup_input(), &mut clock(), &mut rng)
        .unwrap();

    assert_eq!(output.as_bytes(), br#"{"charge_id":"ch_2026_0719"}"#);
    let called = calls
        .borrow()
        .iter()
        .map(|(name, key)| {
            assert_eq!(key.execution(), execution);
            (*name, key.seq().get())
        })
        .collect();
    (called, store.load(&execution).unwrap().into_events())
}

#[test]
fn a_signup_that_died_after_the_payment_does_not_charge_again() {
    let (called, journal) = crash_and_recover(CrashPoint::AfterStepCompleted(SeqNum::zero()));

    assert_eq!(called, vec![("charge-card", 0), ("create-account", 1)]);
    assert_eq!(journal.len(), 8);
    assert!(matches!(
        &journal[6],
        JournalEvent::StepCompleted { result, .. }
            if result.as_bytes() == br#"{"account_id":"acct_2026_0719"}"#
    ));
}

#[test]
fn a_signup_that_died_before_the_record_charges_again_with_the_same_key() {
    let (called, _journal) = crash_and_recover(CrashPoint::AfterSideEffect(SeqNum::zero()));

    assert_eq!(
        called,
        vec![("charge-card", 0), ("charge-card", 0), ("create-account", 1)]
    );
}

#[test]
fn a_signup_has_a_name_and_a_version() {
    let calls = RefCell::new(Vec::new());
    let workflow = SignupWorkflow {
        services: NotedCalls { calls: &calls },
    };

    let name = Workflow::<MemoryJournal>::name(&workflow);
    let version = Workflow::<MemoryJournal>::version(&workflow);

    assert_eq!(name.as_str(), "signup");
    assert_eq!(version.as_str(), "2026.07.19");
}
