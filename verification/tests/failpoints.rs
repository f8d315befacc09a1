use yaoki::failpoints::CrashOnce;
use yaoki::failpoints::CrashPoint;
use yaoki::failpoints::FailpointDecision;
use yaoki::failpoints::FailpointPolicy;
use yaoki::failpoints::NeverCrash;
use yaoki::journal::SeqNum;

fn charge_card_seq() -> SeqNum {
    SeqNum::zero()
}

fn create_account_seq() -> SeqNum {
    SeqNum::zero().next()
}

#[test]
fn crash_point_seq_returns_the_position_of_every_window() {
    let seq = create_account_seq();

    assert_eq!(CrashPoint::BeforeStepScheduled(seq).seq(), seq);
    assert_eq!(CrashPoint::AfterStepScheduled(seq).seq(), seq);
    assert_eq!(CrashPoint::AfterStepStarted(seq).seq(), seq);
    assert_eq!(CrashPoint::AfterSideEffect(seq).seq(), seq);
    assert_eq!(CrashPoint::AfterStepCompleted(seq).seq(), seq);
    assert_eq!(CrashPoint::AfterTimerScheduled(seq).seq(), seq);
    assert_eq!(CrashPoint::AfterTimerFired(seq).seq(), seq);
}

#[test]
fn never_crash_continues_at_every_window() {
    let mut policy = NeverCrash::new();

    assert_eq!(
        policy.at(CrashPoint::AfterSideEffect(charge_card_seq())),
        FailpointDecision::Continue
    );
    assert_eq!(
        policy.at(CrashPoint::AfterStepCompleted(charge_card_seq())),
        FailpointDecision::Continue
    );
}

#[test]
fn crash_once_crashes_at_its_configured_window() {
    let mut policy = CrashOnce::new(CrashPoint::AfterSideEffect(charge_card_seq()));

    let decision = policy.at(CrashPoint::AfterSideEffect(charge_card_seq()));

    assert_eq!(decision, FailpointDecision::Crash);
    assert!(policy.has_fired());
}

#[test]
fn crash_once_continues_at_a_different_window() {
    let mut policy = CrashOnce::new(CrashPoint::AfterSideEffect(charge_card_seq()));

    let decision = policy.at(CrashPoint::AfterStepCompleted(charge_card_seq()));

    assert_eq!(decision, FailpointDecision::Continue);
    assert!(!policy.has_fired());
}

#[test]
fn crash_once_continues_at_the_same_window_of_a_different_command() {
    let mut policy = CrashOnce::new(CrashPoint::AfterSideEffect(charge_card_seq()));

    let decision = policy.at(CrashPoint::AfterSideEffect(create_account_seq()));

    assert_eq!(decision, FailpointDecision::Continue);
}

#[test]
fn crash_once_continues_on_the_second_visit_to_its_window() {
    let mut policy = CrashOnce::new(CrashPoint::AfterSideEffect(charge_card_seq()));
    let _first = policy.at(CrashPoint::AfterSideEffect(charge_card_seq()));

    let second = policy.at(CrashPoint::AfterSideEffect(charge_card_seq()));

    assert_eq!(second, FailpointDecision::Continue);
}
