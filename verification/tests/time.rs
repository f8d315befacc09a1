use yaoki::time::Clock;
use yaoki::time::Deadline;
use yaoki::time::TestClock;
use yaoki::time::Timestamp;

#[test]
fn timestamp_round_trips_millis_since_epoch() {
    let timestamp = Timestamp::from_millis_since_epoch(1_752_838_800_000);

    assert_eq!(timestamp.as_millis_since_epoch(), 1_752_838_800_000);
}

#[test]
fn deadline_at_preserves_the_absolute_timestamp() {
    let one_week_from_epoch = Timestamp::from_millis_since_epoch(604_800_000);

    let deadline = Deadline::at(one_week_from_epoch);

    assert_eq!(deadline.timestamp(), one_week_from_epoch);
}

#[test]
fn test_clock_now_returns_the_fixed_instant() {
    let charge_renewal = Timestamp::from_millis_since_epoch(1_753_401_600_000);
    let mut clock = TestClock::at(charge_renewal);

    assert_eq!(clock.now(), charge_renewal);
}

#[test]
fn test_clock_advance_millis_moves_the_clock_forward() {
    let charge_renewal = Timestamp::from_millis_since_epoch(1_753_401_600_000);
    let mut clock = TestClock::at(charge_renewal);

    // "Charge in a week" compressed to milliseconds.
    clock.advance_millis(50);

    assert_eq!(
        clock.now(),
        Timestamp::from_millis_since_epoch(1_753_401_600_050)
    );
}

#[test]
fn test_clock_sleep_until_never_blocks() {
    let mut clock = TestClock::at(Timestamp::from_millis_since_epoch(0));
    let one_week_away = Timestamp::from_millis_since_epoch(604_800_000);

    clock.sleep_until(one_week_away);

    assert_eq!(clock.now(), Timestamp::from_millis_since_epoch(0));
}
