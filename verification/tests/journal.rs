use yaoki::journal::EventPayload;
use yaoki::journal::Journal;
use yaoki::journal::JournalError;
use yaoki::journal::JournalEvent;
use yaoki::journal::SeqNum;
use yaoki::step::Attempt;

#[test]
fn seq_zero_starts_at_zero() {
    assert_eq!(SeqNum::zero().get(), 0);
}

#[test]
fn seq_next_increments_by_one() {
    let first = SeqNum::zero();

    let second = first.next();

    assert_eq!(second.get(), 1);
}

#[test]
fn event_payload_round_trips_bytes() {
    let charge_confirmation = br#"{"charge_id":"ch_2026_0718"}"#.to_vec();

    let payload = EventPayload::new(charge_confirmation.clone());

    assert_eq!(payload.as_bytes(), charge_confirmation.as_slice());
    assert_eq!(payload.into_bytes(), charge_confirmation);
}

#[test]
fn step_completed_event_carries_seq_and_result() {
    let seq = SeqNum::zero();
    let result = EventPayload::new(b"charged".to_vec());

    let event = JournalEvent::StepCompleted {
        seq,
        result: result.clone(),
    };

    match event {
        JournalEvent::StepCompleted {
            seq: got_seq,
            result: got_result,
        } => {
            assert_eq!(got_seq, seq);
            assert_eq!(got_result, result);
        }
        other => panic!("expected StepCompleted, got {other:?}"),
    }
}

#[test]
fn a_few_attempts_leave_room_for_the_next() {
    let seq = SeqNum::zero();
    let first = Attempt::first();
    let journal = Journal::new(vec![
        JournalEvent::StepStarted {
            seq,
            attempt: first,
        },
        JournalEvent::StepStarted {
            seq,
            attempt: first.next(),
        },
    ]);

    assert!(journal.retries_fit());
    assert!(Journal::empty().retries_fit());
}

#[test]
fn a_position_is_written_under_its_short_name() {
    assert_eq!(format!("{:?}", SeqNum::from_index(7)), "Seq(7)");
    assert_eq!(format!("{:#?}", SeqNum::zero()), "Seq(\n    0,\n)");
}

#[test]
fn a_journal_error_is_put_in_words() {
    assert_eq!(
        JournalError::Poisoned.message(),
        "journal lock is poisoned"
    );
    assert_eq!(
        JournalError::Io {
            message: "disk full".to_owned()
        }
        .message(),
        "journal I/O failed: disk full"
    );
    assert_eq!(
        JournalError::Codec {
            message: "step name is empty".to_owned()
        }
        .message(),
        "journal record is malformed: step name is empty"
    );
}
