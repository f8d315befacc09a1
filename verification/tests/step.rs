use yaoki::execution::ExecutionId;
use yaoki::journal::SeqNum;
use yaoki::random::RandomBytes;
use yaoki::random::RngSource;
use yaoki::step::invalid_characters_message;
use yaoki::step::Attempt;
use yaoki::step::AttemptError;
use yaoki::step::IdempotencyKey;
use yaoki::step::StepErrorRecord;
use yaoki::step::StepName;
use yaoki::step::StepNameError;

fn charge_card_bytes() -> [u8; 32] {
    let mut bytes = [0u8; 32];
    bytes[0] = 0xC4;
    bytes
}

/// Test double returning the same bytes every draw.
struct FixedRng {
    bytes: [u8; 32],
}

impl RngSource for FixedRng {
    fn next_bytes(&mut self) -> RandomBytes {
        RandomBytes::new(self.bytes)
    }
}

#[test]
fn step_name_new_accepts_trimmed_lowercase_hyphenated_name() {
    let name = StepName::new("  charge-card  ").unwrap();

    assert_eq!(name.as_str(), "charge-card");
}

#[test]
fn step_name_new_rejects_empty_after_trim() {
    let result = StepName::new("   ");

    assert_eq!(result, Err(StepNameError::Empty));
}

#[test]
fn step_name_new_rejects_uppercase_characters() {
    let result = StepName::new("ChargeCard");

    assert_eq!(
        result,
        Err(StepNameError::InvalidCharacters {
            raw: "ChargeCard".to_owned()
        })
    );
}

#[test]
fn attempt_first_is_one() {
    assert_eq!(Attempt::first().get(), 1);
}

#[test]
fn attempt_new_rejects_zero() {
    let result = Attempt::new(0);

    assert_eq!(result, Err(AttemptError::Zero));
}

#[test]
fn attempt_new_accepts_positive_value() {
    let attempt = Attempt::new(3).unwrap();

    assert_eq!(attempt.get(), 3);
}

#[test]
fn attempt_next_increments() {
    let first = Attempt::first();

    let second = first.next();

    assert_eq!(second.get(), 2);
}

#[test]
fn step_error_record_new_captures_message() {
    let error = StepErrorRecord::new("payment gateway timed out");

    assert_eq!(error.message(), "payment gateway timed out");
}

#[test]
fn idempotency_key_new_pairs_execution_and_seq() {
    let mut rng = FixedRng {
        bytes: charge_card_bytes(),
    };
    let execution = ExecutionId::generate(&mut rng);
    let seq = SeqNum::zero().next();

    let key = IdempotencyKey::new(execution, seq);

    assert_eq!(key.execution(), execution);
    assert_eq!(key.seq(), seq);
}

#[test]
fn the_message_of_a_bad_step_name_shows_the_name() {
    assert_eq!(
        invalid_characters_message("\"Charge Card\""),
        "step name \"Charge Card\" contains characters outside [a-z0-9-]"
    );
}
