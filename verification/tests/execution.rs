use yaoki::execution::ExecutionId;
use yaoki::execution::WorkflowErrorRecord;
use yaoki::execution::WorkflowName;
use yaoki::execution::WorkflowNameError;
use yaoki::execution::WorkflowVersion;
use yaoki::execution::WorkflowVersionError;
use yaoki::random::RandomBytes;
use yaoki::random::RngSource;
use yaoki::random::SeededRng;

/// Test double returning the same bytes every draw.
struct FixedRng {
    bytes: [u8; 32],
}

impl RngSource for FixedRng {
    fn next_bytes(&mut self) -> RandomBytes {
        RandomBytes::new(self.bytes)
    }
}

fn signup_execution_bytes() -> [u8; 32] {
    let mut bytes = [0u8; 32];
    bytes[0] = 0x51; // 'Q', arbitrary deterministic marker
    bytes
}

#[test]
fn execution_id_generate_uses_first_sixteen_bytes_of_the_draw() {
    let mut rng = FixedRng {
        bytes: signup_execution_bytes(),
    };

    let id = ExecutionId::generate(&mut rng);

    assert_eq!(id.as_bytes(), &signup_execution_bytes()[..16]);
}

#[test]
fn execution_id_generate_is_deterministic_for_the_same_draw() {
    let mut rng_a = FixedRng {
        bytes: signup_execution_bytes(),
    };
    let mut rng_b = FixedRng {
        bytes: signup_execution_bytes(),
    };

    let id_a = ExecutionId::generate(&mut rng_a);
    let id_b = ExecutionId::generate(&mut rng_b);

    assert_eq!(id_a, id_b);
}

#[test]
fn workflow_name_new_accepts_trimmed_name() {
    let name = WorkflowName::new("  signup  ").unwrap();

    assert_eq!(name.as_str(), "signup");
}

#[test]
fn workflow_name_new_rejects_empty_after_trim() {
    let result = WorkflowName::new("   ");

    assert_eq!(result, Err(WorkflowNameError::Empty));
}

#[test]
fn workflow_version_new_accepts_trimmed_version() {
    let version = WorkflowVersion::new("2026.07.18").unwrap();

    assert_eq!(version.as_str(), "2026.07.18");
}

#[test]
fn workflow_version_new_rejects_empty_after_trim() {
    let result = WorkflowVersion::new("");

    assert_eq!(result, Err(WorkflowVersionError::Empty));
}

#[test]
fn workflow_error_record_new_captures_message() {
    let error = WorkflowErrorRecord::new("account creation rolled back");

    assert_eq!(error.message(), "account creation rolled back");
}

#[test]
fn an_identity_from_a_seeded_source_is_the_start_of_its_seed() {
    let mut rng = SeededRng::from_label(b"nightly-invoices-2026");

    let id = ExecutionId::generate(&mut rng);

    assert_eq!(id.as_bytes(), b"nightly-invoices");
}
