use yaoki::execution::ExecutionId;
use yaoki::execution::WorkflowName;
use yaoki::execution::WorkflowVersion;
use yaoki::journal::EventPayload;
use yaoki::journal::JournalEvent;
use yaoki::journal::JournalStore;
use yaoki::journal::SeqNum;
use yaoki::random::RandomBytes;
use yaoki::random::RngSource;
use yaoki::step::StepName;
use yaoki::stores::memory::MemoryJournal;

/// Test double returning the same bytes every draw.
struct FixedRng {
    bytes: [u8; 32],
}

impl RngSource for FixedRng {
    fn next_bytes(&mut self) -> RandomBytes {
        RandomBytes::new(self.bytes)
    }
}

fn signup_execution() -> ExecutionId {
    let mut bytes = [0u8; 32];
    bytes[0] = 0x51; // 'Q', arbitrary deterministic marker
    let mut rng = FixedRng { bytes };
    ExecutionId::generate(&mut rng)
}

fn renewal_execution() -> ExecutionId {
    let mut bytes = [0u8; 32];
    bytes[0] = 0x52; // 'R', arbitrary deterministic marker
    let mut rng = FixedRng { bytes };
    ExecutionId::generate(&mut rng)
}

fn execution_started() -> JournalEvent {
    JournalEvent::ExecutionStarted {
        workflow: WorkflowName::new("signup").unwrap(),
        version: WorkflowVersion::new("2026.07.18").unwrap(),
        input: EventPayload::new(br#"{"email":"john.smith@example.com"}"#.to_vec()),
    }
}

fn step_scheduled(name: &str) -> JournalEvent {
    JournalEvent::StepScheduled {
        seq: SeqNum::zero(),
        name: StepName::new(name).unwrap(),
    }
}

#[test]
fn memory_load_on_unknown_execution_returns_empty_journal() {
    let store = MemoryJournal::new();
    let execution = signup_execution();

    let journal = store.load(&execution).unwrap();

    assert!(journal.is_empty());
}

#[test]
fn memory_append_then_load_preserves_order() {
    let mut store = MemoryJournal::new();
    let execution = signup_execution();

    store.append(&execution, execution_started()).unwrap();
    store
        .append(&execution, step_scheduled("charge-card"))
        .unwrap();
    let journal = store.load(&execution).unwrap();

    assert_eq!(
        journal.events(),
        &[execution_started(), step_scheduled("charge-card")]
    );
}

#[test]
fn memory_append_returns_the_zero_based_position_of_the_appended_event() {
    let mut store = MemoryJournal::new();
    let execution = signup_execution();

    let first_position = store.append(&execution, execution_started()).unwrap();
    let second_position = store
        .append(&execution, step_scheduled("charge-card"))
        .unwrap();

    assert_eq!(first_position.get(), 0);
    assert_eq!(second_position.get(), 1);
}

#[test]
fn different_executions_have_independent_logs() {
    let mut store = MemoryJournal::new();
    let signup = signup_execution();
    let renewal = renewal_execution();

    store.append(&signup, execution_started()).unwrap();
    let renewal_journal = store.load(&renewal).unwrap();
    let signup_journal = store.load(&signup).unwrap();

    assert!(renewal_journal.is_empty());
    assert_eq!(signup_journal.len(), 1);
}

