use yaoki::equivalence::DuplicateLast;
use yaoki::equivalence::EffectRecord;
use yaoki::equivalence::EffectTrace;
use yaoki::equivalence::Equivalence;
use yaoki::equivalence::ExactlyOnce;
use yaoki::equivalence::ReplayAll;
use yaoki::equivalence::SupportedOn;
use yaoki::equivalence::TransactionalBoundary;
use yaoki::execution::ExecutionId;
use yaoki::journal::EventPayload;
use yaoki::journal::Journal;
use yaoki::journal::JournalError;
use yaoki::journal::JournalEvent;
use yaoki::journal::JournalStore;
use yaoki::journal::SeqNum;
use yaoki::step::StepName;
use yaoki::stores::memory::MemoryJournal;

/// Never used as a real store. It only stands in for a generic `S` in
/// `SupportedOn` bound checks below.
struct StubStore;

impl JournalStore for StubStore {
    fn append(
        &mut self,
        _id: &ExecutionId,
        _event: JournalEvent,
    ) -> Result<SeqNum, JournalError> {
        Err(JournalError::Poisoned)
    }

    fn load(&self, _id: &ExecutionId) -> Result<Journal, JournalError> {
        Err(JournalError::Poisoned)
    }
}

impl TransactionalBoundary for StubStore {}

fn charge_renewal() -> StepName {
    StepName::new("charge-renewal").unwrap()
}

fn charge_renewal_confirmation() -> EventPayload {
    EventPayload::new(br#"{"charge_id":"ch_2026_0724"}"#.to_vec())
}

fn send_receipt() -> StepName {
    StepName::new("send-receipt").unwrap()
}

fn send_receipt_confirmation() -> EventPayload {
    EventPayload::new(br#"{"receipt_sent":true}"#.to_vec())
}

fn reference_trace() -> EffectTrace {
    let mut trace = EffectTrace::new();
    trace.record(charge_renewal(), charge_renewal_confirmation());
    trace.record(send_receipt(), send_receipt_confirmation());
    trace
}

#[test]
fn effect_trace_new_is_empty() {
    let trace = EffectTrace::new();

    assert_eq!(trace.records(), &[]);
}

#[test]
fn effect_trace_record_appends_in_order() {
    let mut trace = EffectTrace::new();

    trace.record(charge_renewal(), charge_renewal_confirmation());
    trace.record(send_receipt(), send_receipt_confirmation());

    assert_eq!(
        trace.records(),
        &[
            EffectRecord::new(charge_renewal(), charge_renewal_confirmation()),
            EffectRecord::new(send_receipt(), send_receipt_confirmation()),
        ]
    );
}

#[test]
fn exactly_once_holds_for_identical_traces() {
    let reference = reference_trace();
    let observed = reference_trace();

    assert!(ExactlyOnce::equivalent(&observed, &reference));
}

#[test]
fn exactly_once_fails_for_a_duplicated_trailing_effect() {
    let reference = reference_trace();
    let mut observed = reference_trace();
    observed.record(send_receipt(), send_receipt_confirmation());

    assert!(!ExactlyOnce::equivalent(&observed, &reference));
}

#[test]
fn exactly_once_holds_for_empty_traces() {
    let reference = EffectTrace::new();
    let observed = EffectTrace::new();

    assert!(ExactlyOnce::equivalent(&observed, &reference));
}

#[test]
fn duplicate_last_holds_for_identical_traces() {
    let reference = reference_trace();
    let observed = reference_trace();

    assert!(DuplicateLast::equivalent(&observed, &reference));
}

#[test]
fn duplicate_last_holds_for_a_duplicated_trailing_effect() {
    let reference = reference_trace();
    let mut observed = reference_trace();
    observed.record(send_receipt(), send_receipt_confirmation());

    assert!(DuplicateLast::equivalent(&observed, &reference));
}

#[test]
fn duplicate_last_fails_for_a_duplicate_in_the_middle_rather_than_the_tail() {
    // charge-renewal duplicated where it happened, not at the trailing
    // position. That is a different bug than the documented crash
    // window, and DuplicateLast makes no promise about it.
    let reference = reference_trace();
    let mut observed = EffectTrace::new();
    observed.record(charge_renewal(), charge_renewal_confirmation());
    observed.record(charge_renewal(), charge_renewal_confirmation());
    observed.record(send_receipt(), send_receipt_confirmation());

    assert!(!DuplicateLast::equivalent(&observed, &reference));
}

#[test]
fn duplicate_last_fails_when_observed_is_a_strict_prefix_of_reference() {
    let reference = reference_trace();
    let mut observed = EffectTrace::new();
    observed.record(charge_renewal(), charge_renewal_confirmation());

    assert!(!DuplicateLast::equivalent(&observed, &reference));
}

#[test]
fn duplicate_last_holds_for_empty_traces() {
    let reference = EffectTrace::new();
    let observed = EffectTrace::new();

    assert!(DuplicateLast::equivalent(&observed, &reference));
}

#[test]
fn replay_all_holds_for_identical_traces() {
    let reference = reference_trace();
    let observed = reference_trace();

    assert!(ReplayAll::equivalent(&observed, &reference));
}

#[test]
fn replay_all_holds_for_a_full_rerun_after_a_partial_reference_prefix() {
    // Crashed after charge-renewal alone, then a ReplayAll recovery
    // re-executed the whole workflow from scratch.
    let reference = reference_trace();
    let mut observed = EffectTrace::new();
    observed.record(charge_renewal(), charge_renewal_confirmation());
    observed.record(charge_renewal(), charge_renewal_confirmation());
    observed.record(send_receipt(), send_receipt_confirmation());

    assert!(ReplayAll::equivalent(&observed, &reference));
}

#[test]
fn replay_all_holds_for_a_triple_execution_of_the_whole_workflow() {
    // Two full reruns on top of the reference run, e.g. two separate
    // crashes each triggering a fresh full re-execution.
    let reference = reference_trace();
    let mut observed = reference_trace();
    observed.record(charge_renewal(), charge_renewal_confirmation());
    observed.record(send_receipt(), send_receipt_confirmation());
    observed.record(charge_renewal(), charge_renewal_confirmation());
    observed.record(send_receipt(), send_receipt_confirmation());

    assert!(ReplayAll::equivalent(&observed, &reference));
}

#[test]
fn replay_all_fails_when_a_step_is_missing_from_the_reference() {
    let reference = reference_trace();
    let mut observed = EffectTrace::new();
    observed.record(charge_renewal(), charge_renewal_confirmation());

    assert!(!ReplayAll::equivalent(&observed, &reference));
}

#[test]
fn replay_all_holds_for_empty_traces() {
    let reference = EffectTrace::new();
    let observed = EffectTrace::new();

    assert!(ReplayAll::equivalent(&observed, &reference));
}

#[test]
fn memory_journal_supports_exactly_once() {
    fn assert_supported<S: JournalStore, E: SupportedOn<S>>() {}
    assert_supported::<MemoryJournal, ExactlyOnce>();
}

#[test]
fn any_journal_store_supports_duplicate_last_and_replay_all() {
    fn assert_supported<S: JournalStore, E: SupportedOn<S>>() {}
    assert_supported::<StubStore, DuplicateLast>();
    assert_supported::<StubStore, ReplayAll>();
}
