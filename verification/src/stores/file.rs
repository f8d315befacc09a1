//! What a journal file holds and what it is called: one append-only file per
//! execution, `<execution-id-hex>.journal`, of framed records.
//!
//! `JournalEventRecord` mirrors `JournalEvent` with plain fields, converted
//! via `From<&JournalEvent>` / `TryFrom<JournalEventRecord>`. How a record
//! is written as bytes is left to the program that owns the files.

use vstd::prelude::*;

use crate::execution::ExecutionId;
use crate::execution::WorkflowErrorRecord;
use crate::execution::WorkflowName;
use crate::execution::WorkflowVersion;
use crate::journal;
use crate::journal::EventPayload;
use crate::journal::EventView;
use crate::journal::JournalError;
use crate::journal::JournalEvent;
use crate::journal::SeqNum;
use crate::random::RandomBytes;
use crate::step;
use crate::step::Attempt;
use crate::step::StepErrorRecord;
use crate::step::StepName;
use crate::stores::frame;
use crate::stores::number;
use crate::text;
use crate::time::Deadline;
use crate::time::Timestamp;

verus! {

/// On-disk mirror of `JournalEvent`. Plain fields only; domain validation
/// happens in `TryFrom<JournalEventRecord> for JournalEvent`, at the
/// boundary where an on-disk record becomes a domain value.
#[allow(inconsistent_fields)]
#[derive(Debug, PartialEq)]
pub enum JournalEventRecord {
    ExecutionStarted { workflow: String, version: String, input: Vec<u8> },
    StepScheduled { seq: u64, name: String },
    StepStarted { seq: u64, attempt: u32 },
    StepCompleted { seq: u64, result: Vec<u8> },
    StepFailed { seq: u64, attempt: u32, error: String },
    NowRecorded { seq: u64, value: u64 },
    RandomRecorded { seq: u64, value: [u8; 32] },
    TimerScheduled { seq: u64, deadline: u64 },
    TimerFired { seq: u64 },
    ExecutionCompleted { output: Vec<u8> },
    ExecutionFailed { error: String },
}

impl View for JournalEventRecord {
    type V = EventView;

    open spec fn view(&self) -> EventView {
        match self {
            JournalEventRecord::ExecutionStarted { workflow, version, input } => {
                EventView::ExecutionStarted {
                    workflow: workflow@,
                    version: version@,
                    input: input@,
                }
            },
            JournalEventRecord::StepScheduled { seq, name } => {
                EventView::StepScheduled { seq: *seq as nat, name: name@ }
            },
            JournalEventRecord::StepStarted { seq, attempt } => {
                EventView::StepStarted { seq: *seq as nat, attempt: *attempt as nat }
            },
            JournalEventRecord::StepCompleted { seq, result } => {
                EventView::StepCompleted { seq: *seq as nat, result: result@ }
            },
            JournalEventRecord::StepFailed { seq, attempt, error } => EventView::StepFailed {
                seq: *seq as nat,
                attempt: *attempt as nat,
                error: error@,
            },
            JournalEventRecord::NowRecorded { seq, value } => {
                EventView::NowRecorded { seq: *seq as nat, value: *value as nat }
            },
            JournalEventRecord::RandomRecorded { seq, value } => {
                EventView::RandomRecorded { seq: *seq as nat, value: value@ }
            },
            JournalEventRecord::TimerScheduled { seq, deadline } => {
                EventView::TimerScheduled { seq: *seq as nat, deadline: *deadline as nat }
            },
            JournalEventRecord::TimerFired { seq } => EventView::TimerFired { seq: *seq as nat },
            JournalEventRecord::ExecutionCompleted { output } => {
                EventView::ExecutionCompleted { output: output@ }
            },
            JournalEventRecord::ExecutionFailed { error } => {
                EventView::ExecutionFailed { error: error@ }
            },
        }
    }
}

/// The event that a `record` stands for, or what is wrong with it. Names
/// lose surrounding white space; an empty name, a step name outside its
/// alphabet and an attempt zero are refused.
pub open spec fn decoded(record: EventView) -> Result<EventView, Seq<char>> {
    match record {
        EventView::ExecutionStarted { workflow, version, input } => {
            if text::trimmed(workflow).len() == 0 {
                Err("workflow name is empty"@)
            } else if text::trimmed(version).len() == 0 {
                Err("workflow version is empty"@)
            } else {
                Ok(
                    EventView::ExecutionStarted {
                        workflow: text::trimmed(workflow),
                        version: text::trimmed(version),
                        input,
                    },
                )
            }
        },
        EventView::StepScheduled { seq, name } => {
            let trimmed = text::trimmed(name);
            if trimmed.len() == 0 {
                Err("step name is empty"@)
            } else if !step::is_step_name(trimmed) {
                Err(step::invalid_characters(text::quoted(trimmed)))
            } else {
                Ok(EventView::StepScheduled { seq, name: trimmed })
            }
        },
        EventView::StepStarted { attempt, .. } if attempt == 0 => Err(
            "attempt number must be >= 1, got 0"@,
        ),
        EventView::StepFailed { attempt, .. } if attempt == 0 => Err(
            "attempt number must be >= 1, got 0"@,
        ),
        _ => Ok(record),
    }
}

/// A decoded event stands for itself: written again, it is read back as it
/// is.
pub proof fn decoding_is_idempotent(record: EventView)
    ensures
        decoded(record) matches Ok(event) ==> decoded(event) == Ok::<EventView, Seq<char>>(event),
{
    match record {
        EventView::ExecutionStarted { workflow, version, input } => {
            text::trimming_is_idempotent(workflow);
            text::trimming_is_idempotent(version);
        },
        EventView::StepScheduled { seq, name } => {
            text::trimming_is_idempotent(name);
        },
        _ => {},
    }
}

/// What `records` hold.
pub open spec fn record_views(records: Seq<JournalEventRecord>) -> Seq<EventView> {
    Seq::new(records.len(), |i: int| records[i]@)
}

/// The events that `records` stand for, in order, or what is wrong with the
/// first of them that stands for none.
pub open spec fn decoded_all(records: Seq<EventView>) -> Result<Seq<EventView>, Seq<char>>
    decreases records.len(),
{
    if records.len() == 0 {
        Ok(Seq::empty())
    } else {
        match (decoded_all(records.drop_last()), decoded(records.last())) {
            (Err(reason), _) => Err(reason),
            (Ok(_), Err(reason)) => Err(reason),
            (Ok(events), Ok(event)) => Ok(events.push(event)),
        }
    }
}

proof fn lemma_first_error_wins(records: Seq<EventView>, n: int)
    requires
        0 <= n <= records.len(),
        decoded_all(records.take(n)) is Err,
    ensures
        decoded_all(records) == decoded_all(records.take(n)),
    decreases records.len(),
{
    if n == records.len() {
        assert(records.take(n) =~= records);
    } else {
        assert(records.drop_last().take(n) =~= records.take(n));
        lemma_first_error_wins(records.drop_last(), n);
    }
}

/// A journal is read back as it was written: records that events were turned
/// into, which all decode to what they hold, give back the same events in the
/// same order.
pub proof fn written_events_are_read_back(records: Seq<EventView>)
    requires
        forall|i: int|
            0 <= i < records.len() ==> decoded(#[trigger] records[i]) == Ok::<
                EventView,
                Seq<char>,
            >(records[i]),
    ensures
        decoded_all(records) == Ok::<Seq<EventView>, Seq<char>>(records),
    decreases records.len(),
{
    if records.len() == 0 {
        assert(records =~= Seq::<EventView>::empty());
    } else {
        let earlier = records.drop_last();
        assert forall|i: int| 0 <= i < earlier.len() implies decoded(#[trigger] earlier[i]) == Ok::<
            EventView,
            Seq<char>,
        >(earlier[i]) by {
            assert(earlier[i] == records[i]);
        }
        written_events_are_read_back(earlier);
        assert(records.last() == records[records.len() - 1]);
        assert(earlier.push(records.last()) =~= records);
    }
}

/// Turns the records of a journal file into events. The first record that
/// stands for no event makes it fail.
pub fn events_of(records: Vec<JournalEventRecord>) -> (r: Result<Vec<JournalEvent>, JournalError>)
    ensures
        match decoded_all(record_views(records@)) {
            Ok(events) => r matches Ok(made) && journal::event_views(made@) == events,
            Err(reason) => r matches Err(JournalError::Codec { message }) && message@ == reason,
        },
{
    let ghost views = record_views(records@);
    let mut events: Vec<JournalEvent> = Vec::new();
    assert(views.take(0) =~= Seq::<EventView>::empty());
    assert(journal::event_views(events@) =~= Seq::<EventView>::empty());
    for record in iter: records
        invariant
            iter.seq() == records@,
            views == record_views(records@),
            decoded_all(views.take(iter.index() as int)) == Ok::<Seq<EventView>, Seq<char>>(
                journal::event_views(events@),
            ),
    {
        let ghost n = iter.index() as int;
        let ghost seen = views.take(n + 1);
        let ghost earlier = journal::event_views(events@);
        assert(seen.drop_last() =~= views.take(n));
        assert(seen.last() == record@);
        match JournalEvent::try_from(record) {
            Ok(event) => {
                let ghost view = event@;
                events.push(event);
                assert(journal::event_views(events@) =~= earlier.push(view));
            },
            Err(error) => {
                proof {
                    lemma_first_error_wins(views, n + 1);
                }
                return Err(error);
            },
        }
    }
    assert(views.take(views.len() as int) =~= views);
    Ok(events)
}

/// A copy of `bytes`.
fn copied(bytes: &[u8]) -> (r: Vec<u8>)
    ensures
        r@ == bytes@,
{
    let mut out: Vec<u8> = Vec::new();
    out.extend_from_slice(bytes);
    assert(out@ =~= bytes@);
    out
}

impl From<&JournalEvent> for JournalEventRecord {
    fn from(event: &JournalEvent) -> (r: Self)
        ensures
            r@ == event@,
            decoded(r@) == Ok::<EventView, Seq<char>>(event@),
    {
        match event {
            JournalEvent::ExecutionStarted { workflow, version, input } => {
                JournalEventRecord::ExecutionStarted {
                    workflow: workflow.as_str().to_owned(),
                    version: version.as_str().to_owned(),
                    input: copied(input.as_bytes()),
                }
            },
            JournalEvent::StepScheduled { seq, name } => {
                let name = name.as_str();
                proof {
                    step::step_names_are_trimmed(name@);
                }
                JournalEventRecord::StepScheduled { seq: seq.get(), name: name.to_owned() }
            },
            JournalEvent::StepStarted { seq, attempt } => {
                JournalEventRecord::StepStarted { seq: seq.get(), attempt: attempt.get() }
            },
            JournalEvent::StepCompleted { seq, result } => {
                JournalEventRecord::StepCompleted {
                    seq: seq.get(),
                    result: copied(result.as_bytes()),
                }
            },
            JournalEvent::StepFailed { seq, attempt, error } => {
                JournalEventRecord::StepFailed {
                    seq: seq.get(),
                    attempt: attempt.get(),
                    error: error.message().to_owned(),
                }
            },
            JournalEvent::NowRecorded { seq, value } => {
                JournalEventRecord::NowRecorded {
                    seq: seq.get(),
                    value: value.as_millis_since_epoch(),
                }
            },
            JournalEvent::RandomRecorded { seq, value } => {
                JournalEventRecord::RandomRecorded { seq: seq.get(), value: *value.as_bytes() }
            },
            JournalEvent::TimerScheduled { seq, deadline } => {
                JournalEventRecord::TimerScheduled {
                    seq: seq.get(),
                    deadline: deadline.timestamp().as_millis_since_epoch(),
                }
            },
            JournalEvent::TimerFired { seq } => JournalEventRecord::TimerFired { seq: seq.get() },
            JournalEvent::ExecutionCompleted { output } => {
                JournalEventRecord::ExecutionCompleted { output: copied(output.as_bytes()) }
            },
            JournalEvent::ExecutionFailed { error } => {
                JournalEventRecord::ExecutionFailed { error: error.message().to_owned() }
            },
        }
    }
}

impl vstd::std_specs::convert::FromSpecImpl<&JournalEvent> for JournalEventRecord {
    open spec fn obeys_from_spec() -> bool {
        false
    }

    open spec fn from_spec(event: &JournalEvent) -> JournalEventRecord {
        arbitrary()
    }
}

impl TryFrom<JournalEventRecord> for JournalEvent {
    type Error = JournalError;

    fn try_from(record: JournalEventRecord) -> (r: Result<Self, JournalError>)
        ensures
            match decoded(record@) {
                Ok(event) => r matches Ok(made) && made@ == event,
                Err(reason) => r matches Err(JournalError::Codec { message }) && message@ == reason,
            },
    {
        match record {
            JournalEventRecord::ExecutionStarted { workflow, version, input } => {
                let workflow = match WorkflowName::new(workflow.as_str()) {
                    Ok(name) => name,
                    Err(error) => return Err(JournalError::Codec { message: error.message() }),
                };
                let version = match WorkflowVersion::new(version.as_str()) {
                    Ok(version) => version,
                    Err(error) => return Err(JournalError::Codec { message: error.message() }),
                };
                let input = EventPayload::new(input);
                Ok(JournalEvent::ExecutionStarted { workflow, version, input })
            },
            JournalEventRecord::StepScheduled { seq, name } => {
                let name = match StepName::new(name.as_str()) {
                    Ok(name) => name,
                    Err(error) => return Err(JournalError::Codec { message: error.message() }),
                };
                Ok(JournalEvent::StepScheduled { seq: SeqNum::from_index(seq), name })
            },
            JournalEventRecord::StepStarted { seq, attempt } => {
                let attempt = match Attempt::new(attempt) {
                    Ok(attempt) => attempt,
                    Err(error) => return Err(JournalError::Codec { message: error.message() }),
                };
                Ok(JournalEvent::StepStarted { seq: SeqNum::from_index(seq), attempt })
            },
            JournalEventRecord::StepCompleted { seq, result } => Ok(
                JournalEvent::StepCompleted {
                    seq: SeqNum::from_index(seq),
                    result: EventPayload::new(result),
                },
            ),
            JournalEventRecord::StepFailed { seq, attempt, error: failure } => {
                let attempt = match Attempt::new(attempt) {
                    Ok(attempt) => attempt,
                    Err(error) => return Err(JournalError::Codec { message: error.message() }),
                };
                let error = StepErrorRecord::new(failure.as_str());
                Ok(JournalEvent::StepFailed { seq: SeqNum::from_index(seq), attempt, error })
            },
            JournalEventRecord::NowRecorded { seq, value } => Ok(
                JournalEvent::NowRecorded {
                    seq: SeqNum::from_index(seq),
                    value: Timestamp::from_millis_since_epoch(value),
                },
            ),
            JournalEventRecord::RandomRecorded { seq, value } => Ok(
                JournalEvent::RandomRecorded {
                    seq: SeqNum::from_index(seq),
                    value: RandomBytes::new(value),
                },
            ),
            JournalEventRecord::TimerScheduled { seq, deadline } => Ok(
                JournalEvent::TimerScheduled {
                    seq: SeqNum::from_index(seq),
                    deadline: Deadline::at(Timestamp::from_millis_since_epoch(deadline)),
                },
            ),
            JournalEventRecord::TimerFired { seq } => Ok(
                JournalEvent::TimerFired { seq: SeqNum::from_index(seq) },
            ),
            JournalEventRecord::ExecutionCompleted { output } => Ok(
                JournalEvent::ExecutionCompleted { output: EventPayload::new(output) },
            ),
            JournalEventRecord::ExecutionFailed { error } => Ok(
                JournalEvent::ExecutionFailed { error: WorkflowErrorRecord::new(error.as_str()) },
            ),
        }
    }
}

impl vstd::std_specs::convert::TryFromSpecImpl<JournalEventRecord> for JournalEvent {
    open spec fn obeys_try_from_spec() -> bool {
        false
    }

    open spec fn try_from_spec(record: JournalEventRecord) -> Result<JournalEvent, JournalError> {
        arbitrary()
    }
}

/// The hexadecimal digit for `d`.
pub open spec fn hex_char(d: nat) -> char {
    number::digit(d) as char
}

/// Two hexadecimal digits for each of `bytes`.
pub open spec fn hex_text(bytes: Seq<u8>) -> Seq<char>
    decreases bytes.len(),
{
    if bytes.len() == 0 {
        Seq::empty()
    } else {
        hex_text(bytes.drop_last()).push(hex_char((bytes.last() / 16) as nat)).push(
            hex_char((bytes.last() % 16) as nat),
        )
    }
}

/// The hexadecimal digit for `d`.
fn hex_digit_text(d: u8) -> (r: &'static str)
    requires
        d < 16,
    ensures
        r@ == seq![hex_char(d as nat)],
{
    proof {
        reveal_strlit("0");
        reveal_strlit("1");
        reveal_strlit("2");
        reveal_strlit("3");
        reveal_strlit("4");
        reveal_strlit("5");
        reveal_strlit("6");
        reveal_strlit("7");
        reveal_strlit("8");
        reveal_strlit("9");
        reveal_strlit("a");
        reveal_strlit("b");
        reveal_strlit("c");
        reveal_strlit("d");
        reveal_strlit("e");
        reveal_strlit("f");
    }
    match d {
        0 => "0",
        1 => "1",
        2 => "2",
        3 => "3",
        4 => "4",
        5 => "5",
        6 => "6",
        7 => "7",
        8 => "8",
        9 => "9",
        10 => "a",
        11 => "b",
        12 => "c",
        13 => "d",
        14 => "e",
        _ => "f",
    }
}

/// Two hexadecimal digits for each of `bytes`.
pub fn hex_encode(bytes: &[u8]) -> (r: String)
    ensures
        r@ == hex_text(bytes@),
{
    let mut out = String::new();
    let mut i: usize = 0;
    while i < bytes.len()
        invariant
            i <= bytes@.len(),
            out@ == hex_text(bytes@.take(i as int)),
        decreases bytes@.len() - i,
    {
        let ghost before = out@;
        let byte: u8 = bytes[i];
        out.append(hex_digit_text(byte / 16));
        out.append(hex_digit_text(byte % 16));
        proof {
            assert(bytes@.take(i + 1).drop_last() =~= bytes@.take(i as int));
            assert(out@ =~= before.push(hex_char((byte / 16) as nat)).push(
                hex_char((byte % 16) as nat),
            ));
        }
        i = i + 1;
    }
    assert(bytes@.take(i as int) =~= bytes@);
    out
}

/// The name of the file that keeps the journal of `id`.
pub fn journal_file_name(id: &ExecutionId) -> (r: String)
    ensures
        r@ == hex_text(id@) + ".journal"@,
{
    let mut name = hex_encode(id.as_bytes().as_slice());
    name.append(".journal");
    name
}

/// What reading a journal file comes to.
pub struct Healed<'a> {
    /// The payloads of the good frames, in order.
    pub payloads: Vec<&'a [u8]>,
    /// Where the file has to be cut off, if it ends in a torn write.
    pub truncate_to: Option<u64>,
}

/// Reads the good frames off a journal file. If the file's tail is a torn
/// write, it is to be truncated down to the last good frame: the file heals
/// on this read, not just in memory.
pub fn heal(bytes: &[u8]) -> (r: Healed<'_>)
    ensures
        frame::contents(r.payloads@) == frame::parse_all(bytes@).0,
        r.truncate_to is None <==> frame::parse_all(bytes@).1 == bytes@.len(),
        r.truncate_to matches Some(len) ==> len == frame::parse_all(bytes@).1 && len
            < bytes@.len(),
{
    let (payloads, good_len) = frame::parse_frames(bytes);
    let truncate_to = if good_len < bytes.len() {
        Some(good_len as u64)
    } else {
        None
    };
    Healed { payloads, truncate_to }
}

proof fn lemma_hex_text_injective(a: Seq<u8>, b: Seq<u8>)
    requires
        hex_text(a) == hex_text(b),
    ensures
        a == b,
    decreases a.len(),
{
    if a.len() == 0 {
        if b.len() > 0 {
            assert(hex_text(b).len() > 0);
        }
        assert(a =~= b);
    } else {
        assert(hex_text(a).len() > 0);
        assert(b.len() > 0);
        let text = hex_text(a);
        assert(text.drop_last().drop_last() =~= hex_text(a.drop_last()));
        assert(text.drop_last().drop_last() =~= hex_text(b.drop_last()));
        lemma_hex_text_injective(a.drop_last(), b.drop_last());
        assert(text[text.len() - 1] == hex_char((a.last() % 16) as nat));
        assert(text[text.len() - 1] == hex_char((b.last() % 16) as nat));
        assert(text[text.len() - 2] == hex_char((a.last() / 16) as nat));
        assert(text[text.len() - 2] == hex_char((b.last() / 16) as nat));
        assert(a =~= a.drop_last().push(a.last()));
        assert(b =~= b.drop_last().push(b.last()));
    }
}

/// Every execution has a file of its own: different identities never share a
/// file name.
pub proof fn file_names_are_distinct(a: Seq<u8>, b: Seq<u8>)
    requires
        a != b,
    ensures
        hex_text(a) + ".journal"@ != hex_text(b) + ".journal"@,
{
    let first = hex_text(a) + ".journal"@;
    let second = hex_text(b) + ".journal"@;
    if first == second {
        let ending = ".journal"@.len();
        assert(first.take(first.len() - ending) =~= hex_text(a));
        assert(second.take(second.len() - ending) =~= hex_text(b));
        lemma_hex_text_injective(a, b);
    }
}

/// A file name spells out every byte of the identity: two digits for each,
/// the high one first.
pub proof fn file_names_spell_out_identities(id: ExecutionId, name: String)
    requires
        call_ensures(journal_file_name, (&id,), name),
    ensures
        name@.len() == 2 * id@.len() + 8,
        forall|i: int|
            0 <= i < id@.len() ==> name@[2 * i] == "0123456789abcdef"@[#[trigger] id@[i] as int
                / 16] && name@[2 * i + 1] == "0123456789abcdef"@[id@[i] as int % 16],
        name@.skip(2 * id@.len() as int) == ".journal"@,
{
    reveal_strlit(".journal");
    lemma_hex_text_spelled(id@);
    let text = hex_text(id@);
    assert(name@ == text + ".journal"@);
    assert forall|i: int| 0 <= i < id@.len() implies name@[2 * i] == "0123456789abcdef"@[
    #[trigger] id@[i] as int / 16] && name@[2 * i + 1] == "0123456789abcdef"@[id@[i] as int
        % 16] by {
        assert(name@[2 * i] == text[2 * i]);
        assert(name@[2 * i + 1] == text[2 * i + 1]);
    }
    assert(name@.skip(2 * id@.len() as int) =~= ".journal"@);
}

proof fn lemma_hex_text_spelled(bytes: Seq<u8>)
    ensures
        hex_text(bytes).len() == 2 * bytes.len(),
        forall|i: int|
            0 <= i < bytes.len() ==> hex_text(bytes)[2 * i] == "0123456789abcdef"@[
            #[trigger] bytes[i] as int / 16] && hex_text(bytes)[2 * i + 1]
                == "0123456789abcdef"@[bytes[i] as int % 16],
    decreases bytes.len(),
{
    reveal_strlit("0123456789abcdef");
    if bytes.len() > 0 {
        let earlier = bytes.drop_last();
        lemma_hex_text_spelled(earlier);
        let text = hex_text(bytes);
        assert forall|i: int| 0 <= i < bytes.len() implies text[2 * i] == "0123456789abcdef"@[
        #[trigger] bytes[i] as int / 16] && text[2 * i + 1] == "0123456789abcdef"@[bytes[i] as int
            % 16] by {
            if i < earlier.len() {
                assert(earlier[i] == bytes[i]);
                assert(text[2 * i] == hex_text(earlier)[2 * i]);
                assert(text[2 * i + 1] == hex_text(earlier)[2 * i + 1]);
            } else {
                lemma_hex_char(bytes[i] as nat / 16);
                lemma_hex_char(bytes[i] as nat % 16);
            }
        }
    }
}

proof fn lemma_hex_char(d: nat)
    requires
        d < 16,
    ensures
        hex_char(d) == "0123456789abcdef"@[d as int],
{
    reveal_strlit("0123456789abcdef");
}

/// A file that holds `payloads`, and then something that is no frame, is read
/// as these payloads, all of them in order; what comes after them, if
/// anything does, is to be cut off, and nothing else.
pub proof fn files_heal_to_what_was_written(
    bytes: &[u8],
    healed: Healed<'_>,
    payloads: Seq<Seq<u8>>,
    torn: Seq<u8>,
)
    requires
        call_ensures(heal, (bytes,), healed),
        bytes@ == frame::file_of(payloads) + torn,
        forall|i: int| 0 <= i < payloads.len() ==> (#[trigger] payloads[i]).len() <= usize::MAX,
        frame::parse_frame(torn) is None,
    ensures
        healed.payloads@.len() == payloads.len(),
        forall|i: int|
            0 <= i < payloads.len() ==> (#[trigger] healed.payloads@[i])@ == payloads[i],
        healed.truncate_to is None <==> torn.len() == 0,
        healed.truncate_to matches Some(len) ==> len == frame::file_of(payloads).len(),
{
    frame::file_reads_back(payloads, torn);
    let found = frame::contents(healed.payloads@);
    assert forall|i: int| 0 <= i < payloads.len() implies (#[trigger] healed.payloads@[i])@
        == payloads[i] by {
        assert(found[i] == payloads[i]);
    }
}

/// A text between white space, or nothing but white space.
pub open spec fn reads_as(raw: Seq<char>, core: Seq<char>) -> bool {
    exists|before: Seq<char>, after: Seq<char>|
        {
            &&& #[trigger] text::all_white(before)
            &&& #[trigger] text::all_white(after)
            &&& raw == before + core + after
            &&& core.len() == 0 || text::is_core(core)
        }
}

proof fn lemma_reads_as(raw: Seq<char>, core: Seq<char>)
    ensures
        reads_as(raw, core) <==> core == text::trimmed(raw),
{
    let (before, after) = text::texts_have_a_core(raw);
    assert(reads_as(raw, text::trimmed(raw)));
    if reads_as(raw, core) {
        let (p, q) = choose|before: Seq<char>, after: Seq<char>|
            {
                &&& #[trigger] text::all_white(before)
                &&& #[trigger] text::all_white(after)
                &&& raw == before + core + after
                &&& core.len() == 0 || text::is_core(core)
            };
        if core.len() > 0 {
            text::trimming_uncovers_the_core(p, core, q);
        } else {
            assert forall|i: int| 0 <= i < raw.len() implies text::is_white_space(
                #[trigger] raw[i],
            ) by {
                if i < p.len() {
                    assert(raw[i] == p[i]);
                } else {
                    assert(raw[i] == q[i - p.len()]);
                }
            }
            assert(text::trimmed(raw) =~= core);
        }
    }
}

/// A record becomes the event that it describes, with the white space around
/// its names left out and everything else as it is. It becomes none if a name
/// is nothing but white space, a step's name leaves the alphabet, or an
/// attempt is zero.
pub proof fn records_become_what_they_describe(
    record: JournalEventRecord,
    r: Result<JournalEvent, JournalError>,
)
    requires
        call_ensures(<JournalEvent as TryFrom<JournalEventRecord>>::try_from, (record,), r),
    ensures
        match record@ {
            EventView::ExecutionStarted { workflow, version, input } => match r {
                Ok(event) => event@ matches EventView::ExecutionStarted {
                    workflow: named,
                    version: versioned,
                    input: given,
                } && reads_as(workflow, named) && reads_as(version, versioned) && named.len() > 0
                    && versioned.len() > 0 && given == input,
                Err(_) => text::all_white(workflow) || text::all_white(version),
            },
            EventView::StepScheduled { seq, name } => match r {
                Ok(event) => event@ matches EventView::StepScheduled { seq: at, name: named }
                    && reads_as(name, named) && named.len() > 0 && at == seq && forall|i: int|
                    0 <= i < named.len() ==> step::alphabet().contains(#[trigger] named[i]),
                Err(_) => text::all_white(name) || exists|core: Seq<char>, i: int|
                    {
                        &&& reads_as(name, core)
                        &&& 0 <= i < core.len()
                        &&& !step::alphabet().contains(#[trigger] core[i])
                    },
            },
            EventView::StepStarted { attempt, .. } => {
                &&& r is Ok <==> attempt >= 1
                &&& r matches Ok(event) ==> event@ == record@
            },
            EventView::StepFailed { attempt, .. } => {
                &&& r is Ok <==> attempt >= 1
                &&& r matches Ok(event) ==> event@ == record@
            },
            _ => r matches Ok(event) && event@ == record@,
        },
{
    match record@ {
        EventView::ExecutionStarted { workflow, version, input } => {
            lemma_reads_as(workflow, text::trimmed(workflow));
            lemma_reads_as(version, text::trimmed(version));
            let _ = text::texts_have_a_core(workflow);
            let _ = text::texts_have_a_core(version);
        },
        EventView::StepScheduled { seq, name } => {
            let core = text::trimmed(name);
            lemma_reads_as(name, core);
            let _ = text::texts_have_a_core(name);
            step::step_names_keep_to_the_alphabet(core);
        },
        _ => {},
    }
}

} // verus!
