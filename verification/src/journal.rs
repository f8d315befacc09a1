//! The journal: source of truth for an execution. Append-only, never
//! rewritten.

use std::fmt::Debug;
use std::fmt::Formatter;

use vstd::prelude::*;

use crate::command::CommandKind;
use crate::execution::ExecutionId;
use crate::execution::WorkflowErrorRecord;
use crate::execution::WorkflowName;
use crate::execution::WorkflowVersion;
use crate::model;
use crate::random::RandomBytes;
use crate::step::Attempt;
use crate::step::StepErrorRecord;
use crate::step::StepName;
use crate::time::Deadline;
use crate::time::Timestamp;

verus! {

/// 0-based position of a command in an execution's command sequence.
/// `SeqNum` increments per command (step, now, random, timer), giving replay
/// a stable spine.
#[derive(Clone, Copy, PartialEq, Eq, PartialOrd, Ord, Hash)]
pub struct SeqNum(u64);

impl Debug for SeqNum {
    /// `Formatter::debug_tuple` of one field under the name `Seq`: this is
    /// how a position is written in error texts and in the journaled text of
    /// a failed workflow. Nothing is claimed of what is written.
    #[verifier::external_body]
    fn fmt(&self, f: &mut Formatter<'_>) -> (r: Result<(), std::fmt::Error>) {
        f.debug_tuple("Seq").field(&self.0).finish()
    }
}

impl View for SeqNum {
    type V = nat;

    closed spec fn view(&self) -> nat {
        self.0 as nat
    }
}

impl SeqNum {
    pub fn zero() -> (r: Self)
        ensures
            r@ == 0,
    {
        Self(0)
    }

    /// The position with the given 0-based index.
    pub fn from_index(index: u64) -> (r: Self)
        ensures
            r@ == index,
    {
        Self(index)
    }

    pub fn next(self) -> (r: Self)
        requires
            self@ < u64::MAX,
        ensures
            r@ == self@ + 1,
    {
        Self(self.0 + 1)
    }

    pub fn get(self) -> (r: u64)
        ensures
            r == self@,
    {
        self.0
    }
}

/// Opaque serialized payload (step result, workflow input/output). The
/// engine never inspects it; the codec lives at the caller's boundary.
#[derive(Debug, PartialEq, Eq)]
pub struct EventPayload(Vec<u8>);

impl View for EventPayload {
    type V = Seq<u8>;

    closed spec fn view(&self) -> Seq<u8> {
        self.0@
    }
}

impl EventPayload {
    pub fn new(bytes: Vec<u8>) -> (r: Self)
        ensures
            r@ == bytes@,
    {
        Self(bytes)
    }

    pub fn as_bytes(&self) -> (r: &[u8])
        ensures
            r@ == self@,
    {
        self.0.as_slice()
    }

    pub fn into_bytes(self) -> (r: Vec<u8>)
        ensures
            r@ == self@,
    {
        self.0
    }

    /// Whether the two payloads hold the same bytes.
    pub fn same_bytes(&self, other: &EventPayload) -> (r: bool)
        ensures
            r == (self@ == other@),
    {
        if self.0.len() != other.0.len() {
            return false;
        }
        let mut i: usize = 0;
        while i < self.0.len()
            invariant
                i <= self.0@.len(),
                self.0@.len() == other.0@.len(),
                forall|k: int| 0 <= k < i ==> self.0@[k] == other.0@[k],
            decreases self.0@.len() - i,
        {
            if self.0[i] != other.0[i] {
                return false;
            }
            i = i + 1;
        }
        assert(self.0@ =~= other.0@);
        true
    }
}

impl Clone for EventPayload {
    fn clone(&self) -> (r: Self)
        ensures
            r@ == self@,
    {
        let bytes = self.0.clone();
        assert(bytes@ =~= self.0@);
        Self(bytes)
    }
}

/// One durable fact about an execution. Append-only, never rewritten.
#[allow(inconsistent_fields)]
#[derive(Debug, PartialEq)]
pub enum JournalEvent {
    ExecutionStarted { workflow: WorkflowName, version: WorkflowVersion, input: EventPayload },
    StepScheduled { seq: SeqNum, name: StepName },
    StepStarted { seq: SeqNum, attempt: Attempt },
    StepCompleted { seq: SeqNum, result: EventPayload },
    StepFailed { seq: SeqNum, attempt: Attempt, error: StepErrorRecord },
    NowRecorded { seq: SeqNum, value: Timestamp },
    RandomRecorded { seq: SeqNum, value: RandomBytes },
    TimerScheduled { seq: SeqNum, deadline: Deadline },
    TimerFired { seq: SeqNum },
    ExecutionCompleted { output: EventPayload },
    ExecutionFailed { error: WorkflowErrorRecord },
}

/// A `JournalEvent` as a mathematical value.
#[allow(inconsistent_fields)]
pub enum EventView {
    ExecutionStarted { workflow: Seq<char>, version: Seq<char>, input: Seq<u8> },
    StepScheduled { seq: nat, name: Seq<char> },
    StepStarted { seq: nat, attempt: nat },
    StepCompleted { seq: nat, result: Seq<u8> },
    StepFailed { seq: nat, attempt: nat, error: Seq<char> },
    NowRecorded { seq: nat, value: nat },
    RandomRecorded { seq: nat, value: Seq<u8> },
    TimerScheduled { seq: nat, deadline: nat },
    TimerFired { seq: nat },
    ExecutionCompleted { output: Seq<u8> },
    ExecutionFailed { error: Seq<char> },
}

impl View for JournalEvent {
    type V = EventView;

    open spec fn view(&self) -> EventView {
        match self {
            JournalEvent::ExecutionStarted { workflow, version, input } => {
                EventView::ExecutionStarted {
                    workflow: workflow@,
                    version: version@,
                    input: input@,
                }
            },
            JournalEvent::StepScheduled { seq, name } => {
                EventView::StepScheduled { seq: seq@, name: name@ }
            },
            JournalEvent::StepStarted { seq, attempt } => {
                EventView::StepStarted { seq: seq@, attempt: attempt@ }
            },
            JournalEvent::StepCompleted { seq, result } => {
                EventView::StepCompleted { seq: seq@, result: result@ }
            },
            JournalEvent::StepFailed { seq, attempt, error } => {
                EventView::StepFailed { seq: seq@, attempt: attempt@, error: error@ }
            },
            JournalEvent::NowRecorded { seq, value } => {
                EventView::NowRecorded { seq: seq@, value: value@ }
            },
            JournalEvent::RandomRecorded { seq, value } => {
                EventView::RandomRecorded { seq: seq@, value: value@ }
            },
            JournalEvent::TimerScheduled { seq, deadline } => {
                EventView::TimerScheduled { seq: seq@, deadline: deadline@ }
            },
            JournalEvent::TimerFired { seq } => EventView::TimerFired { seq: seq@ },
            JournalEvent::ExecutionCompleted { output } => {
                EventView::ExecutionCompleted { output: output@ }
            },
            JournalEvent::ExecutionFailed { error } => {
                EventView::ExecutionFailed { error: error@ }
            },
        }
    }
}

impl EventView {
    /// The kind of command this event was journaled for; `None` for the
    /// events that mark the start and the end of the whole execution.
    pub open spec fn command_kind(self) -> Option<CommandKind> {
        match self {
            EventView::StepScheduled { .. } => Some(CommandKind::RunStep),
            EventView::StepStarted { .. } => Some(CommandKind::RunStep),
            EventView::StepCompleted { .. } => Some(CommandKind::RunStep),
            EventView::StepFailed { .. } => Some(CommandKind::RunStep),
            EventView::NowRecorded { .. } => Some(CommandKind::ReadNow),
            EventView::RandomRecorded { .. } => Some(CommandKind::DrawRandom),
            EventView::TimerScheduled { .. } => Some(CommandKind::Sleep),
            EventView::TimerFired { .. } => Some(CommandKind::Sleep),
            EventView::ExecutionStarted { .. } => None,
            EventView::ExecutionCompleted { .. } => None,
            EventView::ExecutionFailed { .. } => None,
        }
    }

    /// Whether this event ends its execution.
    pub open spec fn is_terminal(self) -> bool {
        self is ExecutionCompleted || self is ExecutionFailed
    }
}

impl JournalEvent {
    /// The kind of command this event was journaled for; `None` for the
    /// events that mark the start and the end of the whole execution.
    pub fn command_kind(&self) -> (r: Option<CommandKind>)
        ensures
            r == self@.command_kind(),
    {
        match self {
            JournalEvent::StepScheduled { .. }
            | JournalEvent::StepStarted { .. }
            | JournalEvent::StepCompleted { .. }
            | JournalEvent::StepFailed { .. } => Some(CommandKind::RunStep),
            JournalEvent::NowRecorded { .. } => Some(CommandKind::ReadNow),
            JournalEvent::RandomRecorded { .. } => Some(CommandKind::DrawRandom),
            JournalEvent::TimerScheduled { .. } | JournalEvent::TimerFired { .. } => {
                Some(CommandKind::Sleep)
            },
            JournalEvent::ExecutionStarted { .. }
            | JournalEvent::ExecutionCompleted { .. }
            | JournalEvent::ExecutionFailed { .. } => None,
        }
    }
}

impl Clone for JournalEvent {
    fn clone(&self) -> (r: Self)
        ensures
            r@ == self@,
    {
        match self {
            JournalEvent::ExecutionStarted { workflow, version, input } => {
                JournalEvent::ExecutionStarted {
                    workflow: workflow.clone(),
                    version: version.clone(),
                    input: input.clone(),
                }
            },
            JournalEvent::StepScheduled { seq, name } => {
                JournalEvent::StepScheduled { seq: *seq, name: name.clone() }
            },
            JournalEvent::StepStarted { seq, attempt } => {
                JournalEvent::StepStarted { seq: *seq, attempt: *attempt }
            },
            JournalEvent::StepCompleted { seq, result } => {
                JournalEvent::StepCompleted { seq: *seq, result: result.clone() }
            },
            JournalEvent::StepFailed { seq, attempt, error } => {
                JournalEvent::StepFailed { seq: *seq, attempt: *attempt, error: error.clone() }
            },
            JournalEvent::NowRecorded { seq, value } => {
                JournalEvent::NowRecorded { seq: *seq, value: *value }
            },
            JournalEvent::RandomRecorded { seq, value } => {
                JournalEvent::RandomRecorded { seq: *seq, value: *value }
            },
            JournalEvent::TimerScheduled { seq, deadline } => {
                JournalEvent::TimerScheduled { seq: *seq, deadline: *deadline }
            },
            JournalEvent::TimerFired { seq } => JournalEvent::TimerFired { seq: *seq },
            JournalEvent::ExecutionCompleted { output } => {
                JournalEvent::ExecutionCompleted { output: output.clone() }
            },
            JournalEvent::ExecutionFailed { error } => {
                JournalEvent::ExecutionFailed { error: error.clone() }
            },
        }
    }
}

/// The mathematical values of a sequence of events.
pub open spec fn event_views(events: Seq<JournalEvent>) -> Seq<EventView> {
    Seq::new(events.len(), |i: int| events[i]@)
}

/// A copy of `events`, in order.
pub fn clone_events(events: &[JournalEvent]) -> (r: Vec<JournalEvent>)
    ensures
        event_views(r@) == event_views(events@),
{
    let mut copied: Vec<JournalEvent> = Vec::new();
    let mut i: usize = 0;
    while i < events.len()
        invariant
            i <= events@.len(),
            copied@.len() == i,
            forall|k: int| 0 <= k < i ==> copied@[k]@ == events@[k]@,
        decreases events@.len() - i,
    {
        copied.push(events[i].clone());
        i = i + 1;
    }
    assert(event_views(copied@) =~= event_views(events@));
    copied
}

/// The loaded events of one execution, in the order they were appended.
#[derive(Debug, PartialEq)]
pub struct Journal {
    events: Vec<JournalEvent>,
}

impl View for Journal {
    type V = Seq<EventView>;

    closed spec fn view(&self) -> Seq<EventView> {
        event_views(self.events@)
    }
}

impl Journal {
    pub fn new(events: Vec<JournalEvent>) -> (r: Self)
        ensures
            r@ == event_views(events@),
    {
        Self { events }
    }

    pub fn empty() -> (r: Self)
        ensures
            r@ == Seq::<EventView>::empty(),
    {
        let r = Self { events: Vec::new() };
        assert(r@ =~= Seq::<EventView>::empty());
        r
    }

    pub fn events(&self) -> (r: &[JournalEvent])
        ensures
            event_views(r@) == self@,
    {
        self.events.as_slice()
    }

    pub fn into_events(self) -> (r: Vec<JournalEvent>)
        ensures
            event_views(r@) == self@,
    {
        self.events
    }

    pub fn len(&self) -> (r: usize)
        ensures
            r == self@.len(),
    {
        self.events.len()
    }

    pub fn is_empty(&self) -> (r: bool)
        ensures
            r == (self@.len() == 0),
    {
        self.events.len() == 0
    }

    /// Whether every retry that this journal can lead to has an attempt
    /// number in range.
    pub fn retries_fit(&self) -> (r: bool)
        ensures
            r == model::retries_fit(self@),
    {
        let ghost views = self@;
        let mut starts: u32 = 0;
        let mut i: usize = self.events.len();
        assert(views.skip(views.len() as int) =~= Seq::<EventView>::empty());
        while i > 0
            invariant
                i <= self.events@.len(),
                views == event_views(self.events@),
                starts < u32::MAX,
                starts == model::leading_starts(views.skip(i as int)),
                forall|k: int|
                    i <= k <= views.len() ==> model::leading_starts(#[trigger] views.skip(k))
                        < u32::MAX,
            decreases i,
        {
            i = i - 1;
            let ghost rest = views.skip(i as int);
            assert(rest.skip(1) =~= views.skip(i + 1));
            assert(rest[0] == self.events@[i as int]@);
            if let JournalEvent::StepStarted { .. } = &self.events[i] {
                if starts == u32::MAX - 1 {
                    return false;
                }
                starts = starts + 1;
            } else {
                starts = 0;
            }
        }
        true
    }
}

impl Clone for Journal {
    fn clone(&self) -> (r: Self)
        ensures
            r@ == self@,
    {
        Self { events: clone_events(self.events.as_slice()) }
    }
}

/// Failures of a `JournalStore`.
#[derive(Debug, PartialEq, Eq)]
pub enum JournalError {
    /// A lock guarding the store was poisoned by a panicking holder.
    Poisoned,
    /// The underlying storage could not be read or written.
    Io { message: String },
    /// A stored event could not be encoded or decoded.
    Codec { message: String },
}

/// A `JournalError` as a mathematical value.
pub enum JournalErrorView {
    Poisoned,
    Io { message: Seq<char> },
    Codec { message: Seq<char> },
}

impl View for JournalError {
    type V = JournalErrorView;

    open spec fn view(&self) -> JournalErrorView {
        match self {
            JournalError::Poisoned => JournalErrorView::Poisoned,
            JournalError::Io { message } => JournalErrorView::Io { message: message@ },
            JournalError::Codec { message } => JournalErrorView::Codec { message: message@ },
        }
    }
}

/// The words for a `JournalError`.
pub open spec fn journal_error_text(error: JournalErrorView) -> Seq<char> {
    match error {
        JournalErrorView::Poisoned => "journal lock is poisoned"@,
        JournalErrorView::Io { message } => "journal I/O failed: "@ + message,
        JournalErrorView::Codec { message } => "journal record is malformed: "@ + message,
    }
}

impl JournalError {
    pub fn message(&self) -> (r: String)
        ensures
            r@ == journal_error_text(self@),
    {
        match self {
            JournalError::Poisoned => "journal lock is poisoned".to_owned(),
            JournalError::Io { message } => {
                let mut text = "journal I/O failed: ".to_owned();
                text.append(message.as_str());
                text
            },
            JournalError::Codec { message } => {
                let mut text = "journal record is malformed: ".to_owned();
                text.append(message.as_str());
                text
            },
        }
    }
}

/// The journal that `journals` holds for the execution `id`: empty for an
/// execution that was never appended to.
pub open spec fn journal_of(journals: Map<Seq<u8>, Seq<EventView>>, id: Seq<u8>) -> Seq<EventView> {
    if journals.dom().contains(id) {
        journals[id]
    } else {
        Seq::empty()
    }
}

/// `journals` with `event` appended to the journal of the execution `id`.
pub open spec fn appended(
    journals: Map<Seq<u8>, Seq<EventView>>,
    id: Seq<u8>,
    event: EventView,
) -> Map<Seq<u8>, Seq<EventView>> {
    journals.insert(id, journal_of(journals, id).push(event))
}

/// What was appended is read back last, after everything appended before it,
/// and the journals of other executions are left alone.
pub proof fn appends_are_read_back(
    journals: Map<Seq<u8>, Seq<EventView>>,
    id: Seq<u8>,
    event: EventView,
    other: Seq<u8>,
)
    ensures
        journal_of(appended(journals, id, event), id) == journal_of(journals, id).push(event),
        other != id ==> journal_of(appended(journals, id, event), other) == journal_of(
            journals,
            other,
        ),
{
}

/// Durable, append-only storage of journals, one per execution.
pub trait JournalStore {
    /// The journal of every execution that was appended to.
    closed spec fn journals(&self) -> Map<Seq<u8>, Seq<EventView>> {
        arbitrary()
    }

    /// Whether an append or a load can fail.
    open spec fn fallible(&self) -> bool {
        true
    }

    /// Every error that `append` returned so far, oldest first.
    closed spec fn failures(&self) -> Seq<JournalErrorView> {
        arbitrary()
    }

    /// What has to hold before this kind of store is asked to journal that a
    /// timer of the execution `id` fired. A store may give this a meaning; by
    /// default it asks for nothing.
    open spec fn admits(id: Seq<u8>, event: EventView) -> bool {
        true
    }

    /// What holds once this kind of store has acknowledged `event` in the
    /// journal of the execution `id`. A store may give this a meaning; by
    /// default it has none.
    open spec fn acknowledged(id: Seq<u8>, event: EventView) -> bool {
        true
    }

    /// Appends `event` to the journal of `id` and returns the event's
    /// 0-based position in it. After an error the event is either wholly in
    /// the journal or not in it at all; which of the two is left open.
    fn append(&mut self, id: &ExecutionId, event: JournalEvent) -> (r: Result<SeqNum, JournalError>)
        requires
            event@ is TimerFired ==> Self::admits(id@, event@),
        ensures
            r is Ok ==> Self::acknowledged(id@, event@),
            final(self).fallible() == old(self).fallible(),
            r is Err ==> old(self).fallible(),
            r matches Ok(position) ==> {
                &&& position@ == journal_of(old(self).journals(), id@).len()
                &&& final(self).journals() == appended(old(self).journals(), id@, event@)
                &&& final(self).failures() == old(self).failures()
            },
            r matches Err(e) ==> {
                &&& final(self).journals() == old(self).journals() || final(self).journals()
                    == appended(old(self).journals(), id@, event@)
                &&& final(self).failures() == old(self).failures().push(e@)
            },
    ;

    /// The journal of `id`: empty for an execution that was never appended
    /// to.
    fn load(&self, id: &ExecutionId) -> (r: Result<Journal, JournalError>)
        ensures
            r is Err ==> self.fallible(),
            r matches Ok(journal) ==> journal@ == journal_of(self.journals(), id@),
    ;
}

impl<S: JournalStore> JournalStore for &mut S {
    open spec fn journals(&self) -> Map<Seq<u8>, Seq<EventView>> {
        (**self).journals()
    }

    open spec fn fallible(&self) -> bool {
        (**self).fallible()
    }

    open spec fn failures(&self) -> Seq<JournalErrorView> {
        (**self).failures()
    }

    open spec fn admits(id: Seq<u8>, event: EventView) -> bool {
        S::admits(id, event)
    }

    open spec fn acknowledged(id: Seq<u8>, event: EventView) -> bool {
        S::acknowledged(id, event)
    }

    fn append(&mut self, id: &ExecutionId, event: JournalEvent) -> (r: Result<
        SeqNum,
        JournalError,
    >) {
        (**self).append(id, event)
    }

    /// What the store behind the reference gives.
    fn load(&self, id: &ExecutionId) -> (r: Result<Journal, JournalError>)
        ensures
            call_ensures(S::load, (&*old(*self), id), r),
    {
        (**self).load(id)
    }
}

/// A journal holds the events it was made of, all of them and in order, and
/// hands them out so.
pub proof fn journals_hold_their_events(
    events: Vec<JournalEvent>,
    journal: Journal,
    read: &[JournalEvent],
    taken: Vec<JournalEvent>,
    len: usize,
    is_empty: bool,
)
    requires
        call_ensures(Journal::new, (events,), journal),
        call_ensures(Journal::events, (&journal,), read),
        call_ensures(Journal::into_events, (journal,), taken),
        call_ensures(Journal::len, (&journal,), len),
        call_ensures(Journal::is_empty, (&journal,), is_empty),
    ensures
        len == events@.len(),
        read@.len() == events@.len(),
        taken@.len() == events@.len(),
        is_empty <==> events@.len() == 0,
        forall|i: int|
            0 <= i < events@.len() ==> journal@[i] == (#[trigger] events@[i])@ && read@[i]@
                == events@[i]@ && taken@[i]@ == events@[i]@,
{
    let views = journal@;
    assert(event_views(read@).len() == event_views(events@).len());
    assert(event_views(taken@).len() == event_views(events@).len());
    assert forall|i: int| 0 <= i < events@.len() implies journal@[i] == (#[trigger] events@[i])@
        && read@[i]@ == events@[i]@ && taken@[i]@ == events@[i]@ by {
        assert(event_views(read@)[i] == views[i]);
        assert(event_views(taken@)[i] == views[i]);
    }
}

/// The retries of a journal fit unless some step was started as often as
/// there are attempt numbers, with nothing in between.
pub proof fn retries_fit_until_attempts_run_out(journal: Journal, r: bool)
    requires
        call_ensures(Journal::retries_fit, (&journal,), r),
    ensures
        !r <==> exists|i: int| #[trigger]
            started_throughout(journal@, i, i + u32::MAX),
{
    let events = journal@;
    let max = u32::MAX as nat;
    assert forall|i: int| 0 <= i <= events.len() implies (model::leading_starts(
        #[trigger] events.skip(i),
    ) >= max <==> started_throughout(events, i, i + u32::MAX)) by {
        let left = events.skip(i);
        model::lemma_leading_starts_at_least(left, max);
        if started_throughout(events, i, i + u32::MAX) {
            assert forall|k: int| 0 <= k < max implies #[trigger] left[k] is StepStarted by {
                assert(left[k] == events[i + k]);
            }
        }
        if model::leading_starts(left) >= max {
            assert forall|k: int| i <= k < i + u32::MAX implies #[trigger] events[k]
                is StepStarted by {
                assert(left[k - i] == events[k]);
            }
        }
    }
    if exists|i: int| #[trigger] started_throughout(events, i, i + u32::MAX) {
        let i = choose|i: int| #[trigger] started_throughout(events, i, i + u32::MAX);
        assert(model::leading_starts(events.skip(i)) >= max);
    }
}

/// From `from` on, up to `to`, all of `events` are starts of an attempt.
pub open spec fn started_throughout(events: Seq<EventView>, from: int, to: int) -> bool {
    0 <= from && to <= events.len() && forall|k: int|
        from <= k < to ==> #[trigger] events[k] is StepStarted
}

/// Two events with the same value are of the same kind and agree in every
/// part.
pub proof fn events_are_told_apart(a: JournalEvent, b: JournalEvent)
    requires
        a@ == b@,
    ensures
        match (a, b) {
            (
                JournalEvent::ExecutionStarted { workflow, version, input },
                JournalEvent::ExecutionStarted { workflow: w, version: v, input: i },
            ) => workflow@ == w@ && version@ == v@ && input@ == i@,
            (
                JournalEvent::StepScheduled { seq, name },
                JournalEvent::StepScheduled { seq: s, name: n },
            ) => seq@ == s@ && name@ == n@,
            (
                JournalEvent::StepStarted { seq, attempt },
                JournalEvent::StepStarted { seq: s, attempt: t },
            ) => seq@ == s@ && attempt@ == t@,
            (
                JournalEvent::StepCompleted { seq, result },
                JournalEvent::StepCompleted { seq: s, result: r },
            ) => seq@ == s@ && result@ == r@,
            (
                JournalEvent::StepFailed { seq, attempt, error },
                JournalEvent::StepFailed { seq: s, attempt: t, error: e },
            ) => seq@ == s@ && attempt@ == t@ && error@ == e@,
            (
                JournalEvent::NowRecorded { seq, value },
                JournalEvent::NowRecorded { seq: s, value: v },
            ) => seq@ == s@ && value@ == v@,
            (
                JournalEvent::RandomRecorded { seq, value },
                JournalEvent::RandomRecorded { seq: s, value: v },
            ) => seq@ == s@ && value@ == v@,
            (
                JournalEvent::TimerScheduled { seq, deadline },
                JournalEvent::TimerScheduled { seq: s, deadline: d },
            ) => seq@ == s@ && deadline@ == d@,
            (JournalEvent::TimerFired { seq }, JournalEvent::TimerFired { seq: s }) => seq@ == s@,
            (
                JournalEvent::ExecutionCompleted { output },
                JournalEvent::ExecutionCompleted { output: o },
            ) => output@ == o@,
            (
                JournalEvent::ExecutionFailed { error },
                JournalEvent::ExecutionFailed { error: e },
            ) => error@ == e@,
            _ => false,
        },
{
}

/// The words for a failed store end with what the store said of it.
pub proof fn messages_end_with_their_cause(error: JournalError, text: String)
    requires
        call_ensures(JournalError::message, (&error,), text),
    ensures
        error matches JournalError::Io { message } ==> text@ == "journal I/O failed: "@ + message@,
        error matches JournalError::Codec { message } ==> text@ == "journal record is malformed: "@
            + message@,
        error is Poisoned ==> text@ == "journal lock is poisoned"@,
{
}

} // verus!
