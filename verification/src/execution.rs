//! Execution identity and versioning.

use vstd::prelude::*;
use vstd::string::StringSliceAdditionalSpecFns;

use crate::random;
use crate::random::RandomBytes;
use crate::random::RngSource;
use crate::random::SeededRng;
use crate::text;

verus! {

/// Unique identifier of one run of a workflow definition. 128 bits, drawn
/// through `RngSource`: there is no ambient randomness.
#[derive(Debug, Clone, Copy, PartialEq, Eq, Hash)]
pub struct ExecutionId([u8; 16]);

impl View for ExecutionId {
    type V = Seq<u8>;

    closed spec fn view(&self) -> Seq<u8> {
        self.0@
    }
}

impl ExecutionId {
    /// Draws 16 bytes from `rng` to identify a new execution.
    pub fn generate<R: RngSource>(rng: &mut R) -> (r: Self)
        ensures
            (*final(rng)).draws().len() == (*old(rng)).draws().len() + 1,
            (*final(rng)).draws().drop_last() == (*old(rng)).draws(),
            r@ == (*final(rng)).draws().last().take(16),
            (*final(rng)).gives() == (*old(rng)).gives(),
            (*old(rng)).gives() matches Some(bytes) ==> r@ == bytes.take(16),
    {
        let drawn = rng.next_bytes();
        assert((*rng).draws().drop_last() =~= (*old(rng)).draws());
        Self::from_draw(&drawn)
    }

    /// The identity that a draw gives: its first 16 bytes.
    pub fn from_draw(drawn: &RandomBytes) -> (r: Self)
        ensures
            r@ == drawn@.take(16),
    {
        let bytes = drawn.as_bytes();
        let mut id: [u8; 16] = [0u8; 16];
        let mut i: usize = 0;
        while i < 16
            invariant
                i <= 16,
                forall|k: int| 0 <= k < i ==> id@[k] == bytes@[k],
            decreases 16 - i,
        {
            id[i] = bytes[i];
            i = i + 1;
        }
        assert(id@ =~= drawn@.take(16));
        Self(id)
    }

    pub fn as_bytes(&self) -> (r: &[u8; 16])
        ensures
            r@ == self@,
    {
        &self.0
    }
}

/// Deterministic identity of an execution that is known by a label: the first
/// 16 bytes of the label, padded with zeros.
pub fn execution_id_from_seed(label: &str) -> (r: ExecutionId)
    ensures
        r@ == random::seed_of(label.spec_bytes()).take(16),
{
    let mut rng = SeededRng::from_label(label.as_bytes());
    let drawn = rng.next_bytes();
    ExecutionId::from_draw(&drawn)
}

/// Non-empty, trimmed name of a workflow definition.
#[derive(Debug, PartialEq, Eq, Hash)]
pub struct WorkflowName(String);

/// Reasons a `WorkflowName` constructor rejects its input.
#[derive(Debug, PartialEq, Eq)]
pub enum WorkflowNameError {
    Empty,
}

impl WorkflowNameError {
    /// The rejection in words.
    pub fn message(&self) -> (r: String)
        ensures
            r@ == "workflow name is empty"@,
    {
        "workflow name is empty".to_owned()
    }
}

impl View for WorkflowName {
    type V = Seq<char>;

    closed spec fn view(&self) -> Seq<char> {
        self.0@
    }
}

impl WorkflowName {
    #[verifier::type_invariant]
    spec fn inv(self) -> bool {
        self.0@.len() > 0 && text::trimmed(self.0@) == self.0@
    }

    pub fn new(raw: &str) -> (r: Result<Self, WorkflowNameError>)
        ensures
            r is Err <==> text::trimmed(raw@).len() == 0,
            r matches Ok(name) ==> name@ == text::trimmed(raw@),
            r matches Err(e) ==> e == WorkflowNameError::Empty,
    {
        let trimmed_raw = raw.trim().to_owned();
        if trimmed_raw.as_str().is_empty() {
            return Err(WorkflowNameError::Empty);
        }
        proof {
            text::trimming_is_idempotent(raw@);
        }
        Ok(Self(trimmed_raw))
    }

    pub fn as_str(&self) -> (r: &str)
        ensures
            r@ == self@,
            r@.len() > 0,
            text::trimmed(r@) == r@,
    {
        proof {
            use_type_invariant(self);
        }
        self.0.as_str()
    }
}

impl Clone for WorkflowName {
    fn clone(&self) -> (r: Self)
        ensures
            r@ == self@,
    {
        proof {
            use_type_invariant(self);
        }
        Self(self.0.clone())
    }
}

/// Version of the workflow definition recorded at start, checked at
/// recovery. A mismatch fails recovery with a typed error.
#[derive(Debug, PartialEq, Eq, Hash)]
pub struct WorkflowVersion(String);

/// Reasons a `WorkflowVersion` constructor rejects its input.
#[derive(Debug, PartialEq, Eq)]
pub enum WorkflowVersionError {
    Empty,
}

impl WorkflowVersionError {
    /// The rejection in words.
    pub fn message(&self) -> (r: String)
        ensures
            r@ == "workflow version is empty"@,
    {
        "workflow version is empty".to_owned()
    }
}

impl View for WorkflowVersion {
    type V = Seq<char>;

    closed spec fn view(&self) -> Seq<char> {
        self.0@
    }
}

impl WorkflowVersion {
    #[verifier::type_invariant]
    spec fn inv(self) -> bool {
        self.0@.len() > 0 && text::trimmed(self.0@) == self.0@
    }

    pub fn new(raw: &str) -> (r: Result<Self, WorkflowVersionError>)
        ensures
            r is Err <==> text::trimmed(raw@).len() == 0,
            r matches Ok(version) ==> version@ == text::trimmed(raw@),
            r matches Err(e) ==> e == WorkflowVersionError::Empty,
    {
        let trimmed_raw = raw.trim().to_owned();
        if trimmed_raw.as_str().is_empty() {
            return Err(WorkflowVersionError::Empty);
        }
        proof {
            text::trimming_is_idempotent(raw@);
        }
        Ok(Self(trimmed_raw))
    }

    pub fn as_str(&self) -> (r: &str)
        ensures
            r@ == self@,
            r@.len() > 0,
            text::trimmed(r@) == r@,
    {
        proof {
            use_type_invariant(self);
        }
        self.0.as_str()
    }

    /// Whether the two versions are the same text.
    pub fn same_version(&self, other: &WorkflowVersion) -> (r: bool)
        ensures
            r == (self@ == other@),
    {
        self.0 == other.0
    }
}

impl Clone for WorkflowVersion {
    fn clone(&self) -> (r: Self)
        ensures
            r@ == self@,
    {
        proof {
            use_type_invariant(self);
        }
        Self(self.0.clone())
    }
}

/// Captured failure that terminated an execution, durable across replay.
#[derive(Debug, PartialEq, Eq)]
pub struct WorkflowErrorRecord {
    message: String,
}

impl View for WorkflowErrorRecord {
    type V = Seq<char>;

    closed spec fn view(&self) -> Seq<char> {
        self.message@
    }
}

impl WorkflowErrorRecord {
    pub fn new(message: &str) -> (r: Self)
        ensures
            r@ == message@,
    {
        Self { message: message.to_owned() }
    }

    pub fn message(&self) -> (r: &str)
        ensures
            r@ == self@,
    {
        self.message.as_str()
    }
}

impl Clone for WorkflowErrorRecord {
    fn clone(&self) -> (r: Self)
        ensures
            r@ == self@,
    {
        Self { message: self.message.clone() }
    }
}

/// A workflow name is what is given without the white space around it;
/// white space alone is refused.
pub proof fn workflow_names_are_read_out(
    raw: &str,
    r: Result<WorkflowName, WorkflowNameError>,
    before: Seq<char>,
    core: Seq<char>,
    after: Seq<char>,
)
    requires
        call_ensures(WorkflowName::new, (raw,), r),
        raw@ == before + core + after,
        text::all_white(before),
        text::all_white(after),
        text::is_core(core),
    ensures
        r matches Ok(name) && name@ == core,
{
    text::trimming_uncovers_the_core(before, core, after);
}

/// A workflow version is what is given without the white space around it;
/// white space alone is refused.
pub proof fn workflow_versions_are_read_out(
    raw: &str,
    r: Result<WorkflowVersion, WorkflowVersionError>,
    before: Seq<char>,
    core: Seq<char>,
    after: Seq<char>,
)
    requires
        call_ensures(WorkflowVersion::new, (raw,), r),
        raw@ == before + core + after,
        text::all_white(before),
        text::all_white(after),
        text::is_core(core),
    ensures
        r matches Ok(version) && version@ == core,
{
    text::trimming_uncovers_the_core(before, core, after);
}

/// White space alone names no workflow and no version.
pub proof fn white_space_names_nothing(
    raw: &str,
    name: Result<WorkflowName, WorkflowNameError>,
    version: Result<WorkflowVersion, WorkflowVersionError>,
)
    requires
        call_ensures(WorkflowName::new, (raw,), name),
        call_ensures(WorkflowVersion::new, (raw,), version),
        text::all_white(raw@),
    ensures
        name is Err,
        version is Err,
{
    text::white_space_is_trimmed_away(raw@);
}

/// Every one of the first 16 bytes of a label counts for the identity that it
/// stands for, and where the label is shorter, zeros do.
pub proof fn labels_are_told_apart(label: &str, id: ExecutionId)
    requires
        call_ensures(execution_id_from_seed, (label,), id),
    ensures
        id@.len() == 16,
        forall|i: int|
            0 <= i < 16 ==> #[trigger] id@[i] == if i < label.spec_bytes().len() {
                label.spec_bytes()[i]
            } else {
                0
            },
{
}

/// The identity of an execution is what its draw begins with: its 16 bytes
/// are the first 16 of the draw, each in its place.
pub proof fn identities_begin_their_draws(drawn: RandomBytes, id: ExecutionId, bytes: &[u8; 16])
    requires
        drawn@.len() == 32,
        call_ensures(ExecutionId::from_draw, (&drawn,), id),
        call_ensures(ExecutionId::as_bytes, (&id,), bytes),
    ensures
        bytes@.is_prefix_of(drawn@),
        forall|i: int| 0 <= i < 16 ==> bytes@[i] == #[trigger] drawn@[i],
{
}

} // verus!
