//! Step identity, retry attempts, and per-attempt outcomes.

use vstd::prelude::*;

use crate::context::EngineError;
use crate::context::EngineErrorView;
use crate::execution::ExecutionId;
use crate::journal::EventPayload;
use crate::journal::SeqNum;
use crate::text;

verus! {

/// Non-empty, trimmed, `[a-z0-9-]` step name. Position-stable across replays.
#[derive(Debug, PartialEq, Eq, Hash)]
pub struct StepName(String);

/// Reasons a `StepName` constructor rejects its input.
#[derive(Debug, PartialEq, Eq)]
pub enum StepNameError {
    Empty,
    InvalidCharacters { raw: String },
}

impl StepNameError {
    /// The rejection in words.
    pub fn message(&self) -> (r: String)
        ensures
            r@ == match *self {
                StepNameError::Empty => "step name is empty"@,
                StepNameError::InvalidCharacters { raw } => invalid_characters(text::quoted(raw@)),
            },
    {
        match self {
            StepNameError::Empty => "step name is empty".to_owned(),
            StepNameError::InvalidCharacters { raw } => {
                let quoted = text::quote(raw.as_str());
                invalid_characters_message(quoted.as_str())
            },
        }
    }
}

/// The words for a name, given in quotes, that leaves the alphabet of step
/// names.
pub open spec fn invalid_characters(quoted: Seq<char>) -> Seq<char> {
    "step name "@ + quoted + " contains characters outside [a-z0-9-]"@
}

/// The words for a name, given in quotes, that leaves the alphabet of step
/// names.
pub fn invalid_characters_message(quoted: &str) -> (r: String)
    ensures
        r@ == invalid_characters(quoted@),
{
    let mut message = "step name ".to_owned();
    message.append(quoted);
    message.append(" contains characters outside [a-z0-9-]");
    message
}

/// The alphabet of step names.
pub open spec fn is_step_name_char(c: char) -> bool {
    'a' <= c <= 'z' || '0' <= c <= '9' || c == '-'
}

/// A text that can stand as a step name.
pub open spec fn is_step_name(s: Seq<char>) -> bool {
    s.len() > 0 && forall|i: int| 0 <= i < s.len() ==> is_step_name_char(#[trigger] s[i])
}

/// A step name has no white space around it.
pub proof fn step_names_are_trimmed(s: Seq<char>)
    requires
        is_step_name(s),
    ensures
        text::trimmed(s) == s,
{
    assert(is_step_name_char(s[0]));
    assert(is_step_name_char(s[s.len() - 1]));
    text::nothing_to_trim(s);
}

impl View for StepName {
    type V = Seq<char>;

    closed spec fn view(&self) -> Seq<char> {
        self.0@
    }
}

impl StepName {
    #[verifier::type_invariant]
    spec fn inv(self) -> bool {
        is_step_name(self.0@)
    }

    /// Returns `Err` if `raw` is empty after trimming, or contains characters
    /// outside `[a-z0-9-]`.
    pub fn new(raw: &str) -> (r: Result<Self, StepNameError>)
        ensures
            r is Ok <==> is_step_name(text::trimmed(raw@)),
            r matches Ok(name) ==> name@ == text::trimmed(raw@),
            r matches Err(e) ==> match e {
                StepNameError::Empty => text::trimmed(raw@).len() == 0,
                StepNameError::InvalidCharacters { raw: rejected } => {
                    &&& text::trimmed(raw@).len() > 0
                    &&& rejected@ == text::trimmed(raw@)
                },
            },
    {
        let trimmed = raw.trim().to_owned();
        if trimmed.as_str().is_empty() {
            return Err(StepNameError::Empty);
        }
        let mut is_valid = true;
        for c in it: trimmed.as_str().chars()
            invariant
                it.seq() == trimmed@,
                is_valid <==> forall|i: int|
                    0 <= i < it.index() ==> is_step_name_char(#[trigger] trimmed@[i]),
        {
            is_valid = is_valid && (('a' <= c && c <= 'z') || ('0' <= c && c <= '9') || c == '-');
        }
        if !is_valid {
            return Err(StepNameError::InvalidCharacters { raw: trimmed });
        }
        Ok(Self(trimmed))
    }

    pub fn as_str(&self) -> (r: &str)
        ensures
            r@ == self@,
            is_step_name(r@),
    {
        proof {
            use_type_invariant(self);
        }
        self.0.as_str()
    }

    /// Whether the two are the same name.
    pub fn same_name(&self, other: &StepName) -> (r: bool)
        ensures
            r == (self@ == other@),
    {
        self.0 == other.0
    }
}

impl Clone for StepName {
    fn clone(&self) -> (r: Self)
        ensures
            r@ == self@,
    {
        proof {
            use_type_invariant(self);
        }
        Self(self.0.clone())
    }
}

/// 1-based retry attempt counter for a step.
#[derive(Debug, Clone, Copy, PartialEq, Eq, PartialOrd, Ord, Hash)]
pub struct Attempt(u32);

/// Reasons an `Attempt` constructor rejects its input.
#[derive(Debug, PartialEq, Eq)]
pub enum AttemptError {
    Zero,
}

impl AttemptError {
    /// The rejection in words.
    pub fn message(&self) -> (r: String)
        ensures
            r@ == "attempt number must be >= 1, got 0"@,
    {
        "attempt number must be >= 1, got 0".to_owned()
    }
}

impl View for Attempt {
    type V = nat;

    closed spec fn view(&self) -> nat {
        self.0 as nat
    }
}

impl Attempt {
    #[verifier::type_invariant]
    spec fn inv(self) -> bool {
        self.0 >= 1
    }

    /// The first attempt of a step.
    pub fn first() -> (r: Self)
        ensures
            r@ == 1,
    {
        Self(1)
    }

    /// Returns `Err` if `n` is zero. Attempts are 1-based.
    pub fn new(n: u32) -> (r: Result<Self, AttemptError>)
        ensures
            r is Err <==> n == 0,
            r matches Ok(attempt) ==> attempt@ == n,
            r matches Err(e) ==> e == AttemptError::Zero,
    {
        if n == 0 {
            return Err(AttemptError::Zero);
        }
        Ok(Self(n))
    }

    pub fn next(self) -> (r: Self)
        requires
            self@ < u32::MAX,
        ensures
            r@ == self@ + 1,
    {
        Self(self.0 + 1)
    }

    pub fn get(self) -> (r: u32)
        ensures
            r == self@,
            r >= 1,
    {
        proof {
            use_type_invariant(&self);
        }
        self.0
    }
}

/// Captured failure from a step attempt, durable across replay.
#[derive(Debug, PartialEq, Eq)]
pub struct StepErrorRecord {
    message: String,
}

impl View for StepErrorRecord {
    type V = Seq<char>;

    closed spec fn view(&self) -> Seq<char> {
        self.message@
    }
}

impl StepErrorRecord {
    pub fn new(message: &str) -> (r: Self)
        ensures
            r@ == message@,
    {
        Self { message: message.to_owned() }
    }

    pub fn message(&self) -> (r: &str)
        ensures
            r@ == self@,
    {
        self.message.as_str()
    }
}

impl Clone for StepErrorRecord {
    fn clone(&self) -> (r: Self)
        ensures
            r@ == self@,
    {
        Self { message: self.message.clone() }
    }
}

/// Outcome of running a step's closure once, before it is journaled.
#[derive(Debug, PartialEq, Eq)]
pub enum StepOutcome {
    Completed(EventPayload),
    Failed(StepErrorRecord),
}

impl Clone for StepOutcome {
    fn clone(&self) -> (r: Self)
        ensures
            match *self {
                StepOutcome::Completed(payload) => r matches StepOutcome::Completed(copied)
                    && copied@ == payload@,
                StepOutcome::Failed(error) => r matches StepOutcome::Failed(copied) && copied@
                    == error@,
            },
    {
        match self {
            StepOutcome::Completed(payload) => StepOutcome::Completed(payload.clone()),
            StepOutcome::Failed(error) => StepOutcome::Failed(error.clone()),
        }
    }
}

/// What a step's closure answered: the payload it produced, or the message
/// of its failure.
pub open spec fn answer_view(answer: Result<EventPayload, StepErrorRecord>) -> Result<
    Seq<u8>,
    Seq<char>,
> {
    match answer {
        Ok(payload) => Ok(payload@),
        Err(error) => Err(error@),
    }
}

/// Failures of `WorkflowCtx::step`.
#[derive(Debug, PartialEq, Eq)]
pub enum StepError {
    /// The step's closure failed; the failure is journaled.
    Failed(StepErrorRecord),
    /// The engine could not run or replay the step.
    Engine(EngineError),
}

/// A `StepError` as a mathematical value.
pub enum StepErrorView {
    Failed(Seq<char>),
    Engine(EngineErrorView),
}

impl View for StepError {
    type V = StepErrorView;

    open spec fn view(&self) -> StepErrorView {
        match self {
            StepError::Failed(error) => StepErrorView::Failed(error@),
            StepError::Engine(error) => StepErrorView::Engine(error@),
        }
    }
}

impl From<EngineError> for StepError {
    fn from(error: EngineError) -> (r: Self) {
        StepError::Engine(error)
    }
}

impl vstd::std_specs::convert::FromSpecImpl<EngineError> for StepError {
    open spec fn obeys_from_spec() -> bool {
        true
    }

    open spec fn from_spec(error: EngineError) -> StepError {
        StepError::Engine(error)
    }
}

/// `(ExecutionId, SeqNum)`, handed to every step closure so calls to other
/// services can deduplicate. The honest answer to non-atomic journal+effect.
#[derive(Debug, Clone, Copy, PartialEq, Eq, Hash)]
pub struct IdempotencyKey {
    execution: ExecutionId,
    seq: SeqNum,
}

impl View for IdempotencyKey {
    type V = (Seq<u8>, nat);

    closed spec fn view(&self) -> (Seq<u8>, nat) {
        (self.execution@, self.seq@)
    }
}

impl IdempotencyKey {
    pub fn new(execution: ExecutionId, seq: SeqNum) -> (r: Self)
        ensures
            r@ == (execution@, seq@),
    {
        Self { execution, seq }
    }

    pub fn execution(&self) -> (r: ExecutionId)
        ensures
            r@ == self@.0,
    {
        self.execution
    }

    pub fn seq(&self) -> (r: SeqNum)
        ensures
            r@ == self@.1,
    {
        self.seq
    }
}

/// The characters of step names, written out.
pub open spec fn alphabet() -> Seq<char> {
    "abcdefghijklmnopqrstuvwxyz0123456789-"@
}

/// Step names are made of the alphabet's characters alone, and every one of
/// them can stand in a step name, anywhere.
pub proof fn step_names_keep_to_the_alphabet(s: Seq<char>)
    ensures
        is_step_name(s) <==> s.len() > 0 && forall|i: int|
            0 <= i < s.len() ==> alphabet().contains(#[trigger] s[i]),
{
    assert forall|c: char| is_step_name_char(c) <==> #[trigger] alphabet().contains(c) by {
        lemma_alphabet(c);
    }
    if s.len() > 0 && forall|i: int| 0 <= i < s.len() ==> alphabet().contains(#[trigger] s[i]) {
        assert forall|i: int| 0 <= i < s.len() implies is_step_name_char(#[trigger] s[i]) by {
            assert(alphabet().contains(s[i]));
        }
    }
    if is_step_name(s) {
        assert forall|i: int| 0 <= i < s.len() implies alphabet().contains(#[trigger] s[i]) by {
            assert(is_step_name_char(s[i]));
        }
    }
}

proof fn lemma_alphabet(c: char)
    ensures
        is_step_name_char(c) <==> alphabet().contains(c),
{
    reveal_strlit("abcdefghijklmnopqrstuvwxyz0123456789-");
    let all = alphabet();
    if is_step_name_char(c) {
        let i: int = if 'a' <= c && c <= 'z' {
            c as int - 'a' as int
        } else if c == '-' {
            36
        } else {
            26 + (c as int - '0' as int)
        };
        assert(all[i] == c);
    }
    if all.contains(c) {
        let i = choose|i: int| 0 <= i < all.len() && all[i] == c;
        assert(all.len() == 37);
        assert(is_step_name_char(all[i]));
    }
}

/// A step name is read out of what is given with white space around it or
/// not, and out of nothing else: the text between must be one or more
/// characters of the alphabet.
pub proof fn step_names_are_read_out(
    raw: &str,
    r: Result<StepName, StepNameError>,
    before: Seq<char>,
    core: Seq<char>,
    after: Seq<char>,
)
    requires
        call_ensures(StepName::new, (raw,), r),
        raw@ == before + core + after,
        text::all_white(before),
        text::all_white(after),
        text::is_core(core) || core.len() == 0,
    ensures
        r is Ok <==> core.len() > 0 && forall|i: int|
            0 <= i < core.len() ==> alphabet().contains(#[trigger] core[i]),
        r matches Ok(name) ==> name@ == core,
        r matches Err(StepNameError::Empty) <==> core.len() == 0,
        r matches Err(StepNameError::InvalidCharacters { raw: rejected }) ==> rejected@ == core,
{
    if core.len() == 0 {
        assert(raw@ =~= before + after);
        assert forall|i: int| 0 <= i < raw@.len() implies text::is_white_space(
            #[trigger] raw@[i],
        ) by {
            if i < before.len() {
                assert(raw@[i] == before[i]);
            } else {
                assert(raw@[i] == after[i - before.len()]);
            }
        }
        text::white_space_is_trimmed_away(raw@);
        assert(text::trimmed(raw@) =~= core);
    } else {
        text::trimming_uncovers_the_core(before, core, after);
    }
    step_names_keep_to_the_alphabet(core);
}

/// Keys tell steps apart: two keys are the same if and only if they were made
/// for the same execution and the same position, and a key gives both back.
pub proof fn keys_tell_steps_apart(
    one: (ExecutionId, SeqNum),
    first: IdempotencyKey,
    other: (ExecutionId, SeqNum),
    second: IdempotencyKey,
)
    requires
        call_ensures(IdempotencyKey::new, one, first),
        call_ensures(IdempotencyKey::new, other, second),
    ensures
        first@.0 == one.0@,
        first@.1 == one.1@,
        first@ == second@ <==> one.0@ == other.0@ && one.1@ == other.1@,
{
}

/// Attempts count from one: zero is refused, the first is one, and each next
/// is one more than the one before.
pub proof fn attempts_count_from_one(n: u32, r: Result<Attempt, AttemptError>, first: Attempt)
    requires
        call_ensures(Attempt::new, (n,), r),
        call_ensures(Attempt::first, (), first),
    ensures
        r is Ok <==> n >= 1,
        r matches Ok(attempt) ==> attempt@ == n,
        first@ == 1,
        forall|attempt: Attempt, next: Attempt|
            #[trigger] call_ensures(Attempt::next, (attempt,), next) ==> next@ == attempt@ + 1,
{
}

/// The words for a name outside the alphabet hold the whole name, as it is
/// quoted, however long it is.
pub proof fn rejected_names_are_told_in_full(
    error: StepNameError,
    told: String,
    quoted: &str,
    text: String,
)
    requires
        call_ensures(StepNameError::message, (&error,), told),
        call_ensures(invalid_characters_message, (quoted,), text),
    ensures
        text@ == "step name "@ + quoted@ + " contains characters outside [a-z0-9-]"@,
        error is Empty ==> told@ == "step name is empty"@,
        error matches StepNameError::InvalidCharacters { raw } && quoted@ == text::quoted(raw@)
            ==> told@ == text@,
{
}

} // verus!
