//! Recovery equivalence contracts. The sealed `Equivalence` trait and its
//! three modes (`ExactlyOnce`, `DuplicateLast`, `ReplayAll`) describe how far
//! an observed effect trace may diverge from a failure-free reference trace
//! after a crash and recovery. `TransactionalBoundary` gates which modes a
//! given `JournalStore` supports.

use vstd::prelude::*;

use crate::journal::EventPayload;
use crate::journal::JournalStore;
use crate::step::StepName;

mod sealed;

verus! {

/// Marker for a `JournalStore` whose journal append and side effects commit
/// atomically. `MemoryJournal` qualifies trivially (one process, one
/// memory); a store writing to disk while a step calls out over the network
/// does not.
pub trait TransactionalBoundary {

}

impl<S: TransactionalBoundary> TransactionalBoundary for &mut S {

}

/// One step's recorded effect: its name and the payload it produced. This is
/// what `Equivalence::equivalent` compares. It is distinct from
/// `JournalEvent`, which is the durability record, not the effect itself.
#[derive(Debug, PartialEq, Eq)]
pub struct EffectRecord {
    step: StepName,
    payload: EventPayload,
}

impl View for EffectRecord {
    type V = (Seq<char>, Seq<u8>);

    closed spec fn view(&self) -> (Seq<char>, Seq<u8>) {
        (self.step@, self.payload@)
    }
}

impl EffectRecord {
    pub fn new(step: StepName, payload: EventPayload) -> (r: Self)
        ensures
            r@ == (step@, payload@),
    {
        Self { step, payload }
    }

    /// Whether the two record the same effect.
    pub fn same_effect(&self, other: &EffectRecord) -> (r: bool)
        ensures
            r == (self@ == other@),
    {
        self.step.same_name(&other.step) && self.payload.same_bytes(&other.payload)
    }
}

impl Clone for EffectRecord {
    fn clone(&self) -> (r: Self)
        ensures
            r@ == self@,
    {
        Self { step: self.step.clone(), payload: self.payload.clone() }
    }
}

/// The effects that `records` stand for.
pub open spec fn effect_views(records: Seq<EffectRecord>) -> Seq<(Seq<char>, Seq<u8>)> {
    Seq::new(records.len(), |i: int| records[i]@)
}

/// Ordered log of effects a workflow run produced. Step bodies append to a
/// shared trace as they run; comparing a reference trace (failure-free run)
/// against an observed one (after a crash and recovery) is what
/// `Equivalence::equivalent` does.
#[derive(Debug, PartialEq, Eq)]
pub struct EffectTrace(Vec<EffectRecord>);

impl View for EffectTrace {
    type V = Seq<(Seq<char>, Seq<u8>)>;

    closed spec fn view(&self) -> Seq<(Seq<char>, Seq<u8>)> {
        effect_views(self.0@)
    }
}

impl EffectTrace {
    pub fn new() -> (r: Self)
        ensures
            r@ == Seq::<(Seq<char>, Seq<u8>)>::empty(),
    {
        let r = Self(Vec::new());
        assert(r@ =~= Seq::<(Seq<char>, Seq<u8>)>::empty());
        r
    }

    pub fn record(&mut self, step: StepName, payload: EventPayload)
        ensures
            final(self)@ == old(self)@.push((step@, payload@)),
    {
        self.0.push(EffectRecord::new(step, payload));
        assert(self@ =~= old(self)@.push((step@, payload@)));
    }

    pub fn records(&self) -> (r: &[EffectRecord])
        ensures
            effect_views(r@) == self@,
    {
        self.0.as_slice()
    }
}

impl Default for EffectTrace {
    fn default() -> (r: Self)
        ensures
            r@ == Seq::<(Seq<char>, Seq<u8>)>::empty(),
    {
        Self::new()
    }
}

impl Clone for EffectTrace {
    fn clone(&self) -> (r: Self)
        ensures
            r@ == self@,
    {
        let mut records: Vec<EffectRecord> = Vec::new();
        let mut i: usize = 0;
        while i < self.0.len()
            invariant
                i <= self.0@.len(),
                records@.len() == i,
                forall|k: int| 0 <= k < i ==> records@[k]@ == self.0@[k]@,
            decreases self.0@.len() - i,
        {
            records.push(self.0[i].clone());
            i = i + 1;
        }
        let r = Self(records);
        assert(r@ =~= self@);
        r
    }
}

/// Whether `records` starts with the effects of `prefix`.
fn starts_with(records: &[EffectRecord], prefix: &[EffectRecord]) -> (r: bool)
    ensures
        r == effect_views(prefix@).is_prefix_of(effect_views(records@)),
{
    if prefix.len() > records.len() {
        return false;
    }
    let mut i: usize = 0;
    while i < prefix.len()
        invariant
            i <= prefix@.len() <= records@.len(),
            forall|k: int| 0 <= k < i ==> prefix@[k]@ == records@[k]@,
        decreases prefix@.len() - i,
    {
        if !prefix[i].same_effect(&records[i]) {
            assert(effect_views(prefix@)[i as int] != effect_views(records@)[i as int]);
            return false;
        }
        i = i + 1;
    }
    assert(effect_views(prefix@) =~= effect_views(records@).subrange(
        0,
        effect_views(prefix@).len() as int,
    ));
    true
}

/// Whether some record among `records` is the effect of `record`.
fn contains_effect(records: &Vec<EffectRecord>, record: &EffectRecord) -> (r: bool)
    ensures
        r == effect_views(records@).contains(record@),
{
    let mut i: usize = 0;
    while i < records.len()
        invariant
            i <= records@.len(),
            forall|k: int| 0 <= k < i ==> records@[k]@ != record@,
        decreases records@.len() - i,
    {
        if records[i].same_effect(record) {
            assert(effect_views(records@)[i as int] == record@);
            return true;
        }
        i = i + 1;
    }
    false
}

/// `effects` with every repetition left out: each effect stands where it
/// first occurs.
pub open spec fn first_occurrences(effects: Seq<(Seq<char>, Seq<u8>)>) -> Seq<
    (Seq<char>, Seq<u8>),
>
    decreases effects.len(),
{
    if effects.len() == 0 {
        effects
    } else {
        let earlier = first_occurrences(effects.drop_last());
        if earlier.contains(effects.last()) {
            earlier
        } else {
            earlier.push(effects.last())
        }
    }
}

/// The comparison a recovery mechanism promises to satisfy. Sealed: exactly
/// three implementations, below.
pub trait Equivalence: sealed::Sealed {
    /// Whether the `observed` effects are as good as the `reference`.
    spec fn holds(
        observed: Seq<(Seq<char>, Seq<u8>)>,
        reference: Seq<(Seq<char>, Seq<u8>)>,
    ) -> bool;

    fn equivalent(observed: &EffectTrace, reference: &EffectTrace) -> (r: bool)
        ensures
            r == Self::holds(observed@, reference@),
    ;
}

/// Whether store `S` supports equivalence mode `E`. `DuplicateLast` and
/// `ReplayAll` accept any `JournalStore`; `ExactlyOnce` additionally
/// requires `TransactionalBoundary`. Without atomic append-plus-effect, a
/// crash between a side effect landing and its journal record can duplicate
/// the effect, and no comparison function can undo that after the fact.
pub trait SupportedOn<S: JournalStore>: Equivalence {

}

/// Every effect happens exactly once: identity over effect traces. Usable
/// only on a `TransactionalBoundary` store; see `SupportedOn`.
#[derive(Debug, Clone, Copy, PartialEq, Eq)]
pub struct ExactlyOnce;

/// Recovery may duplicate at most the last effect of an interrupted step:
/// the crash window between a side effect landing and `StepCompleted` being
/// journaled.
#[derive(Debug, Clone, Copy, PartialEq, Eq)]
pub struct DuplicateLast;

/// Recovery may re-run the whole workflow from scratch, legal only when
/// every step's effect is idempotent. `observed`, with repeated effects
/// collapsed to their first occurrence, must equal `reference`.
#[derive(Debug, Clone, Copy, PartialEq, Eq)]
pub struct ReplayAll;

impl sealed::Sealed for ExactlyOnce {

}

impl sealed::Sealed for DuplicateLast {

}

impl sealed::Sealed for ReplayAll {

}

impl Equivalence for ExactlyOnce {
    open spec fn holds(
        observed: Seq<(Seq<char>, Seq<u8>)>,
        reference: Seq<(Seq<char>, Seq<u8>)>,
    ) -> bool {
        observed == reference
    }

    fn equivalent(observed: &EffectTrace, reference: &EffectTrace) -> (r: bool) {
        let same = observed.0.len() == reference.0.len() && starts_with(
            observed.records(),
            reference.records(),
        );
        assert(observed@.len() == reference@.len() ==> observed@.subrange(
            0,
            reference@.len() as int,
        ) =~= observed@);
        same
    }
}

impl Equivalence for DuplicateLast {
    open spec fn holds(
        observed: Seq<(Seq<char>, Seq<u8>)>,
        reference: Seq<(Seq<char>, Seq<u8>)>,
    ) -> bool {
        ||| observed == reference
        ||| reference.len() > 0 && observed == reference.push(reference.last())
    }

    fn equivalent(observed: &EffectTrace, reference: &EffectTrace) -> (r: bool) {
        if ExactlyOnce::equivalent(observed, reference) {
            return true;
        }
        let count = reference.0.len();
        if count == 0 || observed.0.len() <= count || observed.0.len() - count != 1 {
            assert(observed@.len() == observed.0@.len());
            return false;
        }
        let duplicated = starts_with(observed.records(), reference.records())
            && observed.0[count].same_effect(&reference.0[count - 1]);
        proof {
            let prefix = observed@.subrange(0, count as int);
            assert(observed@ =~= prefix.push(observed@[count as int]));
            assert(observed@ == reference@.push(reference@.last()) ==> prefix =~= reference@);
        }
        duplicated
    }
}

impl Equivalence for ReplayAll {
    open spec fn holds(
        observed: Seq<(Seq<char>, Seq<u8>)>,
        reference: Seq<(Seq<char>, Seq<u8>)>,
    ) -> bool {
        first_occurrences(observed) == reference
    }

    fn equivalent(observed: &EffectTrace, reference: &EffectTrace) -> (r: bool) {
        let mut deduplicated = EffectTrace::new();
        let mut i: usize = 0;
        assert(observed@.take(0) =~= Seq::<(Seq<char>, Seq<u8>)>::empty());
        while i < observed.0.len()
            invariant
                i <= observed.0@.len(),
                observed@.len() == observed.0@.len(),
                deduplicated@ == first_occurrences(observed@.take(i as int)),
            decreases observed.0@.len() - i,
        {
            let record = &observed.0[i];
            assert(observed@.take(i + 1).drop_last() =~= observed@.take(i as int));
            if !contains_effect(&deduplicated.0, record) {
                deduplicated.record(record.step.clone(), record.payload.clone());
            }
            i = i + 1;
        }
        assert(observed@.take(i as int) =~= observed@);
        ExactlyOnce::equivalent(&deduplicated, reference)
    }
}

impl<S: JournalStore + TransactionalBoundary> SupportedOn<S> for ExactlyOnce {

}

impl<S: JournalStore> SupportedOn<S> for DuplicateLast {

}

impl<S: JournalStore> SupportedOn<S> for ReplayAll {

}

/// `first_occurrences` leaves a trace without repetitions as it is.
proof fn lemma_no_repetitions(effects: Seq<(Seq<char>, Seq<u8>)>)
    requires
        effects.no_duplicates(),
    ensures
        first_occurrences(effects) == effects,
    decreases effects.len(),
{
    if effects.len() > 0 {
        let earlier = effects.drop_last();
        lemma_no_repetitions(earlier);
        assert(effects =~= earlier.push(effects.last()));
        if earlier.contains(effects.last()) {
            let i = choose|i: int| 0 <= i < earlier.len() && earlier[i] == effects.last();
            assert(effects[i] == effects[effects.len() - 1]);
        }
    }
}

/// More of the same does not change the first occurrences.
proof fn lemma_only_repetitions(
    effects: Seq<(Seq<char>, Seq<u8>)>,
    more: Seq<(Seq<char>, Seq<u8>)>,
)
    requires
        forall|i: int|
            0 <= i < more.len() ==> first_occurrences(effects).contains(#[trigger] more[i]),
    ensures
        first_occurrences(effects + more) == first_occurrences(effects),
    decreases more.len(),
{
    if more.len() == 0 {
        assert(effects + more =~= effects);
    } else {
        let fewer = more.drop_last();
        assert forall|i: int| 0 <= i < fewer.len() implies first_occurrences(effects).contains(
            #[trigger] fewer[i],
        ) by {
            assert(fewer[i] == more[i]);
        }
        lemma_only_repetitions(effects, fewer);
        assert((effects + more).drop_last() =~= effects + fewer);
        assert((effects + more).last() == more.last());
        assert(first_occurrences(effects).contains(more[more.len() - 1]));
    }
}

/// The first rungs of the ladder: what is exactly once is also at most one
/// duplicate of the last effect.
pub proof fn exactly_once_implies_duplicate_last(
    observed: Seq<(Seq<char>, Seq<u8>)>,
    reference: Seq<(Seq<char>, Seq<u8>)>,
)
    requires
        ExactlyOnce::holds(observed, reference),
    ensures
        DuplicateLast::holds(observed, reference),
{
}

/// The upper rungs of the ladder: a duplicate of the last effect collapses,
/// if the effects of the reference are all different.
pub proof fn duplicate_last_implies_replay_all(
    observed: Seq<(Seq<char>, Seq<u8>)>,
    reference: Seq<(Seq<char>, Seq<u8>)>,
)
    requires
        DuplicateLast::holds(observed, reference),
        reference.no_duplicates(),
    ensures
        ReplayAll::holds(observed, reference),
{
    lemma_no_repetitions(reference);
    if observed != reference {
        let more = seq![reference.last()];
        assert(observed =~= reference + more);
        assert(reference[reference.len() - 1] == more[0]);
        lemma_only_repetitions(reference, more);
    }
}

/// The ladder is strict: with two or more different effects, a whole rerun
/// is accepted by `ReplayAll` and refused by `DuplicateLast`.
pub proof fn a_whole_rerun_needs_replay_all(reference: Seq<(Seq<char>, Seq<u8>)>)
    requires
        reference.no_duplicates(),
        reference.len() >= 2,
    ensures
        ReplayAll::holds(reference + reference, reference),
        !DuplicateLast::holds(reference + reference, reference),
{
    lemma_no_repetitions(reference);
    assert forall|i: int| 0 <= i < reference.len() implies first_occurrences(reference).contains(
        #[trigger] reference[i],
    ) by {}
    lemma_only_repetitions(reference, reference);
    assert((reference + reference).len() == 2 * reference.len());
}

/// What it takes for `observed` to be a replay of `reference`: no effect
/// foreign to the other, no effect twice in the reference, and before an
/// effect is first observed, every effect that comes before it in the
/// reference has been observed.
pub open spec fn replays(
    observed: Seq<(Seq<char>, Seq<u8>)>,
    reference: Seq<(Seq<char>, Seq<u8>)>,
) -> bool {
    &&& forall|i: int, j: int| 0 <= i < j < reference.len() ==> reference[i] != reference[j]
    &&& forall|k: int| 0 <= k < observed.len() ==> reference.contains(#[trigger] observed[k])
    &&& forall|i: int| 0 <= i < reference.len() ==> observed.contains(#[trigger] reference[i])
    &&& forall|i: int, j: int, k: int|
        0 <= i < j < reference.len() && 0 <= k < observed.len() && #[trigger] observed[k]
            == #[trigger] reference[j] ==> observed.take(k).contains(#[trigger] reference[i])
}

proof fn lemma_first_occurrences_replayed(observed: Seq<(Seq<char>, Seq<u8>)>)
    ensures
        replays(observed, first_occurrences(observed)),
    decreases observed.len(),
{
    let first = first_occurrences(observed);
    if observed.len() > 0 {
        let earlier = observed.drop_last();
        let before = first_occurrences(earlier);
        let last = observed.last();
        lemma_first_occurrences_replayed(earlier);
        let n = observed.len() - 1;
        assert forall|k: int| 0 <= k < observed.len() implies first.contains(
            #[trigger] observed[k],
        ) by {
            if k < n {
                assert(earlier[k] == observed[k]);
                let i = choose|i: int| 0 <= i < before.len() && before[i] == earlier[k];
                assert(first[i] == observed[k]);
            } else if !before.contains(last) {
                assert(first[before.len() as int] == last);
            }
        }
        assert forall|i: int| 0 <= i < first.len() implies observed.contains(
            #[trigger] first[i],
        ) by {
            if i < before.len() {
                assert(before[i] == first[i]);
                let k = choose|k: int| 0 <= k < earlier.len() && earlier[k] == before[i];
                assert(observed[k] == first[i]);
            } else {
                assert(observed[n] == first[i]);
            }
        }
        assert forall|i: int, j: int| 0 <= i < j < first.len() implies first[i] != first[j] by {
            assert(before[i] == first[i]);
            if j < before.len() {
                assert(before[j] == first[j]);
            } else {
                assert(before.contains(before[i]));
            }
        }
        assert forall|i: int, j: int, k: int|
            0 <= i < j < first.len() && 0 <= k < observed.len() && #[trigger] observed[k]
                == #[trigger] first[j] implies observed.take(k).contains(#[trigger] first[i]) by {
            assert(before[i] == first[i]);
            if k < n {
                assert(earlier[k] == observed[k]);
                assert(before.contains(earlier[k]));
                let m = choose|m: int| 0 <= m < before.len() && before[m] == earlier[k];
                assert(first[m] == first[j]);
                assert(m == j);
                assert(before[j] == earlier[k]);
                assert(earlier.take(k).contains(before[i]));
                assert(earlier.take(k) =~= observed.take(k));
            } else {
                assert(earlier.contains(before[i]));
                assert(observed.take(k) =~= earlier);
            }
        }
    }
}

/// There is only one reference that `observed` can be a replay of.
proof fn lemma_one_reference(
    observed: Seq<(Seq<char>, Seq<u8>)>,
    one: Seq<(Seq<char>, Seq<u8>)>,
    other: Seq<(Seq<char>, Seq<u8>)>,
    n: int,
)
    requires
        replays(observed, one),
        replays(observed, other),
        0 <= n <= one.len(),
    ensures
        n <= other.len(),
        forall|i: int| 0 <= i < n ==> one[i] == other[i],
    decreases n,
{
    if n > 0 {
        lemma_one_reference(observed, one, other, n - 1);
        let i = n - 1;
        let x = one[i];
        assert(observed.contains(x));
        let k = lemma_first_index(observed, x);
        assert(observed[k] == x);
        assert(other.contains(observed[k]));
        let j = choose|j: int| 0 <= j < other.len() && other[j] == x;
        assert(j >= i) by {
            if j < i {
                assert(one[j] == other[j]);
            }
        }
        if j > i {
            let y = other[i];
            assert(observed.take(k).contains(y));
            let m = choose|m: int| 0 <= m < observed.take(k).len() && observed.take(k)[m] == y;
            assert(observed[m] == y);
            assert(one.contains(observed[m]));
            let h = choose|h: int| 0 <= h < one.len() && one[h] == y;
            assert(h >= i) by {
                if h < i {
                    assert(one[h] == other[h]);
                }
            }
            assert(h != i);
            assert(observed[m] == one[h]);
            assert(observed.take(m).contains(one[i]));
            let g = choose|g: int| 0 <= g < observed.take(m).len() && observed.take(m)[g] == x;
            assert(observed[g] == x);
            assert(false);
        }
    }
}

/// Where `x` first occurs.
proof fn lemma_first_index(
    observed: Seq<(Seq<char>, Seq<u8>)>,
    x: (Seq<char>, Seq<u8>),
) -> (k: int)
    requires
        observed.contains(x),
    ensures
        0 <= k < observed.len(),
        observed[k] == x,
        forall|g: int| 0 <= g < k ==> observed[g] != x,
    decreases observed.len(),
{
    let earlier = observed.drop_last();
    if earlier.contains(x) {
        let k = lemma_first_index(earlier, x);
        assert(observed[k] == earlier[k]);
        assert forall|g: int| 0 <= g < k implies observed[g] != x by {
            assert(earlier[g] == observed[g]);
        }
        k
    } else {
        let k = choose|k: int| 0 <= k < observed.len() && observed[k] == x;
        assert(k == observed.len() - 1) by {
            if k < observed.len() - 1 {
                assert(earlier[k] == x);
            }
        }
        assert forall|g: int| 0 <= g < k implies observed[g] != x by {
            if observed[g] == x {
                assert(earlier[g] == x);
            }
        }
        k
    }
}

/// `ReplayAll` accepts the replays of the reference, and nothing else: a
/// trace with an effect foreign to the reference is refused, as is one that
/// lacks an effect, or that first has its effects in another order.
pub proof fn replay_all_accepts_replays_alone(
    observed: EffectTrace,
    reference: EffectTrace,
    r: bool,
)
    requires
        call_ensures(ReplayAll::equivalent, (&observed, &reference), r),
    ensures
        r <==> replays(observed@, reference@),
        ReplayAll::holds(observed@, reference@) <==> replays(observed@, reference@),
{
    let first = first_occurrences(observed@);
    lemma_first_occurrences_replayed(observed@);
    if replays(observed@, reference@) {
        lemma_one_reference(observed@, first, reference@, first.len() as int);
        lemma_one_reference(observed@, reference@, first, reference@.len() as int);
        assert(first =~= reference@);
    }
}

/// `ExactlyOnce` accepts a trace if and only if it has as many effects as the
/// reference, and each has the name and the payload of the one in its place.
pub proof fn exactly_once_accepts_the_reference_alone(
    observed: EffectTrace,
    reference: EffectTrace,
    r: bool,
)
    requires
        call_ensures(ExactlyOnce::equivalent, (&observed, &reference), r),
    ensures
        r <==> observed@.len() == reference@.len() && forall|i: int|
            0 <= i < observed@.len() ==> #[trigger] observed@[i].0 == reference@[i].0
                && observed@[i].1 == reference@[i].1,
        r == ExactlyOnce::holds(observed@, reference@),
{
    if observed@.len() == reference@.len() && forall|i: int|
        0 <= i < observed@.len() ==> #[trigger] observed@[i].0 == reference@[i].0 && observed@[i].1
            == reference@[i].1 {
        assert forall|i: int| 0 <= i < observed@.len() implies observed@[i] == reference@[i] by {
            assert(observed@[i].0 == reference@[i].0);
        }
        assert(observed@ =~= reference@);
    }
}

/// `DuplicateLast` accepts a trace if and only if it starts with the whole
/// reference, and has at most one effect more, which then is the last one of
/// the reference again.
pub proof fn duplicate_last_accepts_one_more_at_the_end(
    observed: EffectTrace,
    reference: EffectTrace,
    r: bool,
)
    requires
        call_ensures(DuplicateLast::equivalent, (&observed, &reference), r),
    ensures
        r <==> {
            &&& reference@.len() <= observed@.len() <= reference@.len() + 1
            &&& forall|i: int| 0 <= i < reference@.len() ==> #[trigger] observed@[i] == reference@[i]
            &&& observed@.len() > reference@.len() ==> reference@.len() > 0 && observed@.last()
                == reference@.last()
        },
        r == DuplicateLast::holds(observed@, reference@),
{
    let n = reference@.len() as int;
    if n <= observed@.len() <= n + 1 && (forall|i: int|
        0 <= i < n ==> #[trigger] observed@[i] == reference@[i]) {
        if observed@.len() == n {
            assert(observed@ =~= reference@);
        } else if observed@.last() == reference@.last() {
            assert(observed@ =~= reference@.push(reference@.last()));
        }
    }
}

/// Two effects are the same exactly if they are of the same step and hold the
/// same bytes.
pub proof fn effects_are_told_apart(
    step: StepName,
    payload: EventPayload,
    other_step: StepName,
    other_payload: EventPayload,
    effect: EffectRecord,
    other: EffectRecord,
    same: bool,
    same_step: bool,
    same_payload: bool,
)
    requires
        call_ensures(EffectRecord::new, (step, payload), effect),
        call_ensures(EffectRecord::new, (other_step, other_payload), other),
        call_ensures(EffectRecord::same_effect, (&effect, &other), same),
        call_ensures(StepName::same_name, (&step, &other_step), same_step),
        call_ensures(EventPayload::same_bytes, (&payload, &other_payload), same_payload),
    ensures
        same == (same_step && same_payload),
        same == (step@ == other_step@ && payload@ == other_payload@),
{
}

} // verus!
