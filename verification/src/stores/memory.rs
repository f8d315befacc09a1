//! In-memory `JournalStore`. Journal append and side effects share one
//! process's memory, so they commit atomically: this store is a
//! `TransactionalBoundary`.

use std::collections::HashMap;

use vstd::prelude::*;

use crate::equivalence::TransactionalBoundary;
use crate::execution::ExecutionId;
use crate::journal;
use crate::journal::EventView;
use crate::journal::Journal;
use crate::journal::JournalError;
use crate::journal::JournalErrorView;
use crate::journal::JournalEvent;
use crate::journal::JournalStore;
use crate::journal::SeqNum;

verus! {

broadcast use vstd::std_specs::hash::group_hash_axioms;

/// The number whose big-endian base-256 digits are `bytes`.
pub open spec fn number_of(bytes: Seq<u8>) -> nat
    decreases bytes.len(),
{
    if bytes.len() == 0 {
        0
    } else {
        256 * number_of(bytes.drop_last()) + bytes.last() as nat
    }
}

/// 256 to the power of `n`.
spec fn limit(n: nat) -> nat
    decreases n,
{
    if n == 0 {
        1
    } else {
        256 * limit((n - 1) as nat)
    }
}

proof fn lemma_number_below_limit(bytes: Seq<u8>)
    ensures
        number_of(bytes) < limit(bytes.len()),
    decreases bytes.len(),
{
    if bytes.len() > 0 {
        lemma_number_below_limit(bytes.drop_last());
    }
}

proof fn lemma_limit_monotonic(m: nat, n: nat)
    requires
        m <= n,
    ensures
        limit(m) <= limit(n),
    decreases n,
{
    if m < n {
        lemma_limit_monotonic(m, (n - 1) as nat);
    }
}

/// Byte strings of the same length with the same number are the same.
proof fn lemma_number_injective(a: Seq<u8>, b: Seq<u8>)
    requires
        a.len() == b.len(),
        number_of(a) == number_of(b),
    ensures
        a == b,
    decreases a.len(),
{
    if a.len() > 0 {
        lemma_number_injective(a.drop_last(), b.drop_last());
        assert(a =~= a.drop_last().push(a.last()));
        assert(b =~= b.drop_last().push(b.last()));
    } else {
        assert(a =~= b);
    }
}

/// The key that the journal of `id` is kept under.
fn key_of(id: &ExecutionId) -> (r: u128)
    ensures
        r == number_of(id@),
        id@.len() == 16,
{
    let bytes = id.as_bytes();
    let mut key: u128 = 0;
    let mut i: usize = 0;
    while i < 16
        invariant
            i <= 16,
            bytes@.len() == 16,
            key == number_of(bytes@.take(i as int)),
        decreases 16 - i,
    {
        proof {
            let seen = bytes@.take(i + 1);
            assert(seen.drop_last() =~= bytes@.take(i as int));
            lemma_number_below_limit(seen);
            lemma_limit_monotonic((i + 1) as nat, 16);
            reveal_with_fuel(limit, 17);
        }
        key = key * 256 + bytes[i] as u128;
        i = i + 1;
    }
    assert(bytes@.take(16) =~= id@);
    key
}

/// One journal per execution, kept in this process's memory. Appending and
/// loading never fail.
#[derive(Debug)]
pub struct MemoryJournal {
    executions: HashMap<u128, Vec<JournalEvent>>,
}

impl MemoryJournal {
    /// The journal of every execution that was appended to.
    spec fn contents(&self) -> Map<Seq<u8>, Seq<EventView>> {
        Map::new(
            |id: Seq<u8>| id.len() == 16 && self.executions@.contains_key(number_of(id) as u128),
            |id: Seq<u8>| journal::event_views(self.executions@[number_of(id) as u128]@),
        )
    }

    pub fn new() -> (r: Self)
        ensures
            r.journals() == Map::<Seq<u8>, Seq<EventView>>::empty(),
            r.failures() == Seq::<JournalErrorView>::empty(),
    {
        let r = Self { executions: HashMap::new() };
        assert(r.journals() =~= Map::<Seq<u8>, Seq<EventView>>::empty());
        r
    }
}

impl Default for MemoryJournal {
    fn default() -> (r: Self)
        ensures
            r.journals() == Map::<Seq<u8>, Seq<EventView>>::empty(),
            r.failures() == Seq::<JournalErrorView>::empty(),
    {
        Self::new()
    }
}

impl JournalStore for MemoryJournal {
    closed spec fn journals(&self) -> Map<Seq<u8>, Seq<EventView>> {
        self.contents()
    }

    open spec fn fallible(&self) -> bool {
        false
    }

    closed spec fn failures(&self) -> Seq<JournalErrorView> {
        Seq::empty()
    }

    fn append(&mut self, id: &ExecutionId, event: JournalEvent) -> (r: Result<SeqNum, JournalError>)
    {
        let key = key_of(id);
        let mut events = match self.executions.remove(&key) {
            Some(events) => events,
            None => Vec::new(),
        };
        let ghost earlier = events@;
        let position = SeqNum::from_index(events.len() as u64);
        let ghost view = event@;
        events.push(event);
        self.executions.insert(key, events);
        proof {
            let old_journal = journal::journal_of(old(self).contents(), id@);
            assert(old_journal =~= journal::event_views(earlier));
            assert(journal::event_views(events@) =~= old_journal.push(view));
            let wanted = journal::appended(old(self).contents(), id@, view);
            assert forall|other: Seq<u8>| #[trigger]
                self.contents().dom().contains(other) == wanted.dom().contains(other) by {
                if other.len() == 16 && other != id@ {
                    lemma_key_distinct(other, id@);
                }
            }
            assert forall|other: Seq<u8>| #[trigger]
                wanted.dom().contains(other) implies self.contents()[other] == wanted[other] by {
                if other != id@ {
                    lemma_key_distinct(other, id@);
                }
            }
            assert(self.contents() =~= wanted);
        }
        Ok(position)
    }

    fn load(&self, id: &ExecutionId) -> (r: Result<Journal, JournalError>)
        ensures
            r is Ok,
    {
        let key = key_of(id);
        match self.executions.get(&key) {
            Some(events) => Ok(Journal::new(journal::clone_events(events.as_slice()))),
            None => Ok(Journal::empty()),
        }
    }
}

/// Different identities have different keys.
proof fn lemma_key_distinct(a: Seq<u8>, b: Seq<u8>)
    requires
        a.len() == 16,
        b.len() == 16,
        a != b,
    ensures
        number_of(a) as u128 != number_of(b) as u128,
{
    lemma_number_below_limit(a);
    lemma_number_below_limit(b);
    reveal_with_fuel(limit, 17);
    if number_of(a) == number_of(b) {
        lemma_number_injective(a, b);
    }
}

impl TransactionalBoundary for MemoryJournal {

}

} // verus!
