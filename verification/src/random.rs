//! Journaled randomness. `ctx.random()` records the drawn bytes so replay
//! returns the original answer instead of drawing again.

use vstd::prelude::*;

verus! {

/// Fixed-width random bytes drawn through `RngSource`, journaled for replay.
#[derive(Debug, Clone, Copy, PartialEq, Eq, Hash)]
pub struct RandomBytes([u8; 32]);

impl View for RandomBytes {
    type V = Seq<u8>;

    closed spec fn view(&self) -> Seq<u8> {
        self.0@
    }
}

impl RandomBytes {
    pub fn new(bytes: [u8; 32]) -> (r: Self)
        ensures
            r@ == bytes@,
    {
        Self(bytes)
    }

    pub fn as_bytes(&self) -> (r: &[u8; 32])
        ensures
            r@ == self@,
    {
        &self.0
    }
}

/// Source of randomness for a workflow run. A real source draws from the
/// operating system; test sources are deterministic.
pub trait RngSource {
    /// Every draw so far, oldest first.
    closed spec fn draws(&self) -> Seq<Seq<u8>> {
        arbitrary()
    }

    /// The bytes that every draw from this source gives, where that is
    /// settled beforehand.
    open spec fn gives(&self) -> Option<Seq<u8>> {
        None
    }

    fn next_bytes(&mut self) -> (r: RandomBytes)
        ensures
            final(self).draws() == old(self).draws().push(r@),
            final(self).gives() == old(self).gives(),
            old(self).gives() matches Some(bytes) ==> r@ == bytes,
    ;
}

impl<R: RngSource> RngSource for &mut R {
    open spec fn draws(&self) -> Seq<Seq<u8>> {
        (**self).draws()
    }

    open spec fn gives(&self) -> Option<Seq<u8>> {
        (**self).gives()
    }

    fn next_bytes(&mut self) -> (r: RandomBytes) {
        (**self).next_bytes()
    }
}

/// Deterministic source that draws the same seed every time, for runs whose
/// identity comes from a label instead of from chance.
pub struct SeededRng {
    seed: [u8; 32],
    drawn: Ghost<Seq<Seq<u8>>>,
}

/// The bytes of `label`, cut off after 32 or padded with zeros up to 32.
pub open spec fn seed_of(label: Seq<u8>) -> Seq<u8> {
    Seq::new(
        32,
        |i: int|
            if i < label.len() {
                label[i]
            } else {
                0
            },
    )
}

impl SeededRng {
    /// The bytes that every draw returns.
    pub closed spec fn seed(&self) -> Seq<u8> {
        self.seed@
    }

    pub fn from_label(label: &[u8]) -> (r: Self)
        ensures
            r.seed() == seed_of(label@),
            r.draws() == Seq::<Seq<u8>>::empty(),
    {
        let mut seed: [u8; 32] = [0u8; 32];
        let mut i: usize = 0;
        while i < 32 && i < label.len()
            invariant
                i <= 32,
                i <= label.len(),
                forall|k: int| 0 <= k < i ==> seed@[k] == label@[k],
                forall|k: int| i <= k < 32 ==> seed@[k] == 0,
            decreases 32 - i,
        {
            seed[i] = label[i];
            i = i + 1;
        }
        let r = Self { seed, drawn: Ghost(Seq::empty()) };
        assert(r.seed() =~= seed_of(label@));
        r
    }
}

impl RngSource for SeededRng {
    closed spec fn draws(&self) -> Seq<Seq<u8>> {
        self.drawn@
    }

    open spec fn gives(&self) -> Option<Seq<u8>> {
        Some(self.seed())
    }

    fn next_bytes(&mut self) -> (r: RandomBytes)
        ensures
            r@ == old(self).seed(),
            final(self).seed() == old(self).seed(),
    {
        let r = RandomBytes::new(self.seed);
        self.drawn = Ghost(self.drawn@.push(r@));
        r
    }
}

/// A seed holds the bytes of its label in order, up to 32 of them, and zeros
/// behind a shorter label.
pub proof fn labels_become_seeds(label: &[u8], rng: SeededRng)
    requires
        call_ensures(SeededRng::from_label, (label,), rng),
    ensures
        rng.gives() matches Some(bytes) && bytes.len() == 32 && (label@.len() >= 32
            ==> label@.take(32) == bytes) && (label@.len() < 32 ==> label@ + Seq::new(
            (32 - label@.len()) as nat,
            |i: int| 0u8,
        ) == bytes),
{
    let bytes = rng.seed();
    if label@.len() >= 32 {
        assert(label@.take(32) =~= bytes);
    } else {
        assert(label@ + Seq::new((32 - label@.len()) as nat, |i: int| 0u8) =~= bytes);
    }
}

} // verus!
