//! The DJB2 byte hasher that the map uses to place its keys.

use vstd::prelude::*;

verus! {

/// The value a fresh hasher starts from.
pub const DJB2_SEED: u64 = 5381;

/// One DJB2 step: the state times 33, plus the byte, modulo 2^64.
pub open spec fn djb2_step(h: u64, b: u8) -> u64 {
    ((h * 33 + b) % 0x1_0000_0000_0000_0000int) as u64
}

/// The state after feeding `bytes`, in order, into a hasher whose state is `h`.
pub open spec fn djb2(h: u64, bytes: Seq<u8>) -> u64
    decreases bytes.len(),
{
    if bytes.len() == 0 {
        h
    } else {
        djb2_step(djb2(h, bytes.drop_last()), bytes.last())
    }
}

/// Feeding two byte strings one after the other is feeding their concatenation.
pub proof fn lemma_djb2_concat(h: u64, a: Seq<u8>, b: Seq<u8>)
    ensures
        djb2(djb2(h, a), b) == djb2(h, a + b),
    decreases b.len(),
{
    if b.len() == 0 {
        assert(a + b =~= a);
    } else {
        lemma_djb2_concat(h, a, b.drop_last());
        assert((a + b).drop_last() =~= a + b.drop_last());
        assert((a + b).last() == b.last());
    }
}

/// A hasher's state is unchanged by no bytes, and feeding one more byte `b`
/// to the state `h` reached so far gives `(h * 33 + b) mod 2^64`: the raw byte
/// is added, for every byte value.
pub proof fn law_djb2_step(h: u64, bytes: Seq<u8>, b: u8)
    ensures
        DJB2_SEED == 5381,
        djb2(h, Seq::empty()) == h,
        djb2(h, bytes.push(b)) as int == (djb2(h, bytes) as int * 33 + b as int) % 0x1_0000_0000_0000_0000int,
        djb2(h, seq![b]) as int == (h as int * 33 + b as int) % 0x1_0000_0000_0000_0000int,
{
    assert(bytes.push(b).drop_last() =~= bytes);
    assert(seq![b].drop_last() =~= Seq::<u8>::empty());
}

/// A hasher that folds bytes into a 64-bit state with the DJB2 recurrence.
pub struct AHHasher {
    hash: u64,
}

impl View for AHHasher {
    type V = u64;

    closed spec fn view(&self) -> u64 {
        self.hash
    }
}

impl AHHasher {
    /// A fresh hasher, whose state is the DJB2 seed 5381.
    pub fn new() -> (h: AHHasher)
        ensures
            h@ == DJB2_SEED,
    {
        AHHasher { hash: DJB2_SEED }
    }

    /// Feeds `bytes` into the hasher, first to last.
    pub fn write(&mut self, bytes: &[u8])
        ensures
            final(self)@ == djb2(old(self)@, bytes@),
    {
        let ghost start = self.hash;
        let n = bytes.len();
        let mut i: usize = 0;
        while i < n
            invariant
                n == bytes@.len(),
                i <= n,
                self.hash == djb2(start, bytes@.take(i as int)),
            decreases n - i,
        {
            let h = self.hash;
            let b = bytes[i];
            let next = (h << 5).wrapping_add(h).wrapping_add(b as u64);
            assert(next == djb2_step(h, b)) by {
                lemma_step_matches(h, b);
            }
            assert(bytes@.take(i + 1).drop_last() =~= bytes@.take(i as int));
            self.hash = next;
            i = i + 1;
        }
        assert(bytes@.take(n as int) =~= bytes@);
    }

    /// The current state of the hasher.
    pub fn finish(&self) -> (h: u64)
        ensures
            h == self@,
    {
        self.hash
    }
}

impl std::hash::Hasher for AHHasher {
    fn write(&mut self, bytes: &[u8])
        ensures
            final(self)@ == djb2(old(self)@, bytes@),
    {
        AHHasher::write(self, bytes)
    }

    fn finish(&self) -> (h: u64)
        ensures
            h == self@,
    {
        self.hash
    }
}

proof fn lemma_step_matches(h: u64, b: u8)
    ensures
        vstd::wrapping::u64_specs::wrapping_add(
            vstd::wrapping::u64_specs::wrapping_add(h << 5, h),
            b as u64,
        ) == djb2_step(h, b),
{
    assert((h << 5) as int == (h as int * 32) % 0x1_0000_0000_0000_0000int) by (bit_vector);
    let s: u64 = h << 5;
    let t = vstd::wrapping::u64_specs::wrapping_add(s, h);
    assert(t as int == (h as int * 33) % 0x1_0000_0000_0000_0000int) by (nonlinear_arith)
        requires
            s as int == (h as int * 32) % 0x1_0000_0000_0000_0000int,
            t == (if s + h > u64::MAX { (s + h - 0x1_0000_0000_0000_0000int) as u64 } else { (s + h) as u64 }),
    ;
    let u = vstd::wrapping::u64_specs::wrapping_add(t, b as u64);
    assert(u as int == (h as int * 33 + b as int) % 0x1_0000_0000_0000_0000int) by (nonlinear_arith)
        requires
            t as int == (h as int * 33) % 0x1_0000_0000_0000_0000int,
            u == (if t + (b as u64) > u64::MAX { (t + (b as u64) - 0x1_0000_0000_0000_0000int) as u64 } else { (t + (b as u64)) as u64 }),
    ;
}

} // verus!
