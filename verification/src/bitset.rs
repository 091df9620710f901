use vstd::prelude::*;
use crate::hash::{Trigram, trigram_index};

verus! {

/// Number of 64-bit words needed for one bit per 24-bit key.
pub const BITSET_WORDS: usize = 262_144;

/// One bit for each of the 2^24 possible three-byte keys.
pub struct TrigramBitSet {
    bits: Vec<u64>,
}

/// Bit `j` of `w` is set.
pub open spec fn bit_set(w: u64, j: int) -> bool {
    (w >> (j as u64)) & 1u64 == 1u64
}

proof fn lemma_or_bit(w: u64, b: u64, j: u64)
    by (bit_vector)
    requires
        b < 64,
        j < 64,
    ensures
        ((w | (1u64 << b)) >> j) & 1u64 == 1u64 <==> ((w >> j) & 1u64 == 1u64 || j == b),
{
}

proof fn lemma_and_bit(w: u64, b: u64)
    by (bit_vector)
    requires
        b < 64,
    ensures
        (w & (1u64 << b)) != 0u64 <==> (w >> b) & 1u64 == 1u64,
{
}

proof fn lemma_zero_bits(j: u64)
    by (bit_vector)
    ensures
        (0u64 >> j) & 1u64 != 1u64,
{
}

impl TrigramBitSet {
    /// The set holds one bit for every 24-bit key.
    pub closed spec fn wf(&self) -> bool {
        self.bits@.len() == BITSET_WORDS
    }

    /// The keys, as 24-bit values, whose bit is set.
    pub closed spec fn view(&self) -> Set<int> {
        Set::new(|i: int| 0 <= i < 0x100_0000 && bit_set(self.bits@[i / 64], i % 64))
    }

    /// An empty set.
    pub fn new() -> (s: Self)
        ensures
            s.wf(),
            s.view() == Set::<int>::empty(),
    {
        let bits = vec![0u64; BITSET_WORDS];
        let s = TrigramBitSet { bits };
        assert forall|i: int| 0 <= i < 0x100_0000 implies !#[trigger] bit_set(s.bits@[i / 64], i % 64) by {
            lemma_zero_bits((i % 64) as u64);
        }
        assert(s.view() =~= Set::<int>::empty());
        s
    }

    /// Sets the bit of `t`.
    pub fn insert(&mut self, t: Trigram)
        requires
            old(self).wf(),
        ensures
            final(self).wf(),
            final(self).view() == old(self).view().insert(trigram_index(t@)),
    {
        let idx = t[0] as usize * 65536 + t[1] as usize * 256 + t[2] as usize;
        let word = idx / 64;
        let bit = (idx % 64) as u64;
        let ghost old_bits = self.bits@;
        let ghost old_view = self.view();
        let v = self.bits[word] | (1u64 << bit);
        self.bits.set(word, v);
        proof {
            assert forall|i: int| 0 <= i < 0x100_0000 implies (#[trigger] bit_set(self.bits@[i / 64], i % 64)
                <==> (bit_set(old_bits[i / 64], i % 64) || i == idx)) by {
                if i / 64 == word as int {
                    lemma_or_bit(old_bits[i / 64], bit, (i % 64) as u64);
                }
            }
            assert(self.view() =~= old_view.insert(trigram_index(t@)));
        }
    }

    /// Whether the bit of `t` is set.
    pub fn contains(&self, t: Trigram) -> (b: bool)
        requires
            self.wf(),
        ensures
            b == self.view().contains(trigram_index(t@)),
    {
        let idx = t[0] as usize * 65536 + t[1] as usize * 256 + t[2] as usize;
        let bit = (idx % 64) as u64;
        proof {
            lemma_and_bit(self.bits@[(idx / 64) as int], bit);
        }
        self.bits[idx / 64] & (1u64 << bit) != 0
    }

    /// Clears every bit.
    pub fn clear(&mut self)
        requires
            old(self).wf(),
        ensures
            final(self).wf(),
            final(self).view() == Set::<int>::empty(),
    {
        let mut i: usize = 0;
        while i < self.bits.len()
            invariant
                self.bits@.len() == BITSET_WORDS,
                i <= self.bits@.len(),
                forall|k: int| 0 <= k < i ==> self.bits@[k] == 0u64,
            decreases self.bits@.len() - i,
        {
            self.bits.set(i, 0);
            i += 1;
        }
        assert forall|i: int| 0 <= i < 0x100_0000 implies !#[trigger] bit_set(self.bits@[i / 64], i % 64) by {
            lemma_zero_bits((i % 64) as u64);
        }
        assert(self.view() =~= Set::<int>::empty());
    }
}

} // verus!
