use vstd::prelude::*;

verus! {

/// Weights of all 256 x 256 byte pairs: a rare pair gets a high weight.
pub struct FrequencyTable {
    pub weights: [u8; 65536],
}

/// The index of the byte pair `(a, b)` in a 256 x 256 table.
pub open spec fn pair_index(a: u8, b: u8) -> int {
    a as int * 256 + b as int
}

/// How many times the byte pair with table index `k` occurs in `data` (as two
/// adjacent bytes, overlapping occurrences counted).
pub open spec fn pair_occurrences(data: Seq<u8>, k: int) -> nat
    decreases data.len(),
{
    if data.len() < 2 {
        0
    } else {
        pair_occurrences(data.drop_last(), k) + if pair_index(data[data.len() - 2], data.last()) == k {
            1nat
        } else {
            0nat
        }
    }
}

/// Pairs are counted over the whole of the data: a byte added at the end adds
/// one occurrence of the pair it forms with the byte before it, and nothing else;
/// data of fewer than two bytes has no pairs.
pub proof fn lemma_pair_occurrences_step(s: Seq<u8>, b: u8, k: int)
    ensures
        s.len() < 2 ==> pair_occurrences(s, k) == 0,
        pair_occurrences(s.push(b), k) == pair_occurrences(s, k) + if s.len() >= 1 && s.last() as int
            * 256 + b as int == k {
            1nat
        } else {
            0nat
        },
{
    assert(s.push(b).drop_last() =~= s);
    if s.len() >= 1 {
        assert(s.push(b)[s.len() - 1] == s.last());
    }
}

/// The number of pair occurrences in `data` with table index below `m`.
pub open spec fn pairs_below(data: Seq<u8>, m: int) -> nat
    decreases m,
{
    if m <= 0 {
        0
    } else {
        pairs_below(data, m - 1) + pair_occurrences(data, m - 1)
    }
}

proof fn lemma_pairs_below_step(s: Seq<u8>, b: u8, m: int)
    requires
        s.len() >= 1,
    ensures
        pairs_below(s.push(b), m) == pairs_below(s, m) + if (s.last() as int) * 256 + (b as int) < m {
            1nat
        } else {
            0nat
        },
    decreases m,
{
    if m > 0 {
        lemma_pairs_below_step(s, b, m - 1);
        lemma_pair_occurrences_step(s, b, m - 1);
    }
}

proof fn lemma_pairs_below_short(s: Seq<u8>, m: int)
    requires
        s.len() < 2,
    ensures
        pairs_below(s, m) == 0,
    decreases m,
{
    if m > 0 {
        lemma_pairs_below_short(s, m - 1);
    }
}

/// Every adjacent pair of the data is counted once: over all 65536 pair
/// indices, the counts add up to one less than the data's length.
pub proof fn lemma_pairs_total(data: Seq<u8>)
    ensures
        pairs_below(data, 65536) == if data.len() < 2 { 0 } else { data.len() - 1 },
    decreases data.len(),
{
    if data.len() < 2 {
        lemma_pairs_below_short(data, 65536);
    } else {
        let s = data.drop_last();
        let b = data.last();
        assert(s.push(b) =~= data);
        lemma_pairs_total(s);
        lemma_pairs_below_step(s, b, 65536);
    }
}

proof fn lemma_pair_occurrences_prefix(data: Seq<u8>, j: int, k: int)
    requires
        0 <= j <= data.len(),
    ensures
        pair_occurrences(data.take(j), k) <= pair_occurrences(data, k),
    decreases data.len(),
{
    if j < data.len() {
        assert(data.drop_last().take(j) =~= data.take(j));
        lemma_pair_occurrences_prefix(data.drop_last(), j, k);
    } else {
        assert(data.take(j) =~= data);
    }
}

/// Adds to `counts` the number of times each byte pair occurs in `data`.
pub fn count_byte_pairs(data: &[u8], counts: &mut Vec<u64>)
    requires
        old(counts)@.len() == 65536,
        forall|k: int| 0 <= k < 65536 ==> #[trigger] old(counts)@[k] + pair_occurrences(data@, k) <= u64::MAX,
    ensures
        final(counts)@.len() == 65536,
        forall|k: int| 0 <= k < 65536 ==> #[trigger] final(counts)@[k] == old(counts)@[k] + pair_occurrences(data@, k),
{
    if data.len() < 2 {
        return;
    }
    let ghost start = counts@;
    let n = data.len();
    let mut i: usize = 0;
    while i + 1 < n
        invariant
            n == data@.len(),
            i + 1 <= data@.len(),
            counts@.len() == 65536,
            forall|k: int| 0 <= k < 65536 ==> #[trigger] start[k] + pair_occurrences(data@, k) <= u64::MAX,
            forall|k: int| 0 <= k < 65536 ==> #[trigger] counts@[k] == start[k] + pair_occurrences(data@.take(i + 1), k),
        decreases data@.len() - i,
    {
        let k = data[i] as usize * 256 + data[i + 1] as usize;
        proof {
            let next = data@.take(i + 2);
            assert(next.drop_last() =~= data@.take(i + 1));
            assert(next[next.len() - 2] == data@[i as int] && next.last() == data@[i + 1]);
            lemma_pair_occurrences_prefix(data@, i + 2, k as int);
        }
        counts.set(k, counts[k] + 1);
        i += 1;
    }
    assert(data@.take(i + 1) =~= data@);
}

impl FrequencyTable {
    /// The weight of the byte pair `(a, b)`.
    pub open spec fn weight_of(&self, a: u8, b: u8) -> u8 {
        self.weights@[a as int * 256 + b as int]
    }

    /// Looks up the weight of the byte pair `(a, b)`.
    pub fn weight(&self, a: u8, b: u8) -> (w: u8)
        ensures
            w == self.weight_of(a, b),
    {
        self.weights[a as usize * 256 + b as usize]
    }
}

} // verus!
