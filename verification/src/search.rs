use vstd::prelude::*;
use crate::freq::FrequencyTable;
use crate::hash::{Trigram, trigram_index};
use crate::lookup::{lookup_count, lookup_key, lookup_offset, lookup_postings, lookup_sorted};
use vstd::bytes::{u32_from_le_bytes, u64_from_le_bytes};

verus! {

/// Where the key `t` stands in the first `n` entries of the lookup table
/// `data`: the posting list offset and count of an entry with that key.
pub open spec fn lookup_find(data: Seq<u8>, n: int, t: int) -> Option<(u64, usize)> {
    if exists|i: int| 0 <= i < n && lookup_key(data, i) == t {
        let i = choose|i: int| 0 <= i < n && lookup_key(data, i) == t;
        Some((lookup_offset(data, i), lookup_postings(data, i) as usize))
    } else {
        None
    }
}

/// The neighbouring entries `(lo, hi)` that binary search narrows the window
/// `[lo, hi)` down to when looking for the key `t`: while the window holds more
/// than one entry, keep its upper half when the middle entry's key is below `t`,
/// else its lower half (the middle entry staying as the upper bound).
pub open spec fn halving(data: Seq<u8>, t: int, lo: int, hi: int) -> (int, int)
    decreases hi - lo,
{
    if hi - lo <= 1 {
        (lo, hi)
    } else {
        let mid = lo + (hi - lo) / 2;
        if lookup_key(data, mid) < t {
            halving(data, t, mid, hi)
        } else {
            halving(data, t, lo, mid)
        }
    }
}

/// What probing the first `n` entries of the lookup table `data` for the key `t`
/// gives: the entry binary search ends on (the lower of the two neighbours first)
/// when its key is `t`, else nothing. On an ascending table this is the entry
/// with key `t` (`lemma_probe_result_sorted`).
pub open spec fn probe_result(data: Seq<u8>, n: int, t: int) -> Option<(u64, usize)> {
    if n <= 0 {
        None
    } else {
        let (lo, hi) = halving(data, t, 0, n);
        if lookup_key(data, lo) == t {
            Some((lookup_offset(data, lo), lookup_postings(data, lo) as usize))
        } else if hi < n && lookup_key(data, hi) == t {
            Some((lookup_offset(data, hi), lookup_postings(data, hi) as usize))
        } else {
            None
        }
    }
}

proof fn lemma_halving(data: Seq<u8>, n: int, t: int, lo: int, hi: int)
    requires
        0 <= lo < hi <= n,
        lookup_sorted(data, n),
        forall|k: int| 0 <= k < lo ==> #[trigger] lookup_key(data, k) < t,
        forall|k: int| hi < k < n ==> #[trigger] lookup_key(data, k) > t,
    ensures
        ({
            let (a, b) = halving(data, t, lo, hi);
            &&& lo <= a < b <= hi
            &&& b <= a + 1
            &&& forall|k: int| 0 <= k < a ==> #[trigger] lookup_key(data, k) < t
            &&& forall|k: int| b < k < n ==> #[trigger] lookup_key(data, k) > t
        }),
    decreases hi - lo,
{
    if hi - lo > 1 {
        let mid = lo + (hi - lo) / 2;
        if lookup_key(data, mid) < t {
            assert forall|k: int| 0 <= k < mid implies #[trigger] lookup_key(data, k) < t by {
                if k >= lo {
                    assert(lookup_key(data, k) < lookup_key(data, mid));
                }
            }
            lemma_halving(data, n, t, mid, hi);
        } else {
            assert forall|k: int| mid < k < n implies #[trigger] lookup_key(data, k) > t by {
                if k <= hi {
                    assert(lookup_key(data, mid) < lookup_key(data, k));
                }
            }
            lemma_halving(data, n, t, lo, mid);
        }
    }
}

/// On a table with ascending keys, probing finds exactly the entry with the key.
pub proof fn lemma_probe_result_sorted(data: Seq<u8>, n: int, t: int)
    requires
        lookup_sorted(data, n),
    ensures
        probe_result(data, n, t) == lookup_find(data, n, t),
{
    if n > 0 {
        lemma_halving(data, n, t, 0, n);
        let (lo, hi) = halving(data, t, 0, n);
        if exists|i: int| 0 <= i < n && lookup_key(data, i) == t {
            let j = choose|i: int| 0 <= i < n && lookup_key(data, i) == t;
            assert(j == lo || j == hi);
            if lookup_key(data, lo) == t && j != lo {
                if lo < j {
                    assert(lookup_key(data, lo) < lookup_key(data, j));
                } else {
                    assert(lookup_key(data, j) < lookup_key(data, lo));
                }
            }
        }
    }
}

/// The query side of an index: its lookup table and its byte-pair weights.
pub struct Searcher<'a> {
    lookup: &'a [u8],
    entry_count: u64,
    freq_table: FrequencyTable,
}

impl<'a> Searcher<'a> {
    /// The lookup table holds the header and every entry it declares.
    pub closed spec fn wf(&self) -> bool {
        &&& self.lookup@.len() >= 8
        &&& self.entry_count == lookup_count(self.lookup@)
        &&& self.lookup@.len() >= 8 + 16 * self.entry_count
    }

    /// The bytes of the lookup table.
    pub closed spec fn lookup_bytes(&self) -> Seq<u8> {
        self.lookup@
    }

    /// The number of lookup entries.
    pub closed spec fn entries(&self) -> u64 {
        self.entry_count
    }

    /// The byte-pair weights.
    pub closed spec fn freq(&self) -> FrequencyTable {
        self.freq_table
    }

    /// A searcher over the lookup table `lookup` and the weights `freq_table`.
    pub fn new(lookup: &'a [u8], freq_table: FrequencyTable) -> (s: Self)
        requires
            lookup@.len() >= 8,
            lookup@.len() >= 8 + 16 * lookup_count(lookup@),
        ensures
            s.wf(),
            s.lookup_bytes() == lookup@,
            s.entries() == lookup_count(lookup@),
            s.freq() == freq_table,
    {
        let entry_count = u64_from_le_bytes(&lookup[0..8]);
        Searcher { lookup, entry_count, freq_table }
    }

    /// The byte-pair weights.
    pub fn freq_table(&self) -> (f: &FrequencyTable)
        ensures
            *f == self.freq(),
    {
        &self.freq_table
    }

    /// The number of entries of the lookup table.
    pub fn entry_count(&self) -> (n: u64)
        ensures
            n == self.entries(),
    {
        self.entry_count
    }

    fn key_at(&self, idx: usize) -> (k: u32)
        requires
            self.wf(),
            idx < self.entries(),
        ensures
            k == lookup_key(self.lookup_bytes(), idx as int),
    {
        let data = self.lookup;
        let len = data.len();
        assert(8 + idx * 16 + 16 <= 8 + 16 * self.entry_count) by (nonlinear_arith)
            requires
                idx < self.entry_count,
        ;
        let off = 8 + idx * 16;
        data[off] as u32 * 65536 + data[off + 1] as u32 * 256 + data[off + 2] as u32
    }

    /// Finds the entry of `trigram` by binary search over the sorted lookup table.
    pub fn probe_trigram(&self, trigram: &Trigram) -> (r: Option<(u64, usize)>)
        requires
            self.wf(),
        ensures
            r == probe_result(self.lookup_bytes(), self.entries() as int, trigram_index(trigram@)),
            lookup_sorted(self.lookup_bytes(), self.entries() as int) ==> r == lookup_find(
                self.lookup_bytes(),
                self.entries() as int,
                trigram_index(trigram@),
            ),
    {
        let ghost data = self.lookup@;
        let ghost n = self.entry_count as int;
        let ghost sorted = lookup_sorted(data, n);
        let t = trigram[0] as u32 * 65536 + trigram[1] as u32 * 256 + trigram[2] as u32;
        assert(t == trigram_index(trigram@));
        let len = self.lookup.len();
        assert(self.entry_count <= len);
        let entry_count = self.entry_count as usize;
        if entry_count == 0 {
            return None;
        }
        proof {
            if sorted {
                lemma_probe_result_sorted(data, n, t as int);
            }
        }
        let mut lo: usize = 0;
        let mut hi: usize = entry_count;
        while hi - lo > 1
            invariant
                self.wf(),
                halving(data, t as int, lo as int, hi as int) == halving(data, t as int, 0, n),
                data == self.lookup@,
                n == entry_count,
                n == self.entry_count,
                t == trigram_index(trigram@),
                sorted == lookup_sorted(data, n),
                lo < hi <= entry_count,
                sorted ==> forall|k: int| 0 <= k < lo ==> #[trigger] lookup_key(data, k) < t,
                sorted ==> forall|k: int| hi < k < n ==> #[trigger] lookup_key(data, k) > t,
            decreases hi - lo,
        {
            let mid = lo + (hi - lo) / 2;
            let mk = self.key_at(mid);
            if mk < t {
                proof {
                    if sorted {
                        assert forall|k: int| 0 <= k < mid implies #[trigger] lookup_key(data, k) < t by {
                            assert(lookup_key(data, k) < lookup_key(data, mid as int));
                        }
                    }
                }
                lo = mid;
            } else {
                proof {
                    if sorted {
                        assert forall|k: int| mid < k < n implies #[trigger] lookup_key(data, k) > t by {
                            assert(lookup_key(data, mid as int) < lookup_key(data, k));
                        }
                    }
                }
                hi = mid;
            }
        }
        let mut which: usize = 0;
        while which < 2
            invariant
                self.wf(),
                halving(data, t as int, 0, n) == (lo as int, hi as int),
                sorted ==> probe_result(data, n, t as int) == lookup_find(data, n, t as int),
                data == self.lookup@,
                n == entry_count,
                n == self.entry_count,
                t == trigram_index(trigram@),
                sorted == lookup_sorted(data, n),
                lo < hi <= entry_count,
                hi <= lo + 1,
                which <= 2,
                which >= 1 ==> lookup_key(data, lo as int) != t,
                which >= 2 ==> hi < n ==> lookup_key(data, hi as int) != t,
                sorted ==> forall|k: int| 0 <= k < lo ==> #[trigger] lookup_key(data, k) < t,
                sorted ==> forall|k: int| hi < k < n ==> #[trigger] lookup_key(data, k) > t,
            decreases 2 - which,
        {
            let idx = if which == 0 { lo } else { hi };
            if idx < entry_count {
                if self.key_at(idx) == t {
                    let len = self.lookup.len();
                    assert(8 + idx * 16 + 16 <= 8 + 16 * self.entry_count) by (nonlinear_arith)
                        requires
                            idx < self.entry_count,
                    ;
                    let off = 8 + idx * 16;
                    let posting_offset = u64_from_le_bytes(&self.lookup[off + 4..off + 12]);
                    let count = u32_from_le_bytes(&self.lookup[off + 12..off + 16]) as usize;
                    proof {
                        assert(trigram_index(trigram@) == t);
                        if sorted {
                            let j = choose|j: int| 0 <= j < n && lookup_key(data, j) == t;
                            if j < idx {
                                assert(lookup_key(data, j) < lookup_key(data, idx as int));
                            }
                            if j > idx {
                                assert(lookup_key(data, idx as int) < lookup_key(data, j));
                            }
                        }
                    }
                    return Some((posting_offset, count));
                }
            }
            which += 1;
        }
        proof {
            assert(trigram_index(trigram@) == t);
            if sorted {
                assert(!exists|i: int| 0 <= i < n && lookup_key(data, i) == t);
            }
        }
        None
    }
}

} // verus!
