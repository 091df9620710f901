use vstd::prelude::*;
use crate::freq::FrequencyTable;
use crate::hash::{Trigram, hash_ngram, hash_to_trigram, ngram_hash, trigram_index, lemma_trigram_roundtrip};
use crate::index::{dedup, key_values, window_hashes};
use crate::ngram::{build_covering_ranges, covering_ranges, ranges_within};
use crate::search::{Searcher, probe_result};

verus! {

/// A key found in the lookup table, with its posting list offset and count.
pub type Probe = (Trigram, u64, usize);

/// A probe with its key as a 24-bit value.
pub open spec fn probe_view(p: Probe) -> (int, u64, usize) {
    (trigram_index(p.0@), p.1, p.2)
}

/// The views of a list of probes.
pub open spec fn probe_views(ps: Seq<Probe>) -> Seq<(int, u64, usize)> {
    ps.map_values(|p: Probe| probe_view(p))
}

/// `s` (ordered by count) with `x` put after every element whose count is not above its own.
pub open spec fn insert_by_count(x: (int, u64, usize), s: Seq<(int, u64, usize)>) -> Seq<(int, u64, usize)>
    decreases s.len(),
{
    if s.len() == 0 {
        seq![x]
    } else if s.last().2 <= x.2 {
        s.push(x)
    } else {
        insert_by_count(x, s.drop_last()).push(s.last())
    }
}

/// `s` ordered by count, elements of equal count in the order they come in.
pub open spec fn sort_by_count(s: Seq<(int, u64, usize)>) -> Seq<(int, u64, usize)>
    decreases s.len(),
{
    if s.len() == 0 {
        Seq::empty()
    } else {
        insert_by_count(s.last(), sort_by_count(s.drop_last()))
    }
}

/// What probing the first `n` entries of `data` gives for each of `keys`, in the
/// order of `keys`; keys the probe does not find are left out.
pub open spec fn probe_all(data: Seq<u8>, n: int, keys: Seq<int>) -> Seq<(int, u64, usize)>
    decreases keys.len(),
{
    if keys.len() == 0 {
        Seq::empty()
    } else {
        let prev = probe_all(data, n, keys.drop_last());
        match probe_result(data, n, keys.last()) {
            Some((o, c)) => prev.push((keys.last(), o, c)),
            None => prev,
        }
    }
}

/// The hashes of the covering n-grams of a query.
pub open spec fn covering_hashes(pattern: Seq<u8>, freq: FrequencyTable) -> Seq<int> {
    covering_ranges(pattern, freq).map_values(
        |r: (usize, usize)| ngram_hash(pattern.subrange(r.0 as int, r.1 as int)) as int,
    )
}

/// The keys a query is looked up by: its covering n-grams when there are at
/// least three of them; otherwise its distinct three-byte windows, of which the
/// (at most 8) with the shortest posting lists.
pub open spec fn query_keys(data: Seq<u8>, n: int, pattern: Seq<u8>, freq: FrequencyTable) -> Seq<int> {
    if covering_ranges(pattern, freq).len() >= 3 {
        covering_hashes(pattern, freq)
    } else {
        let probed = sort_by_count(probe_all(data, n, dedup(window_hashes(pattern))));
        probed.take(if probed.len() < 8 { probed.len() as int } else { 8 }).map_values(
            |p: (int, u64, usize)| p.0,
        )
    }
}

/// The probes a query starts from: the entries of its keys, shortest posting list
/// first (none for a query under three bytes).
pub open spec fn planned_probes(data: Seq<u8>, n: int, pattern: Seq<u8>, freq: FrequencyTable) -> Seq<(int, u64, usize)> {
    if pattern.len() < 3 {
        Seq::empty()
    } else {
        sort_by_count(probe_all(data, n, query_keys(data, n, pattern, freq)))
    }
}

proof fn lemma_insert_at(x: (int, u64, usize), s: Seq<(int, u64, usize)>, j: int)
    requires
        0 <= j <= s.len(),
        forall|k: int| j <= k < s.len() ==> #[trigger] s[k].2 > x.2,
        j == 0 || s[j - 1].2 <= x.2,
    ensures
        insert_by_count(x, s) == s.insert(j, x),
    decreases s.len(),
{
    if s.len() == 0 {
        assert(s.insert(j, x) =~= seq![x]);
    } else if j == s.len() {
        assert(s.insert(j, x) =~= s.push(x));
    } else {
        let init = s.drop_last();
        assert forall|k: int| j <= k < init.len() implies #[trigger] init[k].2 > x.2 by {
            assert(init[k] == s[k]);
        }
        if j > 0 {
            assert(init[j - 1] == s[j - 1]);
        }
        lemma_insert_at(x, init, j);
        assert(init.insert(j, x).push(s.last()) =~= s.insert(j, x));
    }
}

/// Orders probes by posting count, keeping probes of equal count in order (a stable sort).
pub fn sort_probes_by_count(v: &Vec<Probe>) -> (r: Vec<Probe>)
    ensures
        probe_views(r@) == sort_by_count(probe_views(v@)),
{
    let mut r: Vec<Probe> = Vec::new();
    let mut i: usize = 0;
    while i < v.len()
        invariant
            i <= v@.len(),
            probe_views(r@) == sort_by_count(probe_views(v@.take(i as int))),
        decreases v@.len() - i,
    {
        let x = v[i];
        let mut j = r.len();
        while j > 0 && r[j - 1].2 > x.2
            invariant
                j <= r@.len(),
                forall|k: int| j <= k < r@.len() ==> #[trigger] r@[k].2 > x.2,
            decreases j,
        {
            j -= 1;
        }
        let ghost before = r@;
        proof {
            let pv = probe_views(before);
            assert forall|k: int| j <= k < pv.len() implies #[trigger] pv[k].2 > x.2 by {
                assert(pv[k] == probe_view(before[k]));
            }
            if j > 0 {
                assert(pv[j - 1] == probe_view(before[j - 1]));
            }
            lemma_insert_at(probe_view(x), pv, j as int);
            assert(probe_views(v@.take(i + 1)).drop_last() =~= probe_views(v@.take(i as int)));
            assert(probe_views(v@.take(i + 1)).last() == probe_view(x));
        }
        r.insert(j, x);
        assert(probe_views(r@) =~= probe_views(before).insert(j as int, probe_view(x)));
        i += 1;
    }
    assert(v@.take(v@.len() as int) =~= v@);
    r
}


/// Whether some key of `v` has the same three bytes as `t`.
fn contains_key(v: &Vec<Trigram>, t: Trigram) -> (b: bool)
    ensures
        b == key_values(v@).contains(trigram_index(t@)),
{
    let mut i: usize = 0;
    while i < v.len()
        invariant
            i <= v@.len(),
            forall|k: int| 0 <= k < i ==> trigram_index(v@[k]@) != trigram_index(t@),
        decreases v@.len() - i,
    {
        let u = v[i];
        if u[0] == t[0] && u[1] == t[1] && u[2] == t[2] {
            assert(key_values(v@)[i as int] == trigram_index(t@));
            return true;
        }
        i += 1;
    }
    proof {
        if key_values(v@).contains(trigram_index(t@)) {
            let k = choose|k: int| 0 <= k < key_values(v@).len() && key_values(v@)[k] == trigram_index(t@);
            assert(trigram_index(v@[k]@) == trigram_index(t@));
        }
    }
    false
}

impl<'a> Searcher<'a> {
    /// The lookup entries of `keys`, in order; keys without an entry are left out.
    fn probe_keys(&self, keys: &Vec<Trigram>) -> (r: Vec<Probe>)
        requires
            self.wf(),
        ensures
            probe_views(r@) == probe_all(
                self.lookup_bytes(),
                self.entries() as int,
                key_values(keys@),
            ),
    {
        let ghost data = self.lookup_bytes();
        let ghost n = self.entries() as int;
        let mut r: Vec<Probe> = Vec::new();
        let mut i: usize = 0;
        while i < keys.len()
            invariant
                self.wf(),
                data == self.lookup_bytes(),
                n == self.entries() as int,
                i <= keys@.len(),
                probe_views(r@) == probe_all(data, n, key_values(keys@.take(i as int))),
            decreases keys@.len() - i,
        {
            let t = keys[i];
            let ghost before = r@;
            proof {
                assert(key_values(keys@.take(i + 1)).drop_last() =~= key_values(keys@.take(i as int)));
                assert(key_values(keys@.take(i + 1)).last() == trigram_index(t@));
            }
            match self.probe_trigram(&t) {
                Some((off, count)) => {
                    r.push((t, off, count));
                    assert(probe_views(r@) =~= probe_views(before).push((trigram_index(t@), off, count)));
                },
                None => {},
            }
            i += 1;
        }
        assert(keys@.take(keys@.len() as int) =~= keys@);
        r
    }

    /// The probes a query starts from: the lookup entries of its keys, shortest
    /// posting list first.
    pub fn plan_query(&self, pattern: &[u8]) -> (r: Vec<Probe>)
        requires
            self.wf(),
        ensures
            probe_views(r@) == planned_probes(
                self.lookup_bytes(),
                self.entries() as int,
                pattern@,
                self.freq(),
            ),
    {
        let ghost data = self.lookup_bytes();
        let ghost n = self.entries() as int;
        if pattern.len() < 3 {
            return Vec::new();
        }
        let covering = build_covering_ranges(pattern, self.freq_table());
        let mut keys: Vec<Trigram> = Vec::new();
        if covering.len() >= 3 {
            let mut i: usize = 0;
            while i < covering.len()
                invariant
                    i <= covering@.len(),
                    covering@ == covering_ranges(pattern@, self.freq()),
                    ranges_within(covering@, pattern@.len() as int),
                    key_values(keys@) =~= covering_hashes(pattern@, self.freq()).take(i as int),
                decreases covering@.len() - i,
            {
                let (s, e) = covering[i];
                let h = hash_ngram(&pattern[s..e]);
                proof {
                    lemma_trigram_roundtrip(h);
                }
                let ghost before = keys@;
                keys.push(hash_to_trigram(h));
                assert(key_values(keys@) =~= key_values(before).push(h as int));
                i += 1;
            }
            assert(covering_hashes(pattern@, self.freq()).take(covering@.len() as int) =~= covering_hashes(pattern@, self.freq()));
        } else {
            let mut raw: Vec<Trigram> = Vec::new();
            let ghost wh = window_hashes(pattern@);
            let len = pattern.len();
            let m = len - 2;
            let mut i: usize = 0;
            assert(key_values(raw@) =~= dedup(wh.take(0)));
            while i < m
                invariant
                    len == pattern@.len(),
                    m == len - 2,
                    len >= 3,
                    wh == window_hashes(pattern@),
                    i <= m,
                    key_values(raw@) == dedup(wh.take(i as int)),
                decreases m - i,
            {
                let h = hash_ngram(&pattern[i..i + 3]);
                let t = hash_to_trigram(h);
                proof {
                    lemma_trigram_roundtrip(h);
                    assert(wh[i as int] == h as int);
                    assert(wh.take(i + 1).drop_last() =~= wh.take(i as int));
                    assert(wh.take(i + 1).last() == h as int);
                }
                if !contains_key(&raw, t) {
                    let ghost before = raw@;
                    raw.push(t);
                    assert(key_values(raw@) =~= key_values(before).push(h as int));
                }
                i += 1;
            }
            assert(wh.take(m as int) =~= wh);
            let probed = self.probe_keys(&raw);
            let sorted = sort_probes_by_count(&probed);
            let take = if sorted.len() < 8 { sorted.len() } else { 8 };
            let mut j: usize = 0;
            while j < take
                invariant
                    take <= sorted@.len(),
                    j <= take,
                    key_values(keys@) =~= probe_views(sorted@).take(j as int).map_values(|p: (int, u64, usize)| p.0),
                decreases take - j,
            {
                let ghost before = keys@;
                keys.push(sorted[j].0);
                assert(key_values(keys@) =~= key_values(before).push(trigram_index(sorted@[j as int].0@)));
                j += 1;
            }
        }
        let probes = self.probe_keys(&keys);
        sort_probes_by_count(&probes)
    }
}

} // verus!
