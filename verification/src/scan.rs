use vstd::prelude::*;

verus! {

/// The number of non-overlapping occurrences of `needle` in `haystack` found
/// scanning left to right from `pos`: after a match the scan resumes past it
/// (one position past it for an empty needle, which matches everywhere).
pub open spec fn occurrences_from(haystack: Seq<u8>, needle: Seq<u8>, pos: int) -> nat
    decreases haystack.len() + 1 - pos,
{
    if pos < 0 || pos + needle.len() > haystack.len() {
        0
    } else if haystack.subrange(pos, pos + needle.len()) == needle {
        1 + occurrences_from(haystack, needle, pos + if needle.len() == 0 { 1 } else { needle.len() as int })
    } else {
        occurrences_from(haystack, needle, pos + 1)
    }
}

/// The number of non-overlapping occurrences of `needle` in `haystack`.
pub open spec fn occurrences(haystack: Seq<u8>, needle: Seq<u8>) -> nat {
    occurrences_from(haystack, needle, 0)
}

/// Scanning from `pos` finds at most one occurrence per position left (so a
/// haystack of `n` bytes holds at most `n + 1`, the count for an empty needle).
pub proof fn lemma_occurrences_bound(haystack: Seq<u8>, needle: Seq<u8>, pos: int)
    requires
        0 <= pos,
    ensures
        occurrences_from(haystack, needle, pos) <= if pos <= haystack.len() { haystack.len() + 1 - pos } else { 0 },
    decreases haystack.len() + 1 - pos,
{
    if pos + needle.len() <= haystack.len() {
        if haystack.subrange(pos, pos + needle.len()) == needle {
            lemma_occurrences_bound(haystack, needle, pos + if needle.len() == 0 { 1 } else { needle.len() as int });
        } else {
            lemma_occurrences_bound(haystack, needle, pos + 1);
        }
    }
}

/// Counts the non-overlapping occurrences of `needle` in `haystack` with
/// `memchr::memmem::find_iter`, which reports each match, then resumes the search
/// just past it (one byte on for an empty needle).
#[verifier::external_body]
fn memmem_count(haystack: &[u8], needle: &[u8]) -> (n: u64)
    ensures
        n == occurrences(haystack@, needle@),
{
    memchr::memmem::find_iter(haystack, needle).count() as u64
}

/// Where candidate files are read from when a query scans them.
#[derive(Debug, Clone, Copy, PartialEq, Eq, Structural)]
pub enum ScanMode {
    /// The content file, mapped into memory.
    ContentMmap,
    /// The content file, read file by file.
    ContentPread,
    /// The files themselves, under the repository root.
    Filesystem,
}

/// The scan mode for a content file of `content_size` bytes when `available`
/// bytes of memory are free: map it when twice its size is free, read it piece
/// by piece when its size is free, else (or with no content file) go to the files.
pub open spec fn scan_mode_for(content_size: u64, available: u64) -> ScanMode {
    if content_size == 0 {
        ScanMode::Filesystem
    } else if available > 2 * content_size {
        ScanMode::ContentMmap
    } else if available > content_size {
        ScanMode::ContentPread
    } else {
        ScanMode::Filesystem
    }
}

/// How fast a scan mode reads candidates: the files themselves 0, the content
/// file piece by piece 1, the mapped content file 2.
pub open spec fn scan_mode_rank(m: ScanMode) -> int {
    match m {
        ScanMode::Filesystem => 0,
        ScanMode::ContentPread => 1,
        ScanMode::ContentMmap => 2,
    }
}

/// More free memory never picks a slower scan mode; without a content file the
/// files themselves are read, whatever the memory.
pub proof fn lemma_scan_mode_monotone(content_size: u64, m1: u64, m2: u64)
    requires
        m1 <= m2,
    ensures
        scan_mode_rank(scan_mode_for(content_size, m1)) <= scan_mode_rank(scan_mode_for(content_size, m2)),
        content_size == 0 ==> scan_mode_for(content_size, m1) == ScanMode::Filesystem,
{
}

/// Chooses how to scan candidate files.
pub fn choose_scan_mode(content_size: u64, available: u64) -> (m: ScanMode)
    requires
        2 * content_size <= u64::MAX,
    ensures
        m == scan_mode_for(content_size, available),
{
    if content_size == 0 {
        return ScanMode::Filesystem;
    }
    if available > content_size * 2 {
        ScanMode::ContentMmap
    } else if available > content_size {
        ScanMode::ContentPread
    } else {
        ScanMode::Filesystem
    }
}

/// The byte range of a file in a mapped content file of `total` bytes, from its
/// header entry `(offset, length)`; `None` when the range runs past the end.
pub fn content_range(entry: (u64, u32), total: usize) -> (r: Option<(usize, usize)>)
    ensures
        match r {
            Some((start, end)) => {
                &&& start == entry.0
                &&& end == entry.0 + entry.1
                &&& end <= total
            },
            None => entry.0 + entry.1 > total,
        },
{
    let (off, len) = entry;
    if off > total as u64 {
        return None;
    }
    let start = off as usize;
    if len as usize > total - start {
        return None;
    }
    Some((start, start + len as usize))
}

/// What scanning a query's candidate files found: the total number of matches,
/// the number of files with a match, and those files, in scan order.
pub struct ScanTally {
    pub matches: u64,
    pub files_matched: u64,
    pub matched: Vec<u32>,
}

impl ScanTally {
    /// Nothing found yet.
    pub fn new() -> (t: Self)
        ensures
            t.matches == 0,
            t.files_matched == 0,
            t.matched@ == Seq::<u32>::empty(),
    {
        ScanTally { matches: 0, files_matched: 0, matched: Vec::new() }
    }

    /// Scans the contents `data` of file `fid` for `pattern` and records what it finds.
    pub fn record(&mut self, fid: u32, data: &[u8], pattern: &[u8]) -> (count: u64)
        requires
            old(self).matches + occurrences(data@, pattern@) <= u64::MAX,
            occurrences(data@, pattern@) > 0 ==> old(self).files_matched < u64::MAX,
        ensures
            count == occurrences(data@, pattern@),
            count > 0 ==> {
                &&& final(self).matches == old(self).matches + count
                &&& final(self).files_matched == old(self).files_matched + 1
                &&& final(self).matched@ == old(self).matched@.push(fid)
            },
            count == 0 ==> *final(self) == *old(self),
    {
        let count = memmem_count(data, pattern);
        if count > 0 {
            self.matches = self.matches + count;
            self.files_matched = self.files_matched + 1;
            self.matched.push(fid);
        }
        count
    }
}

/// `std` sorts a slice of pairs in ascending (lexicographic) order, keeping its
/// elements (`slice::sort_unstable`).
#[verifier::external_body]
fn sort_unstable_pairs(v: &mut Vec<(u64, u32)>)
    ensures
        final(v)@.to_multiset() == old(v)@.to_multiset(),
        forall|a: int, b: int| 0 <= a <= b < final(v)@.len() ==> final(v)@[a].0 <= final(v)@[b].0,
{
    v.sort_unstable();
}

/// The file ids of a list of (offset, file id) pairs.
pub open spec fn pair_ids(s: Seq<(u64, u32)>) -> Seq<u32> {
    s.map_values(|p: (u64, u32)| p.1)
}

proof fn lemma_pair_ids_permutation(s1: Seq<(u64, u32)>, s2: Seq<(u64, u32)>)
    requires
        s1.to_multiset() == s2.to_multiset(),
    ensures
        pair_ids(s1).to_multiset() == pair_ids(s2).to_multiset(),
    decreases s1.len(),
{
    broadcast use vstd::seq_lib::to_multiset_build, vstd::seq_lib::to_multiset_remove,
        vstd::seq_lib::to_multiset_insert, vstd::seq_lib::to_multiset_len,
        vstd::seq_lib::to_multiset_contains;

    if s1.len() == 0 {
        assert(s2.to_multiset().len() == 0);
        assert(s2.len() == 0);
        assert(pair_ids(s1) =~= pair_ids(s2));
    } else {
        let x = s1.last();
        let r1 = s1.drop_last();
        assert(s1 =~= r1.push(x));
        assert(s1.to_multiset().count(x) > 0) by {
            assert(s1.contains(x)) by {
                assert(s1[s1.len() - 1] == x);
            }
        }
        assert(s2.contains(x));
        let i = choose|i: int| 0 <= i < s2.len() && s2[i] == x;
        let r2 = s2.remove(i);
        assert(r1.to_multiset() =~= s1.to_multiset().remove(x));
        assert(r2.to_multiset() == s2.to_multiset().remove(x));
        lemma_pair_ids_permutation(r1, r2);
        assert(pair_ids(s1) =~= pair_ids(r1).push(x.1));
        assert(s2 =~= r2.insert(i, x));
        assert(pair_ids(s2) =~= pair_ids(r2).insert(i, x.1));
    }
}

/// Orders candidate files by where their contents start in the content file.
pub fn order_by_content_offset(candidates: &[u32], offsets: &[(u64, u32)]) -> (r: Vec<u32>)
    requires
        forall|k: int| 0 <= k < candidates@.len() ==> (#[trigger] candidates@[k] as int) < offsets@.len(),
    ensures
        r@.to_multiset() == candidates@.to_multiset(),
        r@.len() == candidates@.len(),
        forall|x: u32| #[trigger] r@.contains(x) <==> candidates@.contains(x),
        forall|a: int, b: int| 0 <= a <= b < r@.len() ==> offsets@[r@[a] as int].0 <= offsets@[r@[b] as int].0,
{
    let mut keyed: Vec<(u64, u32)> = Vec::new();
    let mut i: usize = 0;
    while i < candidates.len()
        invariant
            i <= candidates@.len(),
            forall|k: int| 0 <= k < candidates@.len() ==> (#[trigger] candidates@[k] as int) < offsets@.len(),
            keyed@.len() == i,
            forall|k: int| 0 <= k < i ==> #[trigger] keyed@[k] == (offsets@[candidates@[k] as int].0, candidates@[k]),
        decreases candidates@.len() - i,
    {
        let fid = candidates[i];
        keyed.push((offsets[fid as usize].0, fid));
        i += 1;
    }
    let ghost before = keyed@;
    sort_unstable_pairs(&mut keyed);
    proof {
        before.to_multiset_ensures();
        keyed@.to_multiset_ensures();
    }
    let mut r: Vec<u32> = Vec::new();
    let mut j: usize = 0;
    while j < keyed.len()
        invariant
            j <= keyed@.len(),
            r@.len() == j,
            forall|k: int| 0 <= k < j ==> #[trigger] r@[k] == keyed@[k].1,
        decreases keyed@.len() - j,
    {
        r.push(keyed[j].1);
        j += 1;
    }
    proof {
        assert(pair_ids(before) =~= candidates@);
        assert(pair_ids(keyed@) =~= r@);
        lemma_pair_ids_permutation(keyed@, before);
        assert forall|y: (u64, u32)| #[trigger] keyed@.contains(y) <==> before.contains(y) by {
            assert(keyed@.to_multiset().count(y) == before.to_multiset().count(y));
        }
        assert forall|k: int| 0 <= k < keyed@.len() implies #[trigger] keyed@[k] == (offsets@[keyed@[k].1 as int].0, keyed@[k].1) by {
            assert(keyed@.contains(keyed@[k]));
            let m = choose|m: int| 0 <= m < before.len() && before[m] == keyed@[k];
        }
        assert forall|x: u32| #[trigger] r@.contains(x) <==> candidates@.contains(x) by {
            if r@.contains(x) {
                let k = choose|k: int| 0 <= k < r@.len() && r@[k] == x;
                assert(keyed@.contains(keyed@[k]));
                let m = choose|m: int| 0 <= m < before.len() && before[m] == keyed@[k];
                assert(candidates@[m] == x);
            }
            if candidates@.contains(x) {
                let m = choose|m: int| 0 <= m < candidates@.len() && candidates@[m] == x;
                assert(before.contains(before[m]));
                assert(keyed@.contains(before[m]));
                let k = choose|k: int| 0 <= k < keyed@.len() && keyed@[k] == before[m];
                assert(before[m].1 == x);
                assert(keyed@[k].1 == x);
                assert(r@[k] == x);
            }
        }
        assert forall|a: int, b: int| 0 <= a <= b < r@.len() implies offsets@[r@[a] as int].0 <= offsets@[r@[b] as int].0 by {
            assert(keyed@[a] == (offsets@[keyed@[a].1 as int].0, keyed@[a].1));
            assert(keyed@[b] == (offsets@[keyed@[b].1 as int].0, keyed@[b].1));
        }
    }
    r
}

} // verus!
