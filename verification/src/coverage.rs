use vstd::prelude::*;
use crate::freq::FrequencyTable;
use crate::hash::ngram_hash;
use crate::hash::{Trigram, trigram_index};
use crate::index::{dedup, file_has_key, file_keys, index_of, key_held, key_values, lists_files_with_key, long_range_hashes, posting_at, window_hashes};
use crate::lookup::{lookup_count, lookup_key, lookup_offset, lookup_postings};
use crate::postings::decode_postings;
use crate::search::{lemma_probe_result_sorted, lookup_find, probe_result};
use crate::select::{all_ascending, in_all, CandidateSelection};
use crate::intersect::strictly_increasing;
use crate::ngram::{
    all_ranges, boundaries, consecutive_ranges, covering_ranges, indices_where, interior_boundaries,
    is_boundary, is_interior_boundary, lemma_indices_where, pair_weights,
};
use crate::query::{covering_hashes, insert_by_count, planned_probes, probe_all, query_keys, sort_by_count};

verus! {

/// `data` holds `pattern` at offset `j`.
pub open spec fn occurs_at(data: Seq<u8>, pattern: Seq<u8>, j: int) -> bool {
    0 <= j && j + pattern.len() <= data.len() && data.subrange(j, j + pattern.len()) == pattern
}

proof fn lemma_dedup_contains(s: Seq<int>, x: int)
    ensures
        dedup(s).contains(x) <==> s.contains(x),
    decreases s.len(),
{
    if s.len() > 0 {
        let init = s.drop_last();
        lemma_dedup_contains(init, x);
        let d = dedup(init);
        if s.contains(x) && !init.contains(x) {
            assert(s.last() == x) by {
                let k = choose|k: int| 0 <= k < s.len() && s[k] == x;
                if k < s.len() - 1 {
                    assert(init[k] == x);
                }
            }
        }
        if init.contains(x) {
            let k = choose|k: int| 0 <= k < init.len() && init[k] == x;
            assert(s[k] == x);
        }
        if !d.contains(s.last()) {
            let dd = d.push(s.last());
            if dd.contains(x) && !d.contains(x) {
                let k = choose|k: int| 0 <= k < dd.len() && dd[k] == x;
                assert(k == d.len());
            }
            if d.contains(x) {
                let k = choose|k: int| 0 <= k < d.len() && d[k] == x;
                assert(dd[k] == x);
            }
            if x == s.last() {
                assert(dd[d.len() as int] == x);
            }
        }
        if s.last() == x {
            assert(s[s.len() - 1] == x);
        }
    }
}

proof fn lemma_long_range_hashes_contains(data: Seq<u8>, r: Seq<(usize, usize)>, a: int)
    requires
        0 <= a < r.len(),
        r[a].1 - r[a].0 > 3,
    ensures
        long_range_hashes(data, r).contains(ngram_hash(data.subrange(r[a].0 as int, r[a].1 as int)) as int),
    decreases r.len(),
{
    let init = r.drop_last();
    let prev = long_range_hashes(data, init);
    if a == r.len() - 1 {
        let h = ngram_hash(data.subrange(r[a].0 as int, r[a].1 as int)) as int;
        assert(long_range_hashes(data, r) == prev.push(h));
        assert(prev.push(h)[prev.len() as int] == h);
    } else {
        assert(init[a] == r[a]);
        lemma_long_range_hashes_contains(data, init, a);
        let h = ngram_hash(data.subrange(r[a].0 as int, r[a].1 as int)) as int;
        let k = choose|k: int| 0 <= k < prev.len() && prev[k] == h;
        let (s, e) = r.last();
        if e - s > 3 {
            assert(long_range_hashes(data, r)[k] == h);
        }
    }
}

/// A hash that is among the window hashes or the long range hashes of `data` is a key of it.
proof fn lemma_file_key(data: Seq<u8>, freq: FrequencyTable, h: int)
    requires
        window_hashes(data).contains(h) || long_range_hashes(data, all_ranges(data, freq)).contains(h),
    ensures
        file_keys(data, freq).contains(h),
{
    let w = window_hashes(data);
    let l = long_range_hashes(data, all_ranges(data, freq));
    if w.contains(h) {
        let k = choose|k: int| 0 <= k < w.len() && w[k] == h;
        assert((w + l)[k] == h);
    } else {
        let k = choose|k: int| 0 <= k < l.len() && l[k] == h;
        assert((w + l)[w.len() + k] == h);
    }
    lemma_dedup_contains(w + l, h);
}

/// Each three-byte window of a pattern that a file holds is a key of the file.
pub proof fn lemma_window_keys_in_file(pattern: Seq<u8>, data: Seq<u8>, freq: FrequencyTable, j: int, i: int)
    requires
        occurs_at(data, pattern, j),
        0 <= i < window_hashes(pattern).len(),
    ensures
        file_keys(data, freq).contains(window_hashes(pattern)[i]),
{
    assert(data.subrange(j + i, j + i + 3) =~= pattern.subrange(i, i + 3));
    let w = window_hashes(data);
    assert(w[j + i] == window_hashes(pattern)[i]);
    lemma_file_key(data, freq, window_hashes(pattern)[i]);
}

/// Each covering n-gram range of a pattern, moved to where the pattern occurs in
/// a text, is a sparse n-gram range of the text: the interior boundaries of the
/// pattern are boundaries of the text, and two consecutive ones stay consecutive there.
pub proof fn lemma_covering_range_in_text(pattern: Seq<u8>, data: Seq<u8>, freq: FrequencyTable, j: int, i: int)
    requires
        occurs_at(data, pattern, j),
        data.len() <= usize::MAX,
        0 <= i < covering_ranges(pattern, freq).len(),
    ensures
        all_ranges(data, freq).contains((
            (j + covering_ranges(pattern, freq)[i].0) as usize,
            (j + covering_ranges(pattern, freq)[i].1) as usize,
        )),
        covering_ranges(pattern, freq)[i].0 + 3 <= covering_ranges(pattern, freq)[i].1 <= pattern.len(),
{
    let wp = pair_weights(pattern, freq);
    let wd = pair_weights(data, freq);
    let pp = |k: int| is_interior_boundary(wp, k);
    let pd = |k: int| is_boundary(wd, k);
    let bp = interior_boundaries(wp);
    let bd = boundaries(wd);
    assert(pattern.len() >= 3);
    assert(wp.len() == pattern.len() - 1);
    assert(wd.len() == data.len() - 1);
    assert forall|k: int| 0 <= k < wp.len() implies #[trigger] wd[j + k] == wp[k] by {
        assert(data[j + k] == pattern[k]);
        assert(data[j + k + 1] == pattern[k + 1]);
    }
    lemma_indices_where(wp.len() as int, pp);
    lemma_indices_where(wd.len() as int, pd);
    assert(bp.len() >= 2);
    let x = bp[i];
    let y = bp[i + 1];
    assert(x < y);
    assert(pp(x as int) && pp(y as int));
    // both boundaries of the pattern are boundaries of the file
    assert(pd(j + x)) by {
        assert(wd[j + x] == wp[x as int]);
        assert(wd[j + x - 1] == wp[x - 1]);
        assert(wd[j + x + 1] == wp[x + 1]);
    }
    assert(pd(j + y)) by {
        assert(wd[j + y] == wp[y as int]);
        assert(wd[j + y - 1] == wp[y - 1]);
        assert(wd[j + y + 1] == wp[y + 1]);
    }
    assert(bd.contains((j + x) as usize));
    assert(bd.contains((j + y) as usize));
    let a = choose|a: int| 0 <= a < bd.len() && bd[a] == (j + x) as usize;
    let c = choose|c: int| 0 <= c < bd.len() && bd[c] == (j + y) as usize;
    // and they are consecutive there
    assert(c == a + 1) by {
        if c <= a {
            if c < a {
                assert(bd[c] < bd[a]);
            }
        } else if c > a + 1 {
            let z = bd[a + 1];
            assert(bd[a] < z && z < bd[c]);
            assert(pd(z as int));
            let cz = z - j;
            assert(wd[z as int] == wp[cz]);
            assert(wd[z - 1] == wp[cz - 1]);
            assert(wd[z + 1] == wp[cz + 1]);
            assert(pp(cz));
            assert(bp.contains(cz as usize));
            let t = choose|t: int| 0 <= t < bp.len() && bp[t] == cz as usize;
            if t <= i {
                if t < i {
                    assert(bp[t] < bp[i]);
                }
            } else if t >= i + 1 {
                if t > i + 1 {
                    assert(bp[i + 1] < bp[t]);
                }
            }
        }
    }
    let dr = all_ranges(data, freq);
    assert(dr == consecutive_ranges(bd));
    assert(dr[a] == ((j + x) as usize, ((j + y) + 2) as usize));
    assert(covering_ranges(pattern, freq)[i] == (x, (y + 2) as usize));
    assert(dr.contains(dr[a]));
}

/// Each covering n-gram of a pattern that a file holds is a key of the file.
pub proof fn lemma_covering_keys_in_file(pattern: Seq<u8>, data: Seq<u8>, freq: FrequencyTable, j: int, i: int)
    requires
        occurs_at(data, pattern, j),
        data.len() <= usize::MAX,
        0 <= i < covering_hashes(pattern, freq).len(),
    ensures
        file_keys(data, freq).contains(covering_hashes(pattern, freq)[i]),
{
    let cr = covering_ranges(pattern, freq);
    lemma_covering_range_in_text(pattern, data, freq, j, i);
    let (x, y2) = cr[i];
    let dr = all_ranges(data, freq);
    let a = choose|a: int| 0 <= a < dr.len() && dr[a] == ((j + x) as usize, (j + y2) as usize);
    let h = covering_hashes(pattern, freq)[i];
    assert(h == ngram_hash(pattern.subrange(x as int, y2 as int)) as int);
    assert(data.subrange(j + x, j + y2) =~= pattern.subrange(x as int, y2 as int));
    if y2 - x > 3 {
        lemma_long_range_hashes_contains(data, dr, a);
    } else {
        assert(window_hashes(data)[j + x] == h);
    }
    lemma_file_key(data, freq, h);
}

proof fn lemma_insert_by_count_contains(x: (int, u64, usize), s: Seq<(int, u64, usize)>, y: (int, u64, usize))
    ensures
        insert_by_count(x, s).contains(y) <==> (y == x || s.contains(y)),
    decreases s.len(),
{
    if s.len() == 0 {
        assert(seq![x][0] == x);
    } else if s.last().2 <= x.2 {
        assert(s.push(x)[s.len() as int] == x);
        if s.contains(y) {
            let k = choose|k: int| 0 <= k < s.len() && s[k] == y;
            assert(s.push(x)[k] == y);
        }
        if s.push(x).contains(y) && y != x {
            let k = choose|k: int| 0 <= k < s.len() + 1 && s.push(x)[k] == y;
            assert(s[k] == y);
        }
    } else {
        let init = s.drop_last();
        lemma_insert_by_count_contains(x, init, y);
        let r = insert_by_count(x, init);
        let rr = r.push(s.last());
        if rr.contains(y) {
            let k = choose|k: int| 0 <= k < rr.len() && rr[k] == y;
            if k < r.len() {
                assert(r[k] == y);
                if init.contains(y) {
                    let m = choose|m: int| 0 <= m < init.len() && init[m] == y;
                    assert(s[m] == y);
                }
            } else {
                assert(s[s.len() - 1] == y);
            }
        }
        if y == x || s.contains(y) {
            if y == s.last() {
                assert(rr[r.len() as int] == y);
            } else if y == x || init.contains(y) {
                let k = choose|k: int| 0 <= k < r.len() && r[k] == y;
                assert(rr[k] == y);
            } else {
                let m = choose|m: int| 0 <= m < s.len() && s[m] == y;
                if m < s.len() - 1 {
                    assert(init[m] == y);
                }
            }
        }
    }
}

/// Ordering probes by posting count keeps every probe and adds none.
pub proof fn lemma_sort_by_count_contains(s: Seq<(int, u64, usize)>, y: (int, u64, usize))
    ensures
        sort_by_count(s).contains(y) <==> s.contains(y),
    decreases s.len(),
{
    if s.len() > 0 {
        let init = s.drop_last();
        lemma_sort_by_count_contains(init, y);
        lemma_insert_by_count_contains(s.last(), sort_by_count(init), y);
        if s.contains(y) && y != s.last() {
            let m = choose|m: int| 0 <= m < s.len() && s[m] == y;
            assert(init[m] == y);
        }
        if init.contains(y) {
            let m = choose|m: int| 0 <= m < init.len() && init[m] == y;
            assert(s[m] == y);
        }
        assert(s[s.len() - 1] == s.last());
    }
}

proof fn lemma_probe_all_found(data: Seq<u8>, n: int, keys: Seq<int>, p: (int, u64, usize))
    requires
        probe_all(data, n, keys).contains(p),
    ensures
        keys.contains(p.0),
        probe_result(data, n, p.0) == Some((p.1, p.2)),
    decreases keys.len(),
{
    let init = keys.drop_last();
    let prev = probe_all(data, n, init);
    let k = choose|k: int| 0 <= k < probe_all(data, n, keys).len() && probe_all(data, n, keys)[k] == p;
    if k < prev.len() {
        assert(prev[k] == p);
        lemma_probe_all_found(data, n, init, p);
        let m = choose|m: int| 0 <= m < init.len() && init[m] == p.0;
        assert(keys[m] == p.0);
    } else {
        assert(keys[keys.len() - 1] == p.0);
    }
}

proof fn lemma_query_key_in_file(
    lookup: Seq<u8>,
    n: int,
    pattern: Seq<u8>,
    freq: FrequencyTable,
    data: Seq<u8>,
    j: int,
    h: int,
)
    requires
        occurs_at(data, pattern, j),
        data.len() <= usize::MAX,
        query_keys(lookup, n, pattern, freq).contains(h),
    ensures
        file_keys(data, freq).contains(h),
{
    let q = query_keys(lookup, n, pattern, freq);
    let i = choose|i: int| 0 <= i < q.len() && q[i] == h;
    if covering_ranges(pattern, freq).len() >= 3 {
        lemma_covering_keys_in_file(pattern, data, freq, j, i);
    } else {
        let wh = window_hashes(pattern);
        let probed = sort_by_count(probe_all(lookup, n, dedup(wh)));
        let p = probed[i];
        assert(p.0 == h);
        assert(probed.contains(p));
        lemma_sort_by_count_contains(probe_all(lookup, n, dedup(wh)), p);
        lemma_probe_all_found(lookup, n, dedup(wh), p);
        lemma_dedup_contains(wh, h);
        let w = choose|w: int| 0 <= w < wh.len() && wh[w] == h;
        lemma_window_keys_in_file(pattern, data, freq, j, w);
    }
}

/// Every file that holds the query's pattern is in the posting list of every
/// probe the query starts from (the index has no false negatives): given an
/// index built from the files' keys, the keys of a pattern are keys of each
/// file holding it, and each key's list names every file holding the key.
pub proof fn lemma_matching_file_in_every_probe_list(
    files: Seq<Vec<Trigram>>,
    contents: Seq<Seq<u8>>,
    freq: FrequencyTable,
    lookup: Seq<u8>,
    postings: Seq<u8>,
    pattern: Seq<u8>,
    f: int,
    j: int,
    p: (int, u64, usize),
)
    requires
        files.len() == contents.len(),
        forall|g: int| 0 <= g < files.len() ==> key_values(#[trigger] files[g]@) == file_keys(contents[g], freq),
        index_of(files, lookup, postings),
        0 <= f < files.len(),
        f <= u32::MAX,
        contents[f].len() <= usize::MAX,
        occurs_at(contents[f], pattern, j),
        planned_probes(lookup, lookup_count(lookup) as int, pattern, freq).contains(p),
    ensures
        decode_postings(postings.skip(p.1 as int), p.2 as nat).contains(f as u32),
        strictly_increasing(decode_postings(postings.skip(p.1 as int), p.2 as nat)),
{
    let m = lookup_count(lookup) as int;
    assert(pattern.len() >= 3);
    let qk = query_keys(lookup, m, pattern, freq);
    lemma_sort_by_count_contains(probe_all(lookup, m, qk), p);
    lemma_probe_all_found(lookup, m, qk, p);
    lemma_probe_result_sorted(lookup, m, p.0);
    lemma_query_key_in_file(lookup, m, pattern, freq, contents[f], j, p.0);
    let kv = key_values(files[f]@);
    assert(kv.contains(p.0));
    let jj = choose|jj: int| 0 <= jj < kv.len() && kv[jj] == p.0;
    assert(trigram_index(files[f]@[jj]@) == p.0);
    assert(file_has_key(files, f, p.0));
    let i = choose|i: int| 0 <= i < m && lookup_key(lookup, i) == p.0;
    assert(p.1 == lookup_offset(lookup, i) && p.2 == lookup_postings(lookup, i) as usize);
    assert(lists_files_with_key(posting_at(lookup, postings, i), files, p.0));
    assert(file_has_key(files, (f as u32) as int, p.0));
}

/// A query finds every file that holds its pattern: when each posting list handed
/// to the selection is the list of one of the query's probes in an index built
/// from the files' keys, every file holding the pattern is still a candidate.
pub proof fn lemma_search_finds_matching_files(
    sel: CandidateSelection,
    files: Seq<Vec<Trigram>>,
    contents: Seq<Seq<u8>>,
    freq: FrequencyTable,
    lookup: Seq<u8>,
    postings: Seq<u8>,
    pattern: Seq<u8>,
    f: int,
    j: int,
)
    requires
        sel.wf(),
        sel.received_view().len() > 0,
        forall|k: int| 0 <= k < sel.received_view().len() ==> exists|p: (int, u64, usize)|
            planned_probes(lookup, lookup_count(lookup) as int, pattern, freq).contains(p)
                && #[trigger] sel.received_view()[k] == decode_postings(postings.skip(p.1 as int), p.2 as nat),
        files.len() == contents.len(),
        forall|g: int| 0 <= g < files.len() ==> key_values(#[trigger] files[g]@) == file_keys(contents[g], freq),
        index_of(files, lookup, postings),
        0 <= f < files.len(),
        f <= u32::MAX,
        contents[f].len() <= usize::MAX,
        occurs_at(contents[f], pattern, j),
    ensures
        sel.candidates_view().contains(f as u32),
{
    let r = sel.received_view();
    assert forall|k: int| 0 <= k < r.len() implies #[trigger] r[k].contains(f as u32) by {
        let p = choose|p: (int, u64, usize)|
            planned_probes(lookup, lookup_count(lookup) as int, pattern, freq).contains(p)
                && r[k] == decode_postings(postings.skip(p.1 as int), p.2 as nat);
        lemma_matching_file_in_every_probe_list(files, contents, freq, lookup, postings, pattern, f, j, p);
    }
    assert forall|k: int| 0 <= k < r.len() implies strictly_increasing(#[trigger] r[k]) by {
        let p = choose|p: (int, u64, usize)|
            planned_probes(lookup, lookup_count(lookup) as int, pattern, freq).contains(p)
                && r[k] == decode_postings(postings.skip(p.1 as int), p.2 as nat);
        lemma_matching_file_in_every_probe_list(files, contents, freq, lookup, postings, pattern, f, j, p);
    }
    assert(all_ascending(r));
    assert(in_all(r, f as u32));
    sel.lemma_candidates(f as u32);
}

/// Reading a built index gives back what was written: probing its lookup table
/// for a key finds an entry exactly when some file holds the key, and that
/// entry's posting list names, ascending and each once, the files that hold it.
pub proof fn lemma_index_read_back(files: Seq<Vec<Trigram>>, lookup: Seq<u8>, postings: Seq<u8>, k: int)
    requires
        index_of(files, lookup, postings),
    ensures
        match probe_result(lookup, lookup_count(lookup) as int, k) {
            Some((o, c)) => key_held(files, k) && lists_files_with_key(
                decode_postings(postings.skip(o as int), c as nat),
                files,
                k,
            ),
            None => !key_held(files, k),
        },
{
    let m = lookup_count(lookup) as int;
    lemma_probe_result_sorted(lookup, m, k);
    if key_held(files, k) {
        let f = choose|f: int| file_has_key(files, f, k);
        assert(exists|i: int| 0 <= i < m && lookup_key(lookup, i) == k);
    }
    if exists|i: int| 0 <= i < m && lookup_key(lookup, i) == k {
        let i = choose|i: int| 0 <= i < m && lookup_key(lookup, i) == k;
        assert(key_held(files, lookup_key(lookup, i)));
        assert(lists_files_with_key(posting_at(lookup, postings, i), files, lookup_key(lookup, i)));
    }
}

/// No key occurs twice among the probes `s`.
pub open spec fn distinct_keys(s: Seq<(int, u64, usize)>) -> bool {
    forall|a: int, b: int| 0 <= a < b < s.len() ==> #[trigger] s[a].0 != #[trigger] s[b].0
}

/// No value occurs twice in `s`.
pub open spec fn distinct_values(s: Seq<int>) -> bool {
    forall|a: int, b: int| 0 <= a < b < s.len() ==> #[trigger] s[a] != #[trigger] s[b]
}

proof fn lemma_dedup_distinct(s: Seq<int>)
    ensures
        distinct_values(dedup(s)),
    decreases s.len(),
{
    if s.len() > 0 {
        lemma_dedup_distinct(s.drop_last());
        let d = dedup(s.drop_last());
        if !d.contains(s.last()) {
            let dd = d.push(s.last());
            assert forall|a: int, b: int| 0 <= a < b < dd.len() implies #[trigger] dd[a] != #[trigger] dd[b] by {
                if b == d.len() {
                    assert(dd[a] == d[a]);
                    if d[a] == s.last() {
                        assert(d.contains(s.last()));
                    }
                } else {
                    assert(dd[a] == d[a] && dd[b] == d[b]);
                }
            }
        }
    }
}

proof fn lemma_probe_all_distinct(data: Seq<u8>, n: int, keys: Seq<int>)
    requires
        distinct_values(keys),
    ensures
        distinct_keys(probe_all(data, n, keys)),
        probe_all(data, n, keys).len() <= keys.len(),
    decreases keys.len(),
{
    if keys.len() > 0 {
        let init = keys.drop_last();
        assert(distinct_values(init)) by {
            assert forall|a: int, b: int| 0 <= a < b < init.len() implies #[trigger] init[a] != #[trigger] init[b] by {
                assert(init[a] == keys[a] && init[b] == keys[b]);
            }
        }
        lemma_probe_all_distinct(data, n, init);
        let prev = probe_all(data, n, init);
        let k = keys.last();
        if probe_result(data, n, k) is Some {
            let cur = probe_all(data, n, keys);
            assert forall|a: int, b: int| 0 <= a < b < cur.len() implies #[trigger] cur[a].0 != #[trigger] cur[b].0 by {
                if b == prev.len() {
                    assert(cur[a] == prev[a]);
                    assert(prev.contains(prev[a]));
                    lemma_probe_all_found(data, n, init, prev[a]);
                    let m = choose|m: int| 0 <= m < init.len() && init[m] == prev[a].0;
                    assert(keys[m] == init[m]);
                    assert(keys[m] != keys[keys.len() - 1]);
                } else {
                    assert(cur[a] == prev[a] && cur[b] == prev[b]);
                }
            }
        }
    }
}

proof fn lemma_has_key_after_insert(x: (int, u64, usize), s: Seq<(int, u64, usize)>, y: (int, u64, usize))
    requires
        insert_by_count(x, s).contains(y),
    ensures
        y == x || s.contains(y),
{
    lemma_insert_by_count_contains(x, s, y);
}

proof fn lemma_insert_distinct(x: (int, u64, usize), s: Seq<(int, u64, usize)>)
    requires
        distinct_keys(s),
        forall|k: int| 0 <= k < s.len() ==> #[trigger] s[k].0 != x.0,
    ensures
        distinct_keys(insert_by_count(x, s)),
        insert_by_count(x, s).len() == s.len() + 1,
    decreases s.len(),
{
    if s.len() > 0 && s.last().2 > x.2 {
        let init = s.drop_last();
        assert(distinct_keys(init)) by {
            assert forall|a: int, b: int| 0 <= a < b < init.len() implies #[trigger] init[a].0 != #[trigger] init[b].0 by {
                assert(init[a] == s[a] && init[b] == s[b]);
            }
        }
        assert forall|k: int| 0 <= k < init.len() implies #[trigger] init[k].0 != x.0 by {
            assert(init[k] == s[k]);
        }
        lemma_insert_distinct(x, init);
        let r = insert_by_count(x, init);
        let rr = r.push(s.last());
        assert forall|a: int, b: int| 0 <= a < b < rr.len() implies #[trigger] rr[a].0 != #[trigger] rr[b].0 by {
            if b == r.len() {
                assert(rr[a] == r[a]);
                assert(r.contains(r[a]));
                lemma_has_key_after_insert(x, init, r[a]);
                if r[a] != x {
                    let m = choose|m: int| 0 <= m < init.len() && init[m] == r[a];
                    assert(s[m] == init[m]);
                    assert(s[m].0 != s[s.len() - 1].0);
                } else {
                    assert(s[s.len() - 1].0 != x.0);
                }
            } else {
                assert(rr[a] == r[a] && rr[b] == r[b]);
            }
        }
    } else if s.len() > 0 {
        let rr = s.push(x);
        assert forall|a: int, b: int| 0 <= a < b < rr.len() implies #[trigger] rr[a].0 != #[trigger] rr[b].0 by {
            if b == s.len() {
                assert(rr[a] == s[a]);
            } else {
                assert(rr[a] == s[a] && rr[b] == s[b]);
            }
        }
    }
}

proof fn lemma_sort_distinct(s: Seq<(int, u64, usize)>)
    requires
        distinct_keys(s),
    ensures
        distinct_keys(sort_by_count(s)),
        sort_by_count(s).len() == s.len(),
    decreases s.len(),
{
    if s.len() > 0 {
        let init = s.drop_last();
        assert(distinct_keys(init)) by {
            assert forall|a: int, b: int| 0 <= a < b < init.len() implies #[trigger] init[a].0 != #[trigger] init[b].0 by {
                assert(init[a] == s[a] && init[b] == s[b]);
            }
        }
        lemma_sort_distinct(init);
        let sorted = sort_by_count(init);
        assert forall|k: int| 0 <= k < sorted.len() implies #[trigger] sorted[k].0 != s.last().0 by {
            assert(sorted.contains(sorted[k]));
            lemma_sort_by_count_contains(init, sorted[k]);
            let m = choose|m: int| 0 <= m < init.len() && init[m] == sorted[k];
            assert(s[m] == init[m]);
            assert(s[m].0 != s[s.len() - 1].0);
        }
        lemma_insert_distinct(s.last(), sorted);
    }
}

/// When a query falls back to its three-byte windows, each distinct window key
/// is looked up once: its probes have pairwise different keys, at most 8 of
/// them, each the key of a window of the pattern.
pub proof fn lemma_fallback_probes_distinct(data: Seq<u8>, n: int, pattern: Seq<u8>, freq: FrequencyTable)
    requires
        covering_ranges(pattern, freq).len() < 3,
    ensures
        distinct_keys(planned_probes(data, n, pattern, freq)),
        planned_probes(data, n, pattern, freq).len() <= 8,
        forall|a: int| 0 <= a < planned_probes(data, n, pattern, freq).len()
            ==> window_hashes(pattern).contains(#[trigger] planned_probes(data, n, pattern, freq)[a].0),
{
    if pattern.len() >= 3 {
        let wh = window_hashes(pattern);
        lemma_dedup_distinct(wh);
        lemma_probe_all_distinct(data, n, dedup(wh));
        let pa = probe_all(data, n, dedup(wh));
        lemma_sort_distinct(pa);
        let probed = sort_by_count(pa);
        let t = if probed.len() < 8 { probed.len() as int } else { 8 };
        let keys = probed.take(t).map_values(|p: (int, u64, usize)| p.0);
        assert(keys == query_keys(data, n, pattern, freq));
        assert(distinct_values(keys)) by {
            assert forall|a: int, b: int| 0 <= a < b < keys.len() implies #[trigger] keys[a] != #[trigger] keys[b] by {
                assert(keys[a] == probed[a].0 && keys[b] == probed[b].0);
            }
        }
        lemma_probe_all_distinct(data, n, keys);
        let pb = probe_all(data, n, keys);
        lemma_sort_distinct(pb);
        let ps = planned_probes(data, n, pattern, freq);
        assert(ps == sort_by_count(pb));
        assert forall|a: int| 0 <= a < ps.len() implies wh.contains(#[trigger] ps[a].0) by {
            assert(ps.contains(ps[a]));
            lemma_sort_by_count_contains(pb, ps[a]);
            lemma_probe_all_found(data, n, keys, ps[a]);
            let m = choose|m: int| 0 <= m < keys.len() && keys[m] == ps[a].0;
            assert(keys[m] == probed[m].0);
            assert(probed.contains(probed[m]));
            lemma_sort_by_count_contains(pa, probed[m]);
            lemma_probe_all_found(data, n, dedup(wh), probed[m]);
            lemma_dedup_contains(wh, ps[a].0);
        }
    }
}

/// Probes ordered by posting count are in ascending order of count.
proof fn lemma_insert_sorted(x: (int, u64, usize), s: Seq<(int, u64, usize)>)
    requires
        forall|a: int, b: int| 0 <= a < b < s.len() ==> #[trigger] s[a].2 <= #[trigger] s[b].2,
    ensures
        forall|a: int, b: int| 0 <= a < b < insert_by_count(x, s).len() ==> #[trigger] insert_by_count(x, s)[a].2
            <= #[trigger] insert_by_count(x, s)[b].2,
    decreases s.len(),
{
    if s.len() == 0 {
    } else if s.last().2 <= x.2 {
        let r = s.push(x);
        assert forall|a: int, b: int| 0 <= a < b < r.len() implies #[trigger] r[a].2 <= #[trigger] r[b].2 by {
            assert(r[a] == s[a]);
            if b < s.len() {
                assert(r[b] == s[b]);
            } else if a < s.len() - 1 {
                assert(s[a].2 <= s[s.len() - 1].2);
            }
        }
    } else {
        let init = s.drop_last();
        assert forall|a: int, b: int| 0 <= a < b < init.len() implies #[trigger] init[a].2 <= #[trigger] init[b].2 by {
            assert(init[a] == s[a] && init[b] == s[b]);
        }
        lemma_insert_sorted(x, init);
        let r = insert_by_count(x, init);
        let rr = r.push(s.last());
        assert forall|a: int, b: int| 0 <= a < b < rr.len() implies #[trigger] rr[a].2 <= #[trigger] rr[b].2 by {
            assert(rr[a] == r[a]);
            if b < r.len() {
                assert(rr[b] == r[b]);
            } else {
                assert(r.contains(r[a]));
                lemma_has_key_after_insert(x, init, r[a]);
                if r[a] != x {
                    let m = choose|m: int| 0 <= m < init.len() && init[m] == r[a];
                    assert(s[m] == init[m]);
                    assert(s[m].2 <= s[s.len() - 1].2);
                }
            }
        }
    }
}

proof fn lemma_sort_sorted(s: Seq<(int, u64, usize)>)
    ensures
        forall|a: int, b: int| 0 <= a < b < sort_by_count(s).len() ==> #[trigger] sort_by_count(s)[a].2
            <= #[trigger] sort_by_count(s)[b].2,
        sort_by_count(s).len() == s.len(),
    decreases s.len(),
{
    if s.len() > 0 {
        lemma_sort_sorted(s.drop_last());
        lemma_insert_sorted(s.last(), sort_by_count(s.drop_last()));
        lemma_insert_len(s.last(), sort_by_count(s.drop_last()));
    }
}

proof fn lemma_insert_len(x: (int, u64, usize), s: Seq<(int, u64, usize)>)
    ensures
        insert_by_count(x, s).len() == s.len() + 1,
    decreases s.len(),
{
    if s.len() > 0 && s.last().2 > x.2 {
        lemma_insert_len(x, s.drop_last());
    }
}

proof fn lemma_probe_all_complete(data: Seq<u8>, n: int, keys: Seq<int>, k: int, o: u64, c: usize)
    requires
        keys.contains(k),
        probe_result(data, n, k) == Some((o, c)),
    ensures
        probe_all(data, n, keys).contains((k, o, c)),
    decreases keys.len(),
{
    let init = keys.drop_last();
    let prev = probe_all(data, n, init);
    if keys.last() == k {
        assert(probe_all(data, n, keys) == prev.push((k, o, c)));
        assert(prev.push((k, o, c))[prev.len() as int] == (k, o, c));
    } else {
        let m = choose|m: int| 0 <= m < keys.len() && keys[m] == k;
        assert(m < keys.len() - 1);
        assert(init[m] == k);
        lemma_probe_all_complete(data, n, init, k, o, c);
        let j = choose|j: int| 0 <= j < prev.len() && prev[j] == (k, o, c);
        match probe_result(data, n, keys.last()) {
            Some((o2, c2)) => {
                assert(prev.push((keys.last(), o2, c2))[j] == (k, o, c));
            },
            None => {},
        }
    }
}

proof fn lemma_probe_all_all_found(data: Seq<u8>, n: int, keys: Seq<int>)
    requires
        forall|i: int| 0 <= i < keys.len() ==> #[trigger] probe_result(data, n, keys[i]) is Some,
    ensures
        probe_all(data, n, keys).len() == keys.len(),
    decreases keys.len(),
{
    if keys.len() > 0 {
        let init = keys.drop_last();
        assert forall|i: int| 0 <= i < init.len() implies #[trigger] probe_result(data, n, init[i]) is Some by {
            assert(init[i] == keys[i]);
        }
        lemma_probe_all_all_found(data, n, init);
        assert(probe_result(data, n, keys[keys.len() - 1]) is Some);
    }
}

/// The window keys a fallback query probes are the ones with the shortest
/// posting lists: every probe is the lookup entry of its key, and a window key
/// the lookup table holds that is not probed has a posting list at least as long
/// as every probe's, 8 keys having been probed.
pub proof fn lemma_fallback_probes_smallest(
    data: Seq<u8>,
    n: int,
    pattern: Seq<u8>,
    freq: FrequencyTable,
    k: int,
    o: u64,
    c: usize,
)
    requires
        covering_ranges(pattern, freq).len() < 3,
        window_hashes(pattern).contains(k),
        probe_result(data, n, k) == Some((o, c)),
        forall|a: int| 0 <= a < planned_probes(data, n, pattern, freq).len()
            ==> #[trigger] planned_probes(data, n, pattern, freq)[a].0 != k,
    ensures
        planned_probes(data, n, pattern, freq).len() == 8,
        forall|a: int| 0 <= a < planned_probes(data, n, pattern, freq).len()
            ==> #[trigger] planned_probes(data, n, pattern, freq)[a].2 <= c,
{
    let wh = window_hashes(pattern);
    assert(pattern.len() >= 3) by {
        if pattern.len() < 3 {
            assert(wh.len() == 0);
        }
    }
    let dk = dedup(wh);
    lemma_dedup_contains(wh, k);
    let pa = probe_all(data, n, dk);
    lemma_probe_all_complete(data, n, dk, k, o, c);
    lemma_sort_sorted(pa);
    let probed = sort_by_count(pa);
    lemma_sort_by_count_contains(pa, (k, o, c));
    let m = choose|m: int| 0 <= m < probed.len() && probed[m] == (k, o, c);
    let t = if probed.len() < 8 { probed.len() as int } else { 8 };
    let keys = probed.take(t).map_values(|p: (int, u64, usize)| p.0);
    assert(keys == query_keys(data, n, pattern, freq));
    assert forall|i: int| 0 <= i < keys.len() implies #[trigger] probe_result(data, n, keys[i]) == Some(
        (probed[i].1, probed[i].2),
    ) by {
        assert(keys[i] == probed[i].0);
        assert(probed.contains(probed[i]));
        lemma_sort_by_count_contains(pa, probed[i]);
        lemma_probe_all_found(data, n, dk, probed[i]);
    }
    assert forall|i: int| 0 <= i < keys.len() implies #[trigger] probe_result(data, n, keys[i]) is Some by {
        assert(probe_result(data, n, keys[i]) == Some((probed[i].1, probed[i].2)));
    }
    let pb = probe_all(data, n, keys);
    lemma_probe_all_all_found(data, n, keys);
    lemma_sort_sorted(pb);
    let ps = planned_probes(data, n, pattern, freq);
    assert(ps == sort_by_count(pb));
    if m < t {
        assert(keys[m] == k);
        assert(keys.contains(k));
        lemma_probe_all_complete(data, n, keys, k, o, c);
        lemma_sort_by_count_contains(pb, (k, o, c));
        let a = choose|a: int| 0 <= a < ps.len() && ps[a] == (k, o, c);
        assert(ps[a].0 != k);
    }
    assert(t == 8);
    assert forall|a: int| 0 <= a < ps.len() implies #[trigger] ps[a].2 <= c by {
        assert(ps.contains(ps[a]));
        lemma_sort_by_count_contains(pb, ps[a]);
        lemma_probe_all_found(data, n, keys, ps[a]);
        let j = choose|j: int| 0 <= j < keys.len() && keys[j] == ps[a].0;
        assert(probe_result(data, n, keys[j]) == Some((probed[j].1, probed[j].2)));
        assert(probed[j].2 <= probed[m].2);
    }
}

} // verus!
