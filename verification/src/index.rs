use vstd::prelude::*;
use crate::bitset::TrigramBitSet;
use crate::freq::FrequencyTable;
use crate::hash::{Trigram, hash_ngram, hash_to_trigram, ngram_hash, trigram_index, lemma_trigram_roundtrip};
use crate::ngram::{all_ranges, build_all_ranges};
use crate::intersect::strictly_increasing;
use crate::lookup::{
    encode_lookup_table, lookup_count, lookup_key, lookup_offset, lookup_postings, lookup_sorted,
    lookup_table, lemma_lookup_table_roundtrip,
};
use crate::postings::{decode_postings, encode_posting_list, encode_postings, nondecreasing, lemma_postings_roundtrip};

verus! {

/// The 24-bit hash of every three-byte window of `data`, in order.
pub open spec fn window_hashes(data: Seq<u8>) -> Seq<int> {
    if data.len() < 3 {
        Seq::empty()
    } else {
        Seq::new((data.len() - 2) as nat, |i: int| ngram_hash(data.subrange(i, i + 3)) as int)
    }
}

/// The 24-bit hash of every range in `r` longer than three bytes, in order.
pub open spec fn long_range_hashes(data: Seq<u8>, r: Seq<(usize, usize)>) -> Seq<int>
    decreases r.len(),
{
    if r.len() == 0 {
        Seq::empty()
    } else {
        let prev = long_range_hashes(data, r.drop_last());
        let (s, e) = r.last();
        if e - s > 3 {
            prev.push(ngram_hash(data.subrange(s as int, e as int)) as int)
        } else {
            prev
        }
    }
}

/// `s` with every element after its first occurrence removed.
pub open spec fn dedup(s: Seq<int>) -> Seq<int>
    decreases s.len(),
{
    if s.len() == 0 {
        Seq::empty()
    } else {
        let d = dedup(s.drop_last());
        if d.contains(s.last()) {
            d
        } else {
            d.push(s.last())
        }
    }
}

/// The keys of a file, as 24-bit values: its window hashes, then the hashes of its
/// sparse n-grams longer than three bytes, each key once, first occurrence first.
pub open spec fn file_keys(data: Seq<u8>, freq: FrequencyTable) -> Seq<int> {
    dedup(window_hashes(data) + long_range_hashes(data, all_ranges(data, freq)))
}

/// The 24-bit values of a list of keys.
pub open spec fn key_values(keys: Seq<Trigram>) -> Seq<int> {
    keys.map_values(|t: Trigram| trigram_index(t@))
}

proof fn lemma_dedup_push(s: Seq<int>, x: int)
    ensures
        dedup(s.push(x)) == if dedup(s).contains(x) {
            dedup(s)
        } else {
            dedup(s).push(x)
        },
{
    assert(s.push(x).drop_last() =~= s);
    assert(s.push(x).last() == x);
}

/// Appends the key of hash `h` to `keys` unless `seen` already has it.
fn add_key(keys: &mut Vec<Trigram>, seen: &mut TrigramBitSet, h: u32)
    requires
        old(seen).wf(),
        h < 0x100_0000,
        forall|x: int| #[trigger] old(seen).view().contains(x) <==> key_values(old(keys)@).contains(x),
    ensures
        final(seen).wf(),
        forall|x: int| #[trigger] final(seen).view().contains(x) <==> key_values(final(keys)@).contains(x),
        key_values(final(keys)@) == if key_values(old(keys)@).contains(h as int) {
            key_values(old(keys)@)
        } else {
            key_values(old(keys)@).push(h as int)
        },
{
    let key = hash_to_trigram(h);
    proof {
        lemma_trigram_roundtrip(h);
    }
    if !seen.contains(key) {
        seen.insert(key);
        let ghost before = keys@;
        keys.push(key);
        assert(key_values(keys@) =~= key_values(before).push(h as int));
        assert forall|x: int| #[trigger] seen.view().contains(x) <==> key_values(keys@).contains(x) by {
            let kv = key_values(before);
            if x == h as int {
                assert(key_values(keys@)[kv.len() as int] == x);
            } else if kv.contains(x) {
                let k = choose|k: int| 0 <= k < kv.len() && kv[k] == x;
                assert(key_values(keys@)[k] == x);
            } else if key_values(keys@).contains(x) {
                let k = choose|k: int| 0 <= k < key_values(keys@).len() && key_values(keys@)[k] == x;
                assert(kv[k] == x);
            }
        }
    }
}

/// Extracts the keys of a file's contents, using `seen` to drop repeats.
pub fn extract_file_keys(data: &[u8], freq: &FrequencyTable, seen: &mut TrigramBitSet) -> (keys: Vec<Trigram>)
    requires
        old(seen).wf(),
    ensures
        final(seen).wf(),
        key_values(keys@) == file_keys(data@, *freq),
        final(seen).view() == key_values(keys@).to_set(),
{
    seen.clear();
    let mut keys: Vec<Trigram> = Vec::new();
    let ghost wh = window_hashes(data@);
    assert(key_values(keys@) =~= Seq::<int>::empty());
    if data.len() >= 3 {
        let len = data.len();
        let n = len - 2;
        let mut i: usize = 0;
        while i < n
            invariant
                len == data@.len(),
                n == data@.len() - 2,
                wh == window_hashes(data@),
                i <= n,
                seen.wf(),
                key_values(keys@) == dedup(wh.take(i as int)),
                forall|x: int| #[trigger] seen.view().contains(x) <==> key_values(keys@).contains(x),
            decreases n - i,
        {
            let h = hash_ngram(&data[i..i + 3]);
            proof {
                assert(wh[i as int] == h as int);
                assert(wh.take(i + 1) =~= wh.take(i as int).push(h as int));
                lemma_dedup_push(wh.take(i as int), h as int);
            }
            add_key(&mut keys, seen, h);
            i += 1;
        }
        assert(wh.take(n as int) =~= wh);
    } else {
        assert(wh =~= Seq::<int>::empty());
    }
    let ranges = build_all_ranges(data, freq);
    let mut j: usize = 0;
    assert(long_range_hashes(data@, ranges@.take(0)) =~= Seq::<int>::empty());
    assert(wh + long_range_hashes(data@, ranges@.take(0)) =~= wh);
    while j < ranges.len()
        invariant
            wh == window_hashes(data@),
            j <= ranges@.len(),
            ranges@ == all_ranges(data@, *freq),
            crate::ngram::ranges_within(ranges@, data@.len() as int),
            seen.wf(),
            key_values(keys@) == dedup(wh + long_range_hashes(data@, ranges@.take(j as int))),
            forall|x: int| #[trigger] seen.view().contains(x) <==> key_values(keys@).contains(x),
        decreases ranges@.len() - j,
    {
        let (start, end) = ranges[j];
        let ghost prefix = wh + long_range_hashes(data@, ranges@.take(j as int));
        assert(ranges@.take(j + 1).drop_last() =~= ranges@.take(j as int));
        assert(ranges@.take(j + 1).last() == ranges@[j as int]);
        assert(start + 3 <= end <= data@.len());
        if end - start > 3 {
            let h = hash_ngram(&data[start..end]);
            proof {
                assert(wh + long_range_hashes(data@, ranges@.take(j + 1)) =~= prefix.push(h as int));
                lemma_dedup_push(prefix, h as int);
            }
            add_key(&mut keys, seen, h);
        } else {
            assert(wh + long_range_hashes(data@, ranges@.take(j + 1)) =~= prefix);
        }
        j += 1;
    }
    assert(ranges@.take(ranges@.len() as int) =~= ranges@);
    assert(seen.view() =~= key_values(keys@).to_set());
    keys
}


/// File `f` of `files` holds the key `k` (a 24-bit value).
pub open spec fn file_has_key(files: Seq<Vec<Trigram>>, f: int, k: int) -> bool {
    &&& 0 <= f < files.len()
    &&& exists|j: int| 0 <= j < files[f]@.len() && trigram_index(files[f]@[j]@) == k
}

/// Some file of `files` holds the key `k`.
pub open spec fn key_held(files: Seq<Vec<Trigram>>, k: int) -> bool {
    exists|f: int| file_has_key(files, f, k)
}

/// `fids` lists, ascending and each once, the ids of the files that hold the key `k`.
pub open spec fn lists_files_with_key(fids: Seq<u32>, files: Seq<Vec<Trigram>>, k: int) -> bool {
    &&& strictly_increasing(fids)
    &&& forall|v: u32| #[trigger] fids.contains(v) <==> file_has_key(files, v as int, k)
}

/// The file ids that entry `i` of the lookup table `lookup` points to in `postings`.
pub open spec fn posting_at(lookup: Seq<u8>, postings: Seq<u8>, i: int) -> Seq<u32> {
    decode_postings(postings.skip(lookup_offset(lookup, i) as int), lookup_postings(lookup, i) as nat)
}

/// Where the posting list of entry `i` ends.
pub open spec fn posting_end(lookup: Seq<u8>, postings: Seq<u8>, i: int) -> int {
    lookup_offset(lookup, i) + encode_postings(posting_at(lookup, postings, i)).len()
}

/// `lookup` and `postings` are the index of `files`: one lookup entry per key that
/// some file holds, in ascending key order, each pointing at the ascending list of
/// the files that hold it; the posting lists stand back to back in entry order.
pub open spec fn index_of(files: Seq<Vec<Trigram>>, lookup: Seq<u8>, postings: Seq<u8>) -> bool {
    let m = lookup_count(lookup) as int;
    &&& lookup.len() == 8 + 16 * m
    &&& lookup_sorted(lookup, m)
    &&& forall|i: int| 0 <= i < m ==> #[trigger] lookup[8 + 16 * i + 3] == 0
    &&& forall|f: int, k: int|
        #[trigger] file_has_key(files, f, k) ==> exists|i: int| 0 <= i < m && lookup_key(lookup, i) == k
    &&& forall|i: int| 0 <= i < m ==> key_held(files, #[trigger] lookup_key(lookup, i))
    &&& forall|i: int|
        0 <= i < m ==> lists_files_with_key(#[trigger] posting_at(lookup, postings, i), files, lookup_key(lookup, i))
    &&& forall|i: int|
        0 <= i < m ==> #[trigger] posting_at(lookup, postings, i).len() == lookup_postings(lookup, i)
    &&& forall|i: int|
        0 <= i < m ==> postings.subrange(lookup_offset(lookup, i) as int, #[trigger] posting_end(lookup, postings, i))
            == encode_postings(posting_at(lookup, postings, i))
    &&& m == 0 ==> postings.len() == 0
    &&& m > 0 ==> lookup_offset(lookup, 0) == 0 && postings.len() == posting_end(lookup, postings, m - 1)
    &&& forall|i: int| 0 <= i < m - 1 ==> lookup_offset(lookup, i + 1) == #[trigger] posting_end(lookup, postings, i)
}

/// The key of a packed (key, file id) pair.
pub open spec fn pair_key(x: u64) -> int {
    x as int / 0x1_0000_0000
}

/// The file id of a packed (key, file id) pair.
pub open spec fn pair_file(x: u64) -> u32 {
    (x as int % 0x1_0000_0000) as u32
}

proof fn lemma_pack(k: int, f: int)
    requires
        0 <= k < 0x100_0000,
        0 <= f < 0x1_0000_0000,
    ensures
        k * 0x1_0000_0000 + f < 0x100_0000_0000_0000,
        pair_key((k * 0x1_0000_0000 + f) as u64) == k,
        pair_file((k * 0x1_0000_0000 + f) as u64) == f,
{
    vstd::arithmetic::div_mod::lemma_fundamental_div_mod_converse(k * 0x1_0000_0000 + f, 0x1_0000_0000, k, f);
}

proof fn lemma_pair_order(x: u64, y: u64)
    requires
        x <= y,
    ensures
        pair_key(x) <= pair_key(y),
        pair_key(x) == pair_key(y) ==> pair_file(x) <= pair_file(y),
        pair_key(x) == pair_key(y) && pair_file(x) == pair_file(y) ==> x == y,
{
    let m: int = 0x1_0000_0000;
    vstd::arithmetic::div_mod::lemma_fundamental_div_mod(x as int, m);
    vstd::arithmetic::div_mod::lemma_fundamental_div_mod(y as int, m);
    vstd::arithmetic::div_mod::lemma_mod_bound(x as int, m);
    vstd::arithmetic::div_mod::lemma_mod_bound(y as int, m);
}

/// The key of a key list entry, as a 24-bit value.
proof fn lemma_key_bound(t: Trigram)
    ensures
        0 <= trigram_index(t@) < 0x100_0000,
{
}

/// Every key of every file, packed as `key * 2^32 + file id`.
fn collect_pairs(files: &Vec<Vec<Trigram>>) -> (pairs: Vec<u64>)
    ensures
        forall|x: u64|
            #[trigger] pairs@.contains(x) <==> exists|f: int, j: int|
                0 <= f < files@.len() && 0 <= j < files@[f]@.len() && x as int == trigram_index(
                    files@[f]@[j]@,
                ) * 0x1_0000_0000 + (f as u32),
{
    let mut pairs: Vec<u64> = Vec::new();
    let mut f: usize = 0;
    while f < files.len()
        invariant
            f <= files@.len(),
            forall|x: u64|
                #[trigger] pairs@.contains(x) <==> exists|g: int, j: int|
                    0 <= g < f && 0 <= j < files@[g]@.len() && x as int == trigram_index(files@[g]@[j]@)
                        * 0x1_0000_0000 + (g as u32),
        decreases files@.len() - f,
    {
        let keys = &files[f];
        let mut j: usize = 0;
        while j < keys.len()
            invariant
                f < files@.len(),
                keys@ == files@[f as int]@,
                j <= keys@.len(),
                forall|x: u64|
                    #[trigger] pairs@.contains(x) <==> exists|g: int, i: int|
                        ((0 <= g < f && 0 <= i < files@[g]@.len()) || (g == f && 0 <= i < j))
                            && x as int == trigram_index(files@[g]@[i]@) * 0x1_0000_0000 + (g as u32),
            decreases keys@.len() - j,
        {
            let t = keys[j];
            let k = t[0] as u64 * 65536 + t[1] as u64 * 256 + t[2] as u64;
            assert(k == trigram_index(t@));
            let x = k * 0x1_0000_0000 + (f as u32) as u64;
            let ghost before = pairs@;
            pairs.push(x);
            proof {
                assert forall|y: u64| #[trigger] pairs@.contains(y) <==> exists|g: int, i: int|
                    ((0 <= g < f && 0 <= i < files@[g]@.len()) || (g == f && 0 <= i < j + 1))
                        && y as int == trigram_index(files@[g]@[i]@) * 0x1_0000_0000 + (g as u32) by {
                    if pairs@.contains(y) {
                        let q = choose|q: int| 0 <= q < pairs@.len() && pairs@[q] == y;
                        if q < before.len() {
                            assert(before[q] == y);
                            assert(before.contains(y));
                        } else {
                            assert(y == x);
                            assert(files@[f as int]@[j as int] == t);
                        }
                    }
                    if exists|g: int, i: int|
                        ((0 <= g < f && 0 <= i < files@[g]@.len()) || (g == f && 0 <= i < j + 1))
                            && y as int == trigram_index(files@[g]@[i]@) * 0x1_0000_0000 + (g as u32) {
                        let (g, i) = choose|g: int, i: int|
                            ((0 <= g < f && 0 <= i < files@[g]@.len()) || (g == f && 0 <= i < j + 1))
                                && y as int == trigram_index(files@[g]@[i]@) * 0x1_0000_0000 + (g as u32);
                        if g == f && i == j {
                            assert(files@[f as int]@[j as int] == t);
                            assert(pairs@[before.len() as int] == y);
                        } else {
                            assert(before.contains(y));
                            let q = choose|q: int| 0 <= q < before.len() && before[q] == y;
                            assert(pairs@[q] == y);
                        }
                    }
                }
            }
            j += 1;
        }
        f += 1;
    }
    pairs
}

/// `std` sorts a slice of `u64` in ascending order, keeping its elements
/// (`slice::sort_unstable`).
#[verifier::external_body]
fn sort_unstable_u64(v: &mut Vec<u64>)
    ensures
        final(v)@.to_multiset() == old(v)@.to_multiset(),
        forall|a: int, b: int| 0 <= a <= b < final(v)@.len() ==> final(v)@[a] <= final(v)@[b],
{
    v.sort_unstable();
}


/// Some entry of `es` has the key `k`.
pub open spec fn key_listed(es: Seq<(Trigram, u64, u32)>, k: int) -> bool {
    exists|i: int| 0 <= i < es.len() && trigram_index(es[i].0@) == k
}

/// The posting lists `ls`, encoded back to back.
pub open spec fn concat_postings(ls: Seq<Seq<u32>>) -> Seq<u8>
    decreases ls.len(),
{
    if ls.len() == 0 {
        Seq::empty()
    } else {
        concat_postings(ls.drop_last()) + encode_postings(ls.last())
    }
}

proof fn lemma_concat_split(ls: Seq<Seq<u32>>, i: int)
    requires
        0 <= i < ls.len(),
    ensures
        concat_postings(ls.take(i + 1)).len() == concat_postings(ls.take(i)).len() + encode_postings(ls[i]).len(),
        concat_postings(ls.take(i + 1)).len() <= concat_postings(ls).len(),
        concat_postings(ls).subrange(concat_postings(ls.take(i)).len() as int, concat_postings(ls.take(i + 1)).len() as int)
            == encode_postings(ls[i]),
        concat_postings(ls).skip(concat_postings(ls.take(i)).len() as int) == encode_postings(ls[i])
            + concat_postings(ls).skip(concat_postings(ls.take(i + 1)).len() as int),
    decreases ls.len(),
{
    let init = ls.drop_last();
    assert(ls.take(i + 1).drop_last() =~= ls.take(i));
    assert(ls.take(i + 1).last() == ls[i]);
    if i == ls.len() - 1 {
        assert(ls.take(i + 1) =~= ls);
        assert(ls.take(i) =~= init);
    } else {
        lemma_concat_split(init, i);
        assert(init.take(i) =~= ls.take(i));
        assert(init.take(i + 1) =~= ls.take(i + 1));
    }
    let a = concat_postings(ls.take(i)).len() as int;
    let b = concat_postings(ls.take(i + 1)).len() as int;
    assert(concat_postings(ls).skip(a) =~= concat_postings(ls).subrange(a, b) + concat_postings(ls).skip(b));
}

/// Groups sorted (key, file id) pairs into posting lists: one entry per key, in
/// ascending key order, with the ascending distinct file ids of that key
/// encoded at the entry's offset.
fn group_pairs(s: &Vec<u64>) -> (r: (Vec<u8>, Vec<(Trigram, u64, u32)>, Ghost<Seq<Seq<u32>>>))
    requires
        forall|a: int, b: int| 0 <= a <= b < s@.len() ==> s@[a] <= s@[b],
        forall|q: int| 0 <= q < s@.len() ==> pair_key(#[trigger] s@[q]) < 0x100_0000,
    ensures
        r.2@.len() == r.1@.len(),
        r.0@ == concat_postings(r.2@),
        forall|a: int, b: int| 0 <= a < b < r.1@.len() ==> trigram_index(r.1@[a].0@) < trigram_index(r.1@[b].0@),
        forall|q: int| 0 <= q < s@.len() ==> key_listed(r.1@, pair_key(#[trigger] s@[q])),
        forall|i: int| 0 <= i < r.1@.len() ==> {
            &&& strictly_increasing(#[trigger] r.2@[i])
            &&& r.2@[i].len() > 0
            &&& r.1@[i].2 == r.2@[i].len() as u32
            &&& r.1@[i].1 == concat_postings(r.2@.take(i)).len()
            &&& forall|v: u32| r.2@[i].contains(v) <==> exists|q: int| 0 <= q < s@.len()
                && pair_key(s@[q]) == trigram_index(r.1@[i].0@) && pair_file(s@[q]) == v
        },
{
    let mut postings: Vec<u8> = Vec::new();
    let mut es: Vec<(Trigram, u64, u32)> = Vec::new();
    let ghost mut ls: Seq<Seq<u32>> = Seq::empty();
    let mut p: usize = 0;
    while p < s.len()
        invariant
            forall|a: int, b: int| 0 <= a <= b < s@.len() ==> s@[a] <= s@[b],
            forall|q: int| 0 <= q < s@.len() ==> pair_key(#[trigger] s@[q]) < 0x100_0000,
            p <= s@.len(),
            p > 0 && p < s@.len() ==> pair_key(s@[p - 1]) < pair_key(s@[p as int]),
            ls.len() == es@.len(),
            postings@ == concat_postings(ls),
            forall|a: int, b: int| 0 <= a < b < es@.len() ==> trigram_index(es@[a].0@) < trigram_index(es@[b].0@),
            es@.len() > 0 ==> p > 0 && trigram_index(es@[es@.len() - 1].0@) == pair_key(s@[p - 1]),
            forall|q: int| 0 <= q < p ==> exists|i: int| 0 <= i < es@.len()
                && trigram_index(es@[i].0@) == pair_key(#[trigger] s@[q]),
            forall|i: int| 0 <= i < es@.len() ==> {
                &&& strictly_increasing(#[trigger] ls[i])
                &&& ls[i].len() > 0
                &&& es@[i].2 == ls[i].len() as u32
                &&& es@[i].1 == concat_postings(ls.take(i)).len()
                &&& forall|v: u32| ls[i].contains(v) <==> exists|q: int| 0 <= q < s@.len()
                    && pair_key(s@[q]) == trigram_index(es@[i].0@) && pair_file(s@[q]) == v
            },
        decreases s@.len() - p,
    {
        let p0 = p;
        let key = s[p] / 0x1_0000_0000;
        let ghost k = key as int;
        let start = postings.len();
        let mut fids: Vec<u32> = Vec::new();
        assert(p0 > 0 ==> pair_key(s@[p0 - 1]) < k);
        while p < s.len() && s[p] / 0x1_0000_0000 == key
            invariant
                forall|a: int, b: int| 0 <= a <= b < s@.len() ==> s@[a] <= s@[b],
                p0 < s@.len(),
                k == pair_key(s@[p0 as int]),
                k == key as int,
                p0 <= p <= s@.len(),
                forall|q: int| p0 <= q < p ==> pair_key(#[trigger] s@[q]) == k,
                strictly_increasing(fids@),
                fids@.len() <= p - p0,
                p > p0 ==> fids@.len() > 0 && fids@.last() == pair_file(s@[p - 1]),
                forall|v: u32| #[trigger] fids@.contains(v) <==> exists|q: int| p0 <= q < p && pair_file(s@[q]) == v,
            decreases s@.len() - p,
        {
            let fid = (s[p] % 0x1_0000_0000) as u32;
            let ghost before = fids@;
            let ghost xp = s@[p as int];
            assert(xp / 0x1_0000_0000 == key);
            assert(pair_key(xp) == k);
            assert(fid == pair_file(s@[p as int]));
            proof {
                if p > p0 {
                    lemma_pair_order(s@[p - 1], s@[p as int]);
                    assert(pair_key(s@[p - 1]) == k);
                    assert(before.last() <= fid);
                }
            }
            if fids.len() == 0 || fids[fids.len() - 1] != fid {
                fids.push(fid);
                proof {
                    assert forall|a: int, b: int| 0 <= a < b < fids@.len() implies #[trigger] fids@[a]
                        < #[trigger] fids@[b] by {
                        if b == fids@.len() - 1 && a < before.len() - 1 {
                            assert(before[a] < before[before.len() - 1]);
                        }
                    }
                }
            }
            proof {
                assert forall|v: u32| #[trigger] fids@.contains(v) <==> exists|q: int| p0 <= q < p + 1 && pair_file(s@[q]) == v by {
                    if fids@.contains(v) {
                        let m = choose|m: int| 0 <= m < fids@.len() && fids@[m] == v;
                        if m < before.len() {
                            assert(before[m] == v);
                            assert(before.contains(v));
                        }
                    }
                    if exists|q: int| p0 <= q < p + 1 && pair_file(s@[q]) == v {
                        let q = choose|q: int| p0 <= q < p + 1 && pair_file(s@[q]) == v;
                        if q < p {
                            assert(before.contains(v));
                            let m = choose|m: int| 0 <= m < before.len() && before[m] == v;
                            assert(fids@[m] == v);
                        } else {
                            assert(fids@[fids@.len() - 1] == v);
                        }
                    }
                }
            }
            p += 1;
        }
        proof {
            assert forall|v: u32| fids@.contains(v) <==> exists|q: int| 0 <= q < s@.len()
                && pair_key(s@[q]) == k && pair_file(s@[q]) == v by {
                if exists|q: int| 0 <= q < s@.len() && pair_key(s@[q]) == k && pair_file(s@[q]) == v {
                    let q = choose|q: int| 0 <= q < s@.len() && pair_key(s@[q]) == k && pair_file(s@[q]) == v;
                    if q < p0 {
                        lemma_pair_order(s@[q], s@[p0 - 1]);
                    } else if q >= p {
                        lemma_pair_order(s@[p as int], s@[q]);
                        lemma_pair_order(s@[p0 as int], s@[p as int]);
                    }
                    assert(fids@.contains(v));
                }
            }
            if p < s@.len() {
                lemma_pair_order(s@[p - 1], s@[p as int]);
            }
            assert(fids@.len() > 0);
        }
        encode_posting_list(fids.as_slice(), &mut postings);
        let count = fids.len() as u32;
        proof {
            lemma_pack_key_bound(s@[p0 as int]);
        }
        let tri = hash_to_trigram(key as u32);
        proof {
            lemma_trigram_roundtrip(key as u32);
            assert(trigram_index(tri@) == k);
        }
        let ghost old_ls = ls;
        let ghost old_es = es@;
        es.push((tri, start as u64, count));
        proof {
            ls = ls.push(fids@);
            assert(ls.drop_last() =~= old_ls);
            assert(ls.take(old_ls.len() as int) =~= old_ls);
            assert forall|i: int| 0 <= i < old_es.len() implies ls.take(i) =~= old_ls.take(i) by {}
            assert forall|q: int| 0 <= q < p implies exists|i: int| 0 <= i < es@.len()
                && trigram_index(es@[i].0@) == pair_key(#[trigger] s@[q]) by {
                if q >= p0 {
                    assert(trigram_index(es@[old_es.len() as int].0@) == pair_key(s@[q]));
                } else {
                    let i = choose|i: int| 0 <= i < old_es.len() && trigram_index(old_es[i].0@) == pair_key(s@[q]);
                    assert(es@[i] == old_es[i]);
                }
            }
            assert forall|i: int| 0 <= i < es@.len() implies {
                &&& strictly_increasing(#[trigger] ls[i])
                &&& ls[i].len() > 0
                &&& es@[i].2 == ls[i].len() as u32
                &&& es@[i].1 == concat_postings(ls.take(i)).len()
                &&& forall|v: u32| ls[i].contains(v) <==> exists|q: int| 0 <= q < s@.len()
                    && pair_key(s@[q]) == trigram_index(es@[i].0@) && pair_file(s@[q]) == v
            } by {
                if i < old_es.len() {
                    assert(es@[i] == old_es[i]);
                    assert(ls[i] == old_ls[i]);
                }
            }
            assert forall|a: int, b: int| 0 <= a < b < es@.len() implies trigram_index(es@[a].0@) < trigram_index(es@[b].0@) by {
                if b == old_es.len() {
                    if a < old_es.len() - 1 {
                        assert(trigram_index(old_es[a].0@) < trigram_index(old_es[old_es.len() - 1].0@));
                    }
                } else {
                    assert(es@[a] == old_es[a] && es@[b] == old_es[b]);
                }
            }
        }
    }
    assert(p == s@.len());
    assert forall|q: int| 0 <= q < s@.len() implies exists|i: int| 0 <= i < es@.len()
            && trigram_index(es@[i].0@) == pair_key(#[trigger] s@[q]) by {
        assert(0 <= q < p);
        let x = s@[q];
        assert(pair_key(x) == pair_key(s@[q]));
    }
    let ghost final_es = es@;
    let r = (postings, es, Ghost(ls));
    assert(r.1@ == final_es);
    assert forall|q: int| 0 <= q < s@.len() implies key_listed(r.1@, pair_key(#[trigger] s@[q])) by {
        let i = choose|i: int| 0 <= i < final_es.len() && trigram_index(final_es[i].0@) == pair_key(s@[q]);
        assert(r.1@[i] == final_es[i]);
    }
    r
}

proof fn lemma_strict_len(s: Seq<u32>, n: int)
    requires
        n >= 0,
        strictly_increasing(s),
        forall|v: u32| #[trigger] s.contains(v) ==> v < n,
    ensures
        s.len() <= n,
        s.len() > 0 ==> s.last() >= s.len() - 1,
    decreases s.len(),
{
    if s.len() > 0 {
        let init = s.drop_last();
        assert(strictly_increasing(init)) by {
            assert forall|a: int, b: int| 0 <= a < b < init.len() implies #[trigger] init[a] < #[trigger] init[b] by {
                assert(init[a] == s[a] && init[b] == s[b]);
            }
        }
        assert forall|v: u32| #[trigger] init.contains(v) implies v < n by {
            let m = choose|m: int| 0 <= m < init.len() && init[m] == v;
            assert(s[m] == v);
            assert(s.contains(v));
        }
        lemma_strict_len(init, n);
        if init.len() > 0 {
            assert(init.last() == s[s.len() - 2]);
            assert(s[s.len() - 2] < s[s.len() - 1]);
        }
        assert(s[s.len() - 1] == s.last());
        assert(s.contains(s.last()));
        assert(s.last() < n);
        assert(s.last() >= s.len() - 1);
    }
}

proof fn lemma_pack_key_bound(x: u64)
    ensures
        x as int / 0x1_0000_0000 < 0x1_0000_0000,
        x as int / 0x1_0000_0000 == pair_key(x),
{
}


/// What an element of the pair list stands for.
proof fn lemma_pair_meaning(files: Seq<Vec<Trigram>>, s: Seq<u64>, q: int)
    requires
        files.len() <= u32::MAX,
        0 <= q < s.len(),
        forall|x: u64|
            #[trigger] s.contains(x) <==> exists|f: int, j: int|
                0 <= f < files.len() && 0 <= j < files[f]@.len() && x as int == trigram_index(files[f]@[j]@)
                    * 0x1_0000_0000 + (f as u32),
    ensures
        file_has_key(files, pair_file(s[q]) as int, pair_key(s[q])),
{
    assert(s.contains(s[q]));
    let (f, j) = choose|f: int, j: int|
        0 <= f < files.len() && 0 <= j < files[f]@.len() && s[q] as int == trigram_index(files[f]@[j]@)
            * 0x1_0000_0000 + (f as u32);
    lemma_key_bound(files[f]@[j]);
    lemma_pack(trigram_index(files[f]@[j]@), f);
}

/// A key that a file holds has a pair in the list.
proof fn lemma_pair_exists(files: Seq<Vec<Trigram>>, s: Seq<u64>, f: int, k: int)
    requires
        files.len() <= u32::MAX,
        file_has_key(files, f, k),
        forall|x: u64|
            #[trigger] s.contains(x) <==> exists|g: int, j: int|
                0 <= g < files.len() && 0 <= j < files[g]@.len() && x as int == trigram_index(files[g]@[j]@)
                    * 0x1_0000_0000 + (g as u32),
    ensures
        exists|q: int| 0 <= q < s.len() && pair_key(s[q]) == k && pair_file(s[q]) == f,
{
    let j = choose|j: int| 0 <= j < files[f]@.len() && trigram_index(files[f]@[j]@) == k;
    lemma_key_bound(files[f]@[j]);
    lemma_pack(k, f);
    let x = (k * 0x1_0000_0000 + f) as u64;
    assert(s.contains(x));
    let q = choose|q: int| 0 <= q < s.len() && s[q] == x;
    assert(pair_key(s[q]) == k && pair_file(s[q]) == f);
}

/// Entry `i` of the built index points at the posting list `ls[i]`, which lists
/// exactly the files that hold its key.
proof fn lemma_built_entry(
    files: Seq<Vec<Trigram>>,
    s: Seq<u64>,
    es: Seq<(Trigram, u64, u32)>,
    ls: Seq<Seq<u32>>,
    postings: Seq<u8>,
    lookup: Seq<u8>,
    i: int,
)
    requires
        files.len() <= u32::MAX,
        es.len() <= usize::MAX,
        0 <= i < es.len(),
        forall|x: u64|
            #[trigger] s.contains(x) <==> exists|f: int, j: int|
                0 <= f < files.len() && 0 <= j < files[f]@.len() && x as int == trigram_index(files[f]@[j]@)
                    * 0x1_0000_0000 + (f as u32),
        ls.len() == es.len(),
        postings == concat_postings(ls),
        strictly_increasing(ls[i]),
        es[i].2 == ls[i].len() as u32,
        es[i].1 == concat_postings(ls.take(i)).len(),
        forall|v: u32| ls[i].contains(v) <==> exists|q: int| 0 <= q < s.len()
            && pair_key(s[q]) == trigram_index(es[i].0@) && pair_file(s[q]) == v,
        lookup == lookup_table(es),
    ensures
        posting_at(lookup, postings, i) == ls[i],
        lists_files_with_key(ls[i], files, lookup_key(lookup, i)),
        posting_end(lookup, postings, i) == concat_postings(ls.take(i + 1)).len(),
        postings.subrange(lookup_offset(lookup, i) as int, posting_end(lookup, postings, i))
            == encode_postings(ls[i]),
        lookup_postings(lookup, i) == ls[i].len(),
{
    lemma_lookup_table_roundtrip(es);
    let k = lookup_key(lookup, i);
    assert(k == trigram_index(es[i].0@));
    assert forall|v: u32| #[trigger] ls[i].contains(v) <==> file_has_key(files, v as int, k) by {
        if ls[i].contains(v) {
            let q = choose|q: int| 0 <= q < s.len() && pair_key(s[q]) == k && pair_file(s[q]) == v;
            lemma_pair_meaning(files, s, q);
        }
        if file_has_key(files, v as int, k) {
            lemma_pair_exists(files, s, v as int, k);
        }
    }
    assert forall|v: u32| #[trigger] ls[i].contains(v) implies v < files.len() by {
        assert(file_has_key(files, v as int, k));
    }
    lemma_strict_len(ls[i], files.len() as int);
    assert(es[i].2 == ls[i].len());
    lemma_concat_split(ls, i);
    let rest = postings.skip(concat_postings(ls.take(i + 1)).len() as int);
    assert(nondecreasing(ls[i])) by {
        assert forall|a: int, b: int| 0 <= a <= b < ls[i].len() implies #[trigger] ls[i][a] <= #[trigger] ls[i][b] by {
            if a < b {
                assert(ls[i][a] < ls[i][b]);
            }
        }
    }
    lemma_postings_roundtrip(ls[i], rest);
}

proof fn lemma_built_entries(
    files: Seq<Vec<Trigram>>,
    s: Seq<u64>,
    es: Seq<(Trigram, u64, u32)>,
    ls: Seq<Seq<u32>>,
    postings: Seq<u8>,
    lookup: Seq<u8>,
)
    requires
        files.len() <= u32::MAX,
        es.len() <= usize::MAX,
        forall|x: u64|
            #[trigger] s.contains(x) <==> exists|f: int, j: int|
                0 <= f < files.len() && 0 <= j < files[f]@.len() && x as int == trigram_index(files[f]@[j]@)
                    * 0x1_0000_0000 + (f as u32),
        ls.len() == es.len(),
        postings == concat_postings(ls),
        forall|a: int, b: int| 0 <= a < b < es.len() ==> trigram_index(es[a].0@) < trigram_index(es[b].0@),
        forall|q: int| 0 <= q < s.len() ==> key_listed(es, pair_key(#[trigger] s[q])),
        forall|i: int| 0 <= i < es.len() ==> {
            &&& strictly_increasing(#[trigger] ls[i])
            &&& ls[i].len() > 0
            &&& es[i].2 == ls[i].len() as u32
            &&& es[i].1 == concat_postings(ls.take(i)).len()
            &&& forall|v: u32| ls[i].contains(v) <==> exists|q: int| 0 <= q < s.len()
                && pair_key(s[q]) == trigram_index(es[i].0@) && pair_file(s[q]) == v
        },
        lookup == lookup_table(es),
    ensures
        forall|i: int| 0 <= i < es.len() ==> {
            &&& #[trigger] posting_at(lookup, postings, i) == ls[i]
            &&& lists_files_with_key(ls[i], files, lookup_key(lookup, i))
            &&& posting_end(lookup, postings, i) == concat_postings(ls.take(i + 1)).len()
            &&& postings.subrange(lookup_offset(lookup, i) as int, posting_end(lookup, postings, i))
                == encode_postings(ls[i])
            &&& lookup_postings(lookup, i) == ls[i].len()
        },
        es.len() > 0 ==> lookup_offset(lookup, 0) == 0,
        es.len() == 0 ==> postings.len() == 0,
        es.len() > 0 ==> postings.len() == posting_end(lookup, postings, es.len() - 1),
        forall|i: int| 0 <= i < es.len() - 1 ==> lookup_offset(lookup, i + 1) == #[trigger] posting_end(lookup, postings, i),
{
    assert forall|i: int| 0 <= i < es.len() implies {
        &&& #[trigger] posting_at(lookup, postings, i) == ls[i]
        &&& lists_files_with_key(ls[i], files, lookup_key(lookup, i))
        &&& posting_end(lookup, postings, i) == concat_postings(ls.take(i + 1)).len()
        &&& postings.subrange(lookup_offset(lookup, i) as int, posting_end(lookup, postings, i))
            == encode_postings(ls[i])
        &&& lookup_postings(lookup, i) == ls[i].len()
    } by {
        lemma_built_entry(files, s, es, ls, postings, lookup, i);
    }
    let m = es.len() as int;
    lemma_lookup_table_roundtrip(es);
    assert forall|i: int| 0 <= i < m - 1 implies lookup_offset(lookup, i + 1) == #[trigger] posting_end(lookup, postings, i) by {
        let e = es[i + 1];
        assert(ls[i + 1] == ls[i + 1]);
    }
    if m > 0 {
        assert(ls[0] == ls[0]);
        assert(concat_postings(ls.take(0)) =~= Seq::<u8>::empty());
        assert(es[0].1 == 0);
        assert(lookup_offset(lookup, 0) == 0);
        assert(ls.take(m) =~= ls);
        assert(posting_end(lookup, postings, m - 1) == concat_postings(ls.take(m)).len());
    } else {
        assert(ls =~= Seq::<Seq<u32>>::empty());
    }
}

proof fn lemma_built_keys(
    files: Seq<Vec<Trigram>>,
    s: Seq<u64>,
    es: Seq<(Trigram, u64, u32)>,
    lookup: Seq<u8>,
)
    requires
        files.len() <= u32::MAX,
        es.len() <= usize::MAX,
        forall|x: u64|
            #[trigger] s.contains(x) <==> exists|f: int, j: int|
                0 <= f < files.len() && 0 <= j < files[f]@.len() && x as int == trigram_index(files[f]@[j]@)
                    * 0x1_0000_0000 + (f as u32),
        forall|a: int, b: int| 0 <= a < b < es.len() ==> trigram_index(es[a].0@) < trigram_index(es[b].0@),
        forall|q: int| 0 <= q < s.len() ==> key_listed(es, pair_key(#[trigger] s[q])),
        lookup == lookup_table(es),
    ensures
        forall|f: int, k: int| #[trigger] file_has_key(files, f, k) ==> exists|i: int|
            0 <= i < lookup_count(lookup) && lookup_key(lookup, i) == k,
        lookup_sorted(lookup, lookup_count(lookup) as int),
        lookup.len() == 8 + 16 * lookup_count(lookup),
        lookup_count(lookup) == es.len(),
        forall|i: int| 0 <= i < lookup_count(lookup) ==> #[trigger] lookup[8 + 16 * i + 3] == 0,
{
    lemma_lookup_table_roundtrip(es);
    let m = es.len() as int;
    assert forall|f: int, k: int| #[trigger] file_has_key(files, f, k) implies exists|i: int|
        0 <= i < m && lookup_key(lookup, i) == k by {
        lemma_pair_exists(files, s, f, k);
        let q = choose|q: int| 0 <= q < s.len() && pair_key(s[q]) == k && pair_file(s[q]) == f;
        assert(key_listed(es, pair_key(s[q])));
        let i = choose|i: int| 0 <= i < es.len() && trigram_index(es[i].0@) == k;
        assert(lookup_key(lookup, i) == k);
    }
    assert forall|a: int, b: int| 0 <= a < b < m implies #[trigger] lookup_key(lookup, a) < #[trigger] lookup_key(lookup, b) by {
        assert(trigram_index(es[a].0@) < trigram_index(es[b].0@));
    }
    assert forall|i: int| 0 <= i < m implies #[trigger] lookup[8 + 16 * i + 3] == 0 by {
        let e = es[i];
    }
}

#[verifier::rlimit(40)]
proof fn lemma_build_index(
    files: Seq<Vec<Trigram>>,
    s: Seq<u64>,
    es: Seq<(Trigram, u64, u32)>,
    ls: Seq<Seq<u32>>,
    postings: Seq<u8>,
    lookup: Seq<u8>,
)
    requires
        files.len() <= u32::MAX,
        es.len() <= usize::MAX,
        forall|x: u64|
            #[trigger] s.contains(x) <==> exists|f: int, j: int|
                0 <= f < files.len() && 0 <= j < files[f]@.len() && x as int == trigram_index(files[f]@[j]@)
                    * 0x1_0000_0000 + (f as u32),
        ls.len() == es.len(),
        postings == concat_postings(ls),
        forall|a: int, b: int| 0 <= a < b < es.len() ==> trigram_index(es[a].0@) < trigram_index(es[b].0@),
        forall|q: int| 0 <= q < s.len() ==> key_listed(es, pair_key(#[trigger] s[q])),
        forall|i: int| 0 <= i < es.len() ==> {
            &&& strictly_increasing(#[trigger] ls[i])
            &&& ls[i].len() > 0
            &&& es[i].2 == ls[i].len() as u32
            &&& es[i].1 == concat_postings(ls.take(i)).len()
            &&& forall|v: u32| ls[i].contains(v) <==> exists|q: int| 0 <= q < s.len()
                && pair_key(s[q]) == trigram_index(es[i].0@) && pair_file(s[q]) == v
        },
        lookup == lookup_table(es),
    ensures
        index_of(files, lookup, postings),
{
    lemma_built_keys(files, s, es, lookup);
    lemma_built_entries(files, s, es, ls, postings, lookup);
    let m = es.len() as int;
    assert forall|i: int| 0 <= i < m implies key_held(files, #[trigger] lookup_key(lookup, i)) by {
        let v = ls[i][0];
        assert(ls[i].contains(v));
        assert(posting_at(lookup, postings, i) == ls[i]);
        assert(file_has_key(files, v as int, lookup_key(lookup, i)));
    }
    assert(lookup.len() == 8 + 16 * m);
    assert(lookup_sorted(lookup, m));
    assert(forall|i: int| 0 <= i < m ==> #[trigger] lookup[8 + 16 * i + 3] == 0);
    assert(forall|i: int|
        0 <= i < m ==> lists_files_with_key(#[trigger] posting_at(lookup, postings, i), files, lookup_key(lookup, i)));
    assert(forall|i: int|
        0 <= i < m ==> #[trigger] posting_at(lookup, postings, i).len() == lookup_postings(lookup, i));
    assert(forall|i: int|
        0 <= i < m ==> postings.subrange(lookup_offset(lookup, i) as int, #[trigger] posting_end(lookup, postings, i))
            == encode_postings(posting_at(lookup, postings, i)));
    assert(lookup_count(lookup) as int == m);
    assert(m == 0 ==> postings.len() == 0);
    assert(m > 0 ==> lookup_offset(lookup, 0) == 0 && postings.len() == posting_end(lookup, postings, m - 1));
    assert(forall|i: int| 0 <= i < m - 1 ==> lookup_offset(lookup, i + 1) == #[trigger] posting_end(lookup, postings, i));
    assert(forall|f: int, k: int|
        #[trigger] file_has_key(files, f, k) ==> exists|i: int| 0 <= i < m && lookup_key(lookup, i) == k);
}

/// Builds the inverted index of the key lists `files` (file `f` has id `f`):
/// the posting lists, and the lookup table that points into them.
pub fn build_inverted_index(files: &Vec<Vec<Trigram>>) -> (r: (Vec<u8>, Vec<u8>))
    ensures
        files@.len() <= u32::MAX ==> index_of(files@, r.1@, r.0@),
{
    let mut pairs = collect_pairs(files);
    let ghost unsorted = pairs@;
    sort_unstable_u64(&mut pairs);
    proof {
        unsorted.to_multiset_ensures();
        pairs@.to_multiset_ensures();
        assert forall|x: u64| #[trigger] pairs@.contains(x) <==> unsorted.contains(x) by {
            assert(pairs@.to_multiset().count(x) == unsorted.to_multiset().count(x));
        }
        assert forall|q: int| 0 <= q < pairs@.len() implies pair_key(#[trigger] pairs@[q]) < 0x100_0000 by {
            assert(pairs@.contains(pairs@[q]));
            assert(unsorted.contains(pairs@[q]));
            let (f, j) = choose|f: int, j: int|
                0 <= f < files@.len() && 0 <= j < files@[f]@.len() && pairs@[q] as int == trigram_index(
                    files@[f]@[j]@,
                ) * 0x1_0000_0000 + (f as u32);
            lemma_key_bound(files@[f]@[j]);
            lemma_pack(trigram_index(files@[f]@[j]@), (f as u32) as int);
        }
    }
    let (postings, entries, Ghost(ls)) = group_pairs(&pairs);
    let lookup = encode_lookup_table(entries.as_slice());
    proof {
        if files@.len() <= u32::MAX {
            lemma_build_index(files@, pairs@, entries@, ls, postings@, lookup@);
        }
    }
    (postings, lookup)
}

} // verus!
