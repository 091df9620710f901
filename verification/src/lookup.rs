use vstd::prelude::*;
use vstd::bytes::{
    spec_u32_from_le_bytes, spec_u32_to_le_bytes, spec_u64_from_le_bytes, spec_u64_to_le_bytes,
    u32_to_le_bytes, u64_to_le_bytes, lemma_auto_spec_u32_to_from_le_bytes,
    lemma_auto_spec_u64_to_from_le_bytes,
};
use crate::hash::{Trigram, trigram_index};

verus! {

/// Size of the lookup table header: the entry count as a little-endian u64.
pub const LOOKUP_HEADER: usize = 8;

/// Size of one lookup table entry: key (3 bytes), a zero byte, the posting
/// list offset (u64) and the posting count (u32), both little-endian.
pub const LOOKUP_ENTRY: usize = 16;

/// The number of entries the lookup table `data` declares.
pub open spec fn lookup_count(data: Seq<u8>) -> u64 {
    spec_u64_from_le_bytes(data.subrange(0, 8))
}

/// The key of entry `i` of the lookup table `data`, as a 24-bit value.
pub open spec fn lookup_key(data: Seq<u8>, i: int) -> int {
    trigram_index(data.subrange(8 + 16 * i, 8 + 16 * i + 3))
}

/// The posting list offset of entry `i` of the lookup table `data`.
pub open spec fn lookup_offset(data: Seq<u8>, i: int) -> u64 {
    spec_u64_from_le_bytes(data.subrange(8 + 16 * i + 4, 8 + 16 * i + 12))
}

/// The posting count of entry `i` of the lookup table `data`.
pub open spec fn lookup_postings(data: Seq<u8>, i: int) -> u32 {
    spec_u32_from_le_bytes(data.subrange(8 + 16 * i + 12, 8 + 16 * i + 16))
}

/// The first `n` entries of `data` have strictly increasing keys.
pub open spec fn lookup_sorted(data: Seq<u8>, n: int) -> bool {
    forall|a: int, b: int| 0 <= a < b < n ==> #[trigger] lookup_key(data, a) < #[trigger] lookup_key(data, b)
}

/// The bytes of one lookup entry.
pub open spec fn entry_bytes(e: (Trigram, u64, u32)) -> Seq<u8> {
    e.0@ + seq![0u8] + spec_u64_to_le_bytes(e.1) + spec_u32_to_le_bytes(e.2)
}

/// The bytes of a run of lookup entries.
pub open spec fn entries_bytes(es: Seq<(Trigram, u64, u32)>) -> Seq<u8>
    decreases es.len(),
{
    if es.len() == 0 {
        Seq::empty()
    } else {
        entries_bytes(es.drop_last()) + entry_bytes(es.last())
    }
}

/// The lookup table holding `es`.
pub open spec fn lookup_table(es: Seq<(Trigram, u64, u32)>) -> Seq<u8> {
    spec_u64_to_le_bytes(es.len() as u64) + entries_bytes(es)
}

proof fn lemma_entry_bytes(e: (Trigram, u64, u32))
    ensures
        entry_bytes(e).len() == 16,
        entry_bytes(e).subrange(0, 3) == e.0@,
        entry_bytes(e)[3] == 0,
        spec_u64_from_le_bytes(entry_bytes(e).subrange(4, 12)) == e.1,
        spec_u32_from_le_bytes(entry_bytes(e).subrange(12, 16)) == e.2,
{
    lemma_auto_spec_u64_to_from_le_bytes();
    lemma_auto_spec_u32_to_from_le_bytes();
    let b = entry_bytes(e);
    assert(spec_u64_to_le_bytes(e.1).len() == 8);
    assert(spec_u32_to_le_bytes(e.2).len() == 4);
    assert(b.subrange(0, 3) =~= e.0@);
    assert(b.subrange(4, 12) =~= spec_u64_to_le_bytes(e.1));
    assert(b.subrange(12, 16) =~= spec_u32_to_le_bytes(e.2));
}

proof fn lemma_entries_bytes(es: Seq<(Trigram, u64, u32)>)
    ensures
        entries_bytes(es).len() == 16 * es.len(),
        forall|i: int|
            0 <= i < es.len() ==> entries_bytes(es).subrange(16 * i, 16 * i + 16) == entry_bytes(
                #[trigger] es[i],
            ),
    decreases es.len(),
{
    if es.len() > 0 {
        let init = es.drop_last();
        lemma_entries_bytes(init);
        lemma_entry_bytes(es.last());
        let all = entries_bytes(es);
        assert forall|i: int| 0 <= i < es.len() implies all.subrange(16 * i, 16 * i + 16)
            == entry_bytes(#[trigger] es[i]) by {
            if i < es.len() - 1 {
                assert(es[i] == init[i]);
                assert(all.subrange(16 * i, 16 * i + 16) =~= entries_bytes(init).subrange(
                    16 * i,
                    16 * i + 16,
                ));
            } else {
                assert(all.subrange(16 * i, 16 * i + 16) =~= entry_bytes(es.last()));
            }
        }
    }
}

/// Reading a lookup table back gives the entries it was built from.
pub proof fn lemma_lookup_table_roundtrip(es: Seq<(Trigram, u64, u32)>)
    requires
        es.len() <= u64::MAX,
    ensures
        lookup_table(es).len() == 8 + 16 * es.len(),
        lookup_count(lookup_table(es)) == es.len(),
        forall|i: int|
            0 <= i < es.len() ==> {
                &&& lookup_key(lookup_table(es), i) == trigram_index((#[trigger] es[i]).0@)
                &&& lookup_offset(lookup_table(es), i) == es[i].1
                &&& lookup_postings(lookup_table(es), i) == es[i].2
                &&& lookup_table(es)[8 + 16 * i + 3] == 0
            },
{
    lemma_auto_spec_u64_to_from_le_bytes();
    lemma_entries_bytes(es);
    let t = lookup_table(es);
    let h = spec_u64_to_le_bytes(es.len() as u64);
    assert(h.len() == 8);
    assert(t.subrange(0, 8) =~= h);
    assert forall|i: int| 0 <= i < es.len() implies {
        &&& lookup_key(t, i) == trigram_index((#[trigger] es[i]).0@)
        &&& lookup_offset(t, i) == es[i].1
        &&& lookup_postings(t, i) == es[i].2
        &&& t[8 + 16 * i + 3] == 0
    } by {
        lemma_entry_bytes(es[i]);
        let eb = entries_bytes(es).subrange(16 * i, 16 * i + 16);
        assert(eb == entry_bytes(es[i]));
        assert(t.subrange(8 + 16 * i, 8 + 16 * i + 3) =~= eb.subrange(0, 3));
        assert(t[8 + 16 * i + 3] == eb[3]);
        assert(t.subrange(8 + 16 * i + 4, 8 + 16 * i + 12) =~= eb.subrange(4, 12));
        assert(t.subrange(8 + 16 * i + 12, 8 + 16 * i + 16) =~= eb.subrange(12, 16));
    }
}

/// Builds the lookup table of `entries`.
pub fn encode_lookup_table(entries: &[(Trigram, u64, u32)]) -> (buf: Vec<u8>)
    ensures
        buf@ == lookup_table(entries@),
{
    let mut buf = u64_to_le_bytes(entries.len() as u64);
    let mut i: usize = 0;
    while i < entries.len()
        invariant
            i <= entries@.len(),
            buf@ == spec_u64_to_le_bytes(entries@.len() as u64) + entries_bytes(entries@.take(i as int)),
        decreases entries@.len() - i,
    {
        let (key, off, cnt) = entries[i];
        let ghost before = buf@;
        buf.push(key[0]);
        buf.push(key[1]);
        buf.push(key[2]);
        buf.push(0);
        let mut o = u64_to_le_bytes(off);
        buf.append(&mut o);
        let mut c = u32_to_le_bytes(cnt);
        buf.append(&mut c);
        assert(entries@.take(i + 1).drop_last() =~= entries@.take(i as int));
        assert(entries@.take(i + 1).last() == entries@[i as int]);
        assert(key@ =~= seq![key[0], key[1], key[2]]);
        i += 1;
        assert(buf@ =~= spec_u64_to_le_bytes(entries@.len() as u64) + entries_bytes(entries@.take(i as int)));
    }
    assert(entries@.take(i as int) =~= entries@);
    buf
}

} // verus!
