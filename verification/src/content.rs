use vstd::prelude::*;
use vstd::bytes::{
    spec_u32_from_le_bytes, spec_u32_to_le_bytes, spec_u64_from_le_bytes, spec_u64_to_le_bytes,
    u32_from_le_bytes, u32_to_le_bytes, u64_from_le_bytes, u64_to_le_bytes,
    lemma_auto_spec_u32_to_from_le_bytes, lemma_auto_spec_u64_to_from_le_bytes,
};

verus! {

/// Files larger than this are not indexed.
pub const MAX_INDEXED_FILE: usize = 1_000_000;

/// How much of the start of a file is searched for a zero byte.
pub const BINARY_PROBE_LEN: usize = 8192;

/// A file is indexed when it holds 3 to 1,000,000 bytes and no zero byte in its first 8192 bytes.
pub open spec fn indexable(data: Seq<u8>) -> bool {
    &&& 3 <= data.len() <= MAX_INDEXED_FILE
    &&& forall|i: int| 0 <= i < data.len() && i < BINARY_PROBE_LEN ==> data[i] != 0
}

/// Which files are indexed: none under 3 bytes or over 1,000,000 bytes, none
/// with a zero byte anywhere among its first 8192 bytes (whatever its length),
/// and every other one.
pub proof fn lemma_indexable_cases(data: Seq<u8>)
    ensures
        data.len() < 3 ==> !indexable(data),
        data.len() > 1_000_000 ==> !indexable(data),
        forall|i: int| 0 <= i < data.len() && i < 8192 && data[i] == 0 ==> !indexable(data),
        3 <= data.len() <= 1_000_000 && (forall|i: int| 0 <= i < data.len() && i < 8192 ==> data[i] != 0)
            ==> indexable(data),
{
}

/// Whether a file's contents are indexed (long enough, not too long, not binary).
pub fn is_indexable(data: &[u8]) -> (b: bool)
    ensures
        b == indexable(data@),
{
    if data.len() < 3 || data.len() > MAX_INDEXED_FILE {
        return false;
    }
    let end = if data.len() < BINARY_PROBE_LEN { data.len() } else { BINARY_PROBE_LEN };
    let mut i: usize = 0;
    while i < end
        invariant
            end <= data@.len(),
            end == data@.len() || end == BINARY_PROBE_LEN,
            end <= BINARY_PROBE_LEN,
            i <= end,
            forall|k: int| 0 <= k < i ==> data@[k] != 0,
        decreases end - i,
    {
        if data[i] == 0 {
            assert(data@[i as int] == 0 && (i as int) < BINARY_PROBE_LEN);
            return false;
        }
        i += 1;
    }
    true
}

/// The number of entries the content header `data` declares.
pub open spec fn header_count(data: Seq<u8>) -> u32 {
    spec_u32_from_le_bytes(data.subrange(0, 4))
}

/// Entry `i` of the content header `data`: a file's offset and length in the content file.
pub open spec fn header_entry(data: Seq<u8>, i: int) -> (u64, u32) {
    (
        spec_u64_from_le_bytes(data.subrange(4 + 12 * i, 4 + 12 * i + 8)),
        spec_u32_from_le_bytes(data.subrange(4 + 12 * i + 8, 4 + 12 * i + 12)),
    )
}

/// All entries that the content header `data` declares.
pub open spec fn header_entries(data: Seq<u8>) -> Seq<(u64, u32)> {
    Seq::new(header_count(data) as nat, |i: int| header_entry(data, i))
}

/// The bytes of one content header entry.
pub open spec fn header_entry_bytes(e: (u64, u32)) -> Seq<u8> {
    spec_u64_to_le_bytes(e.0) + spec_u32_to_le_bytes(e.1)
}

/// The bytes of a run of content header entries.
pub open spec fn header_entries_bytes(es: Seq<(u64, u32)>) -> Seq<u8>
    decreases es.len(),
{
    if es.len() == 0 {
        Seq::empty()
    } else {
        header_entries_bytes(es.drop_last()) + header_entry_bytes(es.last())
    }
}

/// `s` cut or padded with zero bytes to length `n`.
pub open spec fn fit_to(s: Seq<u8>, n: nat) -> Seq<u8> {
    if s.len() >= n {
        s.take(n as int)
    } else {
        s + Seq::new((n - s.len()) as nat, |i: int| 0u8)
    }
}

/// The content header of `es`, made exactly `size` bytes long: the entry count
/// (as a u32) and the entries, then zero bytes.
pub open spec fn content_header(es: Seq<(u64, u32)>, size: nat) -> Seq<u8> {
    fit_to(spec_u32_to_le_bytes(es.len() as u32) + header_entries_bytes(es), size)
}

proof fn lemma_header_entries_bytes(es: Seq<(u64, u32)>)
    ensures
        header_entries_bytes(es).len() == 12 * es.len(),
        forall|i: int|
            0 <= i < es.len() ==> header_entries_bytes(es).subrange(12 * i, 12 * i + 12)
                == header_entry_bytes(#[trigger] es[i]),
    decreases es.len(),
{
    lemma_auto_spec_u64_to_from_le_bytes();
    lemma_auto_spec_u32_to_from_le_bytes();
    if es.len() > 0 {
        let init = es.drop_last();
        lemma_header_entries_bytes(init);
        let all = header_entries_bytes(es);
        assert(spec_u64_to_le_bytes(es.last().0).len() == 8);
        assert(spec_u32_to_le_bytes(es.last().1).len() == 4);
        assert forall|i: int| 0 <= i < es.len() implies all.subrange(12 * i, 12 * i + 12)
            == header_entry_bytes(#[trigger] es[i]) by {
            if i < es.len() - 1 {
                assert(es[i] == init[i]);
                assert(all.subrange(12 * i, 12 * i + 12) =~= header_entries_bytes(init).subrange(
                    12 * i,
                    12 * i + 12,
                ));
            } else {
                assert(all.subrange(12 * i, 12 * i + 12) =~= header_entry_bytes(es.last()));
            }
        }
    }
}

/// A content header read back gives the entries it was written from, when it
/// has room for them and their number fits in a u32.
pub proof fn lemma_content_header_roundtrip(es: Seq<(u64, u32)>, size: nat)
    requires
        es.len() <= u32::MAX,
        4 + 12 * es.len() <= size,
    ensures
        content_header(es, size).len() == size,
        header_entries(content_header(es, size)) == es,
{
    lemma_auto_spec_u64_to_from_le_bytes();
    lemma_auto_spec_u32_to_from_le_bytes();
    lemma_header_entries_bytes(es);
    let raw = spec_u32_to_le_bytes(es.len() as u32) + header_entries_bytes(es);
    let h = content_header(es, size);
    assert(spec_u32_to_le_bytes(es.len() as u32).len() == 4);
    assert(h.subrange(0, 4) =~= spec_u32_to_le_bytes(es.len() as u32));
    assert forall|i: int| 0 <= i < es.len() implies header_entry(h, i) == es[i] by {
        let eb = header_entries_bytes(es).subrange(12 * i, 12 * i + 12);
        assert(eb == header_entry_bytes(es[i]));
        assert(spec_u64_to_le_bytes(es[i].0).len() == 8);
        assert(raw.subrange(4 + 12 * i, 4 + 12 * i + 12) =~= eb);
        assert(h.subrange(4 + 12 * i, 4 + 12 * i + 12) =~= raw.subrange(4 + 12 * i, 4 + 12 * i + 12));
        assert(eb.subrange(0, 8) =~= spec_u64_to_le_bytes(es[i].0));
        assert(eb.subrange(8, 12) =~= spec_u32_to_le_bytes(es[i].1));
        assert(h.subrange(4 + 12 * i, 4 + 12 * i + 8) =~= eb.subrange(0, 8));
        assert(h.subrange(4 + 12 * i + 8, 4 + 12 * i + 12) =~= eb.subrange(8, 12));
    }
    assert(header_entries(h) =~= es);
}

/// Builds the content header of `entries`, cut or zero-padded to `header_size` bytes.
pub fn encode_content_header(entries: &[(u64, u32)], header_size: usize) -> (buf: Vec<u8>)
    ensures
        buf@ == content_header(entries@, header_size as nat),
{
    let mut buf = u32_to_le_bytes(entries.len() as u32);
    let mut i: usize = 0;
    while i < entries.len()
        invariant
            i <= entries@.len(),
            buf@ == spec_u32_to_le_bytes(entries@.len() as u32) + header_entries_bytes(entries@.take(i as int)),
        decreases entries@.len() - i,
    {
        let (off, len) = entries[i];
        let mut o = u64_to_le_bytes(off);
        buf.append(&mut o);
        let mut l = u32_to_le_bytes(len);
        buf.append(&mut l);
        assert(entries@.take(i + 1).drop_last() =~= entries@.take(i as int));
        assert(entries@.take(i + 1).last() == entries@[i as int]);
        i += 1;
        assert(buf@ =~= spec_u32_to_le_bytes(entries@.len() as u32) + header_entries_bytes(entries@.take(i as int)));
    }
    assert(entries@.take(i as int) =~= entries@);
    let ghost raw = buf@;
    if buf.len() >= header_size {
        buf.truncate(header_size);
        assert(buf@ =~= fit_to(raw, header_size as nat));
    } else {
        while buf.len() < header_size
            invariant
                raw.len() <= buf@.len() <= header_size,
                buf@ =~= raw + Seq::new((buf@.len() - raw.len()) as nat, |i: int| 0u8),
            decreases header_size - buf@.len(),
        {
            buf.push(0);
        }
        assert(buf@ =~= fit_to(raw, header_size as nat));
    }
    buf
}

/// Reads the file offsets and lengths out of a content header.
pub fn parse_content_header(data: &[u8]) -> (entries: Vec<(u64, u32)>)
    requires
        data@.len() >= 4,
        data@.len() >= 4 + 12 * header_count(data@),
    ensures
        entries@ == header_entries(data@),
{
    let count = u32_from_le_bytes(&data[0..4]) as usize;
    let mut offsets: Vec<(u64, u32)> = Vec::new();
    let mut pos: usize = 4;
    let mut i: usize = 0;
    let n = data.len();
    while i < count
        invariant
            n == data@.len(),
            count == header_count(data@),
            data@.len() >= 4 + 12 * count,
            i <= count,
            pos == 4 + 12 * i,
            offsets@ =~= header_entries(data@).take(i as int),
        decreases count - i,
    {
        assert(pos + 12 <= 4 + 12 * count) by (nonlinear_arith)
            requires
                pos == 4 + 12 * i,
                i < count,
        ;
        let offset = u64_from_le_bytes(&data[pos..pos + 8]);
        let length = u32_from_le_bytes(&data[pos + 8..pos + 12]);
        offsets.push((offset, length));
        pos += 12;
        i += 1;
    }
    offsets
}

/// The entries `es` lie back to back in the content file from byte `start` on,
/// ending at byte `end`.
pub open spec fn contiguous(es: Seq<(u64, u32)>, start: u64, end: u64) -> bool
    decreases es.len(),
{
    if es.len() == 0 {
        start == end
    } else {
        &&& es.last().0 + es.last().1 == end
        &&& contiguous(es.drop_last(), start, es.last().0)
    }
}

/// Entries laid out back to back: the first starts at `start`, each next one
/// where the one before it ends, and the last ends at `end`.
pub proof fn lemma_back_to_back(es: Seq<(u64, u32)>, start: u64, end: u64)
    requires
        contiguous(es, start, end),
    ensures
        es.len() == 0 ==> start == end,
        es.len() > 0 ==> es[0].0 == start && es.last().0 + es.last().1 == end,
        forall|k: int| 0 <= k < es.len() - 1 ==> #[trigger] es[k + 1].0 == es[k].0 + es[k].1,
    decreases es.len(),
{
    if es.len() > 0 {
        let init = es.drop_last();
        lemma_back_to_back(init, start, es.last().0);
        if init.len() > 0 {
            assert(init[0] == es[0]);
        }
        assert forall|k: int| 0 <= k < es.len() - 1 implies #[trigger] es[k + 1].0 == es[k].0 + es[k].1 by {
            assert(es[k] == init[k]);
            if k + 1 < init.len() {
                assert(es[k + 1] == init[k + 1]);
            } else {
                assert(init.last() == es[k]);
            }
        }
    }
}

/// Where the contents of the indexed files go in the content file: one after
/// the other, from the end of the header on.
pub struct ContentLayout {
    start: u64,
    next: u64,
    entries: Vec<(u64, u32)>,
}

impl ContentLayout {
    /// The entries laid out so far: each file's offset and length.
    pub closed spec fn entries_view(&self) -> Seq<(u64, u32)> {
        self.entries@
    }

    /// Where the first file's contents go.
    pub closed spec fn start_view(&self) -> u64 {
        self.start
    }

    /// Where the next file's contents go.
    pub closed spec fn next_view(&self) -> u64 {
        self.next
    }

    /// The files' contents lie back to back from the start on.
    pub closed spec fn wf(&self) -> bool {
        contiguous(self.entries@, self.start, self.next)
    }

    /// A well-formed layout's entries lie back to back from its start to its next offset.
    pub proof fn lemma_layout(&self)
        requires
            self.wf(),
        ensures
            contiguous(self.entries_view(), self.start_view(), self.next_view()),
    {
    }

    /// No file yet; contents start at byte `header_size`.
    pub fn new(header_size: u64) -> (l: Self)
        ensures
            l.wf(),
            l.entries_view() == Seq::<(u64, u32)>::empty(),
            l.start_view() == header_size,
            l.next_view() == header_size,
    {
        ContentLayout { start: header_size, next: header_size, entries: Vec::new() }
    }

    /// Places the next file, `len` bytes long, right after the previous one.
    pub fn add(&mut self, len: u32)
        requires
            old(self).wf(),
            old(self).next_view() + len <= u64::MAX,
        ensures
            final(self).wf(),
            final(self).entries_view() == old(self).entries_view().push((old(self).next_view(), len)),
            final(self).start_view() == old(self).start_view(),
            final(self).next_view() == old(self).next_view() + len,
    {
        let ghost before = self.entries@;
        self.entries.push((self.next, len));
        self.next = self.next + len as u64;
        assert(self.entries@.drop_last() =~= before);
    }

    /// The entries laid out so far.
    pub fn entries(&self) -> (es: &Vec<(u64, u32)>)
        ensures
            es@ == self.entries_view(),
    {
        &self.entries
    }

    /// Where the next file's contents go (the end of the content file so far).
    pub fn end(&self) -> (n: u64)
        ensures
            n == self.next_view(),
    {
        self.next
    }
}

} // verus!
