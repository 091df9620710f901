use vstd::prelude::*;

verus! {

/// The variable-length encoding of `v`: seven bits per byte, least significant
/// group first, with the high bit set on every byte but the last.
pub open spec fn varint(v: u32) -> Seq<u8>
    decreases v,
{
    if v < 128 {
        seq![v as u8]
    } else {
        seq![((v % 128) + 128) as u8] + varint((v / 128) as u32)
    }
}

/// The delta encoding of a list of file ids: each id minus the one before it
/// (the first one minus `prev`), each difference as a varint.
pub open spec fn encode_postings_from(fids: Seq<u32>, prev: u32) -> Seq<u8>
    decreases fids.len(),
{
    if fids.len() == 0 {
        Seq::empty()
    } else {
        varint((fids[0] - prev) as u32) + encode_postings_from(fids.drop_first(), fids[0])
    }
}

/// The posting list encoding of `fids`.
pub open spec fn encode_postings(fids: Seq<u32>) -> Seq<u8> {
    encode_postings_from(fids, 0)
}

/// `fids` never decreases.
pub open spec fn nondecreasing(fids: Seq<u32>) -> bool {
    forall|a: int, b: int| 0 <= a <= b < fids.len() ==> #[trigger] fids[a] <= #[trigger] fids[b]
}

/// Reads one varint from `data` at `p`: the bits read so far are `acc`, and the
/// next group goes at bit `shift` (taken modulo 32). Reading stops after a byte
/// below 128 or at the end of `data`; the result is the value and the position after it.
pub open spec fn read_varint(data: Seq<u8>, p: int, shift: u32, acc: u32) -> (u32, int)
    decreases data.len() - p,
{
    if p < 0 || p >= data.len() {
        (acc, p)
    } else {
        let b = data[p];
        let acc2 = acc | (((b & 0x7F) as u32) << (shift % 32));
        if b < 128 {
            (acc2, p + 1)
        } else {
            read_varint(data, p + 1, shift.wrapping_add(7), acc2)
        }
    }
}

/// Decodes `count` delta-encoded ids from `data` at `p`, each added (mod 2^32) to the one before.
pub open spec fn decode_postings_from(data: Seq<u8>, p: int, prev: u32, count: nat) -> Seq<u32>
    decreases count,
{
    if count == 0 {
        Seq::empty()
    } else {
        let (val, p2) = read_varint(data, p, 0, 0);
        let x = prev.wrapping_add(val);
        seq![x] + decode_postings_from(data, p2, x, (count - 1) as nat)
    }
}

/// The `count` file ids that a posting list in `data` holds.
pub open spec fn decode_postings(data: Seq<u8>, count: nat) -> Seq<u32> {
    decode_postings_from(data, 0, 0, count)
}

proof fn lemma_varint_last_byte(v: u32)
    by (bit_vector)
    requires
        v < 128,
    ensures
        (v as u8) & 0x7F == v as u8,
        (v as u8) < 128,
        ((v as u8) & 0x7F) as u32 == v,
{
}

proof fn lemma_varint_byte(v: u32)
    by (bit_vector)
    requires
        v >= 128,
    ensures
        (((v % 128) + 128) as u8) >= 128,
        ((((v % 128) + 128) as u8) & 0x7F) as u32 == v % 128,
        (v & 0x7F) as u8 | 0x80 == ((v % 128) + 128) as u8,
        v >> 7 == v / 128,
{
}

proof fn lemma_or_low(a: u32, v: u32, s: u32)
    by (bit_vector)
    requires
        s < 32,
        a < (1u32 << s),
        v < 128,
        (v << s) >> s == v,
    ensures
        a | (v << s) == a + (v << s),
        a + (v << s) <= 0xFFFF_FFFF,
{
}

proof fn lemma_or_step(a: u32, v: u32, s: u32)
    by (bit_vector)
    requires
        s < 32,
        a < (1u32 << s),
        v >= 128,
        (v << s) >> s == v,
    ensures
        s + 7 < 32,
        (a | ((v % 128) << s)) < (1u32 << (s + 7)),
        (((v / 128) << (s + 7)) >> (s + 7)) == v / 128,
        (a | ((v % 128) << s)) + ((v / 128) << (s + 7)) == a + (v << s),
        a + (v << s) <= 0xFFFF_FFFF,
{
}

/// Reading a varint gives back the value that was encoded.
proof fn lemma_read_varint(data: Seq<u8>, p: int, v: u32, s: u32, a: u32)
    requires
        0 <= p,
        p + varint(v).len() <= data.len(),
        forall|k: int| 0 <= k < varint(v).len() ==> data[p + k] == #[trigger] varint(v)[k],
        s < 32,
        a < (1u32 << s),
        (v << s) >> s == v,
    ensures
        a + (v << s) <= 0xFFFF_FFFF,
        read_varint(data, p, s, a) == ((a + (v << s)) as u32, p + varint(v).len()),
    decreases v,
{
    assert(data[p + 0] == varint(v)[0]);
    if v < 128 {
        lemma_varint_last_byte(v);
        lemma_or_low(a, v, s);
    } else {
        lemma_varint_byte(v);
        lemma_or_step(a, v, s);
        let w = (v / 128) as u32;
        let a2 = a | ((v % 128) << s);
        assert(s % 32 == s);
        assert((data[p] & 0x7F) as u32 == v % 128);
        assert forall|k: int| 0 <= k < varint(w).len() implies data[(p + 1) + k] == #[trigger] varint(w)[k] by {
            assert(varint(v)[k + 1] == varint(w)[k]);
        }
        lemma_read_varint(data, p + 1, w, (s + 7) as u32, a2);
    }
}

proof fn lemma_shift_zero(v: u32)
    by (bit_vector)
    ensures
        (v << 0u32) >> 0u32 == v,
        0u32 + (v << 0u32) == v,
        0u32 < (1u32 << 0u32),
{
}

/// Decoding an encoded posting list gives back the list.
proof fn lemma_decode_encode_from(data: Seq<u8>, p: int, fids: Seq<u32>, prev: u32)
    requires
        0 <= p,
        p + encode_postings_from(fids, prev).len() <= data.len(),
        forall|k: int|
            0 <= k < encode_postings_from(fids, prev).len() ==> data[p + k]
                == #[trigger] encode_postings_from(fids, prev)[k],
        nondecreasing(fids),
        fids.len() > 0 ==> prev <= fids[0],
    ensures
        decode_postings_from(data, p, prev, fids.len()) == fids,
    decreases fids.len(),
{
    if fids.len() > 0 {
        let d = (fids[0] - prev) as u32;
        let rest = encode_postings_from(fids.drop_first(), fids[0]);
        assert(encode_postings_from(fids, prev) == varint(d) + rest);
        assert forall|k: int| 0 <= k < varint(d).len() implies data[p + k] == #[trigger] varint(d)[k] by {
            assert(encode_postings_from(fids, prev)[k] == varint(d)[k]);
        }
        lemma_shift_zero(d);
        lemma_read_varint(data, p, d, 0, 0);
        let p2 = p + varint(d).len();
        assert forall|k: int| 0 <= k < rest.len() implies data[p2 + k] == #[trigger] rest[k] by {
            assert(encode_postings_from(fids, prev)[varint(d).len() + k] == rest[k]);
        }
        let tail = fids.drop_first();
        assert(nondecreasing(tail)) by {
            assert forall|a: int, b: int| 0 <= a <= b < tail.len() implies #[trigger] tail[a] <= #[trigger] tail[b] by {
                assert(tail[a] == fids[a + 1] && tail[b] == fids[b + 1]);
            }
        }
        if tail.len() > 0 {
            assert(tail[0] == fids[1]);
        }
        lemma_decode_encode_from(data, p2, tail, fids[0]);
        assert(prev.wrapping_add(d) == fids[0]);
        assert(decode_postings_from(data, p, prev, fids.len()) =~= fids);
    }
}

/// A posting list read back from the front of its encoding, with anything after
/// it, is the list that was encoded.
pub proof fn lemma_postings_roundtrip(fids: Seq<u32>, rest: Seq<u8>)
    requires
        nondecreasing(fids),
    ensures
        decode_postings(encode_postings(fids) + rest, fids.len()) == fids,
{
    let data = encode_postings(fids) + rest;
    lemma_decode_encode_from(data, 0, fids, 0);
}


/// Appends the varint encoding of `v` to `out`.
pub fn push_varint(out: &mut Vec<u8>, v: u32)
    ensures
        final(out)@ == old(out)@ + varint(v),
{
    let ghost target = out@ + varint(v);
    let mut val = v;
    loop
        invariant_except_break
            out@ + varint(val) == target,
        ensures
            out@ == target,
        decreases val,
    {
        if val < 128 {
            out.push(val as u8);
            assert(out@ =~= target);
            break;
        }
        proof {
            lemma_varint_byte(val);
        }
        let ghost before = out@;
        out.push((val & 0x7F) as u8 | 0x80);
        val = val >> 7;
        assert(out@ + varint(val) =~= target);
    }
}

/// Appends the delta encoding of the ascending file ids `fids` to `out`.
pub fn encode_posting_list(fids: &[u32], out: &mut Vec<u8>)
    requires
        nondecreasing(fids@),
    ensures
        final(out)@ == old(out)@ + encode_postings(fids@),
{
    let ghost target = out@ + encode_postings(fids@);
    let mut prev: u32 = 0;
    let mut i: usize = 0;
    assert(fids@.skip(0) =~= fids@);
    while i < fids.len()
        invariant
            i <= fids@.len(),
            nondecreasing(fids@),
            prev == if i == 0 { 0 } else { fids@[i - 1] },
            out@ + encode_postings_from(fids@.skip(i as int), prev) == target,
        decreases fids@.len() - i,
    {
        let fid = fids[i];
        if i > 0 {
            assert(fids@[i - 1] <= fids@[i as int]);
        }
        let ghost before = out@;
        assert(fids@.skip(i as int).drop_first() =~= fids@.skip(i + 1));
        assert(fids@.skip(i as int)[0] == fid);
        push_varint(out, fid - prev);
        prev = fid;
        i += 1;
        assert(out@ + encode_postings_from(fids@.skip(i as int), prev) =~= target);
    }
    assert(encode_postings_from(fids@.skip(i as int), prev) =~= Seq::<u8>::empty());
    assert(out@ =~= target);
}

/// Decodes `count` file ids from the front of a delta-encoded posting list.
/// Reading stops early at the end of `data`; the sums and shifts wrap.
pub fn decode_posting_list(data: &[u8], count: usize) -> (ids: Vec<u32>)
    ensures
        ids@ == decode_postings(data@, count as nat),
{
    let mut result: Vec<u32> = Vec::new();
    let mut p: usize = 0;
    let mut prev: u32 = 0;
    let mut i: usize = 0;
    while i < count
        invariant
            i <= count,
            p <= data@.len(),
            result@ + decode_postings_from(data@, p as int, prev, (count - i) as nat)
                == decode_postings(data@, count as nat),
        decreases count - i,
    {
        let ghost p0 = p;
        let mut val: u32 = 0;
        let mut shift: u32 = 0;
        loop
            invariant_except_break
                read_varint(data@, p as int, shift, val) == read_varint(data@, p0 as int, 0, 0),
            invariant
                p0 <= p <= data@.len(),
            ensures
                p0 <= p <= data@.len(),
                read_varint(data@, p0 as int, 0, 0) == (val, p as int),
            decreases data@.len() - p,
        {
            if p >= data.len() {
                break;
            }
            let byte = data[p];
            p += 1;
            val = val | (((byte & 0x7F) as u32) << (shift % 32));
            if byte < 128 {
                break;
            }
            shift = shift.wrapping_add(7);
        }
        let ghost old_prev = prev;
        prev = prev.wrapping_add(val);
        let ghost before = result@;
        result.push(prev);
        i += 1;
        assert(result@ + decode_postings_from(data@, p as int, prev, (count - i) as nat) =~= before
            + decode_postings_from(data@, p0 as int, old_prev, (count - i + 1) as nat));
    }
    assert(decode_postings_from(data@, p as int, prev, 0) =~= Seq::<u32>::empty());
    assert(result@ =~= decode_postings(data@, count as nat));
    result
}

} // verus!
