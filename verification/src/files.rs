use vstd::prelude::*;
use vstd::bytes::{
    spec_u16_from_le_bytes, spec_u16_to_le_bytes, spec_u32_from_le_bytes, spec_u32_to_le_bytes,
    u16_from_le_bytes, u16_to_le_bytes, u32_from_le_bytes, u32_to_le_bytes,
    lemma_auto_spec_u16_to_from_le_bytes, lemma_auto_spec_u32_to_from_le_bytes,
};

verus! {

/// One entry of the path list: the path's length as a little-endian u16 (cut to
/// 16 bits), then the path's bytes.
pub open spec fn path_entry_bytes(p: Seq<u8>) -> Seq<u8> {
    spec_u16_to_le_bytes(p.len() as u16) + p
}

/// The entries of `ps`, one after the other.
pub open spec fn path_entries_bytes(ps: Seq<Seq<u8>>) -> Seq<u8>
    decreases ps.len(),
{
    if ps.len() == 0 {
        Seq::empty()
    } else {
        path_entry_bytes(ps[0]) + path_entries_bytes(ps.drop_first())
    }
}

/// The path list file: the number of paths as a little-endian u32 (cut to 32
/// bits), then one entry per path.
pub open spec fn file_list_bytes(ps: Seq<Seq<u8>>) -> Seq<u8> {
    spec_u32_to_le_bytes(ps.len() as u32) + path_entries_bytes(ps)
}

/// The `n` paths whose entries start at byte `pos` of `data`, or `None` where an
/// entry runs past the end of `data`.
pub open spec fn path_entries_at(data: Seq<u8>, pos: nat, n: nat) -> Option<Seq<Seq<u8>>>
    decreases n,
{
    if n == 0 {
        Some(Seq::empty())
    } else if pos + 2 > data.len() {
        None
    } else {
        let len = spec_u16_from_le_bytes(data.subrange(pos as int, pos + 2int)) as nat;
        if pos + 2 + len > data.len() {
            None
        } else {
            match path_entries_at(data, pos + 2 + len, (n - 1) as nat) {
                Some(rest) => Some(seq![data.subrange(pos + 2int, pos + 2int + len)] + rest),
                None => None,
            }
        }
    }
}

/// The paths that the path list file `data` holds, or `None` where it is cut short.
/// Bytes after the last entry are ignored.
pub open spec fn file_list(data: Seq<u8>) -> Option<Seq<Seq<u8>>> {
    if data.len() < 4 {
        None
    } else {
        path_entries_at(data, 4, spec_u32_from_le_bytes(data.subrange(0, 4)) as nat)
    }
}

proof fn lemma_path_entries_push(ps: Seq<Seq<u8>>, p: Seq<u8>)
    ensures
        path_entries_bytes(ps.push(p)) == path_entries_bytes(ps) + path_entry_bytes(p),
    decreases ps.len(),
{
    if ps.len() == 0 {
        let one = ps.push(p);
        assert(one.drop_first() =~= Seq::<Seq<u8>>::empty());
        assert(one[0] == p);
        assert(path_entries_bytes(one.drop_first()) =~= Seq::<u8>::empty());
        assert(path_entries_bytes(one) =~= path_entry_bytes(p));
    } else {
        lemma_path_entries_push(ps.drop_first(), p);
        assert(ps.push(p).drop_first() =~= ps.drop_first().push(p));
        assert(path_entries_bytes(ps.push(p)) =~= path_entries_bytes(ps) + path_entry_bytes(p));
    }
}

proof fn lemma_path_entries_read(data: Seq<u8>, pos: nat, ps: Seq<Seq<u8>>)
    requires
        forall|i: int| 0 <= i < ps.len() ==> #[trigger] ps[i].len() <= u16::MAX,
        pos + path_entries_bytes(ps).len() <= data.len(),
        data.subrange(pos as int, pos + path_entries_bytes(ps).len() as int) == path_entries_bytes(ps),
    ensures
        path_entries_at(data, pos, ps.len()) == Some(ps),
    decreases ps.len(),
{
    lemma_auto_spec_u16_to_from_le_bytes();
    if ps.len() == 0 {
        assert(Seq::<Seq<u8>>::empty() =~= ps);
    } else {
        let p = ps[0];
        let rest = ps.drop_first();
        let e = path_entry_bytes(p);
        let all = path_entries_bytes(ps);
        assert(spec_u16_to_le_bytes(p.len() as u16).len() == 2);
        assert((p.len() as u16) as nat == p.len());
        assert(data.subrange(pos as int, pos + 2int) =~= all.subrange(0, 2));
        assert(all.subrange(0, 2) =~= spec_u16_to_le_bytes(p.len() as u16));
        assert(data.subrange(pos + 2int, pos + 2int + p.len()) =~= all.subrange(2, 2 + p.len() as int));
        assert(all.subrange(2, 2 + p.len() as int) =~= p);
        let next = pos + 2 + p.len();
        let rb = path_entries_bytes(rest);
        assert(all =~= e + rb);
        assert(all.subrange(e.len() as int, all.len() as int) =~= rb);
        assert forall|k: int| 0 <= k < rb.len() implies data[next + k] == rb[k] by {
            assert(data.subrange(pos as int, pos + all.len() as int)[e.len() + k] == all[e.len() + k]);
        }
        assert(data.subrange(next as int, next + path_entries_bytes(rest).len() as int)
            =~= path_entries_bytes(rest));
        assert forall|i: int| 0 <= i < rest.len() implies #[trigger] rest[i].len() <= u16::MAX by {
            assert(rest[i] == ps[i + 1]);
        }
        lemma_path_entries_read(data, next, rest);
        assert(seq![p] + rest =~= ps);
    }
}

/// A path list read back gives the paths it was written from, when there are at
/// most u32::MAX of them and none is longer than u16::MAX bytes.
pub proof fn lemma_file_list_roundtrip(ps: Seq<Seq<u8>>)
    requires
        ps.len() <= u32::MAX,
        forall|i: int| 0 <= i < ps.len() ==> #[trigger] ps[i].len() <= u16::MAX,
    ensures
        file_list(file_list_bytes(ps)) == Some(ps),
{
    lemma_auto_spec_u32_to_from_le_bytes();
    let data = file_list_bytes(ps);
    let body = path_entries_bytes(ps);
    assert(spec_u32_to_le_bytes(ps.len() as u32).len() == 4);
    assert(data.subrange(0, 4) =~= spec_u32_to_le_bytes(ps.len() as u32));
    assert(data.subrange(4, 4 + body.len() as int) =~= body);
    lemma_path_entries_read(data, 4, ps);
}

/// Writes the path list file for `paths`.
pub fn encode_file_list(paths: &Vec<Vec<u8>>) -> (buf: Vec<u8>)
    ensures
        buf@ == file_list_bytes(paths.deep_view()),
{
    let ghost ps = paths.deep_view();
    let mut buf = u32_to_le_bytes(paths.len() as u32);
    let mut i: usize = 0;
    while i < paths.len()
        invariant
            i <= paths@.len(),
            ps == paths.deep_view(),
            buf@ == spec_u32_to_le_bytes(ps.len() as u32) + path_entries_bytes(ps.take(i as int)),
        decreases paths@.len() - i,
    {
        let p = &paths[i];
        assert(p.deep_view() =~= p@);
        assert(p@ == ps[i as int]);
        let mut len_bytes = u16_to_le_bytes(p.len() as u16);
        buf.append(&mut len_bytes);
        let mut j: usize = 0;
        let ghost before = buf@;
        while j < p.len()
            invariant
                j <= p@.len(),
                buf@ == before + p@.take(j as int),
            decreases p@.len() - j,
        {
            buf.push(p[j]);
            j += 1;
            assert(buf@ =~= before + p@.take(j as int));
        }
        proof {
            assert(p@.take(j as int) =~= p@);
            lemma_path_entries_push(ps.take(i as int), p@);
            assert(ps.take(i + 1) =~= ps.take(i as int).push(p@));
        }
        i += 1;
        assert(buf@ =~= spec_u32_to_le_bytes(ps.len() as u32) + path_entries_bytes(ps.take(i as int)));
    }
    assert(ps.take(i as int) =~= ps);
    buf
}

/// Reads the paths out of a path list file; `None` where an entry, or the count
/// itself, runs past the end of `data`.
pub fn parse_file_list(data: &[u8]) -> (r: Option<Vec<Vec<u8>>>)
    ensures
        match r {
            Some(ps) => file_list(data@) == Some(ps.deep_view()),
            None => file_list(data@) is None,
        },
{
    if data.len() < 4 {
        return None;
    }
    let count = u32_from_le_bytes(&data[0..4]);
    let ghost total = spec_u32_from_le_bytes(data@.subrange(0, 4)) as nat;
    let mut paths: Vec<Vec<u8>> = Vec::new();
    let mut pos: usize = 4;
    let mut i: u32 = 0;
    while i < count
        invariant
            count == total,
            i <= count,
            4 <= pos <= data@.len(),
            file_list(data@) == match path_entries_at(data@, pos as nat, (count - i) as nat) {
                Some(rest) => Some(paths.deep_view() + rest),
                None => None::<Seq<Seq<u8>>>,
            },
        decreases count - i,
    {
        if data.len() - pos < 2 {
            return None;
        }
        let len = u16_from_le_bytes(&data[pos..pos + 2]) as usize;
        if data.len() - pos - 2 < len {
            return None;
        }
        let start = pos + 2;
        let end = start + len;
        let mut p: Vec<u8> = Vec::new();
        let mut k: usize = start;
        while k < end
            invariant
                start <= k <= end,
                end <= data@.len(),
                p@ == data@.subrange(start as int, k as int),
            decreases end - k,
        {
            p.push(data[k]);
            k += 1;
            assert(p@ =~= data@.subrange(start as int, k as int));
        }
        let ghost old_view = paths.deep_view();
        let ghost old_vec = paths@;
        let ghost pv = p@;
        paths.push(p);
        proof {
            assert(paths@[old_vec.len() as int].deep_view() =~= pv);
            assert(paths.deep_view() =~= old_view.push(data@.subrange(start as int, end as int)));
            let rest = path_entries_at(data@, end as nat, (count - i - 1) as nat);
            match rest {
                Some(r) => {
                    assert(old_view + (seq![data@.subrange(start as int, end as int)] + r)
                        =~= paths.deep_view() + r);
                },
                None => {},
            }
        }
        pos = end;
        i += 1;
    }
    proof {
        assert(paths.deep_view() + Seq::<Seq<u8>>::empty() =~= paths.deep_view());
    }
    Some(paths)
}

} // verus!
