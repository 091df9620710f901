use vstd::prelude::*;

verus! {

/// The line starts with `repo_dir=`.
pub open spec fn repo_dir_line(l: Seq<u8>) -> bool {
    l.len() >= 9 && l[0] == 114 && l[1] == 101 && l[2] == 112 && l[3] == 111 && l[4] == 95
        && l[5] == 100 && l[6] == 105 && l[7] == 114 && l[8] == 61
}

/// `l` with every leading `repo_dir=` taken off.
pub open spec fn strip_repo_dir_prefixes(l: Seq<u8>) -> Seq<u8>
    decreases l.len(),
{
    if repo_dir_line(l) {
        strip_repo_dir_prefixes(l.skip(9))
    } else {
        l
    }
}

/// A line ended by a line feed, without a carriage return just before it.
pub open spec fn line_before_feed(cur: Seq<u8>) -> Seq<u8> {
    if cur.len() > 0 && cur.last() == 13 {
        cur.drop_last()
    } else {
        cur
    }
}

/// The first line that starts with `repo_dir=`, reading `s` from byte `i` on,
/// `cur` being the current line so far.
pub open spec fn repo_line_from(s: Seq<u8>, i: int, cur: Seq<u8>) -> Option<Seq<u8>>
    decreases s.len() - i,
{
    if i < 0 || i >= s.len() {
        if repo_dir_line(cur) {
            Some(cur)
        } else {
            None
        }
    } else if s[i] == 10 {
        if repo_dir_line(line_before_feed(cur)) {
            Some(line_before_feed(cur))
        } else {
            repo_line_from(s, i + 1, Seq::empty())
        }
    } else {
        repo_line_from(s, i + 1, cur.push(s[i]))
    }
}

/// The repository root that an index's metadata `s` records: the first line
/// (lines end at a line feed, or at a carriage return and line feed) that
/// starts with `repo_dir=`, with every leading `repo_dir=` taken off; empty
/// when there is no such line.
pub open spec fn recorded_repo_dir(s: Seq<u8>) -> Seq<u8> {
    match repo_line_from(s, 0, Seq::empty()) {
        Some(l) => strip_repo_dir_prefixes(l),
        None => Seq::empty(),
    }
}

/// The bytes `repo_dir=`.
pub open spec fn repo_dir_key() -> Seq<u8> {
    seq![114u8, 101, 112, 111, 95, 100, 105, 114, 61]
}

proof fn lemma_scan_line(s: Seq<u8>, i: int, cur: Seq<u8>, d: Seq<u8>)
    requires
        0 <= i,
        i + d.len() < s.len(),
        s.subrange(i, i + d.len()) == d,
        s[i + d.len()] == 10,
        forall|k: int| 0 <= k < d.len() ==> d[k] != 10,
    ensures
        repo_line_from(s, i, cur) == if repo_dir_line(line_before_feed(cur + d)) {
            Some(line_before_feed(cur + d))
        } else {
            repo_line_from(s, i + d.len() + 1, Seq::empty())
        },
    decreases d.len(),
{
    if d.len() == 0 {
        assert(cur + d =~= cur);
    } else {
        assert(s[i] == d[0]);
        assert(s[i] != 10);
        let d2 = d.drop_first();
        assert(s.subrange(i + 1, i + 1 + d2.len()) =~= d2);
        lemma_scan_line(s, i + 1, cur.push(s[i]), d2);
        assert(cur.push(s[i]) + d2 =~= cur + d);
    }
}

/// The metadata's repository root is the whole rest of its first `repo_dir=`
/// line, spaces and all: for a first line `repo_dir=` then `d` (no line feed in
/// `d`, no carriage return ending it, and `d` not itself starting with
/// `repo_dir=`), whatever follows the line, the root read back is `d`.
pub proof fn lemma_repo_dir_first_line(d: Seq<u8>, rest: Seq<u8>)
    requires
        forall|k: int| 0 <= k < d.len() ==> d[k] != 10,
        d.len() == 0 || d.last() != 13,
        !repo_dir_line(d),
    ensures
        recorded_repo_dir(repo_dir_key() + d + seq![10u8] + rest) == d,
{
    let s = repo_dir_key() + d + seq![10u8] + rest;
    let line = repo_dir_key() + d;
    assert(s.subrange(0, line.len() as int) =~= line);
    assert(s[line.len() as int] == 10);
    assert forall|k: int| 0 <= k < line.len() implies line[k] != 10 by {
        if k >= 9 {
            assert(line[k] == d[k - 9]);
        }
    }
    lemma_scan_line(s, 0, Seq::empty(), line);
    assert(Seq::<u8>::empty() + line =~= line);
    if d.len() == 0 {
        assert(line.last() == 61);
    } else {
        assert(line.last() == d.last());
    }
    assert(line_before_feed(line) == line);
    assert(repo_dir_line(line));
    assert(line.skip(9) =~= d);
    assert(strip_repo_dir_prefixes(d) == d);
    assert(strip_repo_dir_prefixes(line) == strip_repo_dir_prefixes(line.skip(9)));
    assert(repo_line_from(s, 0, Seq::empty()) == Some(line));
}

fn is_repo_dir_line(l: &[u8], from: usize) -> (b: bool)
    requires
        from <= l@.len(),
    ensures
        b == repo_dir_line(l@.skip(from as int)),
{
    let n = l.len() - from;
    n >= 9 && l[from] == 114 && l[from + 1] == 101 && l[from + 2] == 112 && l[from + 3] == 111
        && l[from + 4] == 95 && l[from + 5] == 100 && l[from + 6] == 105 && l[from + 7] == 114
        && l[from + 8] == 61
}

fn strip_prefixes(l: &[u8]) -> (r: Vec<u8>)
    ensures
        r@ == strip_repo_dir_prefixes(l@),
{
    let mut from: usize = 0;
    let n = l.len();
    assert(l@.skip(0) =~= l@);
    while is_repo_dir_line(l, from)
        invariant
            n == l@.len(),
            from <= l@.len(),
            strip_repo_dir_prefixes(l@) == strip_repo_dir_prefixes(l@.skip(from as int)),
        decreases l@.len() - from,
    {
        assert(repo_dir_line(l@.skip(from as int)));
        assert(l@.skip(from as int).len() == l@.len() - from);
        assert(l@.skip(from as int).skip(9) =~= l@.skip(from + 9));
        assert(from + 9 <= l@.len());
        from += 9;
    }
    let mut r: Vec<u8> = Vec::new();
    let mut k: usize = from;
    while k < l.len()
        invariant
            from <= k <= l@.len(),
            r@ == l@.subrange(from as int, k as int),
        decreases l@.len() - k,
    {
        r.push(l[k]);
        k += 1;
        assert(r@ =~= l@.subrange(from as int, k as int));
    }
    assert(l@.subrange(from as int, k as int) =~= l@.skip(from as int));
    r
}

/// Reads the repository root out of an index's metadata.
pub fn parse_repo_dir(meta: &[u8]) -> (dir: Vec<u8>)
    ensures
        dir@ == recorded_repo_dir(meta@),
{
    let mut start: usize = 0;
    let mut i: usize = 0;
    assert(meta@.subrange(0, 0) =~= Seq::<u8>::empty());
    while i < meta.len()
        invariant
            start <= i <= meta@.len(),
            repo_line_from(meta@, 0, Seq::empty()) == repo_line_from(
                meta@,
                i as int,
                meta@.subrange(start as int, i as int),
            ),
        decreases meta@.len() - i,
    {
        if meta[i] == 10 {
            let end = if i > start && meta[i - 1] == 13 { i - 1 } else { i };
            let line = &meta[start..end];
            assert(line@ =~= line_before_feed(meta@.subrange(start as int, i as int)));
            if is_repo_dir_line(line, 0) {
                assert(line@.skip(0) =~= line@);
                return strip_prefixes(line);
            }
            assert(line@.skip(0) =~= line@);
            start = i + 1;
            assert(meta@.subrange(start as int, i + 1) =~= Seq::<u8>::empty());
        } else {
            assert(meta@.subrange(start as int, i as int).push(meta@[i as int]) =~= meta@.subrange(
                start as int,
                i + 1,
            ));
        }
        i += 1;
    }
    let line = &meta[start..i];
    assert(line@.skip(0) =~= line@);
    if is_repo_dir_line(line, 0) {
        strip_prefixes(line)
    } else {
        Vec::new()
    }
}

} // verus!
