use vstd::prelude::*;
use crate::freq::FrequencyTable;

verus! {

/// The weight of every adjacent byte pair of `bytes`, in order.
pub open spec fn pair_weights(bytes: Seq<u8>, freq: FrequencyTable) -> Seq<u8> {
    if bytes.len() < 2 {
        Seq::empty()
    } else {
        Seq::new((bytes.len() - 1) as nat, |i: int| freq.weight_of(bytes[i], bytes[i + 1]))
    }
}

/// Computes the weight of each adjacent byte pair of `bytes`.
pub fn compute_weights(bytes: &[u8], freq: &FrequencyTable) -> (w: Vec<u8>)
    ensures
        w@ == pair_weights(bytes@, *freq),
{
    let mut w: Vec<u8> = Vec::new();
    if bytes.len() < 2 {
        return w;
    }
    let n = bytes.len() - 1;
    let mut i: usize = 0;
    while i < n
        invariant
            n == bytes@.len() - 1,
            i <= n,
            w@.len() == i,
            forall|k: int| 0 <= k < i ==> w@[k] == freq.weight_of(bytes@[k], bytes@[k + 1]),
        decreases n - i,
    {
        w.push(freq.weight(bytes[i], bytes[i + 1]));
        i += 1;
    }
    assert(w@ =~= pair_weights(bytes@, *freq));
    w
}


/// The indices `i` in `0..n` for which `p(i)` holds, in ascending order.
pub open spec fn indices_where(n: int, p: spec_fn(int) -> bool) -> Seq<usize>
    decreases n,
{
    if n <= 0 {
        Seq::empty()
    } else {
        let prev = indices_where(n - 1, p);
        if p(n - 1) {
            prev.push((n - 1) as usize)
        } else {
            prev
        }
    }
}

/// `i` is a local maximum of `w` (an end of `w` only compares with its one neighbour).
pub open spec fn is_boundary(w: Seq<u8>, i: int) -> bool {
    &&& i == 0 || w[i] >= w[i - 1]
    &&& i == w.len() - 1 || w[i] >= w[i + 1]
}

/// `i` is a local maximum of `w` strictly inside it.
pub open spec fn is_interior_boundary(w: Seq<u8>, i: int) -> bool {
    &&& 1 <= i <= w.len() - 2
    &&& w[i] >= w[i - 1]
    &&& w[i] >= w[i + 1]
}

/// All local maxima of `w`, in ascending order.
pub open spec fn boundaries(w: Seq<u8>) -> Seq<usize> {
    indices_where(w.len() as int, |i: int| is_boundary(w, i))
}

/// All interior local maxima of `w`, in ascending order.
pub open spec fn interior_boundaries(w: Seq<u8>) -> Seq<usize> {
    indices_where(w.len() as int, |i: int| is_interior_boundary(w, i))
}

/// The list of `indices_where(n, p)` is strictly increasing, below `n`, and holds
/// exactly the indices in `0..n` that satisfy `p`.
pub proof fn lemma_indices_where(n: int, p: spec_fn(int) -> bool)
    requires
        n <= usize::MAX + 1,
    ensures
        forall|j: int|
            0 <= j < indices_where(n, p).len() ==> 0 <= #[trigger] indices_where(n, p)[j] < n
                && p(indices_where(n, p)[j] as int),
        forall|a: int, b: int|
            0 <= a < b < indices_where(n, p).len() ==> #[trigger] indices_where(n, p)[a]
                < #[trigger] indices_where(n, p)[b],
        forall|i: int| 0 <= i < n && p(i) ==> #[trigger] indices_where(n, p).contains(i as usize),
        indices_where(n, p).len() <= if n < 0 { 0 } else { n },
    decreases n,
{
    if n > 0 {
        lemma_indices_where(n - 1, p);
        let prev = indices_where(n - 1, p);
        if p(n - 1) {
            let cur = prev.push((n - 1) as usize);
            assert(indices_where(n, p) == cur);
            assert(cur[prev.len() as int] == (n - 1) as usize);
            assert forall|i: int| 0 <= i < n && p(i) implies #[trigger] indices_where(
                n,
                p,
            ).contains(i as usize) by {
                if i < n - 1 {
                    assert(prev.contains(i as usize));
                    let k = choose|k: int| 0 <= k < prev.len() && prev[k] == i as usize;
                    assert(cur[k] == i as usize);
                } else {
                    assert(cur[prev.len() as int] == i as usize);
                }
            }
        } else {
            assert(indices_where(n, p) == prev);
            assert forall|i: int| 0 <= i < n && p(i) implies #[trigger] indices_where(
                n,
                p,
            ).contains(i as usize) by {
                assert(prev.contains(i as usize));
            }
        }
    }
}

/// Computes all local maxima of `w`, in ascending order.
pub fn find_boundaries(w: &[u8]) -> (b: Vec<usize>)
    ensures
        b@ == boundaries(w@),
{
    if w.len() == 0 {
        return Vec::new();
    }
    if w.len() == 1 {
        let mut one: Vec<usize> = Vec::new();
        one.push(0);
        proof {
            reveal_with_fuel(indices_where, 2);
        }
        assert(one@ =~= boundaries(w@));
        return one;
    }
    let mut out: Vec<usize> = Vec::new();
    let ghost p = |i: int| is_boundary(w@, i);
    let mut i: usize = 0;
    while i < w.len()
        invariant
            i <= w@.len(),
            w@.len() >= 2,
            p == (|i: int| is_boundary(w@, i)),
            out@ == indices_where(i as int, p),
        decreases w@.len() - i,
    {
        let ge_prev = i == 0 || w[i] >= w[i - 1];
        let ge_next = i == w.len() - 1 || w[i] >= w[i + 1];
        if ge_prev && ge_next {
            out.push(i);
        }
        i += 1;
    }
    out
}

/// Computes the interior local maxima of `w`, in ascending order.
pub fn find_interior_boundaries(w: &[u8]) -> (b: Vec<usize>)
    ensures
        b@ == interior_boundaries(w@),
{
    let ghost p = |i: int| is_interior_boundary(w@, i);
    if w.len() < 3 {
        assert forall|n: int| 0 <= n <= w@.len() implies indices_where(n, p) =~= Seq::<usize>::empty() by {
            lemma_indices_where(n, p);
            if indices_where(n, p).len() > 0 {
                assert(p(indices_where(n, p)[0] as int));
            }
        }
        return Vec::new();
    }
    let mut out: Vec<usize> = Vec::new();
    let mut i: usize = 1;
    proof {
        reveal_with_fuel(indices_where, 2);
    }
    assert(indices_where(1, p) =~= Seq::<usize>::empty());
    while i < w.len() - 1
        invariant
            1 <= i <= w@.len() - 1,
            w@.len() >= 3,
            p == (|i: int| is_interior_boundary(w@, i)),
            out@ == indices_where(i as int, p),
        decreases w@.len() - i,
    {
        if w[i] >= w[i - 1] && w[i] >= w[i + 1] {
            out.push(i);
        }
        i += 1;
    }
    assert(!p(w@.len() - 1));
    assert(indices_where(w@.len() as int, p) == indices_where(w@.len() - 1, p));
    out
}


/// One range per pair of consecutive boundaries: from the first boundary to two
/// bytes past the second one (a boundary `i` of the pair weights stands for the
/// bytes `i` and `i + 1`).
pub open spec fn consecutive_ranges(b: Seq<usize>) -> Seq<(usize, usize)> {
    if b.len() < 2 {
        Seq::empty()
    } else {
        Seq::new((b.len() - 1) as nat, |i: int| (b[i], (b[i + 1] + 2) as usize))
    }
}

/// The sparse n-gram ranges of `bytes` used when indexing: the ranges between
/// consecutive boundaries of the pair weights, or the whole input when there
/// are fewer than two boundaries.
pub open spec fn all_ranges(bytes: Seq<u8>, freq: FrequencyTable) -> Seq<(usize, usize)> {
    if bytes.len() < 3 {
        Seq::empty()
    } else {
        let b = boundaries(pair_weights(bytes, freq));
        if b.len() < 2 {
            seq![(0usize, bytes.len() as usize)]
        } else {
            consecutive_ranges(b)
        }
    }
}

/// The sparse n-gram ranges of a query: the ranges between consecutive interior
/// boundaries of the pair weights (none when there are fewer than two).
pub open spec fn covering_ranges(bytes: Seq<u8>, freq: FrequencyTable) -> Seq<(usize, usize)> {
    if bytes.len() < 3 {
        Seq::empty()
    } else {
        consecutive_ranges(interior_boundaries(pair_weights(bytes, freq)))
    }
}

/// Each range is at least three bytes long and ends within the first `len` bytes.
pub open spec fn ranges_within(r: Seq<(usize, usize)>, len: int) -> bool {
    forall|i: int| 0 <= i < r.len() ==> r[i].0 + 3 <= #[trigger] r[i].1 <= len
}

fn ranges_from_bounds(bounds: &Vec<usize>, len: usize) -> (r: Vec<(usize, usize)>)
    requires
        bounds@.len() >= 2,
        forall|j: int| 0 <= j < bounds@.len() ==> #[trigger] bounds@[j] + 2 <= len,
        forall|a: int, b: int| 0 <= a < b < bounds@.len() ==> #[trigger] bounds@[a] < #[trigger] bounds@[b],
    ensures
        r@ == consecutive_ranges(bounds@),
        ranges_within(r@, len as int),
{
    let mut ranges: Vec<(usize, usize)> = Vec::new();
    let n = bounds.len() - 1;
    let mut i: usize = 0;
    while i < n
        invariant
            n == bounds@.len() - 1,
            i <= n,
            forall|j: int| 0 <= j < bounds@.len() ==> #[trigger] bounds@[j] + 2 <= len,
            forall|a: int, b: int| 0 <= a < b < bounds@.len() ==> #[trigger] bounds@[a] < #[trigger] bounds@[b],
            ranges@ =~= consecutive_ranges(bounds@).take(i as int),
        decreases n - i,
    {
        let s = bounds[i];
        let e0 = bounds[i + 1] + 2;
        let e = if e0 < len { e0 } else { len };
        assert(bounds@[i as int] < bounds@[i + 1]);
        if e > s && e - s >= 3 {
            ranges.push((s, e));
        }
        assert(consecutive_ranges(bounds@).take(i + 1) =~= consecutive_ranges(bounds@).take(i as int).push((s, e)));
        i += 1;
    }
    assert(consecutive_ranges(bounds@).take(n as int) =~= consecutive_ranges(bounds@));
    ranges
}

/// Splits `bytes` into sparse n-gram ranges at the local maxima of the pair weights.
pub fn build_all_ranges(bytes: &[u8], freq: &FrequencyTable) -> (r: Vec<(usize, usize)>)
    ensures
        r@ == all_ranges(bytes@, *freq),
        ranges_within(r@, bytes@.len() as int),
{
    if bytes.len() < 3 {
        return Vec::new();
    }
    let w = compute_weights(bytes, freq);
    let bounds = find_boundaries(w.as_slice());
    let mut ranges: Vec<(usize, usize)> = Vec::new();
    if bounds.len() < 2 {
        ranges.push((0, bytes.len()));
        assert(ranges@ =~= all_ranges(bytes@, *freq));
        return ranges;
    }
    proof {
        lemma_indices_where(w@.len() as int, |i: int| is_boundary(w@, i));
    }
    ranges_from_bounds(&bounds, bytes.len())
}

/// Splits a query into the sparse n-gram ranges that cover it, at the interior
/// local maxima of the pair weights.
pub fn build_covering_ranges(bytes: &[u8], freq: &FrequencyTable) -> (r: Vec<(usize, usize)>)
    ensures
        r@ == covering_ranges(bytes@, *freq),
        ranges_within(r@, bytes@.len() as int),
{
    if bytes.len() < 3 {
        return Vec::new();
    }
    let w = compute_weights(bytes, freq);
    let bounds = find_interior_boundaries(w.as_slice());
    if bounds.len() < 2 {
        return Vec::new();
    }
    proof {
        lemma_indices_where(w@.len() as int, |i: int| is_interior_boundary(w@, i));
    }
    ranges_from_bounds(&bounds, bytes.len())
}

/// `i` lies strictly inside a weight list of length `len`.
pub open spec fn strictly_inside(len: int, i: usize) -> bool {
    1 <= i && i + 2 <= len
}

proof fn lemma_empty_filter(q: spec_fn(usize) -> bool)
    ensures
        Seq::<usize>::empty().filter(q) == Seq::<usize>::empty(),
{
    Seq::<usize>::empty().lemma_filter_len(q);
    assert(Seq::<usize>::empty().filter(q) =~= Seq::<usize>::empty());
}

proof fn lemma_interior_prefix(w: Seq<u8>, n: int)
    requires
        0 <= n <= w.len(),
        w.len() <= usize::MAX,
    ensures
        indices_where(n, |i: int| is_interior_boundary(w, i)) == indices_where(n, |i: int| is_boundary(w, i)).filter(
            |i: usize| strictly_inside(w.len() as int, i),
        ),
    decreases n,
{
    let pb = |i: int| is_boundary(w, i);
    let pi = |i: int| is_interior_boundary(w, i);
    let q = |i: usize| strictly_inside(w.len() as int, i);
    if n == 0 {
        lemma_empty_filter(q);
    } else {
        lemma_interior_prefix(w, n - 1);
        let prev = indices_where(n - 1, pb);
        prev.lemma_filter_push((n - 1) as usize, q);
        assert(pi(n - 1) == (pb(n - 1) && q((n - 1) as usize)));
    }
}

/// The interior boundaries of a weight list are its boundaries that lie strictly inside it.
pub proof fn lemma_interior_boundaries_are_inside(w: Seq<u8>)
    requires
        w.len() <= usize::MAX,
    ensures
        interior_boundaries(w) == boundaries(w).filter(|i: usize| strictly_inside(w.len() as int, i)),
{
    lemma_interior_prefix(w, w.len() as int);
}

proof fn lemma_window_below(w: Seq<u8>, n: int, a: int, b: int)
    requires
        0 <= n <= a,
        a <= usize::MAX,
    ensures
        indices_where(n, |i: int| is_boundary(w, i)).filter(|j: usize| a < j && j + 1 < b) == Seq::<usize>::empty(),
    decreases n,
{
    let pb = |i: int| is_boundary(w, i);
    let q = |j: usize| a < j && j + 1 < b;
    if n == 0 {
        lemma_empty_filter(q);
    } else {
        lemma_window_below(w, n - 1, a, b);
        indices_where(n - 1, pb).lemma_filter_push((n - 1) as usize, q);
    }
}

proof fn lemma_window_prefix(w: Seq<u8>, a: int, b: int, m: int)
    requires
        0 <= a,
        a + 3 <= b <= w.len(),
        0 <= m <= b - a,
        w.len() <= usize::MAX,
    ensures
        indices_where(m, |i: int| is_interior_boundary(w.subrange(a, b), i)) == indices_where(
            a + m,
            |i: int| is_boundary(w, i),
        ).filter(|j: usize| a < j && j + 1 < b).map_values(|j: usize| (j - a) as usize),
    decreases m,
{
    let v = w.subrange(a, b);
    let pb = |i: int| is_boundary(w, i);
    let pv = |i: int| is_interior_boundary(v, i);
    let q = |j: usize| a < j && j + 1 < b;
    let f = |j: usize| (j - a) as usize;
    if m == 0 {
        lemma_window_below(w, a, a, b);
        assert(Seq::<usize>::empty().map_values(f) =~= Seq::<usize>::empty());
    } else {
        lemma_window_prefix(w, a, b, m - 1);
        let prev = indices_where(a + m - 1, pb);
        let j = a + m - 1;
        prev.lemma_filter_push(j as usize, q);
        prev.filter(q).lemma_push_map_commute(f, j as usize);
        let k = m - 1;
        if 1 <= k && k + 2 <= v.len() {
            assert(v[k] == w[j] && v[k - 1] == w[j - 1] && v[k + 1] == w[j + 1]);
        }
        assert(pv(k) == (pb(j) && q(j as usize)));
        assert(f(j as usize) == k as usize);
    }
}

/// The interior boundaries of a window `w[a..b]` of a weight list (at least
/// three long) are the boundaries of the whole list strictly inside the window,
/// counted from its start.
pub proof fn lemma_window_interior_boundaries(w: Seq<u8>, a: int, b: int)
    requires
        0 <= a,
        a + 3 <= b <= w.len(),
        w.len() <= usize::MAX,
    ensures
        interior_boundaries(w.subrange(a, b)) == boundaries(w).filter(|j: usize| a < j && j + 1 < b).map_values(
            |j: usize| (j - a) as usize,
        ),
{
    lemma_window_prefix(w, a, b, b - a);
    lemma_window_tail(w, b, w.len() as int, a);
}

proof fn lemma_window_tail(w: Seq<u8>, b: int, n: int, a: int)
    requires
        0 <= b <= n <= w.len(),
        w.len() <= usize::MAX,
    ensures
        indices_where(n, |i: int| is_boundary(w, i)).filter(|j: usize| a < j && j + 1 < b) == indices_where(
            b,
            |i: int| is_boundary(w, i),
        ).filter(|j: usize| a < j && j + 1 < b),
    decreases n,
{
    if n > b {
        lemma_window_tail(w, b, n - 1, a);
        let pb = |i: int| is_boundary(w, i);
        indices_where(n - 1, pb).lemma_filter_push((n - 1) as usize, |j: usize| a < j && j + 1 < b);
    }
}

} // verus!
