use vstd::prelude::*;
use crate::search::Searcher;

verus! {

/// Each element of `s` is below the next.
pub open spec fn strictly_increasing(s: Seq<u32>) -> bool {
    forall|a: int, b: int| 0 <= a < b < s.len() ==> #[trigger] s[a] < #[trigger] s[b]
}

/// `r` is the ascending list of the values that `a` and `b` share.
pub open spec fn is_intersection(r: Seq<u32>, a: Seq<u32>, b: Seq<u32>) -> bool {
    &&& strictly_increasing(r)
    &&& forall|x: u32| #[trigger] r.contains(x) <==> a.contains(x) && b.contains(x)
}

/// Every element of `r` occurs in both `a` and `b`.
pub open spec fn within_both(r: Seq<u32>, a: Seq<u32>, b: Seq<u32>) -> bool {
    forall|k: int| 0 <= k < r.len() ==> a.contains(#[trigger] r[k]) && b.contains(r[k])
}

/// The number of elements of `s` below `t` (for an ascending `s`, where `t` would go).
pub open spec fn count_below(s: Seq<u32>, t: u32) -> int
    decreases s.len(),
{
    if s.len() == 0 {
        0
    } else {
        count_below(s.drop_last(), t) + if s.last() < t { 1int } else { 0int }
    }
}

proof fn lemma_count_below(s: Seq<u32>, t: u32)
    requires
        strictly_increasing(s),
    ensures
        0 <= count_below(s, t) <= s.len(),
        forall|k: int| 0 <= k < count_below(s, t) ==> #[trigger] s[k] < t,
        forall|k: int| count_below(s, t) <= k < s.len() ==> #[trigger] s[k] >= t,
    decreases s.len(),
{
    if s.len() > 0 {
        let init = s.drop_last();
        assert(strictly_increasing(init)) by {
            assert forall|a: int, b: int| 0 <= a < b < init.len() implies #[trigger] init[a] < #[trigger] init[b] by {
                assert(init[a] == s[a] && init[b] == s[b]);
            }
        }
        lemma_count_below(init, t);
        if s.last() < t {
            assert forall|k: int| 0 <= k < count_below(s, t) implies #[trigger] s[k] < t by {
                if k < s.len() - 1 {
                    assert(s[k] < s[s.len() - 1]);
                }
            }
        } else {
            assert forall|k: int| count_below(s, t) <= k < s.len() implies #[trigger] s[k] >= t by {
                if k < s.len() - 1 {
                    assert(init[k] == s[k]);
                }
            }
            if count_below(init, t) == init.len() && init.len() > 0 {
                assert(init[init.len() - 1] < t);
            }
            assert forall|k: int| 0 <= k < count_below(s, t) implies #[trigger] s[k] < t by {
                assert(init[k] == s[k]);
            }
        }
    }
}

/// Searches `s` for `target`: `Ok` with an index holding it, or `Err` with the
/// number of elements below it.
pub fn binary_search_u32(s: &[u32], target: u32) -> (r: Result<usize, usize>)
    ensures
        r matches Ok(i) ==> i < s@.len() && s@[i as int] == target,
        r matches Err(i) ==> i <= s@.len(),
        strictly_increasing(s@) ==> match r {
            Ok(i) => true,
            Err(i) => !s@.contains(target) && i == count_below(s@, target),
        },
{
    let mut lo: usize = 0;
    let mut hi: usize = s.len();
    while lo < hi
        invariant
            lo <= hi <= s@.len(),
            strictly_increasing(s@) ==> forall|k: int| 0 <= k < lo ==> #[trigger] s@[k] < target,
            strictly_increasing(s@) ==> forall|k: int| hi <= k < s@.len() ==> #[trigger] s@[k] > target,
        decreases hi - lo,
    {
        let mid = lo + (hi - lo) / 2;
        if s[mid] < target {
            proof {
                if strictly_increasing(s@) {
                    assert forall|k: int| 0 <= k < mid + 1 implies #[trigger] s@[k] < target by {
                        if k < mid {
                            assert(s@[k] < s@[mid as int]);
                        }
                    }
                }
            }
            lo = mid + 1;
        } else if s[mid] > target {
            proof {
                if strictly_increasing(s@) {
                    assert forall|k: int| mid <= k < s@.len() implies #[trigger] s@[k] > target by {
                        if k > mid {
                            assert(s@[mid as int] < s@[k]);
                        }
                    }
                }
            }
            hi = mid;
        } else {
            return Ok(mid);
        }
    }
    proof {
        if strictly_increasing(s@) {
            lemma_count_below(s@, target);
            let c = count_below(s@, target);
            if c < lo {
                assert(s@[c] >= target);
            }
            if c > lo {
                assert(s@[lo as int] < target);
            }
            assert(!s@.contains(target)) by {
                if s@.contains(target) {
                    let k = choose|k: int| 0 <= k < s@.len() && s@[k] == target;
                    assert(k < lo || k >= hi);
                }
            }
        }
    }
    Err(lo)
}


proof fn lemma_take_contains(s: Seq<u32>, i: int, x: u32)
    requires
        0 <= i < s.len(),
    ensures
        s.take(i + 1).contains(x) <==> s.take(i).contains(x) || s[i] == x,
{
    if s.take(i + 1).contains(x) {
        let k = choose|k: int| 0 <= k < i + 1 && #[trigger] s.take(i + 1)[k] == x;
        if k < i {
            assert(s.take(i)[k] == x);
        }
    }
    if s.take(i).contains(x) {
        let k = choose|k: int| 0 <= k < i && #[trigger] s.take(i)[k] == x;
        assert(s.take(i + 1)[k] == x);
    }
    if s[i] == x {
        assert(s.take(i + 1)[i] == x);
    }
}

/// The values a merge of `a` (from index `i`) and `b` (from index `j`) collects:
/// on equal heads it keeps the value and moves past both, otherwise it moves past
/// the smaller head.
pub open spec fn merge_common(a: Seq<u32>, b: Seq<u32>, i: int, j: int) -> Seq<u32>
    decreases a.len() - i + b.len() - j,
{
    if i < 0 || j < 0 || i >= a.len() || j >= b.len() {
        Seq::empty()
    } else if a[i] == b[j] {
        seq![a[i]] + merge_common(a, b, i + 1, j + 1)
    } else if a[i] < b[j] {
        merge_common(a, b, i + 1, j)
    } else {
        merge_common(a, b, i, j + 1)
    }
}

/// `x` occurs in `s` at index `i` or later.
pub open spec fn occurs_from(s: Seq<u32>, i: int, x: u32) -> bool {
    exists|p: int| i <= p < s.len() && s[p] == x
}

/// Merging two ascending lists from indices `i` and `j` collects, ascending, the
/// values that occur in both from there on.
pub proof fn lemma_merge_common_intersects(a: Seq<u32>, b: Seq<u32>, i: int, j: int)
    requires
        strictly_increasing(a),
        strictly_increasing(b),
        0 <= i,
        0 <= j,
    ensures
        strictly_increasing(merge_common(a, b, i, j)),
        forall|x: u32| #[trigger] merge_common(a, b, i, j).contains(x) <==> occurs_from(a, i, x)
            && occurs_from(b, j, x),
    decreases a.len() - i + b.len() - j,
{
    let m = merge_common(a, b, i, j);
    if i >= a.len() || j >= b.len() {
        assert forall|x: u32| #[trigger] m.contains(x) <==> occurs_from(a, i, x) && occurs_from(b, j, x) by {
            if occurs_from(a, i, x) && occurs_from(b, j, x) {
                let p = choose|p: int| i <= p < a.len() && a[p] == x;
                let q = choose|q: int| j <= q < b.len() && b[q] == x;
            }
        }
    } else if a[i] == b[j] {
        lemma_merge_common_intersects(a, b, i + 1, j + 1);
        let rest = merge_common(a, b, i + 1, j + 1);
        assert(m == seq![a[i]] + rest);
        assert forall|p: int, q: int| 0 <= p < q < m.len() implies #[trigger] m[p] < #[trigger] m[q] by {
            if p == 0 {
                assert(rest.contains(m[q])) by {
                    assert(rest[q - 1] == m[q]);
                }
                let u = choose|u: int| i + 1 <= u < a.len() && a[u] == m[q];
                assert(a[i] < a[u]);
            } else {
                assert(m[p] == rest[p - 1] && m[q] == rest[q - 1]);
            }
        }
        assert forall|x: u32| #[trigger] m.contains(x) <==> occurs_from(a, i, x) && occurs_from(b, j, x) by {
            if m.contains(x) {
                let k = choose|k: int| 0 <= k < m.len() && m[k] == x;
                if k == 0 {
                    assert(a[i] == x && b[j] == x);
                } else {
                    assert(rest[k - 1] == x);
                    assert(rest.contains(x));
                    let u = choose|u: int| i + 1 <= u < a.len() && a[u] == x;
                    let v = choose|v: int| j + 1 <= v < b.len() && b[v] == x;
                }
            }
            if occurs_from(a, i, x) && occurs_from(b, j, x) {
                let u = choose|u: int| i <= u < a.len() && a[u] == x;
                let v = choose|v: int| j <= v < b.len() && b[v] == x;
                if x == a[i] {
                    assert(m[0] == x);
                } else {
                    if u == i {
                    }
                    if v == j {
                        assert(b[j] == a[i]);
                    }
                    assert(occurs_from(a, i + 1, x) && occurs_from(b, j + 1, x));
                    assert(rest.contains(x));
                    let k = choose|k: int| 0 <= k < rest.len() && rest[k] == x;
                    assert(m[k + 1] == x);
                }
            }
        }
    } else if a[i] < b[j] {
        lemma_merge_common_intersects(a, b, i + 1, j);
        assert forall|x: u32| #[trigger] m.contains(x) <==> occurs_from(a, i, x) && occurs_from(b, j, x) by {
            if occurs_from(a, i + 1, x) {
                let u = choose|u: int| i + 1 <= u < a.len() && a[u] == x;
            }
            if occurs_from(a, i, x) && occurs_from(b, j, x) {
                let u = choose|u: int| i <= u < a.len() && a[u] == x;
                let v = choose|v: int| j <= v < b.len() && b[v] == x;
                if u == i {
                    if v > j {
                        assert(b[j] < b[v]);
                    }
                }
                assert(occurs_from(a, i + 1, x));
            }
        }
    } else {
        lemma_merge_common_intersects(a, b, i, j + 1);
        assert forall|x: u32| #[trigger] m.contains(x) <==> occurs_from(a, i, x) && occurs_from(b, j, x) by {
            if occurs_from(b, j + 1, x) {
                let v = choose|v: int| j + 1 <= v < b.len() && b[v] == x;
            }
            if occurs_from(a, i, x) && occurs_from(b, j, x) {
                let u = choose|u: int| i <= u < a.len() && a[u] == x;
                let v = choose|v: int| j <= v < b.len() && b[v] == x;
                if v == j {
                    if u > i {
                        assert(a[i] < a[u]);
                    }
                }
                assert(occurs_from(b, j + 1, x));
            }
        }
    }
}

/// An ascending list is fixed by its members: two ascending lists holding the
/// same values are the same list.
pub proof fn lemma_ascending_unique(r1: Seq<u32>, r2: Seq<u32>)
    requires
        strictly_increasing(r1),
        strictly_increasing(r2),
        forall|x: u32| #[trigger] r1.contains(x) <==> r2.contains(x),
    ensures
        r1 == r2,
    decreases r1.len() + r2.len(),
{
    if r1.len() == 0 || r2.len() == 0 {
        if r1.len() > 0 {
            assert(r1.contains(r1[0]));
            assert(r2.contains(r1[0]));
        }
        if r2.len() > 0 {
            assert(r2.contains(r2[0]));
            assert(r1.contains(r2[0]));
        }
        assert(r1 =~= r2);
    } else {
        let m1 = r1.last();
        let m2 = r2.last();
        assert(r1.contains(m1)) by {
            assert(r1[r1.len() - 1] == m1);
        }
        assert(r2.contains(m2)) by {
            assert(r2[r2.len() - 1] == m2);
        }
        assert(r1.contains(m2));
        assert(r2.contains(m1));
        let k1 = choose|k: int| 0 <= k < r1.len() && r1[k] == m2;
        let k2 = choose|k: int| 0 <= k < r2.len() && r2[k] == m1;
        if k1 < r1.len() - 1 {
            assert(r1[k1] < r1[r1.len() - 1]);
        }
        if k2 < r2.len() - 1 {
            assert(r2[k2] < r2[r2.len() - 1]);
        }
        assert(m1 == m2);
        let d1 = r1.drop_last();
        let d2 = r2.drop_last();
        assert(strictly_increasing(d1)) by {
            assert forall|p: int, q: int| 0 <= p < q < d1.len() implies #[trigger] d1[p] < #[trigger] d1[q] by {
                assert(d1[p] == r1[p] && d1[q] == r1[q]);
            }
        }
        assert(strictly_increasing(d2)) by {
            assert forall|p: int, q: int| 0 <= p < q < d2.len() implies #[trigger] d2[p] < #[trigger] d2[q] by {
                assert(d2[p] == r2[p] && d2[q] == r2[q]);
            }
        }
        assert forall|x: u32| #[trigger] d1.contains(x) <==> d2.contains(x) by {
            if d1.contains(x) {
                let k = choose|k: int| 0 <= k < d1.len() && d1[k] == x;
                assert(r1[k] == x && r1[k] < r1[r1.len() - 1]);
                assert(r1.contains(x));
                assert(r2.contains(x));
                let t = choose|t: int| 0 <= t < r2.len() && r2[t] == x;
                assert(t != r2.len() - 1);
                assert(d2[t] == x);
            }
            if d2.contains(x) {
                let k = choose|k: int| 0 <= k < d2.len() && d2[k] == x;
                assert(r2[k] == x && r2[k] < r2[r2.len() - 1]);
                assert(r2.contains(x));
                assert(r1.contains(x));
                let t = choose|t: int| 0 <= t < r1.len() && r1[t] == x;
                assert(t != r1.len() - 1);
                assert(d1[t] == x);
            }
        }
        lemma_ascending_unique(d1, d2);
        assert(r1 =~= d1.push(m1));
        assert(r2 =~= d2.push(m2));
    }
}

/// Of two ascending lists, the merge of either into the other is their intersection.
pub proof fn lemma_merge_is_intersection(a: Seq<u32>, b: Seq<u32>)
    requires
        strictly_increasing(a),
        strictly_increasing(b),
    ensures
        is_intersection(merge_common(a, b, 0, 0), a, b),
        merge_common(a, b, 0, 0) == merge_common(b, a, 0, 0),
{
    lemma_merge_common_intersects(a, b, 0, 0);
    lemma_merge_common_intersects(b, a, 0, 0);
    assert forall|x: u32| #[trigger] merge_common(a, b, 0, 0).contains(x) <==> a.contains(x) && b.contains(x) by {
        if a.contains(x) {
            let p = choose|p: int| 0 <= p < a.len() && a[p] == x;
        }
        if b.contains(x) {
            let p = choose|p: int| 0 <= p < b.len() && b[p] == x;
        }
        if occurs_from(a, 0, x) {
            let p = choose|p: int| 0 <= p < a.len() && a[p] == x;
        }
        if occurs_from(b, 0, x) {
            let p = choose|p: int| 0 <= p < b.len() && b[p] == x;
        }
    }
    assert forall|x: u32| #[trigger] merge_common(a, b, 0, 0).contains(x) <==> merge_common(b, a, 0, 0).contains(x) by {
    }
    lemma_ascending_unique(merge_common(a, b, 0, 0), merge_common(b, a, 0, 0));
}

/// Which of two lists is the shorter one (the second on a tie).
pub open spec fn shorter(a: Seq<u32>, b: Seq<u32>) -> Seq<u32> {
    if a.len() < b.len() {
        a
    } else {
        b
    }
}

/// Which of two lists is the longer one (the first on a tie).
pub open spec fn longer(a: Seq<u32>, b: Seq<u32>) -> Seq<u32> {
    if a.len() < b.len() {
        b
    } else {
        a
    }
}

/// Adaptive intersection gallops when the longer list is over 64 times the shorter.
pub open spec fn gallop_chosen(a: Seq<u32>, b: Seq<u32>) -> bool {
    longer(a, b).len() > 64 * shorter(a, b).len()
}

impl<'a> Searcher<'a> {
    /// Merges two ascending lists into the list of the values they share.
    pub fn intersect_sorted(a: &[u32], b: &[u32]) -> (r: Vec<u32>)
        ensures
            within_both(r@, a@, b@),
            r@.len() <= a@.len(),
            r@.len() <= b@.len(),
            r@ == merge_common(a@, b@, 0, 0),
            strictly_increasing(a@) && strictly_increasing(b@) ==> is_intersection(r@, a@, b@),
    {
        let mut result: Vec<u32> = Vec::new();
        let mut i: usize = 0;
        let mut j: usize = 0;
        assert(result@ + merge_common(a@, b@, 0, 0) =~= merge_common(a@, b@, 0, 0));
        while i < a.len() && j < b.len()
            invariant
                i <= a@.len(),
                j <= b@.len(),
                result@ + merge_common(a@, b@, i as int, j as int) == merge_common(a@, b@, 0, 0),
                result@.len() <= i,
                result@.len() <= j,
                forall|k: int| 0 <= k < result@.len() ==> a@.take(i as int).contains(#[trigger] result@[k])
                    && b@.take(j as int).contains(result@[k]),
                strictly_increasing(a@) && strictly_increasing(b@) ==> {
                    &&& strictly_increasing(result@)
                    &&& forall|x: u32| (a@.take(i as int).contains(x) || b@.take(j as int).contains(x))
                        && a@.contains(x) && b@.contains(x) ==> #[trigger] result@.contains(x)
                },
            decreases a@.len() - i + b@.len() - j,
        {
            let ghost old_result = result@;
            let ghost (i0, j0) = (i as int, j as int);
            if a[i] == b[j] {
                result.push(a[i]);
                i += 1;
                j += 1;
                assert(old_result + (seq![a@[i0]] + merge_common(a@, b@, i as int, j as int)) =~= result@
                    + merge_common(a@, b@, i as int, j as int));
            } else if a[i] < b[j] {
                i += 1;
            } else {
                j += 1;
            }
            proof {
                assert forall|x: u32| #[trigger] a@.take(i as int).contains(x) <==> a@.take(i0).contains(x)
                    || (i0 < i && a@[i0] == x) by {
                    if i0 < i {
                        lemma_take_contains(a@, i0, x);
                    }
                }
                assert forall|x: u32| #[trigger] b@.take(j as int).contains(x) <==> b@.take(j0).contains(x)
                    || (j0 < j && b@[j0] == x) by {
                    if j0 < j {
                        lemma_take_contains(b@, j0, x);
                    }
                }
                assert forall|k: int| 0 <= k < result@.len() implies a@.take(i as int).contains(#[trigger] result@[k])
                    && b@.take(j as int).contains(result@[k]) by {
                    if k < old_result.len() {
                        assert(result@[k] == old_result[k]);
                    }
                }
                if strictly_increasing(a@) && strictly_increasing(b@) {
                    assert forall|p: int, q: int| 0 <= p < q < result@.len() implies #[trigger] result@[p]
                        < #[trigger] result@[q] by {
                        if q == old_result.len() {
                            assert(a@.take(i0).contains(result@[p]));
                            let m = choose|m: int| 0 <= m < i0 && a@.take(i0)[m] == result@[p];
                            assert(a@[m] < a@[i0]);
                        } else {
                            assert(result@[p] == old_result[p] && result@[q] == old_result[q]);
                        }
                    }
                    assert forall|x: u32| (a@.take(i as int).contains(x) || b@.take(j as int).contains(x))
                        && a@.contains(x) && b@.contains(x) implies #[trigger] result@.contains(x) by {
                        if old_result.contains(x) {
                            let m = choose|m: int| 0 <= m < old_result.len() && old_result[m] == x;
                            assert(result@[m] == x);
                        } else if a@[i0] == b@[j0] && x == a@[i0] {
                            assert(result@[old_result.len() as int] == x);
                        } else if i0 < i && a@[i0] == x {
                            let q = choose|q: int| 0 <= q < b@.len() && b@[q] == x;
                            if q >= j0 {
                                if q > j0 {
                                    assert(b@[j0] < b@[q]);
                                }
                            } else {
                                assert(b@.take(j0)[q] == x);
                            }
                        } else if j0 < j && b@[j0] == x {
                            let q = choose|q: int| 0 <= q < a@.len() && a@[q] == x;
                            if q >= i0 {
                                if q > i0 {
                                    assert(a@[i0] < a@[q]);
                                }
                            } else {
                                assert(a@.take(i0)[q] == x);
                            }
                        }
                    }
                }
            }
        }
        proof {
            assert forall|k: int| 0 <= k < result@.len() implies a@.contains(#[trigger] result@[k])
                && b@.contains(result@[k]) by {
                let x = result@[k];
                let m = choose|m: int| 0 <= m < i && a@.take(i as int)[m] == x;
                assert(a@[m] == x);
                let n = choose|n: int| 0 <= n < j && b@.take(j as int)[n] == x;
                assert(b@[n] == x);
            }
            if strictly_increasing(a@) && strictly_increasing(b@) {
                assert(a@.take(a@.len() as int) =~= a@);
                assert(b@.take(b@.len() as int) =~= b@);
                assert forall|x: u32| #[trigger] result@.contains(x) implies a@.contains(x) && b@.contains(x) by {
                    let k = choose|k: int| 0 <= k < result@.len() && result@[k] == x;
                }
            }
        }
        result
    }

    /// Intersects a short ascending list with a long one: for each element of
    /// `short`, probes `long` at doubling distances from a cursor until a probe
    /// is not below it (or runs off the end), then binary-searches the window
    /// from the cursor up to and including that probe.
    pub fn galloping_intersect(short: &[u32], long: &[u32]) -> (r: Vec<u32>)
        requires
            long@.len() <= isize::MAX / 4,
        ensures
            within_both(r@, short@, long@),
            r@.len() <= short@.len(),
            r@.len() <= long@.len(),
            strictly_increasing(short@) && strictly_increasing(long@) ==> is_intersection(r@, short@, long@),
    {
        let ghost sorted = strictly_increasing(short@) && strictly_increasing(long@);
        let mut result: Vec<u32> = Vec::new();
        let mut long_pos: usize = 0;
        let mut i: usize = 0;
        proof {
            if sorted && short@.len() > 0 {
                lemma_count_below(long@, short@[0]);
            }
        }
        while i < short.len()
            invariant
                sorted == (strictly_increasing(short@) && strictly_increasing(long@)),
                long@.len() <= isize::MAX / 4,
                i <= short@.len(),
                long_pos <= long@.len(),
                result@.len() <= i,
                result@.len() <= long_pos,
                within_both(result@, short@, long@),
                forall|k: int| 0 <= k < result@.len() ==> short@.take(i as int).contains(#[trigger] result@[k]),
                sorted ==> strictly_increasing(result@),
                sorted ==> forall|x: u32| #[trigger] result@.contains(x) <==> short@.take(i as int).contains(x)
                    && long@.contains(x),
                sorted && i < short@.len() ==> long_pos <= count_below(long@, short@[i as int]),
            decreases short@.len() - i,
        {
            let target = short[i];
            let ghost lb = count_below(long@, target);
            proof {
                if sorted {
                    lemma_count_below(long@, target);
                }
            }
            let mut bound: usize = 1;
            while long_pos + bound < long.len() && long[long_pos + bound] < target
                invariant
                    long@.len() <= isize::MAX / 4,
                    long_pos <= long@.len(),
                    1 <= bound <= 2 * long@.len() + 1,
                    sorted ==> long_pos <= lb,
                    sorted ==> forall|k: int| lb <= k < long@.len() ==> #[trigger] long@[k] >= target,
                    sorted ==> forall|k: int| 0 <= k < lb ==> #[trigger] long@[k] < target,
                decreases 2 * long@.len() + 2 - bound,
            {
                bound = bound * 2;
            }
            let search_end = if long_pos + bound < long.len() { long_pos + bound + 1 } else { long.len() };
            let window = &long[long_pos..search_end];
            let ghost old_pos = long_pos as int;
            let ghost old_result = result@;
            proof {
                if sorted {
                    // the window reaches past where `target` would go
                    assert(lb < search_end || lb == long@.len()) by {
                        if long_pos + bound < long@.len() {
                            assert(long@[long_pos + bound] >= target);
                        }
                    }
                    assert(lb <= search_end);
                    assert(strictly_increasing(window@)) by {
                        assert forall|a: int, b: int| 0 <= a < b < window@.len() implies #[trigger] window@[a]
                            < #[trigger] window@[b] by {
                            assert(window@[a] == long@[long_pos + a] && window@[b] == long@[long_pos + b]);
                        }
                    }
                }
            }
            match binary_search_u32(window, target) {
                Ok(idx) => {
                    assert(long@[long_pos + idx] == target);
                    result.push(target);
                    long_pos = long_pos + idx + 1;
                },
                Err(idx) => {
                    proof {
                        if sorted {
                            lemma_count_below(window@, target);
                            if (idx as int) < lb - old_pos {
                                assert(window@[idx as int] == long@[old_pos + idx]);
                            }
                            if (idx as int) > lb - old_pos {
                                let k = lb - old_pos;
                                assert(window@[k] < target);
                                assert(window@[k] == long@[old_pos + k]);
                            }
                            assert(idx as int == lb - old_pos);
                            if lb < long@.len() && long@[lb] == target {
                                assert(window@[lb - old_pos] == target);
                                assert(window@.contains(target));
                            }
                        }
                    }
                    long_pos = long_pos + idx;
                },
            }
            proof {
                lemma_take_contains(short@, i as int, target);
                assert forall|k: int| 0 <= k < result@.len() implies short@.contains(#[trigger] result@[k])
                    && long@.contains(result@[k]) by {
                    if k < old_result.len() {
                        assert(result@[k] == old_result[k]);
                    } else {
                        assert(short@[i as int] == result@[k]);
                        assert(long@[long_pos - 1] == result@[k]);
                    }
                }
                assert forall|k: int| 0 <= k < result@.len() implies short@.take(i + 1).contains(
                    #[trigger] result@[k],
                ) by {
                    lemma_take_contains(short@, i as int, result@[k]);
                    if k < old_result.len() {
                        assert(result@[k] == old_result[k]);
                    }
                }
                if sorted {
                    let found = lb < long@.len() && long@[lb] == target;
                    if found {
                        assert(long_pos == lb + 1) by {
                            let q = long_pos - 1;
                            if q < lb {
                                assert(long@[q] < target);
                            }
                            if q > lb {
                                assert(long@[lb] < long@[q]);
                            }
                        }
                        assert(result@ =~= old_result.push(target));
                    } else {
                        assert(long_pos == lb) by {
                            if result@.len() > old_result.len() {
                                let q = long_pos - 1;
                                assert(long@[q] == target);
                                if q < lb {
                                    assert(long@[q] < target);
                                }
                                if q > lb {
                                    assert(long@[lb] < long@[q]);
                                }
                            }
                        }
                        assert(result@ =~= old_result);
                    }
                    assert(found <==> long@.contains(target)) by {
                        if long@.contains(target) {
                            let q = choose|q: int| 0 <= q < long@.len() && long@[q] == target;
                            assert(q >= lb);
                            if q > lb {
                                assert(long@[lb] < long@[q]);
                            }
                        }
                    }
                    assert forall|p: int, q: int| 0 <= p < q < result@.len() implies #[trigger] result@[p]
                        < #[trigger] result@[q] by {
                        if q == old_result.len() {
                            assert(short@.take(i as int).contains(old_result[p]));
                            let m = choose|m: int| 0 <= m < i && short@.take(i as int)[m] == old_result[p];
                            assert(short@[m] < short@[i as int]);
                            assert(result@[p] == old_result[p]);
                        } else {
                            assert(result@[p] == old_result[p] && result@[q] == old_result[q]);
                        }
                    }
                    assert forall|x: u32| #[trigger] result@.contains(x) <==> short@.take(i + 1).contains(x)
                        && long@.contains(x) by {
                        lemma_take_contains(short@, i as int, x);
                        if found && x == target {
                            assert(result@[old_result.len() as int] == x);
                        }
                        if old_result.contains(x) {
                            let m = choose|m: int| 0 <= m < old_result.len() && old_result[m] == x;
                            assert(result@[m] == x);
                        }
                        if result@.contains(x) {
                            let m = choose|m: int| 0 <= m < result@.len() && result@[m] == x;
                            if m < old_result.len() {
                                assert(old_result[m] == x);
                            }
                        }
                    }
                    if i + 1 < short@.len() {
                        let t2 = short@[i + 1];
                        assert(target < t2);
                        lemma_count_below(long@, t2);
                        if count_below(long@, t2) < long_pos {
                            let k = count_below(long@, t2);
                            assert(long@[k] >= t2);
                            assert(long@[k] <= target) by {
                                if k < lb {
                                } else {
                                    assert(k == lb);
                                }
                            }
                        }
                    }
                }
            }
            i += 1;
        }
        proof {
            assert(short@.take(i as int) =~= short@);
        }
        result
    }

    /// Intersects two ascending lists, galloping through the longer one when it
    /// is over 64 times the length of the shorter, merging otherwise.
    pub fn adaptive_intersect(a: &[u32], b: &[u32]) -> (r: Vec<u32>)
        requires
            a@.len() <= isize::MAX / 4,
            b@.len() <= isize::MAX / 4,
        ensures
            within_both(r@, a@, b@),
            r@.len() <= a@.len(),
            r@.len() <= b@.len(),
            !gallop_chosen(a@, b@) ==> r@ == merge_common(shorter(a@, b@), longer(a@, b@), 0, 0),
            strictly_increasing(a@) && strictly_increasing(b@) ==> is_intersection(r@, a@, b@),
            strictly_increasing(a@) && strictly_increasing(b@) ==> r@ == merge_common(a@, b@, 0, 0)
                && r@ == merge_common(b@, a@, 0, 0),
    {
        let (short, long) = if a.len() < b.len() { (a, b) } else { (b, a) };
        let r = if (long.len() as u128) > 64 * (short.len() as u128) {
            Self::galloping_intersect(short, long)
        } else {
            Self::intersect_sorted(short, long)
        };
        proof {
            if strictly_increasing(a@) && strictly_increasing(b@) {
                lemma_merge_is_intersection(a@, b@);
                assert forall|x: u32| #[trigger] r@.contains(x) <==> a@.contains(x) && b@.contains(x) by {
                    assert(r@.contains(x) <==> short@.contains(x) && long@.contains(x));
                }
                assert forall|x: u32| #[trigger] r@.contains(x) <==> merge_common(a@, b@, 0, 0).contains(x) by {
                }
                lemma_ascending_unique(r@, merge_common(a@, b@, 0, 0));
            }
        }
        r
    }
}

} // verus!
