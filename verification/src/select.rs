use vstd::prelude::*;
use crate::intersect::{gallop_chosen, is_intersection, longer, merge_common, shorter, strictly_increasing, within_both};
use crate::query::Probe;
use crate::search::Searcher;

verus! {

/// Once this many posting lists are intersected, no more are fetched.
pub const MAX_FETCHED: usize = 5;

/// With at most this many candidates left (after two lists), no more lists are fetched.
pub const FEW_CANDIDATES: usize = 50;

/// A list over this many times the number of candidates left is skipped.
pub const SKIP_RATIO: usize = 50;

/// The index of the next probe to fetch, looking from `from`, when `fetched`
/// posting lists have been intersected down to `cand` candidates: the first one
/// is always fetched; after five lists nothing more is; after two, nothing
/// more when at most 50 candidates are left, and a probe whose list is over 50
/// times the candidates left is skipped.
pub open spec fn next_probe(counts: Seq<usize>, from: int, fetched: int, cand: int) -> Option<int>
    decreases counts.len() - from,
{
    if from < 0 || from >= counts.len() {
        None
    } else if fetched == 0 {
        Some(from)
    } else if fetched >= MAX_FETCHED {
        None
    } else if fetched >= 2 && cand <= FEW_CANDIDATES {
        None
    } else if fetched >= 2 && counts[from] > cand * SKIP_RATIO {
        next_probe(counts, from + 1, fetched, cand)
    } else {
        Some(from)
    }
}

/// The posting counts of a list of probes.
pub open spec fn probe_counts(ps: Seq<Probe>) -> Seq<usize> {
    ps.map_values(|p: Probe| p.2)
}

/// What intersecting `old` with `posting` gives: values in both; the merge of
/// the shorter into the longer when the lists are of similar length; and for
/// ascending inputs, their intersection.
pub open spec fn narrowed(r: Seq<u32>, old: Seq<u32>, posting: Seq<u32>) -> bool {
    &&& within_both(r, old, posting)
    &&& r.len() <= posting.len()
    &&& !gallop_chosen(old, posting) ==> r == merge_common(shorter(old, posting), longer(old, posting), 0, 0)
    &&& strictly_increasing(old) && strictly_increasing(posting) ==> is_intersection(r, old, posting)
}

/// Every one of the lists `ls` is ascending.
pub open spec fn all_ascending(ls: Seq<Seq<u32>>) -> bool {
    forall|k: int| 0 <= k < ls.len() ==> strictly_increasing(#[trigger] ls[k])
}

/// `v` is in every one of the lists `ls`.
pub open spec fn in_all(ls: Seq<Seq<u32>>, v: u32) -> bool {
    forall|k: int| 0 <= k < ls.len() ==> #[trigger] ls[k].contains(v)
}

/// Narrows a query's candidate files down by intersecting posting lists, one
/// probe at a time: the caller asks which list to fetch next, reads it, and
/// hands it back.
pub struct CandidateSelection {
    probes: Vec<Probe>,
    next: usize,
    candidates: Vec<u32>,
    fetched: usize,
    awaiting: bool,
    received: Ghost<Seq<Seq<u32>>>,
}

impl CandidateSelection {
    /// The probes, shortest posting list first.
    pub closed spec fn probes_view(&self) -> Seq<Probe> {
        self.probes@
    }

    /// Where the search for the next probe to fetch starts.
    pub closed spec fn next_view(&self) -> int {
        self.next as int
    }

    /// The candidate files left.
    pub closed spec fn candidates_view(&self) -> Seq<u32> {
        self.candidates@
    }

    /// How many posting lists have been intersected.
    pub closed spec fn fetched_view(&self) -> int {
        self.fetched as int
    }

    /// A posting list has been asked for and not yet handed back.
    pub closed spec fn awaiting_view(&self) -> bool {
        self.awaiting
    }

    /// The posting lists handed back so far.
    pub closed spec fn received_view(&self) -> Seq<Seq<u32>> {
        self.received@
    }

    /// The selection's state is consistent.
    pub closed spec fn wf(&self) -> bool {
        &&& self.next <= self.probes@.len()
        &&& self.fetched == self.received@.len()
        &&& self.awaiting ==> self.fetched < MAX_FETCHED
        &&& self.candidates@.len() <= isize::MAX / 4
        &&& forall|k: int, j: int| 0 <= k < self.received@.len() && 0 <= j < self.candidates@.len()
            ==> #[trigger] self.received@[k].contains(#[trigger] self.candidates@[j])
        &&& all_ascending(self.received@) ==> strictly_increasing(self.candidates@)
        &&& all_ascending(self.received@) && self.fetched > 0 ==> forall|v: u32|
            #[trigger] in_all(self.received@, v) ==> self.candidates@.contains(v)
    }

    /// The candidates are exactly the files in all of the lists handed back (one
    /// at least), when those lists are ascending; in any case every candidate is
    /// in every list handed back.
    pub proof fn lemma_candidates(&self, v: u32)
        requires
            self.wf(),
        ensures
            self.candidates_view().contains(v) ==> in_all(self.received_view(), v),
            all_ascending(self.received_view()) && self.received_view().len() > 0 && in_all(
                self.received_view(),
                v,
            ) ==> self.candidates_view().contains(v),
    {
        if self.candidates@.contains(v) {
            let j = choose|j: int| 0 <= j < self.candidates@.len() && self.candidates@[j] == v;
            assert forall|k: int| 0 <= k < self.received@.len() implies #[trigger] self.received@[k].contains(v) by {
                assert(self.received@[k].contains(self.candidates@[j]));
            }
        }
    }

    /// Starts a selection over `probes` (ordered by posting count).
    pub fn new(probes: Vec<Probe>) -> (s: Self)
        ensures
            s.wf(),
            s.probes_view() == probes@,
            s.next_view() == 0,
            s.fetched_view() == 0,
            s.candidates_view() == Seq::<u32>::empty(),
            !s.awaiting_view(),
            s.received_view() == Seq::<Seq<u32>>::empty(),
    {
        CandidateSelection {
            probes,
            next: 0,
            candidates: Vec::new(),
            fetched: 0,
            awaiting: false,
            received: Ghost(Seq::empty()),
        }
    }

    /// The posting list to fetch next (its offset and count), or `None` when the
    /// selection is over.
    pub fn next_request(&mut self) -> (r: Option<(u64, usize)>)
        requires
            old(self).wf(),
            !old(self).awaiting_view(),
        ensures
            final(self).wf(),
            final(self).probes_view() == old(self).probes_view(),
            final(self).candidates_view() == old(self).candidates_view(),
            final(self).fetched_view() == old(self).fetched_view(),
            final(self).received_view() == old(self).received_view(),
            match next_probe(
                probe_counts(old(self).probes_view()),
                old(self).next_view(),
                old(self).fetched_view(),
                old(self).candidates_view().len() as int,
            ) {
                Some(i) => {
                    &&& r == Some((old(self).probes_view()[i].1, old(self).probes_view()[i].2))
                    &&& final(self).next_view() == i + 1
                    &&& final(self).awaiting_view()
                },
                None => {
                    &&& r is None
                    &&& final(self).next_view() == old(self).next_view()
                    &&& !final(self).awaiting_view()
                },
            },
    {
        match self.find_next() {
            Some(i) => {
                let n = self.probes.len();
                let p = self.probes[i];
                self.next = i + 1;
                self.awaiting = true;
                Some((p.1, p.2))
            },
            None => None,
        }
    }

    fn find_next(&self) -> (r: Option<usize>)
        requires
            self.wf(),
            !self.awaiting,
        ensures
            r matches Some(i) ==> next_probe(probe_counts(self.probes@), self.next as int, self.fetched as int, self.candidates@.len() as int) == Some(i as int),
            r is None ==> next_probe(probe_counts(self.probes@), self.next as int, self.fetched as int, self.candidates@.len() as int) is None,
            r matches Some(i) ==> i < self.probes@.len() && self.fetched < MAX_FETCHED,
    {
        let ghost counts = probe_counts(self.probes@);
        let ghost start = self.next as int;
        let cand = self.candidates.len();
        let mut i = self.next;
        while i < self.probes.len()
            invariant
                self.wf(),
                start == self.next as int,
                start <= i <= self.probes@.len(),
                counts == probe_counts(self.probes@),
                cand == self.candidates@.len(),
                next_probe(counts, i as int, self.fetched as int, cand as int) == next_probe(
                    counts,
                    start,
                    self.fetched as int,
                    cand as int,
                ),
            decreases self.probes@.len() - i,
        {
            let count = self.probes[i].2;
            assert(counts[i as int] == count);
            if self.fetched == 0 {
                return Some(i);
            } else if self.fetched >= MAX_FETCHED {
                return None;
            } else if self.fetched >= 2 && cand <= FEW_CANDIDATES {
                return None;
            } else if self.fetched >= 2 && (count as u128) > (cand as u128) * (SKIP_RATIO as u128) {
                i += 1;
            } else {
                return Some(i);
            }
        }
        None
    }

    /// Hands back the posting list that `next_request` asked for: the first one
    /// becomes the candidates, later ones are intersected with them.
    pub fn receive(&mut self, posting: Vec<u32>)
        requires
            old(self).wf(),
            old(self).awaiting_view(),
            posting@.len() <= isize::MAX / 4,
        ensures
            final(self).wf(),
            !final(self).awaiting_view(),
            final(self).probes_view() == old(self).probes_view(),
            final(self).next_view() == old(self).next_view(),
            final(self).fetched_view() == old(self).fetched_view() + 1,
            final(self).received_view() == old(self).received_view().push(posting@),
            old(self).fetched_view() == 0 ==> final(self).candidates_view() == posting@,
            old(self).fetched_view() > 0 ==> narrowed(final(self).candidates_view(), old(self).candidates_view(), posting@),
    {
        let ghost old_cand = self.candidates@;
        let ghost old_received = self.received@;
        let ghost old_fetched = self.fetched;
        let ghost pv = posting@;
        if self.fetched == 0 {
            self.candidates = posting;
        } else {
            let r = Searcher::adaptive_intersect(self.candidates.as_slice(), posting.as_slice());
            self.candidates = r;
        }
        self.fetched = self.fetched + 1;
        self.awaiting = false;
        self.received = Ghost(old_received.push(posting@));
        proof {
            if all_ascending(self.received@) {
                assert(strictly_increasing(self.received@[old_received.len() as int]));
                assert forall|k: int| 0 <= k < old_received.len() implies strictly_increasing(
                    #[trigger] old_received[k],
                ) by {
                    assert(self.received@[k] == old_received[k]);
                }
                assert forall|v: u32| #[trigger] in_all(self.received@, v) implies self.candidates@.contains(v) by {
                    assert(self.received@[old_received.len() as int] == pv);
                    if old_fetched > 0 {
                        assert forall|k: int| 0 <= k < old_received.len() implies #[trigger] old_received[k].contains(v) by {
                            assert(self.received@[k] == old_received[k]);
                        }
                        assert(in_all(old_received, v));
                    }
                }
            }
        }
        proof {
            assert forall|k: int, j: int| 0 <= k < self.received@.len() && 0 <= j < self.candidates@.len()
                implies #[trigger] self.received@[k].contains(#[trigger] self.candidates@[j]) by {
                let c = self.candidates@[j];
                if k == old_received.len() {
                    if old_cand.len() == 0 && self.fetched == 1 {
                        assert(self.received@[k] == posting@);
                        assert(posting@[j] == c);
                    }
                    if self.fetched > 1 {
                        assert(posting@.contains(c));
                    } else {
                        assert(posting@[j] == c);
                    }
                } else {
                    assert(self.received@[k] == old_received[k]);
                    if self.fetched > 1 {
                        assert(old_cand.contains(c));
                        let m = choose|m: int| 0 <= m < old_cand.len() && old_cand[m] == c;
                        assert(old_received[k].contains(old_cand[m]));
                    } else {
                        assert(old_received.len() == 0);
                    }
                }
            }
        }
    }

    /// The candidate files left.
    pub fn candidates(&self) -> (c: &Vec<u32>)
        ensures
            c@ == self.candidates_view(),
    {
        &self.candidates
    }

    /// How many posting lists have been intersected.
    pub fn fetched(&self) -> (n: usize)
        ensures
            n == self.fetched_view(),
    {
        self.fetched
    }
}

} // verus!
