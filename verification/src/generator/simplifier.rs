//! Path simplification: which waypoints of a segment stay, once a simplifier
//! has named the indices to retain

use vstd::prelude::*;

use super::track::{TrackSegment, Waypoint};

verus! {

/// Whether `keep` names waypoints of a run of `len`: every index is one of it.
pub open spec fn in_bounds(keep: Seq<usize>, len: nat) -> bool {
    forall|i: int| 0 <= i < keep.len() ==> (#[trigger] keep[i]) < len
}

/// Whether `keep` selects from a run of `len` waypoints as a simplifier may:
/// indices of the run, strictly ascending, and, where the run has a waypoint
/// at all, its first and its last among them.
pub open spec fn is_selection(keep: Seq<usize>, len: nat) -> bool {
    &&& in_bounds(keep, len)
    &&& forall|i: int, j: int|
        0 <= i < j < keep.len() ==> (#[trigger] keep[i]) < (#[trigger] keep[j])
    &&& len > 0 ==> keep.len() > 0 && keep[0] == 0 && keep[keep.len() - 1] == len - 1
}

/// The waypoints that `keep` names, in the order in which it names them.
pub open spec fn picked(points: Seq<Waypoint>, keep: Seq<usize>) -> Seq<Waypoint> {
    Seq::new(keep.len(), |i: int| points[keep[i] as int])
}

/// What is left of a segment after simplification: the waypoints that `keep`
/// names where it is a selection, and the whole segment where it is not.
pub open spec fn simplified_points(points: Seq<Waypoint>, keep: Seq<usize>) -> Seq<Waypoint> {
    if is_selection(keep, points.len()) {
        picked(points, keep)
    } else {
        points
    }
}

/// Whether `part` is `whole` with some waypoints left out: same order, first
/// and last waypoint still there.
pub open spec fn is_reduction_of(part: Seq<Waypoint>, whole: Seq<Waypoint>) -> bool {
    &&& part.len() <= whole.len()
    &&& whole.len() > 0 ==> part.len() > 0 && part[0] == whole[0] && part[part.len() - 1]
        == whole[whole.len() - 1]
    &&& exists|at: Seq<int>| is_embedding(at, part, whole)
}

/// Whether `at` places the waypoints of `part`, one after the other, at
/// ascending indices of `whole`.
pub open spec fn is_embedding(at: Seq<int>, part: Seq<Waypoint>, whole: Seq<Waypoint>) -> bool {
    &&& at.len() == part.len()
    &&& forall|i: int|
        0 <= i < at.len() ==> 0 <= (#[trigger] at[i]) < whole.len() && part[i] == whole[at[i]]
    &&& forall|i: int, j: int| 0 <= i < j < at.len() ==> (#[trigger] at[i]) < (#[trigger] at[j])
}

/// Strictly ascending indices of a run leave room for those that follow: from
/// the `i`-th on there are no more of them than the run has waypoints from
/// that index on.
proof fn lemma_ascending_indices(keep: Seq<usize>, len: nat, i: int)
    requires
        in_bounds(keep, len),
        forall|a: int, b: int|
            0 <= a < b < keep.len() ==> (#[trigger] keep[a]) < (#[trigger] keep[b]),
        0 <= i < keep.len(),
    ensures
        keep.len() - i <= len - keep[i],
    decreases keep.len() - i,
{
    if i + 1 < keep.len() {
        lemma_ascending_indices(keep, len, i + 1);
        assert(keep[i] < keep[i + 1]);
    }
}

/// Simplification only leaves waypoints out: whatever indices a simplifier
/// names, what is left of a segment has no more waypoints than the segment,
/// holds them in the segment's order, and still starts and ends where the
/// segment does.
pub proof fn lemma_simplified_is_reduction(points: Seq<Waypoint>, keep: Seq<usize>)
    ensures
        is_reduction_of(simplified_points(points, keep), points),
{
    let part = simplified_points(points, keep);
    if is_selection(keep, points.len()) {
        let at = Seq::new(keep.len(), |i: int| keep[i] as int);
        assert(is_embedding(at, part, points));
        if keep.len() > 0 {
            lemma_ascending_indices(keep, points.len(), 0);
        }
    } else {
        let at = Seq::new(points.len(), |i: int| i);
        assert(is_embedding(at, part, points));
    }
}

/// A run of waypoints is the reduction of itself that leaves nothing out.
pub proof fn lemma_reduction_reflexive(whole: Seq<Waypoint>)
    ensures
        is_reduction_of(whole, whole),
{
    let at = Seq::new(whole.len(), |i: int| i);
    assert(is_embedding(at, whole, whole));
}

/// Leaving waypoints out keeps the order in time: a reduction of a
/// chronological run is chronological.
pub proof fn lemma_reduction_keeps_order(part: Seq<Waypoint>, whole: Seq<Waypoint>)
    requires
        is_reduction_of(part, whole),
        forall|a: int, b: int|
            0 <= a < b < whole.len() ==> whole[a].instant() <= whole[b].instant(),
    ensures
        forall|a: int, b: int| 0 <= a < b < part.len() ==> part[a].instant() <= part[b].instant(),
{
    let at = choose|at: Seq<int>| is_embedding(at, part, whole);
    assert forall|a: int, b: int| 0 <= a < b < part.len() implies part[a].instant()
        <= part[b].instant() by {
        assert(at[a] < at[b]);
        assert(part[a] == whole[at[a]]);
        assert(part[b] == whole[at[b]]);
    }
}

/// Every waypoint of a reduction is a waypoint of the whole.
pub proof fn lemma_reduction_member(part: Seq<Waypoint>, whole: Seq<Waypoint>, i: int) -> (k: int)
    requires
        is_reduction_of(part, whole),
        0 <= i < part.len(),
    ensures
        0 <= k < whole.len(),
        whole[k] == part[i],
{
    let at = choose|at: Seq<int>| is_embedding(at, part, whole);
    at[i]
}

impl TrackSegment {
    /// The segment made of the waypoints that `keep` names, in that order.
    pub fn retain(&self, keep: &Vec<usize>) -> (kept: TrackSegment)
        requires
            in_bounds(keep@, self@.len()),
        ensures
            kept@ == picked(self@, keep@),
    {
        let mut points: Vec<Waypoint> = Vec::new();
        let mut i: usize = 0;
        while i < keep.len()
            invariant
                i <= keep.len(),
                in_bounds(keep@, self@.len()),
                points@ == picked(self@, keep@.take(i as int)),
            decreases keep.len() - i,
        {
            points.push(self.points[keep[i]]);
            proof {
                assert(points@ =~= picked(self@, keep@.take(i + 1)));
            }
            i = i + 1;
        }
        proof {
            assert(keep@.take(i as int) =~= keep@);
        }
        TrackSegment { points }
    }

    /// Whether `keep` is a selection of this segment's waypoints.
    pub fn accepts(&self, keep: &Vec<usize>) -> (ok: bool)
        ensures
            ok == is_selection(keep@, self@.len()),
    {
        let len: usize = self.points.len();
        if len > 0 && (keep.len() == 0 || keep[0] != 0 || keep[keep.len() - 1] != len - 1) {
            return false;
        }
        let mut i: usize = 0;
        while i < keep.len()
            invariant
                i <= keep.len(),
                len == self@.len(),
                in_bounds(keep@.take(i as int), len as nat),
                forall|a: int, b: int|
                    0 <= a < b < i ==> (#[trigger] keep[a]) < (#[trigger] keep[b]),
            decreases keep.len() - i,
        {
            if keep[i] >= len {
                return false;
            }
            if i > 0 && keep[i - 1] >= keep[i] {
                return false;
            }
            proof {
                assert forall|a: int, b: int| 0 <= a < b < i + 1 implies (#[trigger] keep[a]) < (
                #[trigger] keep[b]) by {
                    if b == i && a < i - 1 {
                        assert(keep[a] < keep[i - 1]);
                    }
                }
                assert forall|k: int| 0 <= k < i + 1 implies (#[trigger] keep@.take(i + 1)[k])
                    < len by {
                    if k < i {
                        assert(keep@.take(i as int)[k] < len);
                    }
                }
            }
            i = i + 1;
        }
        proof {
            assert(keep@.take(i as int) =~= keep@);
        }
        true
    }

    /// What is left of the segment after simplification: the waypoints that
    /// `keep` names where it is a selection, the whole segment where it is not.
    pub fn simplified(&self, keep: &Vec<usize>) -> (kept: TrackSegment)
        ensures
            kept@ == simplified_points(self@, keep@),
            is_reduction_of(kept@, self@),
    {
        proof {
            lemma_simplified_is_reduction(self@, keep@);
        }
        if self.accepts(keep) {
            self.retain(keep)
        } else {
            self.whole()
        }
    }

    /// A segment of the same waypoints.
    fn whole(&self) -> (kept: TrackSegment)
        ensures
            kept@ == self@,
    {
        let mut points: Vec<Waypoint> = Vec::new();
        let mut i: usize = 0;
        while i < self.points.len()
            invariant
                i <= self.points.len(),
                points@ == self@.take(i as int),
            decreases self.points.len() - i,
        {
            points.push(self.points[i]);
            proof {
                assert(points@ =~= self@.take(i + 1));
            }
            i = i + 1;
        }
        proof {
            assert(self@.take(i as int) =~= self@);
        }
        TrackSegment { points }
    }
}

} // verus!
