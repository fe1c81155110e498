use vstd::prelude::*;
use crate::ids::RoadID;

verus! {

/// A road near a query point: how far its closest point lies from the query, in hundredths
/// of a distance unit, and where along the road that closest point sits (millionths).
#[derive(Clone, Copy, Debug, PartialEq, Eq, Structural)]
pub struct RoadCandidate {
    pub road: RoadID,
    pub score: u64,
    pub percent_along: u32,
}

/// The position of the first candidate with the smallest score.
pub open spec fn min_index(c: Seq<RoadCandidate>) -> int
    decreases c.len(),
{
    if c.len() <= 1 {
        0
    } else {
        let m = min_index(c.drop_last());
        if c.last().score < c[m].score {
            c.len() - 1
        } else {
            m
        }
    }
}

/// The first of the smallest scores among `c` is never beaten by another candidate, and every
/// candidate before it scores strictly worse.
pub proof fn lemma_closest_is_minimal(c: Seq<RoadCandidate>)
    requires
        c.len() > 0,
    ensures
        0 <= min_index(c) < c.len(),
        forall|j: int| 0 <= j < c.len() ==> c[min_index(c)].score <= (#[trigger] c[j]).score,
        forall|j: int| 0 <= j < min_index(c) ==> c[min_index(c)].score < (#[trigger] c[j]).score,
    decreases c.len(),
{
    if c.len() > 1 {
        let p = c.drop_last();
        lemma_closest_is_minimal(p);
        assert forall|j: int| 0 <= j < c.len() - 1 implies #[trigger] c[j] == p[j] by {}
    }
}

/// Picks, among candidates that the caller found near a query point, the one whose closest
/// point is nearest (the first such on a tie), with its position along the road.
pub fn closest_point_on_road(candidates: &Vec<RoadCandidate>) -> (r: Option<(RoadID, u32)>)
    ensures
        candidates@.len() == 0 <==> r.is_none(),
        candidates@.len() > 0 ==> r == Some(
            (
                candidates@[min_index(candidates@)].road,
                candidates@[min_index(candidates@)].percent_along,
            ),
        ),
{
    if candidates.len() == 0 {
        return None;
    }
    let mut best: usize = 0;
    let mut i: usize = 1;
    while i < candidates.len()
        invariant
            1 <= i <= candidates@.len(),
            best == min_index(candidates@.take(i as int)),
        decreases candidates@.len() - i,
    {
        let ghost p = candidates@.take(i as int);
        let ghost q = candidates@.take(i + 1);
        assert(q.drop_last() =~= p);
        proof {
            lemma_closest_is_minimal(p);
        }
        assert(q[best as int] == candidates@[best as int]);
        if candidates[i].score < candidates[best].score {
            best = i;
        }
        i = i + 1;
    }
    assert(candidates@.take(candidates@.len() as int) =~= candidates@);
    proof {
        lemma_closest_is_minimal(candidates@);
    }
    Some((candidates[best].road, candidates[best].percent_along))
}

/// The position of the first smallest score.
pub open spec fn first_min(scores: Seq<u64>) -> int
    decreases scores.len(),
{
    if scores.len() <= 1 {
        0
    } else {
        let m = first_min(scores.drop_last());
        if scores.last() < scores[m] {
            scores.len() - 1
        } else {
            m
        }
    }
}

pub proof fn lemma_first_min_bounds(scores: Seq<u64>)
    requires
        scores.len() > 0,
    ensures
        0 <= first_min(scores) < scores.len(),
        forall|j: int| 0 <= j < scores.len() ==> scores[first_min(scores)] <= #[trigger] scores[j],
    decreases scores.len(),
{
    if scores.len() > 1 {
        let p = scores.drop_last();
        lemma_first_min_bounds(p);
        assert forall|j: int| 0 <= j < scores.len() - 1 implies #[trigger] scores[j] == p[j] by {}
    }
}

/// The position of the first smallest of `scores`.
pub fn first_min_index(scores: &Vec<u64>) -> (r: usize)
    requires
        scores@.len() > 0,
    ensures
        r == first_min(scores@),
        r < scores@.len(),
        forall|j: int| 0 <= j < scores@.len() ==> scores@[r as int] <= #[trigger] scores@[j],
{
    let mut best: usize = 0;
    let mut i: usize = 1;
    while i < scores.len()
        invariant
            1 <= i <= scores@.len(),
            best == first_min(scores@.take(i as int)),
        decreases scores@.len() - i,
    {
        let ghost p = scores@.take(i as int);
        let ghost q = scores@.take(i + 1);
        assert(q.drop_last() =~= p);
        proof {
            lemma_first_min_bounds(p);
        }
        assert(q[best as int] == scores@[best as int]);
        if scores[i] < scores[best] {
            best = i;
        }
        i = i + 1;
    }
    assert(scores@.take(scores@.len() as int) =~= scores@);
    proof {
        lemma_first_min_bounds(scores@);
    }
    best
}

} // verus!
