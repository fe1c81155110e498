use vstd::prelude::*;
use crate::ids::RoadID;
use crate::kinds::FilterKind;

verus! {

/// Largest value of `ModalFilter::percent_along`: the far end of the road.
pub const ALONG_SCALE: u32 = 1000000;

/// A filter sitting on a road, blocking some kinds of vehicle.
#[derive(Clone, Copy, Debug, PartialEq, Eq, Structural)]
pub struct ModalFilter {
    pub kind: FilterKind,
    /// Position along the road's line, in millionths of its length (0 ..= `ALONG_SCALE`).
    pub percent_along: u32,
}

/// A filter at a 4-way junction that splits its roads into two groups of two. Traffic may only
/// move between roads of one group, so it must turn.
#[derive(Clone, Copy, Debug)]
pub struct DiagonalFilter {
    pub group_a: (RoadID, RoadID),
    pub group_b: (RoadID, RoadID),
}

/// The road `n` places clockwise after position `split_offset` among the four `roads`.
pub open spec fn nth_from(roads: Seq<RoadID>, split_offset: int, n: int) -> RoadID {
    roads[(split_offset + n) % 4]
}

/// The filter that groups the two roads starting at `split_offset` together, and the other two.
pub open spec fn diagonal_filter_at(roads: Seq<RoadID>, split_offset: int) -> DiagonalFilter {
    DiagonalFilter {
        group_a: (nth_from(roads, split_offset, 0), nth_from(roads, split_offset, 1)),
        group_b: (nth_from(roads, split_offset, 2), nth_from(roads, split_offset, 3)),
    }
}

proof fn lemma_offset_mod(s: int, n: int)
    requires
        s >= 0,
        0 <= n < 4,
    ensures
        (s + n) % 4 == (s % 4 + n) % 4,
{
    assert((s + n) % 4 == (s % 4 + n) % 4) by (nonlinear_arith)
        requires
            s >= 0,
            0 <= n < 4,
    ;
}

pub open spec fn in_group(g: (RoadID, RoadID), r: RoadID) -> bool {
    g.0 == r || g.1 == r
}

impl DiagonalFilter {
    /// Builds the filter for a junction whose four incident roads are `roads`, in clockwise
    /// order; `split_offset` picks which adjacent pair goes together (1 rotates the filter).
    pub fn new(roads: &Vec<RoadID>, split_offset: usize) -> (r: DiagonalFilter)
        requires
            roads@.len() == 4,
        ensures
            r == diagonal_filter_at(roads@, split_offset as int),
    {
        let k: usize = split_offset % 4;
        assert((split_offset as int) % 4 == k as int);
        proof {
            lemma_offset_mod(split_offset as int, 0);
            lemma_offset_mod(split_offset as int, 1);
            lemma_offset_mod(split_offset as int, 2);
            lemma_offset_mod(split_offset as int, 3);
        }
        let a0 = roads[k];
        let a1 = roads[(k + 1) % 4];
        let b0 = roads[(k + 2) % 4];
        let b1 = roads[(k + 3) % 4];
        DiagonalFilter { group_a: (a0, a1), group_b: (b0, b1) }
    }

    pub open spec fn allows(&self, from: RoadID, to: RoadID) -> bool {
        (in_group(self.group_a, from) && in_group(self.group_a, to))
            || (in_group(self.group_b, from) && in_group(self.group_b, to))
    }

    /// May traffic go from road `movement.0` to road `movement.1` through the junction?
    pub fn allows_movement(&self, movement: &(RoadID, RoadID)) -> (r: bool)
        ensures
            r == self.allows(movement.0, movement.1),
    {
        let (from, to) = *movement;
        let a = self.group_a;
        let b = self.group_b;
        (a.0 == from || a.1 == from) && (a.0 == to || a.1 == to)
            || (b.0 == from || b.1 == from) && (b.0 == to || b.1 == to)
    }
}

/// A movement through a diagonal filter is allowed exactly when its reverse is.
pub proof fn lemma_allows_movement_symmetric(f: DiagonalFilter, from: RoadID, to: RoadID)
    ensures
        f.allows(from, to) == f.allows(to, from),
{
}

/// For a junction with roads `[n, e, s, w]` clockwise, offset 0 groups `{n, e}` against
/// `{s, w}`, offset 1 groups `{e, s}` against `{w, n}`, and a movement is allowed exactly
/// when both of its roads lie in one group.
pub proof fn lemma_diagonal_groups(roads: Seq<RoadID>, from: RoadID, to: RoadID)
    requires
        roads.len() == 4,
    ensures
        diagonal_filter_at(roads, 0).group_a == (roads[0], roads[1]),
        diagonal_filter_at(roads, 0).group_b == (roads[2], roads[3]),
        diagonal_filter_at(roads, 1).group_a == (roads[1], roads[2]),
        diagonal_filter_at(roads, 1).group_b == (roads[3], roads[0]),
        forall|k: int|
            #![trigger diagonal_filter_at(roads, k)]
            diagonal_filter_at(roads, k).allows(from, to) == (
            (in_group(diagonal_filter_at(roads, k).group_a, from) && in_group(
                diagonal_filter_at(roads, k).group_a,
                to,
            )) || (in_group(diagonal_filter_at(roads, k).group_b, from) && in_group(
                diagonal_filter_at(roads, k).group_b,
                to,
            ))),
{
}

} // verus!
