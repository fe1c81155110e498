use vstd::prelude::*;

verus! {

/// Dense handle of a road: an index into the network's road list.
#[derive(Clone, Copy, Debug, PartialEq, Eq, Structural, Hash, PartialOrd, Ord)]
pub struct RoadID(pub usize);

/// Dense handle of an intersection: an index into the network's intersection list.
#[derive(Clone, Copy, Debug, PartialEq, Eq, Structural, Hash, PartialOrd, Ord)]
pub struct IntersectionID(pub usize);

} // verus!
