use vstd::prelude::*;
use crate::coords::Coords;

verus! {

pub type NodeIndex = i64;

/// A graph node: its position and the index of its first outgoing edge.
#[derive(Clone, Copy, PartialEq, Eq, Structural, Debug)]
pub struct Node {
    pub coords: Coords,
    pub offset: NodeIndex,
}

impl Node {
    pub fn new(coords: Coords, offset: i64) -> (r: Self)
        ensures
            r.coords == coords,
            r.offset == offset,
    {
        Node { coords, offset }
    }

    /// A node at the origin whose offset is not assigned yet.
    pub fn default() -> (r: Self)
        ensures
            r.coords.lat == 0 && r.coords.lon == 0,
            r.offset == NodeIndex::MAX,
    {
        Node { coords: Coords::default(), offset: NodeIndex::MAX }
    }
}

} // verus!
