use vstd::prelude::*;
use crate::node::NodeIndex;

verus! {

pub type EdgeCost = i64;

/// A sequence of edges forming a route.
pub struct EdgePath {
    pub path: Vec<Edge>,
}

/// A directed, weighted edge between two node indices.
#[derive(Clone, Copy, PartialEq, Eq, Structural, Debug)]
pub struct Edge {
    pub src: NodeIndex,
    pub trg: NodeIndex,
    pub cost: EdgeCost,
}

impl Edge {
    #[must_use]
    pub fn new(src: NodeIndex, trg: NodeIndex, cost: EdgeCost) -> (r: Self)
        ensures
            r.src == src,
            r.trg == trg,
            r.cost == cost,
    {
        Edge { src, trg, cost }
    }

    pub fn default() -> (r: Self)
        ensures
            r.src == 0,
            r.trg == 0,
            r.cost == 0,
    {
        Edge { src: 0, trg: 0, cost: 0 }
    }
}

} // verus!
