use vstd::prelude::*;
use crate::features::indexed_edge::IndexedEdge;

verus! {

/// An indexed edge with the neighbour it was matched to, if any.
#[derive(Clone, Debug)]
pub struct NeighborEdge {
    pub indexed: IndexedEdge,
    pub neighbor: Option<usize>,
}

impl NeighborEdge {
    /// An edge not matched to any neighbour yet.
    pub fn new(indexed: IndexedEdge) -> (r: NeighborEdge)
        ensures
            r.indexed == indexed,
            r.neighbor.is_none(),
    {
        NeighborEdge { indexed, neighbor: None }
    }
}

} // verus!
