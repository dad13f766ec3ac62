use vstd::prelude::*;
use crate::features::edge_shape::EdgeShape;

verus! {

/// An edge shape together with the index of the minutia it leads to.
#[derive(Clone, Debug)]
pub struct IndexedEdge {
    pub index: usize,
    pub shape: EdgeShape,
}

impl IndexedEdge {
    pub fn new(index: usize, shape: EdgeShape) -> (r: IndexedEdge)
        ensures
            r.index == index,
            r.shape == shape,
    {
        IndexedEdge { index, shape }
    }
}

} // verus!
