use vstd::prelude::*;
use crate::primitives::short_point::ShortPoint;

verus! {

/// The points of an edge between two minutiae.
#[derive(Clone, Debug)]
pub struct EdgeShape {
    pub points: Vec<ShortPoint>,
}

impl EdgeShape {
    pub fn new(points: Vec<ShortPoint>) -> (r: EdgeShape)
        ensures
            r.points@ == points@,
    {
        EdgeShape { points }
    }
}

} // verus!
