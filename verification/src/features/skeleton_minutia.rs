use vstd::prelude::*;
use crate::primitives::int_point::IntPoint;

verus! {

/// A skeleton node at `position` with the indices of its ridges.
#[derive(Clone, Debug)]
pub struct SkeletonMinutia {
    pub position: IntPoint,
    pub ridges: Vec<usize>,
}

impl SkeletonMinutia {
    /// A node without ridges.
    pub fn new(position: IntPoint) -> (r: SkeletonMinutia)
        ensures
            r.position == position,
            r.ridges@.len() == 0,
    {
        SkeletonMinutia { position, ridges: Vec::new() }
    }
}

} // verus!
