use vstd::prelude::*;
use crate::extractor::neighbors::{cells_of, count_neighbors, lemma_cells_of, lemma_neighbors_agree, neighbors_of};
use crate::primitives::bool_matrix::BooleanMatrix;

verus! {

/// Whether `(x, y)` is an isolated dot off the frame of `m`: set, with no
/// set neighbour.
pub open spec fn isolated_dot(m: BooleanMatrix, x: int, y: int) -> bool {
    &&& 1 <= x < m.width - 1
    &&& 1 <= y < m.height - 1
    &&& m.at(x, y)
    &&& neighbors_of(cells_of(m), m.width as int, m.height as int, x, y) == 0
}

/// A skeleton without isolated dots.
pub struct SkeletonFilter {
    skeleton: BooleanMatrix,
}

impl SkeletonFilter {
    /// The filtered skeleton.
    pub closed spec fn skeleton_view(&self) -> BooleanMatrix {
        self.skeleton
    }

    /// Clears every isolated dot of `skeleton`, all decided on the skeleton as given.
    fn remove_isolated_dots(skeleton: &mut BooleanMatrix)
        requires
            old(skeleton).wf(),
            old(skeleton).width <= i32::MAX,
            old(skeleton).height <= i32::MAX,
        ensures
            final(skeleton).wf(),
            final(skeleton).width == old(skeleton).width,
            final(skeleton).height == old(skeleton).height,
            forall|x: int, y: int| #![trigger final(skeleton).at(x, y)] final(skeleton).in_bounds(x, y) ==>
                final(skeleton).at(x, y) == (old(skeleton).at(x, y) && !isolated_dot(*old(skeleton), x, y)),
    {
        let snapshot = BooleanMatrix::from_clone(skeleton);
        let w = skeleton.width();
        let h = skeleton.height();
        let mut y: usize = 1;
        while y + 1 < h
            invariant
                skeleton.wf(),
                snapshot.wf(),
                snapshot.cells@ == old(skeleton).cells@,
                snapshot.width == w,
                snapshot.height == h,
                skeleton.width == w,
                skeleton.height == h,
                w == old(skeleton).width,
                h == old(skeleton).height,
                w <= i32::MAX,
                h <= i32::MAX,
                1 <= y,
                y <= h + 1,
                forall|a: int, b: int| #![trigger skeleton.at(a, b)] skeleton.in_bounds(a, b) ==>
                    skeleton.at(a, b) == (old(skeleton).at(a, b) && !(b < y && isolated_dot(*old(skeleton), a, b))),
            decreases h - y,
        {
            let mut x: usize = 1;
            while x + 1 < w
                invariant
                    skeleton.wf(),
                    snapshot.wf(),
                    snapshot.cells@ == old(skeleton).cells@,
                    snapshot.width == w,
                    snapshot.height == h,
                    skeleton.width == w,
                    skeleton.height == h,
                    w == old(skeleton).width,
                    h == old(skeleton).height,
                    w <= i32::MAX,
                    h <= i32::MAX,
                    1 <= y,
                    y + 1 < h,
                    1 <= x,
                    x <= w + 1,
                    forall|a: int, b: int| #![trigger skeleton.at(a, b)] skeleton.in_bounds(a, b) ==>
                        skeleton.at(a, b) == (old(skeleton).at(a, b)
                            && !((b < y || (b == y && a < x)) && isolated_dot(*old(skeleton), a, b))),
                decreases w - x,
            {
                proof {
                    assert(cells_of(snapshot) =~= cells_of(*old(skeleton)));
                }
                if snapshot.get(x, y) && count_neighbors(&snapshot, x, y) == 0 {
                    skeleton.set(x, y, false);
                }
                x = x + 1;
            }
            y = y + 1;
        }
    }

    /// The skeleton without isolated dots.
    pub fn new(skeleton: &BooleanMatrix) -> (filter: SkeletonFilter)
        requires
            skeleton.wf(),
            skeleton.width <= i32::MAX,
            skeleton.height <= i32::MAX,
        ensures
            filter.skeleton_view().wf(),
            filter.skeleton_view().width == skeleton.width,
            filter.skeleton_view().height == skeleton.height,
            forall|x: int, y: int| #![trigger filter.skeleton_view().at(x, y)] filter.skeleton_view().in_bounds(x, y) ==>
                filter.skeleton_view().at(x, y) == (skeleton.at(x, y) && !isolated_dot(*skeleton, x, y)),
    {
        let mut filtered = BooleanMatrix::from_clone(skeleton);
        let ghost copy = filtered;
        Self::remove_isolated_dots(&mut filtered);
        proof {
            assert(cells_of(copy) =~= cells_of(*skeleton));
        }
        SkeletonFilter { skeleton: filtered }
    }

    /// The filtered skeleton.
    pub fn skeleton(&self) -> (r: &BooleanMatrix)
        ensures
            *r == self.skeleton_view(),
    {
        &self.skeleton
    }
}

} // verus!
