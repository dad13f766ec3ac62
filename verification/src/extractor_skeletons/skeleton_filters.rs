use vstd::prelude::*;
use crate::extractor::neighbors::{cells_of, count_neighbors, lemma_cells_of, neighbors_of, one_if};
use crate::primitives::bool_matrix::BooleanMatrix;
use crate::primitives::int_point::IntPoint;

verus! {

/// Number of set pixels in the 3×3 block centred on `(x, y)`, the centre included.
pub open spec fn block_count(m: BooleanMatrix, x: int, y: int) -> int {
    neighbors_of(cells_of(m), m.width as int, m.height as int, x, y) + one_if(cells_of(m), m.width as int, m.height as int, x, y)
}

/// A filter that cleans a binary skeleton around one pixel.
pub trait SkeletonFilter {
    fn apply(&self, skeleton: &mut BooleanMatrix, pt: &IntPoint)
        requires
            old(skeleton).wf(),
            old(skeleton).width <= i32::MAX,
            old(skeleton).height <= i32::MAX,
            old(skeleton).in_bounds(pt.x as int, pt.y as int),
        ensures
            final(skeleton).wf(),
            final(skeleton).width == old(skeleton).width,
            final(skeleton).height == old(skeleton).height,
    ;
}

/// Removes a pixel that is the only set pixel of its 3×3 block.
pub struct SkeletonDotFilter;

impl SkeletonFilter for SkeletonDotFilter {
    fn apply(&self, skeleton: &mut BooleanMatrix, pt: &IntPoint)
        ensures
            forall|x: int, y: int| #![trigger final(skeleton).at(x, y)] final(skeleton).in_bounds(x, y) ==>
                final(skeleton).at(x, y) == if x == pt.x && y == pt.y {
                    old(skeleton).at(x, y) && block_count(*old(skeleton), x, y) != 1
                } else {
                    old(skeleton).at(x, y)
                },
    {
        let x = pt.x as usize;
        let y = pt.y as usize;
        let neighbors = count_neighbors(skeleton, x, y) + if skeleton.get(x, y) { 1 } else { 0 };
        proof {
            lemma_cells_of(*skeleton, x as int, y as int);
        }
        if neighbors == 1 {
            skeleton.set(x, y, false);
        }
    }
}

/// Pores are handled while the skeleton is traced; this filter changes nothing.
pub struct SkeletonPoreFilter;

impl SkeletonFilter for SkeletonPoreFilter {
    fn apply(&self, skeleton: &mut BooleanMatrix, pt: &IntPoint)
        ensures
            *final(skeleton) == *old(skeleton),
    {
    }
}

/// Gaps are closed while the skeleton is traced; this filter changes nothing.
pub struct SkeletonGapFilter {
    max_gap_size: usize,
}

impl SkeletonGapFilter {
    pub fn new(max_gap_size: usize) -> (r: SkeletonGapFilter)
        ensures
            r.max_gap_size() == max_gap_size,
    {
        SkeletonGapFilter { max_gap_size }
    }

    pub closed spec fn max_gap_size(&self) -> usize {
        self.max_gap_size
    }
}

impl SkeletonFilter for SkeletonGapFilter {
    fn apply(&self, skeleton: &mut BooleanMatrix, pt: &IntPoint)
        ensures
            *final(skeleton) == *old(skeleton),
    {
    }
}

/// Tails are removed while the skeleton is traced; this filter changes nothing.
pub struct SkeletonTailFilter {
    min_tail_length: usize,
}

impl SkeletonTailFilter {
    pub fn new(min_tail_length: usize) -> (r: SkeletonTailFilter)
        ensures
            r.min_tail_length() == min_tail_length,
    {
        SkeletonTailFilter { min_tail_length }
    }

    pub closed spec fn min_tail_length(&self) -> usize {
        self.min_tail_length
    }
}

impl SkeletonFilter for SkeletonTailFilter {
    fn apply(&self, skeleton: &mut BooleanMatrix, pt: &IntPoint)
        ensures
            *final(skeleton) == *old(skeleton),
    {
    }
}

/// Fragments are removed while the skeleton is traced; this filter changes nothing.
pub struct SkeletonFragmentFilter {
    min_fragment_length: usize,
}

impl SkeletonFragmentFilter {
    pub fn new(min_fragment_length: usize) -> (r: SkeletonFragmentFilter)
        ensures
            r.min_fragment_length() == min_fragment_length,
    {
        SkeletonFragmentFilter { min_fragment_length }
    }

    pub closed spec fn min_fragment_length(&self) -> usize {
        self.min_fragment_length
    }
}

impl SkeletonFilter for SkeletonFragmentFilter {
    fn apply(&self, skeleton: &mut BooleanMatrix, pt: &IntPoint)
        ensures
            *final(skeleton) == *old(skeleton),
    {
    }
}

/// Knots are merged while the skeleton is traced; this filter changes nothing.
pub struct SkeletonKnotFilter;

impl SkeletonFilter for SkeletonKnotFilter {
    fn apply(&self, skeleton: &mut BooleanMatrix, pt: &IntPoint)
        ensures
            *final(skeleton) == *old(skeleton),
    {
    }
}

/// A set pixel with no set neighbour.
pub open spec fn isolated(m: BooleanMatrix, x: int, y: int) -> bool {
    m.at(x, y) && neighbors_of(cells_of(m), m.width as int, m.height as int, x, y) == 0
}

/// Runs the dot filter on every set pixel in row-major order, which clears
/// exactly the isolated pixels: clearing one never changes another pixel's
/// neighbourhood, since an isolated pixel neighbours no set pixel.
pub fn apply_filters(skeleton: &mut BooleanMatrix)
    requires
        old(skeleton).wf(),
        old(skeleton).width <= i32::MAX,
        old(skeleton).height <= i32::MAX,
    ensures
        final(skeleton).wf(),
        final(skeleton).width == old(skeleton).width,
        final(skeleton).height == old(skeleton).height,
        forall|x: int, y: int| #![trigger final(skeleton).at(x, y)] final(skeleton).in_bounds(x, y) ==>
            final(skeleton).at(x, y) == (old(skeleton).at(x, y) && !isolated(*old(skeleton), x, y)),
{
    let w = skeleton.width();
    let h = skeleton.height();
    let dot_filter = SkeletonDotFilter;
    let ghost o = *old(skeleton);
    let mut y: usize = 0;
    while y < h
        invariant
            skeleton.wf(),
            skeleton.width == w,
            skeleton.height == h,
            o == *old(skeleton),
            o.wf(),
            w == o.width,
            h == o.height,
            w <= i32::MAX,
            h <= i32::MAX,
            y <= h,
            forall|a: int, b: int| #![trigger skeleton.at(a, b)] skeleton.in_bounds(a, b) ==>
                skeleton.at(a, b) == (o.at(a, b) && !(b < y && isolated(o, a, b))),
        decreases h - y,
    {
        let mut x: usize = 0;
        while x < w
            invariant
                skeleton.wf(),
                skeleton.width == w,
                skeleton.height == h,
                o == *old(skeleton),
                o.wf(),
                w == o.width,
                h == o.height,
                w <= i32::MAX,
                h <= i32::MAX,
                y < h,
                x <= w,
                forall|a: int, b: int| #![trigger skeleton.at(a, b)] skeleton.in_bounds(a, b) ==>
                    skeleton.at(a, b) == (o.at(a, b) && !((b < y || (b == y && a < x)) && isolated(o, a, b))),
            decreases w - x,
        {
            if skeleton.get(x, y) {
                proof {
                    // the 3×3 block of a set pixel reads the same before and after earlier removals
                    let s = *skeleton;
                    assert forall|dx: int, dy: int| -1 <= dx <= 1 && -1 <= dy <= 1 && s.in_bounds(x + dx, y + dy) implies
                        #[trigger] s.at(x + dx, y + dy) == o.at(x + dx, y + dy) by {
                        let a = x + dx;
                        let b = y + dy;
                        if o.at(a, b) && (b < y || (b == y && a < x)) && isolated(o, a, b) {
                            assert(o.at(x as int, y as int));
                            lemma_cells_of(o, x as int, y as int);
                            assert(neighbors_of(cells_of(o), w as int, h as int, a, b) >= 1);
                        }
                    }
                    lemma_cells_of(s, x as int, y as int);
                    lemma_cells_of(o, x as int, y as int);
                    assert(neighbors_of(cells_of(s), w as int, h as int, x as int, y as int)
                        == neighbors_of(cells_of(o), w as int, h as int, x as int, y as int)) by {
                        assert(s.at(x - 1, y - 1) == o.at(x - 1, y - 1) || !s.in_bounds(x - 1, y - 1));
                        assert(s.at(x as int, y - 1) == o.at(x as int, y - 1) || !s.in_bounds(x as int, y - 1));
                        assert(s.at(x + 1, y - 1) == o.at(x + 1, y - 1) || !s.in_bounds(x + 1, y - 1));
                        assert(s.at(x - 1, y as int) == o.at(x - 1, y as int) || !s.in_bounds(x - 1, y as int));
                        assert(s.at(x + 1, y as int) == o.at(x + 1, y as int) || !s.in_bounds(x + 1, y as int));
                        assert(s.at(x - 1, y + 1) == o.at(x - 1, y + 1) || !s.in_bounds(x - 1, y + 1));
                        assert(s.at(x as int, y + 1) == o.at(x as int, y + 1) || !s.in_bounds(x as int, y + 1));
                        assert(s.at(x + 1, y + 1) == o.at(x + 1, y + 1) || !s.in_bounds(x + 1, y + 1));
                    }
                }
                dot_filter.apply(skeleton, &IntPoint::new(x as i32, y as i32));
            }
            x = x + 1;
        }
        y = y + 1;
    }
}

} // verus!
