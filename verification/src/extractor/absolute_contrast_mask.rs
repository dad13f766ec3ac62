use vstd::prelude::*;
use crate::primitives::bool_matrix::BooleanMatrix;
use crate::primitives::int_matrix::IntMatrix;

verus! {

/// Whether a block whose clipped span is `span` bins out of a histogram of
/// `bins` bins has a contrast below the absolute minimum of 17/255, that is
/// `span / (bins - 1) < 17 / 255`, compared without division.
pub open spec fn low_absolute_contrast(span: int, bins: int) -> bool {
    255 * span < 17 * (bins - 1)
}

/// Marks the blocks whose clipped contrast is below the absolute minimum.
/// `spans` holds the clipped span of each block in bins of a histogram with
/// `bins` bins.
pub fn compute(spans: &IntMatrix, bins: usize) -> (mask: BooleanMatrix)
    requires
        spans.wf(),
        1 <= bins <= i32::MAX,
    ensures
        mask.wf(),
        mask.width == spans.width,
        mask.height == spans.height,
        forall|x: int, y: int| #[trigger] mask.in_bounds(x, y) ==> mask.at(x, y) == low_absolute_contrast(spans.at(x, y) as int, bins as int),
{
    let w = spans.width();
    let h = spans.height();
    let _storage = spans.cells.len();
    let mut mask = BooleanMatrix::new(w, h);
    let threshold: i64 = 17 * (bins as i64 - 1);
    let mut y: usize = 0;
    while y < h
        invariant
            spans.wf(),
            w == spans.width,
            h == spans.height,
            1 <= bins <= i32::MAX,
            threshold == 17 * (bins - 1),
            mask.wf(),
            mask.width == w,
            mask.height == h,
            y <= h,
            forall|a: int, b: int| #[trigger] mask.in_bounds(a, b) ==>
                mask.at(a, b) == (b < y && low_absolute_contrast(spans.at(a, b) as int, bins as int)),
        decreases h - y,
    {
        let mut x: usize = 0;
        while x < w
            invariant
                spans.wf(),
                w == spans.width,
                h == spans.height,
                1 <= bins <= i32::MAX,
                threshold == 17 * (bins - 1),
                mask.wf(),
                mask.width == w,
                mask.height == h,
                y < h,
                x <= w,
                forall|a: int, b: int| #[trigger] mask.in_bounds(a, b) ==>
                    mask.at(a, b) == ((b < y || (b == y && a < x)) && low_absolute_contrast(spans.at(a, b) as int, bins as int)),
            decreases w - x,
        {
            let low = 255 * (spans.get(x, y) as i64) < threshold;
            let ghost before = mask;
            mask.set(x, y, low);
            assert forall|a: int, b: int| #[trigger] mask.in_bounds(a, b) implies
                mask.at(a, b) == ((b < y || (b == y && a < x + 1)) && low_absolute_contrast(spans.at(a, b) as int, bins as int)) by {
                if !(a == x && b == y) {
                    assert(before.in_bounds(a, b));
                    assert(mask.at(a, b) == before.at(a, b));
                }
            }
            x = x + 1;
        }
        y = y + 1;
    }
    mask
}

} // verus!
