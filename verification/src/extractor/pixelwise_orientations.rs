use vstd::prelude::*;
use crate::primitives::bool_matrix::BooleanMatrix;
use crate::primitives::int_range::IntRange;

verus! {

/// Row `y` of `mask` has a set cell.
pub open spec fn row_has_set(mask: BooleanMatrix, y: int) -> bool {
    exists|x: int| 0 <= x < mask.width && #[trigger] mask.at(x, y)
}

/// The columns of row `y` of the block mask from its first set cell to its
/// last one, as a half-open range; `[0, 0)` when the row has none.
pub fn mask_range(mask: &BooleanMatrix, y: usize) -> (r: IntRange)
    requires
        mask.wf(),
        y < mask.height,
        mask.width <= i32::MAX,
    ensures
        row_has_set(*mask, y as int) ==> {
            &&& 0 <= r.start < r.end <= mask.width
            &&& mask.at(r.start as int, y as int)
            &&& mask.at(r.end - 1, y as int)
            &&& forall|x: int| 0 <= x < mask.width && #[trigger] mask.at(x, y as int) ==> r.start <= x < r.end
        },
        !row_has_set(*mask, y as int) ==> r.start == 0 && r.end == 0,
{
    let mut first: i32 = -1;
    let mut last: i32 = -1;
    let mut x: usize = 0;
    while x < mask.width
        invariant
            mask.wf(),
            y < mask.height,
            mask.width <= i32::MAX,
            x <= mask.width,
            first < 0 <==> last < 0,
            first < 0 ==> forall|x2: int| 0 <= x2 < x ==> !#[trigger] mask.at(x2, y as int),
            first >= 0 ==> {
                &&& 0 <= first <= last < x
                &&& mask.at(first as int, y as int)
                &&& mask.at(last as int, y as int)
                &&& forall|x2: int| 0 <= x2 < x && #[trigger] mask.at(x2, y as int) ==> first <= x2 <= last
            },
        decreases mask.width - x,
    {
        if mask.get(x, y) {
            last = x as i32;
            if first < 0 {
                first = x as i32;
            }
        }
        x = x + 1;
    }
    if first >= 0 {
        IntRange::new(first, last + 1)
    } else {
        IntRange::new(0, 0)
    }
}

} // verus!
