use vstd::prelude::*;
use crate::extractor::vote_filter::{in_vote_area, vote, vote_at};
use crate::extractor::window::{cell, column_count, rect_count, window_area, window_high, window_low, window_ones};
use crate::parameters::{Fraction, Parameters};
use crate::primitives::bool_matrix::BooleanMatrix;
use crate::extractor::binary_thinning::cell as grid_cell;
use crate::primitives::grid::{cell_index, lemma_cell_index_bounds};
use crate::extractor::segmentation_mask::{covered, covered_before, in_block};
use crate::primitives::block_map::BlockMap;

verus! {

/// Number of set entries of `s`.
pub open spec fn set_count(s: Seq<bool>) -> nat
    decreases s.len(),
{
    if s.len() == 0 {
        0
    } else {
        set_count(s.drop_last()) + if s.last() { 1nat } else { 0nat }
    }
}

/// Clearing an entry lowers the count by one exactly when the entry was set.
proof fn lemma_set_count_clear(s: Seq<bool>, i: int)
    requires
        0 <= i < s.len(),
    ensures
        set_count(s.update(i, false)) + (if s[i] { 1int } else { 0int }) == set_count(s),
    decreases s.len(),
{
    if i == s.len() - 1 {
        assert(s.update(i, false).drop_last() =~= s.drop_last());
    } else {
        lemma_set_count_clear(s.drop_last(), i);
        assert(s.update(i, false).drop_last() =~= s.drop_last().update(i, false));
    }
}

/// The 2×2 block with top-left corner `(x, y)` is a diagonal pair of set
/// pixels with both other pixels clear.
pub open spec fn cross_at(m: BooleanMatrix, x: int, y: int) -> bool {
    let p00 = m.at(x, y);
    let p01 = m.at(x, y + 1);
    let p10 = m.at(x + 1, y);
    let p11 = m.at(x + 1, y + 1);
    (p00 && p11 && !p01 && !p10) || (p01 && p10 && !p00 && !p11)
}

/// An image without crosses has no 2×2 block holding exactly one diagonal
/// pair of set pixels, on either diagonal.
pub proof fn law_no_crossing_pairs(m: BooleanMatrix)
    requires
        forall|x: int, y: int| #![trigger cross_at(m, x, y)] 0 <= x < m.width - 1 && 0 <= y < m.height - 1 ==> !cross_at(m, x, y),
    ensures
        forall|x: int, y: int| #![trigger m.at(x, y + 1), m.at(x + 1, y)]
            0 <= x < m.width - 1 && 0 <= y < m.height - 1 ==>
            !(m.at(x, y + 1) && m.at(x + 1, y) && !m.at(x, y) && !m.at(x + 1, y + 1)),
        forall|x: int, y: int| #![trigger m.at(x, y), m.at(x + 1, y + 1)]
            0 <= x < m.width - 1 && 0 <= y < m.height - 1 ==>
            !(m.at(x, y) && m.at(x + 1, y + 1) && !m.at(x, y + 1) && !m.at(x + 1, y)),
{
    assert forall|x: int, y: int| #![trigger m.at(x, y + 1), m.at(x + 1, y)]
        0 <= x < m.width - 1 && 0 <= y < m.height - 1 implies
        !(m.at(x, y + 1) && m.at(x + 1, y) && !m.at(x, y) && !m.at(x + 1, y + 1)) by {
        assert(!cross_at(m, x, y));
    }
    assert forall|x: int, y: int| #![trigger m.at(x, y), m.at(x + 1, y + 1)]
        0 <= x < m.width - 1 && 0 <= y < m.height - 1 implies
        !(m.at(x, y) && m.at(x + 1, y + 1) && !m.at(x, y + 1) && !m.at(x + 1, y)) by {
        assert(!cross_at(m, x, y));
    }
}

/// The 2×2 block with top-left corner `(x, y)` of a grid of cells `w` wide
/// is a cross (see `cross_at`).
pub open spec fn grid_cross(c: Seq<bool>, w: int, x: int, y: int) -> bool {
    let p00 = grid_cell(c, w, x, y);
    let p01 = grid_cell(c, w, x, y + 1);
    let p10 = grid_cell(c, w, x + 1, y);
    let p11 = grid_cell(c, w, x + 1, y + 1);
    (p00 && p11 && !p01 && !p10) || (p01 && p10 && !p00 && !p11)
}

/// The cells with the 2×2 block at `(x, y)` cleared.
pub open spec fn clear_block(c: Seq<bool>, w: int, x: int, y: int) -> Seq<bool> {
    c.update(cell_index(x, y, w), false)
        .update(cell_index(x, y + 1, w), false)
        .update(cell_index(x + 1, y, w), false)
        .update(cell_index(x + 1, y + 1, w), false)
}

/// One step of the cross scan: the block at `(x, y)` is cleared when it is
/// a cross, and the flag records that something was cleared.
pub open spec fn cross_visit(s: (Seq<bool>, bool), w: int, x: int, y: int) -> (Seq<bool>, bool) {
    if grid_cross(s.0, w, x, y) {
        (clear_block(s.0, w, x, y), true)
    } else {
        s
    }
}

/// The blocks of row `y` from column `x` on.
pub open spec fn cross_row(s: (Seq<bool>, bool), w: int, y: int, x: int) -> (Seq<bool>, bool)
    decreases w - x,
{
    if x + 1 < w {
        cross_row(cross_visit(s, w, x, y), w, y, x + 1)
    } else {
        s
    }
}

/// The block rows from row `y` on.
pub open spec fn cross_scan(s: (Seq<bool>, bool), w: int, h: int, y: int) -> (Seq<bool>, bool)
    decreases h - y,
{
    if y + 1 < h {
        cross_scan(cross_row(s, w, y, 0), w, h, y + 1)
    } else {
        s
    }
}

/// The cells after `k` scans.
pub open spec fn cross_scans(c: Seq<bool>, w: int, h: int, k: nat) -> Seq<bool>
    decreases k,
{
    if k == 0 {
        c
    } else {
        cross_scan((cross_scans(c, w, h, (k - 1) as nat), false), w, h, 0).0
    }
}

/// `result` is what repeated scans make of the cells `c`: scans run until
/// one clears nothing, and `result` is what the scans before it left.
pub open spec fn crosses_removed(c: Seq<bool>, w: int, h: int, result: Seq<bool>) -> bool {
    exists|k: nat| {
        &&& forall|j: nat| j < k ==> (#[trigger] cross_scan((cross_scans(c, w, h, j), false), w, h, 0)).1
        &&& !cross_scan((cross_scans(c, w, h, k), false), w, h, 0).1
        &&& result == cross_scans(c, w, h, k)
    }
}

/// Clears the pixel `(x, y)` and records how the number of set cells changes.
fn clear_pixel(m: &mut BooleanMatrix, x: usize, y: usize)
    requires
        old(m).wf(),
        old(m).in_bounds(x as int, y as int),
    ensures
        final(m).wf(),
        final(m).width == old(m).width,
        final(m).height == old(m).height,
        !final(m).at(x as int, y as int),
        forall|a: int, b: int| #![trigger final(m).at(a, b)]
            final(m).in_bounds(a, b) && !(a == x && b == y) ==> final(m).at(a, b) == old(m).at(a, b),
        set_count(final(m).cells@) + (if old(m).at(x as int, y as int) { 1int } else { 0int }) == set_count(old(m).cells@),
        final(m).cells@ == old(m).cells@.update(cell_index(x as int, y as int, old(m).width as int), false),
{
    proof {
        lemma_cell_index_bounds(x as int, y as int, m.width as int, m.height as int);
        lemma_set_count_clear(m.cells@, cell_index(x as int, y as int, m.width as int));
    }
    m.set(x, y, false);
}

/// Removes diagonal crosses: while some 2×2 block holds a set diagonal pair
/// with the other diagonal clear, the whole block is cleared. Afterwards no
/// such block is left, and only pixels that were set before are set.
pub fn remove_crosses(input: &mut BooleanMatrix)
    requires
        old(input).wf(),
    ensures
        final(input).wf(),
        final(input).width == old(input).width,
        final(input).height == old(input).height,
        forall|x: int, y: int| #![trigger final(input).at(x, y)]
            final(input).in_bounds(x, y) && final(input).at(x, y) ==> old(input).at(x, y),
        forall|x: int, y: int| #![trigger cross_at(*final(input), x, y)]
            0 <= x < final(input).width - 1 && 0 <= y < final(input).height - 1 ==> !cross_at(*final(input), x, y),
        crosses_removed(old(input).cells@, old(input).width as int, old(input).height as int, final(input).cells@),
        forall|x: int, y: int| #![trigger final(input).at(x, y + 1), final(input).at(x + 1, y)]
            0 <= x < final(input).width - 1 && 0 <= y < final(input).height - 1 ==>
            !(final(input).at(x, y + 1) && final(input).at(x + 1, y) && !final(input).at(x, y) && !final(input).at(x + 1, y + 1)),
        forall|x: int, y: int| #![trigger final(input).at(x, y), final(input).at(x + 1, y + 1)]
            0 <= x < final(input).width - 1 && 0 <= y < final(input).height - 1 ==>
            !(final(input).at(x, y) && final(input).at(x + 1, y + 1) && !final(input).at(x, y + 1) && !final(input).at(x + 1, y)),
{
    let w = input.width();
    let h = input.height();
    let ghost wi = w as int;
    let ghost hi = h as int;
    let ghost c0 = input.cells@;
    let ghost mut k: nat = 0;
    loop
        invariant
            input.wf(),
            input.width == w,
            input.height == h,
            w == old(input).width,
            h == old(input).height,
            wi == w,
            hi == h,
            c0 == old(input).cells@,
            forall|x: int, y: int| #![trigger input.at(x, y)]
                input.in_bounds(x, y) && input.at(x, y) ==> old(input).at(x, y),
            input.cells@ == cross_scans(c0, wi, hi, k),
            forall|j: nat| j < k ==> (#[trigger] cross_scan((cross_scans(c0, wi, hi, j), false), wi, hi, 0)).1,
        ensures
            input.wf(),
            input.width == w,
            input.height == h,
            forall|x: int, y: int| #![trigger input.at(x, y)]
                input.in_bounds(x, y) && input.at(x, y) ==> old(input).at(x, y),
            forall|x: int, y: int| #![trigger cross_at(*input, x, y)]
                0 <= x < w - 1 && 0 <= y < h - 1 ==> !cross_at(*input, x, y),
            input.cells@ == cross_scans(c0, wi, hi, k),
            forall|j: nat| j < k ==> (#[trigger] cross_scan((cross_scans(c0, wi, hi, j), false), wi, hi, 0)).1,
            !cross_scan((cross_scans(c0, wi, hi, k), false), wi, hi, 0).1,
        decreases set_count(input.cells@),
    {
        let ghost start = set_count(input.cells@);
        let ghost scan_start = (input.cells@, false);
        let mut any = false;
        let mut y: usize = 0;
        while y + 1 < h
            invariant
                wi == w,
                hi == h,
                cross_scan((input.cells@, any), wi, hi, y as int) == cross_scan(scan_start, wi, hi, 0),
                !any ==> input.cells@ == scan_start.0,
                input.wf(),
                input.width == w,
                input.height == h,
                w == old(input).width,
                h == old(input).height,
                y < h || y == 0,
                forall|x: int, y: int| #![trigger input.at(x, y)]
                    input.in_bounds(x, y) && input.at(x, y) ==> old(input).at(x, y),
                set_count(input.cells@) <= start,
                any ==> set_count(input.cells@) < start,
                !any ==> forall|a: int, b: int| #![trigger cross_at(*input, a, b)]
                    0 <= a < w - 1 && 0 <= b < y ==> !cross_at(*input, a, b),
            decreases h - y,
        {
            let ghost row_start = (input.cells@, any);
            let mut x: usize = 0;
            while x + 1 < w
                invariant
                    wi == w,
                    hi == h,
                    cross_row((input.cells@, any), wi, y as int, x as int) == cross_row(row_start, wi, y as int, 0),
                    !any ==> input.cells@ == scan_start.0,
                    input.wf(),
                    input.width == w,
                    input.height == h,
                    w == old(input).width,
                    h == old(input).height,
                    y + 1 < h,
                    x < w || x == 0,
                    forall|x: int, y: int| #![trigger input.at(x, y)]
                        input.in_bounds(x, y) && input.at(x, y) ==> old(input).at(x, y),
                    set_count(input.cells@) <= start,
                    any ==> set_count(input.cells@) < start,
                    !any ==> forall|a: int, b: int| #![trigger cross_at(*input, a, b)]
                        0 <= a < w - 1 && 0 <= b < y ==> !cross_at(*input, a, b),
                    !any ==> forall|a: int| #![trigger cross_at(*input, a, y as int)]
                        0 <= a < x ==> !cross_at(*input, a, y as int),
                decreases w - x,
            {
                let p00 = input.get(x, y);
                let p01 = input.get(x, y + 1);
                let p10 = input.get(x + 1, y);
                let p11 = input.get(x + 1, y + 1);
                let cross_a = p00 && p11 && !p01 && !p10;
                let cross_b = p01 && p10 && !p00 && !p11;
                let ghost before = (input.cells@, any);
                proof {
                    assert((cross_a || cross_b) == grid_cross(input.cells@, wi, x as int, y as int));
                }
                if cross_a || cross_b {
                    clear_pixel(input, x, y);
                    clear_pixel(input, x, y + 1);
                    clear_pixel(input, x + 1, y);
                    clear_pixel(input, x + 1, y + 1);
                    any = true;
                }
                proof {
                    assert((input.cells@, any) == cross_visit(before, wi, x as int, y as int));
                }
                x = x + 1;
            }
            y = y + 1;
        }
        proof {
            assert((input.cells@, any) == cross_scan(scan_start, wi, hi, 0));
        }
        if !any {
            break;
        }
        proof {
            assert(cross_scans(c0, wi, hi, k + 1) == cross_scan((cross_scans(c0, wi, hi, k), false), wi, hi, 0).0);
            k = k + 1;
        }
    }
    proof {
        law_no_crossing_pairs(*input);
    }
}

/// Pixels that are clear in `binary` but inside the mask.
pub fn invert(binary: &BooleanMatrix, mask: &BooleanMatrix) -> (inverted: BooleanMatrix)
    requires
        binary.wf(),
        mask.wf(),
        binary.width <= mask.width,
        binary.height <= mask.height,
    ensures
        inverted.wf(),
        inverted.width == binary.width,
        inverted.height == binary.height,
        forall|x: int, y: int| #![trigger inverted.at(x, y)]
            inverted.in_bounds(x, y) ==> inverted.at(x, y) == (!binary.at(x, y) && mask.at(x, y)),
{
    let w = binary.width();
    let h = binary.height();
    let n = binary.cells.len();
    assert(n == w * h);
    let mut inverted = BooleanMatrix::new(w, h);
    let mut y: usize = 0;
    while y < h
        invariant
            binary.wf(),
            mask.wf(),
            w == binary.width,
            h == binary.height,
            w <= mask.width,
            h <= mask.height,
            y <= h,
            inverted.wf(),
            inverted.width == w,
            inverted.height == h,
            forall|a: int, b: int| #![trigger inverted.at(a, b)]
                inverted.in_bounds(a, b) ==> inverted.at(a, b) == (b < y && !binary.at(a, b) && mask.at(a, b)),
        decreases h - y,
    {
        let mut x: usize = 0;
        while x < w
            invariant
                binary.wf(),
                mask.wf(),
                w == binary.width,
                h == binary.height,
                w <= mask.width,
                h <= mask.height,
                y < h,
                x <= w,
                inverted.wf(),
                inverted.width == w,
                inverted.height == h,
                forall|a: int, b: int| #![trigger inverted.at(a, b)]
                    inverted.in_bounds(a, b) ==> inverted.at(a, b) == ((b < y || (b == y && a < x)) && !binary.at(a, b) && mask.at(a, b)),
            decreases w - x,
        {
            let v = !binary.get(x, y) && mask.get(x, y);
            inverted.set(x, y, v);
            x = x + 1;
        }
        y = y + 1;
    }
    inverted
}

/// A column of a negated matrix counts the complement of the column.
proof fn lemma_column_count_negated(m: BooleanMatrix, n: BooleanMatrix, x: int, y0: int, y1: int)
    requires
        0 <= x < m.width,
        0 <= y0 <= y1 <= m.height,
        n.width == m.width,
        n.height == m.height,
        forall|a: int, b: int| #![trigger n.at(a, b)] m.in_bounds(a, b) ==> n.at(a, b) == !m.at(a, b),
    ensures
        column_count(n, x, y0, y1) == (y1 - y0) - column_count(m, x, y0, y1),
    decreases y1 - y0,
{
    if y1 > y0 {
        lemma_column_count_negated(m, n, x, y0, y1 - 1);
        assert(n.at(x, y1 - 1) == !m.at(x, y1 - 1));
    }
}

/// A rectangle of a negated matrix counts the complement of the rectangle.
proof fn lemma_rect_count_negated(m: BooleanMatrix, n: BooleanMatrix, x0: int, x1: int, y0: int, y1: int)
    requires
        0 <= x0 <= x1 <= m.width,
        0 <= y0 <= y1 <= m.height,
        n.width == m.width,
        n.height == m.height,
        forall|a: int, b: int| #![trigger n.at(a, b)] m.in_bounds(a, b) ==> n.at(a, b) == !m.at(a, b),
    ensures
        rect_count(n, x0, x1, y0, y1) == (x1 - x0) * (y1 - y0) - rect_count(m, x0, x1, y0, y1),
    decreases x1 - x0,
{
    if x1 > x0 {
        lemma_rect_count_negated(m, n, x0, x1 - 1, y0, y1);
        lemma_column_count_negated(m, n, x1 - 1, y0, y1);
        assert(rect_count(n, x0, x1, y0, y1) == rect_count(n, x0, x1 - 1, y0, y1) + column_count(n, x1 - 1, y0, y1));
        assert(rect_count(m, x0, x1, y0, y1) == rect_count(m, x0, x1 - 1, y0, y1) + column_count(m, x1 - 1, y0, y1));
        assert((x1 - 1 - x0) * (y1 - y0) + (y1 - y0) == (x1 - x0) * (y1 - y0)) by (nonlinear_arith);
    } else {
        assert((x1 - x0) * (y1 - y0) == 0) by (nonlinear_arith)
            requires x1 == x0;
    }
}

/// Whether the binarized cleanup vote takes part at `(x, y)`.
pub open spec fn cleanup_voting(binary: BooleanMatrix, mask: BooleanMatrix, x: int, y: int) -> bool {
    in_vote_area(binary.width as int, binary.height as int, Parameters::BINARIZED_VOTE_BORDER_DISTANCE as int, x, y)
        && mask.at(x, y)
}

/// The pixel at `(x, y)` after removing islands (a set pixel whose window is
/// mostly clear) and filling holes (a pixel whose window is mostly set).
pub open spec fn cleaned_at(binary: BooleanMatrix, mask: BooleanMatrix, x: int, y: int) -> bool {
    let r = Parameters::BINARIZED_VOTE_RADIUS as int;
    let majority = Fraction { numerator: 61, denominator: 100 };
    let ones = window_ones(binary, x, y, r);
    let area = window_area(binary, x, y, r);
    let island = cleanup_voting(binary, mask, x, y) && majority.reached(area - ones, area);
    let hole = cleanup_voting(binary, mask, x, y) && majority.reached(ones, area);
    (binary.at(x, y) && !island) || hole
}

/// Removes islands and fills holes by majority votes inside the mask, then
/// removes diagonal crosses. Every pixel left set is set in the voted image,
/// and no cross is left.
pub fn cleanup(binary: &mut BooleanMatrix, mask: &BooleanMatrix)
    requires
        old(binary).wf(),
        old(binary).width <= i32::MAX,
        old(binary).height <= i32::MAX,
        mask.wf(),
        old(binary).width <= mask.width,
        old(binary).height <= mask.height,
    ensures
        final(binary).wf(),
        final(binary).width == old(binary).width,
        final(binary).height == old(binary).height,
        forall|x: int, y: int| #![trigger final(binary).at(x, y)]
            final(binary).in_bounds(x, y) && final(binary).at(x, y) ==> cleaned_at(*old(binary), *mask, x, y),
        forall|x: int, y: int| #![trigger cross_at(*final(binary), x, y)]
            0 <= x < final(binary).width - 1 && 0 <= y < final(binary).height - 1 ==> !cross_at(*final(binary), x, y),
        exists|voted: Seq<bool>| {
            &&& voted.len() == old(binary).cells@.len()
            &&& forall|x: int, y: int| #![trigger grid_cell(voted, old(binary).width as int, x, y)] old(binary).in_bounds(x, y)
                ==> grid_cell(voted, old(binary).width as int, x, y) == cleaned_at(*old(binary), *mask, x, y)
            &&& crosses_removed(voted, old(binary).width as int, old(binary).height as int, final(binary).cells@)
        },
{
    let ghost initial = *binary;
    let w = binary.width();
    let h = binary.height();
    let mut inverted = BooleanMatrix::from_clone(binary);
    inverted.invert();
    let majority = Parameters::binarized_vote_majority();
    let islands = vote(
        &inverted,
        Some(mask),
        Parameters::BINARIZED_VOTE_RADIUS as i32,
        majority,
        Parameters::BINARIZED_VOTE_BORDER_DISTANCE as i32,
    );
    let holes = vote(
        binary,
        Some(mask),
        Parameters::BINARIZED_VOTE_RADIUS as i32,
        majority,
        Parameters::BINARIZED_VOTE_BORDER_DISTANCE as i32,
    );
    proof {
        assert forall|x: int, y: int| #![trigger islands.at(x, y)]
            islands.in_bounds(x, y) implies islands.at(x, y) == (cleanup_voting(initial, *mask, x, y)
                && majority.reached(
                    window_area(initial, x, y, 2) - window_ones(initial, x, y, 2),
                    window_area(initial, x, y, 2),
                )) by {
            lemma_rect_count_negated(
                initial,
                inverted,
                window_low(x, 2),
                window_high(x, 2, w as int),
                window_low(y, 2),
                window_high(y, 2, h as int),
            );
        }
    }
    let mut y: usize = 0;
    while y < h
        invariant
            binary.wf(),
            binary.width == w,
            binary.height == h,
            initial.width == w,
            initial.height == h,
            islands.wf(),
            islands.width == w,
            islands.height == h,
            holes.wf(),
            holes.width == w,
            holes.height == h,
            y <= h,
            forall|a: int, b: int| #![trigger islands.at(a, b)]
                islands.in_bounds(a, b) ==> islands.at(a, b) == (cleanup_voting(initial, *mask, a, b)
                    && majority.reached(
                        window_area(initial, a, b, 2) - window_ones(initial, a, b, 2),
                        window_area(initial, a, b, 2),
                    )),
            forall|a: int, b: int| #![trigger holes.at(a, b)]
                holes.in_bounds(a, b) ==> holes.at(a, b) == vote_at(initial, Some(mask), 2, majority, 17, a, b),
            majority == (Fraction { numerator: 61, denominator: 100 }),
            forall|a: int, b: int| #![trigger binary.at(a, b)]
                binary.in_bounds(a, b) ==> binary.at(a, b) == if b < y { cleaned_at(initial, *mask, a, b) } else { initial.at(a, b) },
        decreases h - y,
    {
        let mut x: usize = 0;
        while x < w
            invariant
                binary.wf(),
                binary.width == w,
                binary.height == h,
                initial.width == w,
                initial.height == h,
                islands.wf(),
                islands.width == w,
                islands.height == h,
                holes.wf(),
                holes.width == w,
                holes.height == h,
                y < h,
                x <= w,
                forall|a: int, b: int| #![trigger islands.at(a, b)]
                    islands.in_bounds(a, b) ==> islands.at(a, b) == (cleanup_voting(initial, *mask, a, b)
                        && majority.reached(
                            window_area(initial, a, b, 2) - window_ones(initial, a, b, 2),
                            window_area(initial, a, b, 2),
                        )),
                forall|a: int, b: int| #![trigger holes.at(a, b)]
                    holes.in_bounds(a, b) ==> holes.at(a, b) == vote_at(initial, Some(mask), 2, majority, 17, a, b),
                majority == (Fraction { numerator: 61, denominator: 100 }),
                forall|a: int, b: int| #![trigger binary.at(a, b)]
                    binary.in_bounds(a, b) ==> binary.at(a, b) == if b < y || (b == y && a < x) {
                        cleaned_at(initial, *mask, a, b)
                    } else {
                        initial.at(a, b)
                    },
            decreases w - x,
        {
            let v = binary.get(x, y) && !islands.get(x, y) || holes.get(x, y);
            binary.set(x, y, v);
            x = x + 1;
        }
        y = y + 1;
    }
    let ghost voted = binary.cells@;
    proof {
        assert forall|x: int, y: int| #![trigger grid_cell(voted, w as int, x, y)] initial.in_bounds(x, y)
            implies grid_cell(voted, w as int, x, y) == cleaned_at(initial, *mask, x, y) by {
            assert(binary.in_bounds(x, y));
            assert(binary.at(x, y) == grid_cell(voted, w as int, x, y));
        }
    }
    remove_crosses(binary);
}


/// Copies the set pixels of `above` inside `[x0, x1) × [y0, y1)` into `m`.
fn copy_set_pixels(m: &mut BooleanMatrix, above: &BooleanMatrix, x0: i32, x1: i32, y0: i32, y1: i32)
    requires
        old(m).wf(),
        above.wf(),
        old(m).width == above.width,
        old(m).height == above.height,
        old(m).width <= i32::MAX,
        old(m).height <= i32::MAX,
    ensures
        final(m).wf(),
        final(m).width == old(m).width,
        final(m).height == old(m).height,
        forall|x: int, y: int| #[trigger] final(m).in_bounds(x, y) ==>
            final(m).at(x, y) == (old(m).at(x, y) || (above.at(x, y) && x0 <= x < x1 && y0 <= y < y1)),
{
    let w = m.width() as i32;
    let h = m.height() as i32;
    let left = if x0 < 0 { 0 } else { x0 };
    let right = if x1 > w { w } else { x1 };
    let top = if y0 < 0 { 0 } else { y0 };
    let bottom = if y1 > h { h } else { y1 };
    let ghost start = *m;
    let mut y = top;
    while y < bottom
        invariant
            m.wf(),
            above.wf(),
            m.width == start.width,
            m.height == start.height,
            above.width == m.width,
            above.height == m.height,
            w == m.width,
            h == m.height,
            left == (if x0 < 0 { 0 } else { x0 }),
            right == (if x1 > w { w } else { x1 }),
            top == (if y0 < 0 { 0 } else { y0 }),
            bottom == (if y1 > h { h } else { y1 }),
            top <= y,
            y <= bottom || bottom < top,
            forall|a: int, b: int| #[trigger] m.in_bounds(a, b) ==>
                m.at(a, b) == (start.at(a, b) || (above.at(a, b) && x0 <= a < x1 && y0 <= b < y1 && b < y)),
        decreases bottom - y,
    {
        let mut x = left;
        while x < right
            invariant
                m.wf(),
                above.wf(),
                m.width == start.width,
                m.height == start.height,
                above.width == m.width,
                above.height == m.height,
                w == m.width,
                h == m.height,
                left == (if x0 < 0 { 0 } else { x0 }),
                right == (if x1 > w { w } else { x1 }),
                top == (if y0 < 0 { 0 } else { y0 }),
                bottom == (if y1 > h { h } else { y1 }),
                top <= y < bottom,
                left <= x,
                x <= right || right < left,
                forall|a: int, b: int| #[trigger] m.in_bounds(a, b) ==>
                    m.at(a, b) == (start.at(a, b) || (above.at(a, b) && x0 <= a < x1 && y0 <= b < y1 && (b < y || (b == y && a < x)))),
            decreases right - x,
        {
            let ghost before = *m;
            if above.get(x as usize, y as usize) {
                m.set(x as usize, y as usize, true);
            }
            assert forall|a: int, b: int| #[trigger] m.in_bounds(a, b) implies
                m.at(a, b) == (start.at(a, b) || (above.at(a, b) && x0 <= a < x1 && y0 <= b < y1 && (b < y || (b == y && a < x + 1)))) by {
                assert(before.in_bounds(a, b));
                if !(a == x && b == y) {
                    assert(m.at(a, b) == before.at(a, b));
                }
            }
            x = x + 1;
        }
        y = y + 1;
    }
}

/// Binarization restricted to the foreground: a pixel is set when it lies
/// in a primary block that the block mask marks and `above` has it set
/// (the smoothed image exceeds its baseline there).
pub fn binarize(above: &BooleanMatrix, mask: &BooleanMatrix, blocks: &BlockMap) -> (binarized: BooleanMatrix)
    requires
        above.wf(),
        above.width <= i32::MAX,
        above.height <= i32::MAX,
        mask.wf(),
        blocks.primary.wf(),
        blocks.primary.blocks.x <= mask.width,
        blocks.primary.blocks.y <= mask.height,
        forall|i: int| 0 <= i < blocks.primary.blocks.x ==>
            i32::MIN <= #[trigger] blocks.primary.x@[i + 1] - blocks.primary.x@[i] <= i32::MAX,
        forall|i: int| 0 <= i < blocks.primary.blocks.y ==>
            i32::MIN <= #[trigger] blocks.primary.y@[i + 1] - blocks.primary.y@[i] <= i32::MAX,
    ensures
        binarized.wf(),
        binarized.width == above.width,
        binarized.height == above.height,
        forall|x: int, y: int| #[trigger] binarized.in_bounds(x, y) ==>
            binarized.at(x, y) == (above.at(x, y) && covered(*mask, blocks.primary, x, y)),
{
    let grid = &blocks.primary;
    let _storage = above.cells.len();
    let mut out = BooleanMatrix::new(above.width(), above.height());
    let bw = grid.blocks.x();
    let bh = grid.blocks.y();
    let mut by: i32 = 0;
    while by < bh
        invariant
            mask.wf(),
            above.wf(),
            above.width <= i32::MAX,
            above.height <= i32::MAX,
            grid.wf(),
            *grid == blocks.primary,
            bw == grid.blocks.x,
            bh == grid.blocks.y,
            bw <= mask.width,
            bh <= mask.height,
            forall|i: int| 0 <= i < bw ==> i32::MIN <= #[trigger] grid.x@[i + 1] - grid.x@[i] <= i32::MAX,
            forall|i: int| 0 <= i < bh ==> i32::MIN <= #[trigger] grid.y@[i + 1] - grid.y@[i] <= i32::MAX,
            out.wf(),
            out.width == above.width,
            out.height == above.height,
            0 <= by,
            by <= bh || bh < 0,
            forall|x: int, y: int| #[trigger] out.in_bounds(x, y) ==>
                out.at(x, y) == (above.at(x, y) && covered_before(*mask, *grid, x, y, 0, by as int)),
        decreases bh - by,
    {
        let mut bx: i32 = 0;
        while bx < bw
            invariant
                mask.wf(),
                above.wf(),
                above.width <= i32::MAX,
                above.height <= i32::MAX,
                grid.wf(),
                *grid == blocks.primary,
                bw == grid.blocks.x,
                bh == grid.blocks.y,
                bw <= mask.width,
                bh <= mask.height,
                forall|i: int| 0 <= i < bw ==> i32::MIN <= #[trigger] grid.x@[i + 1] - grid.x@[i] <= i32::MAX,
                forall|i: int| 0 <= i < bh ==> i32::MIN <= #[trigger] grid.y@[i + 1] - grid.y@[i] <= i32::MAX,
                out.wf(),
                out.width == above.width,
                out.height == above.height,
                0 <= by < bh,
                0 <= bx,
                bx <= bw || bw < 0,
                forall|x: int, y: int| #[trigger] out.in_bounds(x, y) ==>
                    out.at(x, y) == (above.at(x, y) && covered_before(*mask, *grid, x, y, bx as int, by as int)),
            decreases bw - bx,
        {
            let ghost before = out;
            if mask.get(bx as usize, by as usize) {
                assert(i32::MIN <= grid.x@[bx + 1] - grid.x@[bx as int] <= i32::MAX);
                assert(i32::MIN <= grid.y@[by + 1] - grid.y@[by as int] <= i32::MAX);
                let rect = grid.block(bx, by);
                copy_set_pixels(&mut out, above, rect.left(), rect.right(), rect.top(), rect.bottom());
            }
            assert forall|x: int, y: int| #[trigger] out.in_bounds(x, y) implies
                out.at(x, y) == (above.at(x, y) && covered_before(*mask, *grid, x, y, bx + 1, by as int)) by {
                assert(before.in_bounds(x, y));
                if covered_before(*mask, *grid, x, y, bx + 1, by as int) {
                    let (wx, wy) = choose|wx: int, wy: int|
                        0 <= wx < grid.blocks.x && 0 <= wy < grid.blocks.y && (wy < by || (wy == by && wx < bx + 1))
                            && #[trigger] mask.at(wx, wy) && #[trigger] in_block(*grid, wx, wy, x, y);
                    if !(wx == bx && wy == by) {
                        assert(covered_before(*mask, *grid, x, y, bx as int, by as int));
                    }
                }
                if covered_before(*mask, *grid, x, y, bx as int, by as int) {
                    let (wx, wy) = choose|wx: int, wy: int|
                        0 <= wx < grid.blocks.x && 0 <= wy < grid.blocks.y && (wy < by || (wy == by && wx < bx))
                            && #[trigger] mask.at(wx, wy) && #[trigger] in_block(*grid, wx, wy, x, y);
                    assert(mask.at(wx, wy) && in_block(*grid, wx, wy, x, y));
                }
                if mask.at(bx as int, by as int) && in_block(*grid, bx as int, by as int, x, y) {
                    assert(mask.at(bx as int, by as int) && in_block(*grid, bx as int, by as int, x, y));
                }
            }
            bx = bx + 1;
        }
        assert forall|x: int, y: int| #[trigger] out.in_bounds(x, y) implies
            out.at(x, y) == (above.at(x, y) && covered_before(*mask, *grid, x, y, 0, by + 1)) by {
            if covered_before(*mask, *grid, x, y, 0, by + 1) {
                let (wx, wy) = choose|wx: int, wy: int|
                    0 <= wx < grid.blocks.x && 0 <= wy < grid.blocks.y && (wy < by + 1 || (wy == by + 1 && wx < 0))
                        && #[trigger] mask.at(wx, wy) && #[trigger] in_block(*grid, wx, wy, x, y);
                assert(mask.at(wx, wy) && in_block(*grid, wx, wy, x, y));
            }
            if covered_before(*mask, *grid, x, y, bx as int, by as int) {
                let (wx, wy) = choose|wx: int, wy: int|
                    0 <= wx < grid.blocks.x && 0 <= wy < grid.blocks.y && (wy < by || (wy == by && wx < bx))
                        && #[trigger] mask.at(wx, wy) && #[trigger] in_block(*grid, wx, wy, x, y);
                assert(mask.at(wx, wy) && in_block(*grid, wx, wy, x, y));
            }
        }
        by = by + 1;
    }
    assert forall|x: int, y: int| #[trigger] out.in_bounds(x, y) implies
        out.at(x, y) == (above.at(x, y) && covered(*mask, blocks.primary, x, y)) by {
        if covered(*mask, blocks.primary, x, y) {
            let (wx, wy) = choose|wx: int, wy: int|
                0 <= wx < grid.blocks.x && 0 <= wy < grid.blocks.y && #[trigger] mask.at(wx, wy)
                    && #[trigger] in_block(*grid, wx, wy, x, y);
            assert(mask.at(wx, wy) && in_block(*grid, wx, wy, x, y));
        }
        if covered_before(*mask, *grid, x, y, 0, by as int) {
            let (wx, wy) = choose|wx: int, wy: int|
                0 <= wx < grid.blocks.x && 0 <= wy < grid.blocks.y && (wy < by || (wy == by && wx < 0))
                    && #[trigger] mask.at(wx, wy) && #[trigger] in_block(*grid, wx, wy, x, y);
            assert(mask.at(wx, wy) && in_block(*grid, wx, wy, x, y));
        }
    }
    out
}
} // verus!
