use vstd::prelude::*;
use crate::extractor::absolute_contrast_mask;
use crate::extractor::absolute_contrast_mask::low_absolute_contrast;
use crate::extractor::clipped_contrast;
use crate::extractor::clipped_contrast::{clipped_span, sums_fit};
use crate::extractor::relative_contrast_mask;
use crate::extractor::relative_contrast_mask::{considered_blocks, low_relative_contrast, top_sum, values};
use crate::extractor::vote_filter::{block_errors_vote, vote, vote_at};
use crate::parameters::{Fraction, Parameters};
use crate::primitives::block_grid::BlockGrid;
use crate::primitives::block_map::BlockMap;
use crate::primitives::bool_matrix::BooleanMatrix;
use crate::primitives::histogram_cube::HistogramCube;
use crate::primitives::int_matrix::IntMatrix;

verus! {

// ---- block mask ----

/// The block-level mask before voting: blocks of low absolute or low
/// relative contrast.
pub open spec fn low_contrast(spans: IntMatrix, bins: int, blocks: BlockMap, x: int, y: int) -> bool {
    let k = considered_blocks(blocks, values(spans).len() as int);
    low_absolute_contrast(spans.at(x, y) as int, bins)
        || low_relative_contrast(spans.at(x, y) as int, k, top_sum(values(spans), k as nat))
}

/// The block errors vote at `(x, y)`.
pub open spec fn errors_vote(m: BooleanMatrix, x: int, y: int) -> bool {
    vote_at(
        m,
        None,
        Parameters::BLOCK_ERRORS_VOTE_RADIUS as int,
        Fraction { numerator: 7, denominator: 10 },
        Parameters::BLOCK_ERRORS_VOTE_BORDER_DISTANCE as int,
        x,
        y,
    )
}

/// The final mask vote at `(x, y)`.
pub open spec fn mask_vote(m: BooleanMatrix, x: int, y: int) -> bool {
    vote_at(
        m,
        None,
        Parameters::MASK_VOTE_RADIUS as int,
        Fraction { numerator: 51, denominator: 100 },
        Parameters::MASK_VOTE_BORDER_DISTANCE as int,
        x,
        y,
    )
}

/// `m` is a well-formed matrix of the given size.
pub open spec fn shaped(m: BooleanMatrix, w: int, h: int) -> bool {
    m.wf() && m.width == w && m.height == h
}

/// The stages of the block mask: `low` marks low-contrast blocks, `first`
/// adds the blocks the errors vote marks, `second` is its inversion, which
/// two more errors votes (`third`, `fourth`) and the final mask vote (`out`)
/// extend.
pub open spec fn mask_stages(
    spans: IntMatrix,
    bins: int,
    blocks: BlockMap,
    low: BooleanMatrix,
    first: BooleanMatrix,
    second: BooleanMatrix,
    third: BooleanMatrix,
    fourth: BooleanMatrix,
    out: BooleanMatrix,
) -> bool {
    let w = spans.width as int;
    let h = spans.height as int;
    &&& shaped(low, w, h) && shaped(first, w, h) && shaped(second, w, h)
    &&& shaped(third, w, h) && shaped(fourth, w, h) && shaped(out, w, h)
    &&& forall|x: int, y: int| #[trigger] low.in_bounds(x, y) ==> low.at(x, y) == low_contrast(spans, bins, blocks, x, y)
    &&& forall|x: int, y: int| #[trigger] first.in_bounds(x, y) ==> first.at(x, y) == (low.at(x, y) || errors_vote(low, x, y))
    &&& forall|x: int, y: int| #[trigger] second.in_bounds(x, y) ==> second.at(x, y) == !first.at(x, y)
    &&& forall|x: int, y: int| #[trigger] third.in_bounds(x, y) ==> third.at(x, y) == (second.at(x, y) || errors_vote(second, x, y))
    &&& forall|x: int, y: int| #[trigger] fourth.in_bounds(x, y) ==> fourth.at(x, y) == (third.at(x, y) || errors_vote(third, x, y))
    &&& forall|x: int, y: int| #[trigger] out.in_bounds(x, y) ==> out.at(x, y) == (fourth.at(x, y) || mask_vote(fourth, x, y))
}

/// Merges the block errors vote of `mask` into it.
fn merge_errors_vote(mask: &mut BooleanMatrix)
    requires
        old(mask).wf(),
        old(mask).width <= i32::MAX,
        old(mask).height <= i32::MAX,
    ensures
        final(mask).wf(),
        final(mask).width == old(mask).width,
        final(mask).height == old(mask).height,
        forall|x: int, y: int| #[trigger] final(mask).in_bounds(x, y) ==> final(mask).at(x, y) == (old(mask).at(x, y) || errors_vote(*old(mask), x, y)),
{
    let voted = block_errors_vote(mask);
    let ghost before = *mask;
    mask.merge(&voted);
    assert forall|x: int, y: int| #[trigger] mask.in_bounds(x, y) implies mask.at(x, y) == (before.at(x, y) || errors_vote(before, x, y)) by {
        assert(voted.in_bounds(x, y));
    }
}

/// Block-level foreground mask: `true` marks blocks of the fingerprint.
///
/// Blocks of low absolute or relative clipped contrast are marked, the
/// block errors vote fills in around them, and the result is inverted; two
/// more errors votes and a final mask vote then fill the foreground in.
pub fn compute(blocks: &BlockMap, histogram: &HistogramCube) -> (mask: BooleanMatrix)
    requires
        histogram.wf(),
        1 <= histogram.bins <= i32::MAX,
        0 <= blocks.primary.blocks.x <= histogram.width,
        0 <= blocks.primary.blocks.y <= histogram.height,
        sums_fit(*histogram, blocks.primary.blocks.x as int, blocks.primary.blocks.y as int),
        i32::MIN <= blocks.pixels.x * blocks.pixels.y <= i32::MAX,
        i32::MIN <= blocks.primary.blocks.x * blocks.primary.blocks.y <= i32::MAX,
        blocks.primary.blocks.x * blocks.primary.blocks.y != 0,
        !(blocks.pixels.x * blocks.pixels.y == i32::MIN && blocks.primary.blocks.x * blocks.primary.blocks.y == -1),
    ensures
        mask.wf(),
        mask.width == blocks.primary.blocks.x,
        mask.height == blocks.primary.blocks.y,
        exists|spans: IntMatrix, low: BooleanMatrix, first: BooleanMatrix, second: BooleanMatrix, third: BooleanMatrix, fourth: BooleanMatrix| {
            &&& spans.wf()
            &&& spans.width == blocks.primary.blocks.x
            &&& spans.height == blocks.primary.blocks.y
            &&& forall|x: int, y: int| #[trigger] spans.in_bounds(x, y) ==> spans.at(x, y) == clipped_span(*histogram, x, y)
            &&& mask_stages(spans, histogram.bins as int, *blocks, low, first, second, third, fourth, mask)
        },
{
    let spans = clipped_contrast::compute(blocks, histogram);
    let mut mask = absolute_contrast_mask::compute(&spans, histogram.bins);
    let relative = relative_contrast_mask::compute(&spans, blocks);
    let ghost absolute = mask;
    mask.merge(&relative);
    let ghost low = mask;
    assert forall|x: int, y: int| #[trigger] low.in_bounds(x, y) implies low.at(x, y) == low_contrast(spans, histogram.bins as int, *blocks, x, y) by {
        assert(relative.in_bounds(x, y));
        assert(absolute.in_bounds(x, y));
    }
    merge_errors_vote(&mut mask);
    let ghost first = mask;
    mask.invert();
    let ghost second = mask;
    merge_errors_vote(&mut mask);
    let ghost third = mask;
    merge_errors_vote(&mut mask);
    let ghost fourth = mask;
    let voted = vote(
        &mask,
        None,
        Parameters::MASK_VOTE_RADIUS as i32,
        Parameters::mask_vote_majority(),
        Parameters::MASK_VOTE_BORDER_DISTANCE as i32,
    );
    mask.merge(&voted);
    assert forall|x: int, y: int| #[trigger] mask.in_bounds(x, y) implies mask.at(x, y) == (fourth.at(x, y) || mask_vote(fourth, x, y)) by {
        assert(voted.in_bounds(x, y));
    }
    assert(mask_stages(spans, histogram.bins as int, *blocks, low, first, second, third, fourth, mask));
    mask
}

// ---- pixel mask ----

/// Whether pixel `(px, py)` lies in block `(bx, by)` of the grid.
pub open spec fn in_block(grid: BlockGrid, bx: int, by: int, px: int, py: int) -> bool {
    grid.x@[bx] <= px < grid.x@[bx + 1] && grid.y@[by] <= py < grid.y@[by + 1]
}

/// Whether some masked block among those before `(cx, cy)` in row-major
/// order contains pixel `(px, py)`.
pub open spec fn covered_before(mask: BooleanMatrix, grid: BlockGrid, px: int, py: int, cx: int, cy: int) -> bool {
    exists|bx: int, by: int|
        0 <= bx < grid.blocks.x && 0 <= by < grid.blocks.y && (by < cy || (by == cy && bx < cx))
            && #[trigger] mask.at(bx, by) && #[trigger] in_block(grid, bx, by, px, py)
}

/// Whether some masked block of the grid contains pixel `(px, py)`.
pub open spec fn covered(mask: BooleanMatrix, grid: BlockGrid, px: int, py: int) -> bool {
    exists|bx: int, by: int|
        0 <= bx < grid.blocks.x && 0 <= by < grid.blocks.y && #[trigger] mask.at(bx, by)
            && #[trigger] in_block(grid, bx, by, px, py)
}

/// Sets every pixel of `m` inside `[x0, x1) × [y0, y1)`.
fn fill(m: &mut BooleanMatrix, x0: i32, x1: i32, y0: i32, y1: i32)
    requires
        old(m).wf(),
        old(m).width <= i32::MAX,
        old(m).height <= i32::MAX,
    ensures
        final(m).wf(),
        final(m).width == old(m).width,
        final(m).height == old(m).height,
        forall|x: int, y: int| #[trigger] final(m).in_bounds(x, y) ==>
            final(m).at(x, y) == (old(m).at(x, y) || (x0 <= x < x1 && y0 <= y < y1)),
{
    let w = m.width() as i32;
    let h = m.height() as i32;
    let left = if x0 < 0 { 0 } else { x0 };
    let right = if x1 > w { w } else { x1 };
    let top = if y0 < 0 { 0 } else { y0 };
    let bottom = if y1 > h { h } else { y1 };
    let ghost start = *m;
    let mut y = top;
    while y < bottom
        invariant
            m.wf(),
            m.width == start.width,
            m.height == start.height,
            w == m.width,
            h == m.height,
            left == (if x0 < 0 { 0 } else { x0 }),
            right == (if x1 > w { w } else { x1 }),
            top == (if y0 < 0 { 0 } else { y0 }),
            bottom == (if y1 > h { h } else { y1 }),
            top <= y,
            y <= bottom || bottom < top,
            forall|a: int, b: int| #[trigger] m.in_bounds(a, b) ==>
                m.at(a, b) == (start.at(a, b) || (x0 <= a < x1 && y0 <= b < y1 && b < y)),
        decreases bottom - y,
    {
        let mut x = left;
        while x < right
            invariant
                m.wf(),
                m.width == start.width,
                m.height == start.height,
                w == m.width,
                h == m.height,
                left == (if x0 < 0 { 0 } else { x0 }),
                right == (if x1 > w { w } else { x1 }),
                top == (if y0 < 0 { 0 } else { y0 }),
                bottom == (if y1 > h { h } else { y1 }),
                top <= y < bottom,
                left <= x,
                x <= right || right < left,
                forall|a: int, b: int| #[trigger] m.in_bounds(a, b) ==>
                    m.at(a, b) == (start.at(a, b) || (x0 <= a < x1 && y0 <= b < y1 && (b < y || (b == y && a < x)))),
            decreases right - x,
        {
            let ghost before = *m;
            m.set(x as usize, y as usize, true);
            assert forall|a: int, b: int| #[trigger] m.in_bounds(a, b) implies
                m.at(a, b) == (start.at(a, b) || (x0 <= a < x1 && y0 <= b < y1 && (b < y || (b == y && a < x + 1)))) by {
                if !(a == x && b == y) {
                    assert(before.in_bounds(a, b));
                    assert(m.at(a, b) == before.at(a, b));
                }
            }
            x = x + 1;
        }
        y = y + 1;
    }
}

/// Expands a block-level mask to pixels: every pixel of a masked primary
/// block is set.
pub fn pixelwise(mask: &BooleanMatrix, blocks: &BlockMap) -> (pixels: BooleanMatrix)
    requires
        mask.wf(),
        blocks.primary.wf(),
        0 <= blocks.pixels.x,
        0 <= blocks.pixels.y,
        blocks.pixels.x * blocks.pixels.y <= usize::MAX,
        blocks.primary.blocks.x <= mask.width,
        blocks.primary.blocks.y <= mask.height,
        forall|i: int| 0 <= i < blocks.primary.blocks.x ==>
            i32::MIN <= #[trigger] blocks.primary.x@[i + 1] - blocks.primary.x@[i] <= i32::MAX,
        forall|i: int| 0 <= i < blocks.primary.blocks.y ==>
            i32::MIN <= #[trigger] blocks.primary.y@[i + 1] - blocks.primary.y@[i] <= i32::MAX,
    ensures
        pixels.wf(),
        pixels.width == blocks.pixels.x,
        pixels.height == blocks.pixels.y,
        forall|x: int, y: int| #[trigger] pixels.in_bounds(x, y) ==> pixels.at(x, y) == covered(*mask, blocks.primary, x, y),
{
    let grid = &blocks.primary;
    let mut pixels = BooleanMatrix::new(blocks.pixels.x() as usize, blocks.pixels.y() as usize);
    let bw = grid.blocks.x();
    let bh = grid.blocks.y();
    let mut by: i32 = 0;
    while by < bh
        invariant
            mask.wf(),
            grid.wf(),
            *grid == blocks.primary,
            bw == grid.blocks.x,
            bh == grid.blocks.y,
            bw <= mask.width,
            bh <= mask.height,
            forall|i: int| 0 <= i < bw ==> i32::MIN <= #[trigger] grid.x@[i + 1] - grid.x@[i] <= i32::MAX,
            forall|i: int| 0 <= i < bh ==> i32::MIN <= #[trigger] grid.y@[i + 1] - grid.y@[i] <= i32::MAX,
            pixels.wf(),
            pixels.width == blocks.pixels.x,
            pixels.height == blocks.pixels.y,
            0 <= by,
            by <= bh || bh < 0,
            forall|x: int, y: int| #[trigger] pixels.in_bounds(x, y) ==> pixels.at(x, y) == covered_before(*mask, *grid, x, y, 0, by as int),
        decreases bh - by,
    {
        let mut bx: i32 = 0;
        while bx < bw
            invariant
                mask.wf(),
                grid.wf(),
                *grid == blocks.primary,
                bw == grid.blocks.x,
                bh == grid.blocks.y,
                bw <= mask.width,
                bh <= mask.height,
                forall|i: int| 0 <= i < bw ==> i32::MIN <= #[trigger] grid.x@[i + 1] - grid.x@[i] <= i32::MAX,
                forall|i: int| 0 <= i < bh ==> i32::MIN <= #[trigger] grid.y@[i + 1] - grid.y@[i] <= i32::MAX,
                pixels.wf(),
                pixels.width == blocks.pixels.x,
                pixels.height == blocks.pixels.y,
                0 <= by < bh,
                0 <= bx,
                bx <= bw || bw < 0,
                forall|x: int, y: int| #[trigger] pixels.in_bounds(x, y) ==> pixels.at(x, y) == covered_before(*mask, *grid, x, y, bx as int, by as int),
            decreases bw - bx,
        {
            let ghost before = pixels;
            if mask.get(bx as usize, by as usize) {
                assert(i32::MIN <= grid.x@[bx + 1] - grid.x@[bx as int] <= i32::MAX);
                assert(i32::MIN <= grid.y@[by + 1] - grid.y@[by as int] <= i32::MAX);
                let rect = grid.block(bx, by);
                fill(&mut pixels, rect.left(), rect.right(), rect.top(), rect.bottom());
            }
            assert forall|x: int, y: int| #[trigger] pixels.in_bounds(x, y) implies
                pixels.at(x, y) == covered_before(*mask, *grid, x, y, bx + 1, by as int) by {
                assert(before.in_bounds(x, y));
                if covered_before(*mask, *grid, x, y, bx + 1, by as int) {
                    let (wx, wy) = choose|wx: int, wy: int|
                        0 <= wx < grid.blocks.x && 0 <= wy < grid.blocks.y && (wy < by || (wy == by && wx < bx + 1))
                            && #[trigger] mask.at(wx, wy) && #[trigger] in_block(*grid, wx, wy, x, y);
                    if !(wx == bx && wy == by) {
                        assert(covered_before(*mask, *grid, x, y, bx as int, by as int));
                    }
                }
                if covered_before(*mask, *grid, x, y, bx as int, by as int) {
                    let (wx, wy) = choose|wx: int, wy: int|
                        0 <= wx < grid.blocks.x && 0 <= wy < grid.blocks.y && (wy < by || (wy == by && wx < bx))
                            && #[trigger] mask.at(wx, wy) && #[trigger] in_block(*grid, wx, wy, x, y);
                    assert(mask.at(wx, wy) && in_block(*grid, wx, wy, x, y));
                }
                if mask.at(bx as int, by as int) && in_block(*grid, bx as int, by as int, x, y) {
                    assert(mask.at(bx as int, by as int) && in_block(*grid, bx as int, by as int, x, y));
                }
            }
            bx = bx + 1;
        }
        assert forall|x: int, y: int| #[trigger] pixels.in_bounds(x, y) implies
            pixels.at(x, y) == covered_before(*mask, *grid, x, y, 0, by + 1) by {
            if covered_before(*mask, *grid, x, y, 0, by + 1) {
                let (wx, wy) = choose|wx: int, wy: int|
                    0 <= wx < grid.blocks.x && 0 <= wy < grid.blocks.y && (wy < by + 1 || (wy == by + 1 && wx < 0))
                        && #[trigger] mask.at(wx, wy) && #[trigger] in_block(*grid, wx, wy, x, y);
                assert(mask.at(wx, wy) && in_block(*grid, wx, wy, x, y));
            }
            if covered_before(*mask, *grid, x, y, bx as int, by as int) {
                let (wx, wy) = choose|wx: int, wy: int|
                    0 <= wx < grid.blocks.x && 0 <= wy < grid.blocks.y && (wy < by || (wy == by && wx < bx))
                        && #[trigger] mask.at(wx, wy) && #[trigger] in_block(*grid, wx, wy, x, y);
                assert(mask.at(wx, wy) && in_block(*grid, wx, wy, x, y));
            }
        }
        by = by + 1;
    }
    assert forall|x: int, y: int| #[trigger] pixels.in_bounds(x, y) implies pixels.at(x, y) == covered(*mask, blocks.primary, x, y) by {
        if covered(*mask, blocks.primary, x, y) {
            let (wx, wy) = choose|wx: int, wy: int|
                0 <= wx < grid.blocks.x && 0 <= wy < grid.blocks.y && #[trigger] mask.at(wx, wy)
                    && #[trigger] in_block(*grid, wx, wy, x, y);
            assert(mask.at(wx, wy) && in_block(*grid, wx, wy, x, y));
        }
        if covered_before(*mask, *grid, x, y, 0, by as int) {
            let (wx, wy) = choose|wx: int, wy: int|
                0 <= wx < grid.blocks.x && 0 <= wy < grid.blocks.y && (wy < by || (wy == by && wx < 0))
                    && #[trigger] mask.at(wx, wy) && #[trigger] in_block(*grid, wx, wy, x, y);
            assert(mask.at(wx, wy) && in_block(*grid, wx, wy, x, y));
        }
    }
    pixels
}

// ---- inner mask ----

/// The pixels of a matrix, clear outside it.
pub open spec fn cells_in(m: BooleanMatrix) -> spec_fn(int, int) -> bool {
    |x: int, y: int| m.in_bounds(x, y) && m.at(x, y)
}

/// A `w × h` image without its outermost rows and columns.
pub open spec fn interior(f: spec_fn(int, int) -> bool, w: int, h: int) -> spec_fn(int, int) -> bool {
    |x: int, y: int| 1 <= x < w - 1 && 1 <= y < h - 1 && f(x, y)
}

/// Erosion by `a` pixels: a pixel at least `a` away from every border stays
/// set when the four pixels `a` away from it along the axes are set.
pub open spec fn shrunk(f: spec_fn(int, int) -> bool, w: int, h: int, a: int) -> spec_fn(int, int) -> bool {
    |x: int, y: int| a <= x < w - a && a <= y < h - a && f(x, y - a) && f(x, y + a) && f(x - a, y) && f(x + a, y)
}

/// The erosions that take an image already eroded by `total` pixels, with
/// the next step `step`, to an erosion by `INNER_MASK_BORDER_DISTANCE`:
/// steps double while they fit, and a last step covers what is left.
pub open spec fn eroded(f: spec_fn(int, int) -> bool, w: int, h: int, total: int, step: int) -> spec_fn(int, int) -> bool
    decreases Parameters::INNER_MASK_BORDER_DISTANCE - total,
{
    let border = Parameters::INNER_MASK_BORDER_DISTANCE as int;
    if step >= 1 && total + step <= border {
        eroded(shrunk(f, w, h, step), w, h, total + step, 2 * step)
    } else if total < border {
        shrunk(f, w, h, border - total)
    } else {
        f
    }
}

/// The inner mask of a `w × h` pixel mask: its interior eroded by one
/// pixel, then by `INNER_MASK_BORDER_DISTANCE` in total.
pub open spec fn inner_cells(f: spec_fn(int, int) -> bool, w: int, h: int) -> spec_fn(int, int) -> bool {
    eroded(shrunk(interior(f, w, h), w, h, 1), w, h, 1, 1)
}

/// Erodes `mask` by `amount` pixels.
fn shrink(mask: &BooleanMatrix, amount: usize) -> (shrunk_mask: BooleanMatrix)
    requires
        mask.wf(),
        amount <= mask.width,
        amount <= mask.height,
    ensures
        shrunk_mask.wf(),
        shrunk_mask.width == mask.width,
        shrunk_mask.height == mask.height,
        cells_in(shrunk_mask) == shrunk(cells_in(*mask), mask.width as int, mask.height as int, amount as int),
{
    let w = mask.width();
    let h = mask.height();
    let _storage = mask.cells.len();
    let mut out = BooleanMatrix::new(w, h);
    let f = Ghost(cells_in(*mask));
    let g = Ghost(shrunk(f@, w as int, h as int, amount as int));
    let mut y: usize = amount;
    while y < h - amount
        invariant
            mask.wf(),
            w == mask.width,
            h == mask.height,
            amount <= w,
            amount <= h,
            f@ == cells_in(*mask),
            g@ == shrunk(f@, w as int, h as int, amount as int),
            out.wf(),
            out.width == w,
            out.height == h,
            amount <= y,
            forall|a: int, b: int| #[trigger] out.in_bounds(a, b) ==> out.at(a, b) == (b < y && g@(a, b)),
        decreases h - y,
    {
        let mut x: usize = amount;
        while x < w - amount
            invariant
                mask.wf(),
                w == mask.width,
                h == mask.height,
                amount <= w,
                amount <= h,
                f@ == cells_in(*mask),
                g@ == shrunk(f@, w as int, h as int, amount as int),
                out.wf(),
                out.width == w,
                out.height == h,
                amount <= y < h - amount,
                amount <= x,
                forall|a: int, b: int| #[trigger] out.in_bounds(a, b) ==> out.at(a, b) == ((b < y || (b == y && a < x)) && g@(a, b)),
            decreases w - x,
        {
            let v = mask.get(x, y - amount) && mask.get(x, y + amount) && mask.get(x - amount, y) && mask.get(x + amount, y);
            let ghost before = out;
            out.set(x, y, v);
            assert forall|a: int, b: int| #[trigger] out.in_bounds(a, b) implies out.at(a, b) == ((b < y || (b == y && a < x + 1)) && g@(a, b)) by {
                if !(a == x && b == y) {
                    assert(before.in_bounds(a, b));
                    assert(out.at(a, b) == before.at(a, b));
                }
            }
            x = x + 1;
        }
        assert forall|a: int, b: int| #[trigger] out.in_bounds(a, b) implies out.at(a, b) == (b < y + 1 && g@(a, b)) by {
            if b == y && a >= w - amount {
                assert(!g@(a, b));
            }
        }
        y = y + 1;
    }
    assert forall|a: int, b: int| #![trigger cells_in(out)(a, b)] cells_in(out)(a, b) == g@(a, b) by {
        if out.in_bounds(a, b) {
            assert(out.at(a, b) == (b < y && g@(a, b)));
        }
    }
    assert(cells_in(out) =~= g@);
    out
}

/// Inner mask: the pixel mask without its outermost pixels, eroded by
/// `INNER_MASK_BORDER_DISTANCE` pixels, so that minutiae near the border
/// of the fingerprint can be filtered out.
pub fn inner(outer: &BooleanMatrix) -> (inner_mask: BooleanMatrix)
    requires
        outer.wf(),
        6 <= outer.width,
        6 <= outer.height,
    ensures
        inner_mask.wf(),
        inner_mask.width == outer.width,
        inner_mask.height == outer.height,
        cells_in(inner_mask) == inner_cells(cells_in(*outer), outer.width as int, outer.height as int),
{
    let w = outer.width();
    let h = outer.height();
    let _storage = outer.cells.len();
    let mut copy = BooleanMatrix::new(w, h);
    let ghost target = interior(cells_in(*outer), w as int, h as int);
    let mut y: usize = 1;
    while y < h - 1
        invariant
            outer.wf(),
            w == outer.width,
            h == outer.height,
            6 <= w,
            6 <= h,
            target == interior(cells_in(*outer), w as int, h as int),
            copy.wf(),
            copy.width == w,
            copy.height == h,
            1 <= y,
            forall|a: int, b: int| #[trigger] copy.in_bounds(a, b) ==> copy.at(a, b) == (b < y && target(a, b)),
        decreases h - y,
    {
        let mut x: usize = 1;
        while x < w - 1
            invariant
                outer.wf(),
                w == outer.width,
                h == outer.height,
                6 <= w,
                6 <= h,
                target == interior(cells_in(*outer), w as int, h as int),
                copy.wf(),
                copy.width == w,
                copy.height == h,
                1 <= y < h - 1,
                1 <= x,
                forall|a: int, b: int| #[trigger] copy.in_bounds(a, b) ==> copy.at(a, b) == ((b < y || (b == y && a < x)) && target(a, b)),
            decreases w - x,
        {
            let ghost before = copy;
            copy.set(x, y, outer.get(x, y));
            assert forall|a: int, b: int| #[trigger] copy.in_bounds(a, b) implies copy.at(a, b) == ((b < y || (b == y && a < x + 1)) && target(a, b)) by {
                if !(a == x && b == y) {
                    assert(before.in_bounds(a, b));
                    assert(copy.at(a, b) == before.at(a, b));
                }
            }
            x = x + 1;
        }
        y = y + 1;
    }
    assert forall|a: int, b: int| #![trigger cells_in(copy)(a, b)] cells_in(copy)(a, b) == target(a, b) by {
        if copy.in_bounds(a, b) {
            assert(copy.at(a, b) == (b < y && target(a, b)));
        }
    }
    assert(cells_in(copy) =~= target);
    let border = Parameters::INNER_MASK_BORDER_DISTANCE;
    let mut eroding = shrink(&copy, 1);
    let mut total: usize = 1;
    let mut step: usize = 1;
    while total + step <= border
        invariant
            eroding.wf(),
            eroding.width == w,
            eroding.height == h,
            6 <= w,
            6 <= h,
            border == Parameters::INNER_MASK_BORDER_DISTANCE,
            step == total,
            total == 1 || total == 2 || total == 4 || total == 8,
            eroded(cells_in(eroding), w as int, h as int, total as int, step as int)
                == inner_cells(cells_in(*outer), w as int, h as int),
        decreases border - total,
    {
        eroding = shrink(&eroding, step);
        total = total + step;
        step = step * 2;
    }
    if total < border {
        eroding = shrink(&eroding, border - total);
    }
    eroding
}

} // verus!
