use vstd::prelude::*;
use crate::parameters::Parameters;
use crate::primitives::block_grid::BlockGrid;
use crate::primitives::block_map::BlockMap;
use crate::primitives::histogram_cube::{HistogramCube, clamp_bin};
use crate::primitives::int_matrix::IntMatrix;
use crate::primitives::int_point::IntPoint;

verus! {

/// 1 when pixel `(x, y)` lies in the image and its depth falls in bin `z`
/// of a histogram with `bins` bins, 0 otherwise.
pub open spec fn hit(depths: IntMatrix, bins: usize, z: int, x: int, y: int) -> int {
    if depths.in_bounds(x, y) && clamp_bin(depths.at(x, y) as int, bins) == z {
        1
    } else {
        0
    }
}

/// Pixels of row `y` in columns `[x0, x1)` that fall in bin `z`.
pub open spec fn row_hits(depths: IntMatrix, bins: usize, z: int, y: int, x0: int, x1: int) -> int
    decreases x1 - x0,
{
    if x1 <= x0 {
        0
    } else {
        row_hits(depths, bins, z, y, x0, x1 - 1) + hit(depths, bins, z, x1 - 1, y)
    }
}

/// Pixels of `[x0, x1) × [y0, y1)` that fall in bin `z`.
pub open spec fn rect_hits(depths: IntMatrix, bins: usize, z: int, x0: int, x1: int, y0: int, y1: int) -> int
    decreases y1 - y0,
{
    if y1 <= y0 {
        0
    } else {
        rect_hits(depths, bins, z, x0, x1, y0, y1 - 1) + row_hits(depths, bins, z, y1 - 1, x0, x1)
    }
}

/// Pixels of block `(bx, by)` of the grid that fall in bin `z`.
pub open spec fn block_hits(depths: IntMatrix, bins: usize, grid: BlockGrid, bx: int, by: int, z: int) -> int {
    rect_hits(depths, bins, z, grid.x@[bx] as int, grid.x@[bx + 1] as int, grid.y@[by] as int, grid.y@[by + 1] as int)
}

/// `v` clipped into `[0, n]`.
pub open spec fn clip(v: int, n: int) -> int {
    if v < 0 {
        0
    } else if v > n {
        n
    } else {
        v
    }
}

proof fn lemma_row_hits_bound(depths: IntMatrix, bins: usize, z: int, y: int, x0: int, x1: int)
    requires
        x0 <= x1,
    ensures
        0 <= row_hits(depths, bins, z, y, x0, x1) <= clip(x1, depths.width as int) - clip(x0, depths.width as int),
        !(0 <= y < depths.height) ==> row_hits(depths, bins, z, y, x0, x1) == 0,
    decreases x1 - x0,
{
    if x1 > x0 {
        lemma_row_hits_bound(depths, bins, z, y, x0, x1 - 1);
    }
}

proof fn lemma_rect_hits_bound(depths: IntMatrix, bins: usize, z: int, x0: int, x1: int, y0: int, y1: int)
    requires
        x0 <= x1,
        y0 <= y1,
    ensures
        0 <= rect_hits(depths, bins, z, x0, x1, y0, y1) <= depths.width * (clip(y1, depths.height as int) - clip(y0, depths.height as int)),
    decreases y1 - y0,
{
    if y1 > y0 {
        lemma_rect_hits_bound(depths, bins, z, x0, x1, y0, y1 - 1);
        lemma_row_hits_bound(depths, bins, z, y1 - 1, x0, x1);
        let w = depths.width as int;
        let h = depths.height as int;
        let a = clip(y1 - 1, h) - clip(y0, h);
        if 0 <= y1 - 1 < h {
            assert(clip(y1, h) == clip(y1 - 1, h) + 1);
            assert(w * (a + 1) == w * a + w) by (nonlinear_arith);
        }
    } else {
        assert(depths.width * 0 == 0);
    }
}

/// One 256-bin histogram of pixel depths per primary block.
///
/// `depths` holds each pixel's depth, the pixel's value scaled to the
/// number of bins and truncated; depths outside the bins count in the first
/// or last bin. Pixels of a block that lie outside the image are skipped.
pub fn create(blocks: &BlockMap, depths: &IntMatrix) -> (histogram: HistogramCube)
    requires
        blocks.primary.wf(),
        0 <= blocks.primary.blocks.x,
        0 <= blocks.primary.blocks.y,
        blocks.primary.blocks.x * blocks.primary.blocks.y * Parameters::HISTOGRAM_DEPTH <= usize::MAX,
        depths.wf(),
        depths.width <= i32::MAX,
        depths.height <= i32::MAX,
        depths.width * depths.height < i32::MAX,
    ensures
        histogram.wf(),
        histogram.width == blocks.primary.blocks.x,
        histogram.height == blocks.primary.blocks.y,
        histogram.bins == Parameters::HISTOGRAM_DEPTH,
        forall|bx: int, by: int, z: int| #[trigger] histogram.in_bounds(bx, by, z) ==>
            histogram.at(bx, by, z) == block_hits(*depths, Parameters::HISTOGRAM_DEPTH, blocks.primary, bx, by, z),
{
    let grid = &blocks.primary;
    let bw = grid.blocks.x() as usize;
    let bh = grid.blocks.y() as usize;
    let w = depths.width() as i32;
    let h = depths.height() as i32;
    let mut histogram = HistogramCube::new(bw, bh, Parameters::HISTOGRAM_DEPTH);
    let ghost bins = Parameters::HISTOGRAM_DEPTH;
    let mut by: usize = 0;
    while by < bh
        invariant
            grid.wf(),
            *grid == blocks.primary,
            bw == grid.blocks.x,
            bh == grid.blocks.y,
            depths.wf(),
            w == depths.width,
            h == depths.height,
            depths.width * depths.height < i32::MAX,
            bins == Parameters::HISTOGRAM_DEPTH,
            histogram.wf(),
            histogram.width == bw,
            histogram.height == bh,
            histogram.bins == bins,
            by <= bh,
            forall|a: int, b: int, z: int| #[trigger] histogram.in_bounds(a, b, z) ==>
                histogram.at(a, b, z) == if b < by { block_hits(*depths, bins, *grid, a, b, z) } else { 0 },
        decreases bh - by,
    {
        let mut bx: usize = 0;
        while bx < bw
            invariant
                grid.wf(),
                *grid == blocks.primary,
                bw == grid.blocks.x,
                bh == grid.blocks.y,
                depths.wf(),
                w == depths.width,
                h == depths.height,
                depths.width * depths.height < i32::MAX,
                bins == Parameters::HISTOGRAM_DEPTH,
                histogram.wf(),
                histogram.width == bw,
                histogram.height == bh,
                histogram.bins == bins,
                by < bh,
                bx <= bw,
                forall|a: int, b: int, z: int| #[trigger] histogram.in_bounds(a, b, z) ==>
                    histogram.at(a, b, z) == if b < by || (b == by && a < bx) { block_hits(*depths, bins, *grid, a, b, z) } else { 0 },
            decreases bw - bx,
        {
            let x0 = grid.x[bx];
            let x1 = grid.x[bx + 1];
            let y0 = grid.y[by];
            let y1 = grid.y[by + 1];
            let ghost start = histogram;
            assert forall|z: int| 0 <= z < bins implies
                #[trigger] histogram.at(bx as int, by as int, z) == rect_hits(*depths, bins, z, x0 as int, x1 as int, y0 as int, y0 as int) by {
                assert(histogram.in_bounds(bx as int, by as int, z));
            }
            let mut y = y0;
            while y < y1
                invariant
                    grid.wf(),
                    *grid == blocks.primary,
                    bw == grid.blocks.x,
                    bh == grid.blocks.y,
                    depths.wf(),
                    w == depths.width,
                    h == depths.height,
                    depths.width * depths.height < i32::MAX,
                    bins == Parameters::HISTOGRAM_DEPTH,
                    histogram.wf(),
                    histogram.width == bw,
                    histogram.height == bh,
                    histogram.bins == bins,
                    by < bh,
                    bx < bw,
                    x0 == grid.x@[bx as int],
                    x1 == grid.x@[bx + 1],
                    y0 == grid.y@[by as int],
                    y1 == grid.y@[by + 1],
                    y0 <= y,
                    y <= y1 || y1 < y0,
                    y1 < y0 ==> y == y0,
                    forall|a: int, b: int, z: int| #[trigger] histogram.in_bounds(a, b, z) && !(a == bx && b == by) ==>
                        histogram.at(a, b, z) == start.at(a, b, z),
                    forall|z: int| 0 <= z < bins ==>
                        #[trigger] histogram.at(bx as int, by as int, z) == rect_hits(*depths, bins, z, x0 as int, x1 as int, y0 as int, y as int),
                decreases y1 - y,
            {
                let mut x = x0;
                while x < x1
                    invariant
                        depths.wf(),
                        w == depths.width,
                        h == depths.height,
                        depths.width * depths.height < i32::MAX,
                        bins == Parameters::HISTOGRAM_DEPTH,
                        histogram.wf(),
                        histogram.width == bw,
                        histogram.height == bh,
                        histogram.bins == bins,
                        by < bh,
                        bx < bw,
                        y0 <= y < y1,
                        x0 <= x,
                        x <= x1 || x1 < x0,
                        x1 < x0 ==> x == x0,
                        forall|a: int, b: int, z: int| #[trigger] histogram.in_bounds(a, b, z) && !(a == bx && b == by) ==>
                            histogram.at(a, b, z) == start.at(a, b, z),
                        forall|z: int| 0 <= z < bins ==>
                            #[trigger] histogram.at(bx as int, by as int, z) == rect_hits(*depths, bins, z, x0 as int, x1 as int, y0 as int, y as int)
                                + row_hits(*depths, bins, z, y as int, x0 as int, x as int),
                    decreases x1 - x,
                {
                    if x >= 0 && y >= 0 && x < w && y < h {
                        let bin = histogram.constrain(depths.get(x as usize, y as usize));
                        proof {
                            let ww = depths.width as int;
                            let hh = depths.height as int;
                            lemma_rect_hits_bound(*depths, bins, bin as int, x0 as int, x1 as int, y0 as int, y as int);
                            lemma_row_hits_bound(*depths, bins, bin as int, y as int, x0 as int, x as int);
                            let c = clip(y0 as int, hh);
                            assert(0 <= c <= y);
                            assert(ww * (y - c) <= ww * y) by (nonlinear_arith) requires 0 <= c, ww >= 0;
                            assert(ww * y + ww <= ww * hh) by (nonlinear_arith) requires 0 <= y < hh, ww >= 0;
                            assert(histogram.at(bx as int, by as int, bin as int) < ww * hh);
                        }
                        let ghost before = histogram;
                        histogram.increment(bx, by, bin);
                        assert forall|a: int, b: int, z: int| #[trigger] histogram.in_bounds(a, b, z) && !(a == bx && b == by) implies
                            histogram.at(a, b, z) == start.at(a, b, z) by {
                            assert(before.in_bounds(a, b, z));
                        }
                        assert forall|z: int| 0 <= z < bins implies
                            #[trigger] histogram.at(bx as int, by as int, z) == rect_hits(*depths, bins, z, x0 as int, x1 as int, y0 as int, y as int)
                                + row_hits(*depths, bins, z, y as int, x0 as int, x + 1) by {
                            assert(before.at(bx as int, by as int, z) == rect_hits(*depths, bins, z, x0 as int, x1 as int, y0 as int, y as int)
                                + row_hits(*depths, bins, z, y as int, x0 as int, x as int));
                        }
                    }
                    x = x + 1;
                }
                assert forall|z: int| 0 <= z < bins implies
                    #[trigger] histogram.at(bx as int, by as int, z) == rect_hits(*depths, bins, z, x0 as int, x1 as int, y0 as int, y + 1) by {
                    assert(row_hits(*depths, bins, z, y as int, x0 as int, x as int) == row_hits(*depths, bins, z, y as int, x0 as int, x1 as int));
                    assert(rect_hits(*depths, bins, z, x0 as int, x1 as int, y0 as int, y + 1)
                        == rect_hits(*depths, bins, z, x0 as int, x1 as int, y0 as int, y as int) + row_hits(*depths, bins, z, y as int, x0 as int, x1 as int));
                }
                y = y + 1;
            }
            assert forall|z: int| 0 <= z < bins implies
                #[trigger] histogram.at(bx as int, by as int, z) == block_hits(*depths, bins, *grid, bx as int, by as int, z) by {
                assert(rect_hits(*depths, bins, z, x0 as int, x1 as int, y0 as int, y as int) == rect_hits(*depths, bins, z, x0 as int, x1 as int, y0 as int, y1 as int));
            }
            assert forall|a: int, b: int, z: int| #[trigger] histogram.in_bounds(a, b, z) implies
                histogram.at(a, b, z) == if b < by || (b == by && a < bx + 1) { block_hits(*depths, bins, *grid, a, b, z) } else { 0 } by {
                if !(a == bx && b == by) {
                    assert(start.in_bounds(a, b, z));
                } else {
                    assert(histogram.at(bx as int, by as int, z) == block_hits(*depths, bins, *grid, bx as int, by as int, z));
                }
            }
            bx = bx + 1;
        }
        by = by + 1;
    }
    histogram
}

/// Offset of the `k`-th primary block around a secondary corner.
pub open spec fn around(k: int) -> IntPoint {
    if k == 0 {
        IntPoint { x: 0, y: 0 }
    } else if k == 1 {
        IntPoint { x: -1i32, y: 0 }
    } else if k == 2 {
        IntPoint { x: 0, y: -1i32 }
    } else {
        IntPoint { x: -1i32, y: -1i32 }
    }
}

/// Count of bin `i` that the `k`-th primary block around corner `(cx, cy)`
/// contributes: its count when the block exists, 0 otherwise.
pub open spec fn corner_term(input: HistogramCube, primary: IntPoint, cx: int, cy: int, k: int, i: int) -> int {
    let bx = cx + around(k).x;
    let by = cy + around(k).y;
    if 0 <= bx < primary.x && 0 <= by < primary.y {
        input.at(bx, by, i) as int
    } else {
        0
    }
}

/// Sum of the contributions of the first `k` primary blocks around a corner.
pub open spec fn corner_sum(input: HistogramCube, primary: IntPoint, cx: int, cy: int, k: int, i: int) -> int
    decreases k,
{
    if k <= 0 {
        0
    } else {
        corner_sum(input, primary, cx, cy, k - 1, i) + corner_term(input, primary, cx, cy, k - 1, i)
    }
}

fn around_offset(k: usize) -> (r: IntPoint)
    requires
        k < 4,
    ensures
        r == around(k as int),
{
    if k == 0 {
        IntPoint::new(0, 0)
    } else if k == 1 {
        IntPoint::new(-1, 0)
    } else if k == 2 {
        IntPoint::new(0, -1)
    } else {
        IntPoint::new(-1, -1)
    }
}

/// Histograms of the secondary blocks: each sums the histograms of the up
/// to four primary blocks that touch its corner.
pub fn smooth(blocks: &BlockMap, input: &HistogramCube) -> (output: HistogramCube)
    requires
        input.wf(),
        0 <= blocks.secondary.blocks.x < i32::MAX,
        0 <= blocks.secondary.blocks.y < i32::MAX,
        blocks.secondary.blocks.x * blocks.secondary.blocks.y * input.bins <= usize::MAX,
        blocks.primary.blocks.x <= input.width,
        blocks.primary.blocks.y <= input.height,
        forall|cx: int, cy: int, k: int, i: int|
            0 <= cx < blocks.secondary.blocks.x && 0 <= cy < blocks.secondary.blocks.y && 0 <= k <= 4 && 0 <= i < input.bins
                ==> i32::MIN <= #[trigger] corner_sum(*input, blocks.primary.blocks, cx, cy, k, i) <= i32::MAX,
    ensures
        output.wf(),
        output.width == blocks.secondary.blocks.x,
        output.height == blocks.secondary.blocks.y,
        output.bins == input.bins,
        forall|cx: int, cy: int, i: int| #[trigger] output.in_bounds(cx, cy, i) ==>
            output.at(cx, cy, i) == corner_sum(*input, blocks.primary.blocks, cx, cy, 4, i),
{
    let sw = blocks.secondary.blocks.x() as usize;
    let sh = blocks.secondary.blocks.y() as usize;
    let primary = blocks.primary.blocks;
    let bins = input.bins;
    let mut output = HistogramCube::new(sw, sh, bins);
    let mut cy: usize = 0;
    while cy < sh
        invariant
            input.wf(),
            sw == blocks.secondary.blocks.x,
            sh == blocks.secondary.blocks.y,
            sw < i32::MAX,
            sh < i32::MAX,
            primary == blocks.primary.blocks,
            primary.x <= input.width,
            primary.y <= input.height,
            bins == input.bins,
            forall|cx: int, cy: int, k: int, i: int|
                0 <= cx < sw && 0 <= cy < sh && 0 <= k <= 4 && 0 <= i < bins
                    ==> i32::MIN <= #[trigger] corner_sum(*input, primary, cx, cy, k, i) <= i32::MAX,
            output.wf(),
            output.width == sw,
            output.height == sh,
            output.bins == bins,
            cy <= sh,
            forall|a: int, b: int, i: int| #[trigger] output.in_bounds(a, b, i) ==>
                output.at(a, b, i) == if b < cy { corner_sum(*input, primary, a, b, 4, i) } else { 0 },
        decreases sh - cy,
    {
        let mut cx: usize = 0;
        while cx < sw
            invariant
                input.wf(),
                sw == blocks.secondary.blocks.x,
                sh == blocks.secondary.blocks.y,
                sw < i32::MAX,
                sh < i32::MAX,
                primary == blocks.primary.blocks,
                primary.x <= input.width,
                primary.y <= input.height,
                bins == input.bins,
                forall|cx: int, cy: int, k: int, i: int|
                    0 <= cx < sw && 0 <= cy < sh && 0 <= k <= 4 && 0 <= i < bins
                        ==> i32::MIN <= #[trigger] corner_sum(*input, primary, cx, cy, k, i) <= i32::MAX,
                output.wf(),
                output.width == sw,
                output.height == sh,
                output.bins == bins,
                cy < sh,
                cx <= sw,
                forall|a: int, b: int, i: int| #[trigger] output.in_bounds(a, b, i) ==>
                    output.at(a, b, i) == if b < cy || (b == cy && a < cx) { corner_sum(*input, primary, a, b, 4, i) } else { 0 },
            decreases sw - cx,
        {
            let corner = IntPoint::new(cx as i32, cy as i32);
            let ghost start = output;
            assert forall|i: int| 0 <= i < bins implies
                #[trigger] output.at(cx as int, cy as int, i) == corner_sum(*input, primary, cx as int, cy as int, 0, i) by {
                assert(output.in_bounds(cx as int, cy as int, i));
            }
            let mut k: usize = 0;
            while k < 4
                invariant
                    input.wf(),
                    sw < i32::MAX,
                    sh < i32::MAX,
                    primary.x <= input.width,
                    primary.y <= input.height,
                    bins == input.bins,
                    forall|cx: int, cy: int, k: int, i: int|
                        0 <= cx < sw && 0 <= cy < sh && 0 <= k <= 4 && 0 <= i < bins
                            ==> i32::MIN <= #[trigger] corner_sum(*input, primary, cx, cy, k, i) <= i32::MAX,
                    output.wf(),
                    output.width == sw,
                    output.height == sh,
                    output.bins == bins,
                    cy < sh,
                    cx < sw,
                    corner == (IntPoint { x: cx as i32, y: cy as i32 }),
                    k <= 4,
                    forall|a: int, b: int, i: int| #[trigger] output.in_bounds(a, b, i) && !(a == cx && b == cy) ==>
                        output.at(a, b, i) == start.at(a, b, i),
                    forall|i: int| 0 <= i < bins ==>
                        #[trigger] output.at(cx as int, cy as int, i) == corner_sum(*input, primary, cx as int, cy as int, k as int, i),
                decreases 4 - k,
            {
                let block = corner.plus(&around_offset(k));
                if primary.contains(&block) {
                    let bx = block.x() as usize;
                    let by = block.y() as usize;
                    let mut i: usize = 0;
                    while i < bins
                        invariant
                            input.wf(),
                            sw < i32::MAX,
                            sh < i32::MAX,
                            bins == input.bins,
                            forall|cx: int, cy: int, k: int, i: int|
                                0 <= cx < sw && 0 <= cy < sh && 0 <= k <= 4 && 0 <= i < bins
                                    ==> i32::MIN <= #[trigger] corner_sum(*input, primary, cx, cy, k, i) <= i32::MAX,
                            output.wf(),
                            output.width == sw,
                            output.height == sh,
                            output.bins == bins,
                            cy < sh,
                            cx < sw,
                            k < 4,
                            block.x == cx + around(k as int).x,
                            block.y == cy + around(k as int).y,
                            corner == (IntPoint { x: cx as i32, y: cy as i32 }),
                            bx == block.x,
                            by == block.y,
                            bx < input.width,
                            by < input.height,
                            0 <= block.x < primary.x,
                            0 <= block.y < primary.y,
                            i <= bins,
                            forall|a: int, b: int, j: int| #[trigger] output.in_bounds(a, b, j) && !(a == cx && b == cy) ==>
                                output.at(a, b, j) == start.at(a, b, j),
                            forall|j: int| 0 <= j < bins ==>
                                #[trigger] output.at(cx as int, cy as int, j) == corner_sum(*input, primary, cx as int, cy as int, k as int, j)
                                    + if j < i { corner_term(*input, primary, cx as int, cy as int, k as int, j) } else { 0 },
                        decreases bins - i,
                    {
                        let v = input.get(bx, by, i);
                        proof {
                            assert(i32::MIN <= corner_sum(*input, primary, cx as int, cy as int, k + 1, i as int) <= i32::MAX);
                        }
                        if v != 0 {
                            let ghost before = output;
                            output.add(cx, cy, i, v);
                            assert forall|a: int, b: int, j: int| #[trigger] output.in_bounds(a, b, j) && !(a == cx && b == cy) implies
                                output.at(a, b, j) == start.at(a, b, j) by {
                                assert(before.in_bounds(a, b, j));
                            }
                        }
                        i = i + 1;
                    }
                }
                k = k + 1;
            }
            assert forall|a: int, b: int, i: int| #[trigger] output.in_bounds(a, b, i) implies
                output.at(a, b, i) == if b < cy || (b == cy && a < cx + 1) { corner_sum(*input, primary, a, b, 4, i) } else { 0 } by {
                if !(a == cx && b == cy) {
                    assert(start.in_bounds(a, b, i));
                }
            }
            cx = cx + 1;
        }
        cy = cy + 1;
    }
    output
}

} // verus!
