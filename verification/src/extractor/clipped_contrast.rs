use vstd::prelude::*;
use crate::primitives::block_map::BlockMap;
use crate::primitives::histogram_cube::{HistogramCube, bin_prefix_sum};
use crate::primitives::int_matrix::IntMatrix;
use crate::primitives::integers::div_toward_zero;

verus! {

/// Sum of the counters from bin `n` up to the last bin of a histogram in the cube.
pub open spec fn bin_suffix_sum(cube: HistogramCube, x: int, y: int, n: int) -> int
    decreases cube.bins - n,
{
    if n >= cube.bins || n < 0 {
        0
    } else {
        cube.at(x, y, n) + bin_suffix_sum(cube, x, y, n + 1)
    }
}

/// Number of pixels clipped from each end of a histogram holding `volume`
/// pixels: 8 % of the volume, rounded half up and truncated toward zero.
pub open spec fn clip_limit(volume: int) -> int {
    div_toward_zero(8 * volume + 50, 100)
}

/// First bin, scanning up from `i`, at which the running total from bin 0
/// exceeds `limit`; the last bin when there is none.
pub open spec fn lower_bound_from(cube: HistogramCube, x: int, y: int, limit: int, i: int) -> int
    decreases cube.bins - i,
{
    if i >= cube.bins {
        cube.bins - 1
    } else if bin_prefix_sum(cube, x, y, i + 1) > limit {
        i
    } else {
        lower_bound_from(cube, x, y, limit, i + 1)
    }
}

/// First bin, scanning down from `i`, at which the running total from the
/// last bin exceeds `limit`; bin 0 when there is none.
pub open spec fn upper_bound_from(cube: HistogramCube, x: int, y: int, limit: int, i: int) -> int
    decreases i + 1,
{
    if i < 0 {
        0
    } else if bin_suffix_sum(cube, x, y, i) > limit {
        i
    } else {
        upper_bound_from(cube, x, y, limit, i - 1)
    }
}

/// Width, in bins, of the histogram at `(x, y)` once the darkest and the
/// brightest `clip_limit` pixels are set aside. Dividing it by `bins - 1`
/// gives the block's clipped contrast.
pub open spec fn clipped_span(cube: HistogramCube, x: int, y: int) -> int {
    let limit = clip_limit(bin_prefix_sum(cube, x, y, cube.bins as int));
    upper_bound_from(cube, x, y, limit, cube.bins - 1) - lower_bound_from(cube, x, y, limit, 0)
}

/// The running totals of every histogram of the first `bx × by` cells fit in `i32`.
pub open spec fn sums_fit(cube: HistogramCube, bx: int, by: int) -> bool {
    &&& forall|x: int, y: int, n: int| 0 <= x < bx && 0 <= y < by && 0 <= n <= cube.bins
        ==> i32::MIN <= #[trigger] bin_prefix_sum(cube, x, y, n) <= i32::MAX
    &&& forall|x: int, y: int, n: int| 0 <= x < bx && 0 <= y < by && 0 <= n <= cube.bins
        ==> i32::MIN <= #[trigger] bin_suffix_sum(cube, x, y, n) <= i32::MAX
}

fn clip_limit_of(volume: i32) -> (r: i32)
    ensures
        r == clip_limit(volume as int),
{
    let n: i64 = 8 * (volume as i64) + 50;
    if n >= 0 {
        (n / 100) as i32
    } else {
        let m: i64 = -n;
        proof {
            assert(m / 100 <= m);
        }
        -((m / 100) as i32)
    }
}

fn lower_bound(histogram: &HistogramCube, x: usize, y: usize, limit: i32) -> (r: usize)
    requires
        histogram.wf(),
        x < histogram.width,
        y < histogram.height,
        histogram.bins >= 1,
        forall|n: int| 0 <= n <= histogram.bins ==> i32::MIN <= #[trigger] bin_prefix_sum(*histogram, x as int, y as int, n) <= i32::MAX,
    ensures
        r == lower_bound_from(*histogram, x as int, y as int, limit as int, 0),
{
    let mut accumulator: i32 = 0;
    let mut i: usize = 0;
    while i < histogram.bins
        invariant
            histogram.wf(),
            x < histogram.width,
            y < histogram.height,
            histogram.bins >= 1,
            i <= histogram.bins,
            accumulator == bin_prefix_sum(*histogram, x as int, y as int, i as int),
            forall|n: int| 0 <= n <= histogram.bins ==> i32::MIN <= #[trigger] bin_prefix_sum(*histogram, x as int, y as int, n) <= i32::MAX,
            lower_bound_from(*histogram, x as int, y as int, limit as int, 0)
                == lower_bound_from(*histogram, x as int, y as int, limit as int, i as int),
        decreases histogram.bins - i,
    {
        assert(i32::MIN <= bin_prefix_sum(*histogram, x as int, y as int, i + 1) <= i32::MAX);
        accumulator = accumulator + histogram.get(x, y, i);
        if accumulator > limit {
            return i;
        }
        i = i + 1;
    }
    histogram.bins - 1
}

fn upper_bound(histogram: &HistogramCube, x: usize, y: usize, limit: i32) -> (r: usize)
    requires
        histogram.wf(),
        x < histogram.width,
        y < histogram.height,
        histogram.bins >= 1,
        forall|n: int| 0 <= n <= histogram.bins ==> i32::MIN <= #[trigger] bin_suffix_sum(*histogram, x as int, y as int, n) <= i32::MAX,
    ensures
        r == upper_bound_from(*histogram, x as int, y as int, limit as int, histogram.bins - 1),
{
    let mut accumulator: i32 = 0;
    let mut i: usize = histogram.bins;
    while i > 0
        invariant
            histogram.wf(),
            x < histogram.width,
            y < histogram.height,
            histogram.bins >= 1,
            i <= histogram.bins,
            accumulator == bin_suffix_sum(*histogram, x as int, y as int, i as int),
            forall|n: int| 0 <= n <= histogram.bins ==> i32::MIN <= #[trigger] bin_suffix_sum(*histogram, x as int, y as int, n) <= i32::MAX,
            upper_bound_from(*histogram, x as int, y as int, limit as int, histogram.bins - 1)
                == upper_bound_from(*histogram, x as int, y as int, limit as int, i - 1),
        decreases i,
    {
        i = i - 1;
        assert(i32::MIN <= bin_suffix_sum(*histogram, x as int, y as int, i as int) <= i32::MAX);
        accumulator = accumulator + histogram.get(x, y, i);
        if accumulator > limit {
            return i;
        }
    }
    0
}

/// Clipped span of every primary block, in histogram bins.
///
/// For each block the darkest and the brightest `clip_limit` pixels are set
/// aside by walking the block's histogram inward from both ends; the result
/// holds the distance between the two bins where the walks stop. The block's
/// clipped contrast is that span divided by `bins - 1`.
pub fn compute(blocks: &BlockMap, histogram: &HistogramCube) -> (spans: IntMatrix)
    requires
        histogram.wf(),
        1 <= histogram.bins <= i32::MAX,
        0 <= blocks.primary.blocks.x <= histogram.width,
        0 <= blocks.primary.blocks.y <= histogram.height,
        sums_fit(*histogram, blocks.primary.blocks.x as int, blocks.primary.blocks.y as int),
    ensures
        spans.wf(),
        spans.width == blocks.primary.blocks.x,
        spans.height == blocks.primary.blocks.y,
        forall|x: int, y: int| #[trigger] spans.in_bounds(x, y) ==> spans.at(x, y) == clipped_span(*histogram, x, y),
{
    let bw = blocks.primary.blocks.x() as usize;
    let bh = blocks.primary.blocks.y() as usize;
    let _storage = histogram.counts.len();
    proof {
        assert(bw * bh <= histogram.width * histogram.height) by (nonlinear_arith)
            requires bw <= histogram.width, bh <= histogram.height;
        assert(histogram.width * histogram.height <= histogram.width * histogram.height * histogram.bins) by (nonlinear_arith)
            requires histogram.bins >= 1;
    }
    let mut spans = IntMatrix::new(bw, bh);
    let mut by: usize = 0;
    while by < bh
        invariant
            histogram.wf(),
            1 <= histogram.bins <= i32::MAX,
            bw <= histogram.width,
            bh <= histogram.height,
            sums_fit(*histogram, bw as int, bh as int),
            spans.wf(),
            spans.width == bw,
            spans.height == bh,
            by <= bh,
            forall|x: int, y: int| #[trigger] spans.in_bounds(x, y) && y < by ==> spans.at(x, y) == clipped_span(*histogram, x, y),
        decreases bh - by,
    {
        let mut bx: usize = 0;
        while bx < bw
            invariant
                histogram.wf(),
                1 <= histogram.bins <= i32::MAX,
                bw <= histogram.width,
                bh <= histogram.height,
                sums_fit(*histogram, bw as int, bh as int),
                spans.wf(),
                spans.width == bw,
                spans.height == bh,
                by < bh,
                bx <= bw,
                forall|x: int, y: int| #[trigger] spans.in_bounds(x, y) && (y < by || (y == by && x < bx)) ==> spans.at(x, y) == clipped_span(*histogram, x, y),
            decreases bw - bx,
        {
            let volume = histogram.sum(bx, by);
            let limit = clip_limit_of(volume);
            let lower = lower_bound(histogram, bx, by, limit);
            let upper = upper_bound(histogram, bx, by, limit);
            proof {
                assert(lower < histogram.bins) by {
                    lemma_lower_bound_range(*histogram, bx as int, by as int, limit as int, 0);
                }
                assert(upper < histogram.bins) by {
                    lemma_upper_bound_range(*histogram, bx as int, by as int, limit as int, histogram.bins - 1);
                }
            }
            let span = upper as i64 - lower as i64;
            proof {
                assert(span == clipped_span(*histogram, bx as int, by as int));
                assert(i32::MIN <= span <= i32::MAX);
            }
            let ghost before = spans;
            spans.set(bx, by, span as i32);
            assert forall|x: int, y: int| #[trigger] spans.in_bounds(x, y) && (y < by || (y == by && x < bx + 1))
                implies spans.at(x, y) == clipped_span(*histogram, x, y) by {
                if !(x == bx && y == by) {
                    assert(before.in_bounds(x, y));
                    assert(spans.at(x, y) == before.at(x, y));
                }
            }
            bx = bx + 1;
        }
        by = by + 1;
    }
    spans
}

proof fn lemma_lower_bound_range(cube: HistogramCube, x: int, y: int, limit: int, i: int)
    requires
        cube.bins >= 1,
        0 <= i,
    ensures
        0 <= lower_bound_from(cube, x, y, limit, i) < cube.bins,
    decreases cube.bins - i,
{
    if i < cube.bins && bin_prefix_sum(cube, x, y, i + 1) <= limit {
        lemma_lower_bound_range(cube, x, y, limit, i + 1);
    }
}

proof fn lemma_upper_bound_range(cube: HistogramCube, x: int, y: int, limit: int, i: int)
    requires
        i < cube.bins,
        cube.bins >= 1,
    ensures
        0 <= upper_bound_from(cube, x, y, limit, i) < cube.bins,
    decreases i + 1,
{
    if i >= 0 && bin_suffix_sum(cube, x, y, i) <= limit {
        lemma_upper_bound_range(cube, x, y, limit, i - 1);
    }
}


/// Bins before `i` hold no more than `limit` pixels when the scan for the
/// lower bound started at 0 passes them; the bound's own bin tips the total
/// over `limit`.
proof fn lemma_lower_bound_facts(cube: HistogramCube, x: int, y: int, limit: int, i: int)
    requires
        cube.bins >= 1,
        0 <= i <= cube.bins,
        bin_prefix_sum(cube, x, y, i) <= limit,
        forall|j: int| 0 <= j < i ==> #[trigger] bin_prefix_sum(cube, x, y, j + 1) <= limit,
        bin_prefix_sum(cube, x, y, cube.bins as int) > limit,
    ensures
        ({
            let b = lower_bound_from(cube, x, y, limit, i);
            &&& i <= b < cube.bins
            &&& bin_prefix_sum(cube, x, y, b) <= limit
        }),
    decreases cube.bins - i,
{
    if i < cube.bins && bin_prefix_sum(cube, x, y, i + 1) <= limit {
        lemma_lower_bound_facts(cube, x, y, limit, i + 1);
    }
}

/// The scan for the upper bound started at the last bin stops at a bin
/// whose following bins hold no more than `limit` pixels.
proof fn lemma_upper_bound_facts(cube: HistogramCube, x: int, y: int, limit: int, i: int)
    requires
        cube.bins >= 1,
        -1 <= i < cube.bins,
        bin_suffix_sum(cube, x, y, i + 1) <= limit,
        bin_suffix_sum(cube, x, y, 0) > limit,
    ensures
        ({
            let b = upper_bound_from(cube, x, y, limit, i);
            &&& 0 <= b <= i
            &&& bin_suffix_sum(cube, x, y, b + 1) <= limit
        }),
    decreases i + 1,
{
    if i >= 0 && bin_suffix_sum(cube, x, y, i) <= limit {
        lemma_upper_bound_facts(cube, x, y, limit, i - 1);
    }
}

/// The bins before `n` and those from `n` on hold all the pixels.
proof fn lemma_prefix_suffix(cube: HistogramCube, x: int, y: int, n: int)
    requires
        0 <= n <= cube.bins,
    ensures
        bin_prefix_sum(cube, x, y, n) + bin_suffix_sum(cube, x, y, n) == bin_prefix_sum(cube, x, y, cube.bins as int),
    decreases n,
{
    if n > 0 {
        lemma_prefix_suffix(cube, x, y, n - 1);
    } else {
        lemma_suffix_total(cube, x, y, 0);
    }
}

/// The bins from `n` on hold the total less the bins before `n`.
proof fn lemma_suffix_total(cube: HistogramCube, x: int, y: int, n: int)
    requires
        0 <= n <= cube.bins,
    ensures
        bin_suffix_sum(cube, x, y, n) == bin_prefix_sum(cube, x, y, cube.bins as int) - bin_prefix_sum(cube, x, y, n),
    decreases cube.bins - n,
{
    if n < cube.bins {
        lemma_suffix_total(cube, x, y, n + 1);
        lemma_prefix_step(cube, x, y, n, cube.bins as int);
    }
}

/// Adding bin `n` to the bins before it.
proof fn lemma_prefix_step(cube: HistogramCube, x: int, y: int, n: int, m: int)
    requires
        0 <= n < m,
    ensures
        bin_prefix_sum(cube, x, y, m) - bin_prefix_sum(cube, x, y, n) == cube.at(x, y, n) + (bin_prefix_sum(cube, x, y, m) - bin_prefix_sum(cube, x, y, n + 1)),
{
}

/// With counters that are never negative, fewer bins hold fewer pixels.
proof fn lemma_suffix_monotone(cube: HistogramCube, x: int, y: int, a: int, b: int)
    requires
        0 <= a <= b <= cube.bins,
        forall|z: int| 0 <= z < cube.bins ==> #[trigger] cube.at(x, y, z) >= 0,
    ensures
        bin_suffix_sum(cube, x, y, b) <= bin_suffix_sum(cube, x, y, a),
    decreases b - a,
{
    if a < b {
        lemma_suffix_monotone(cube, x, y, a + 1, b);
        assert(cube.at(x, y, a) >= 0);
    }
}

/// The clipped contrast of a block that holds pixels lies between 0 and 1:
/// with counters that are never negative and at least one pixel, the span
/// lies between 0 and `bins - 1`.
pub proof fn law_clipped_span_in_range(cube: HistogramCube, x: int, y: int)
    requires
        cube.bins >= 1,
        forall|z: int| 0 <= z < cube.bins ==> #[trigger] cube.at(x, y, z) >= 0,
        bin_prefix_sum(cube, x, y, cube.bins as int) >= 1,
    ensures
        0 <= clipped_span(cube, x, y) <= cube.bins - 1,
{
    let v = bin_prefix_sum(cube, x, y, cube.bins as int);
    let limit = clip_limit(v);
    assert(0 <= limit < v);
    assert(2 * limit < v);
    lemma_suffix_total(cube, x, y, 0);
    lemma_lower_bound_facts(cube, x, y, limit, 0);
    assert(bin_suffix_sum(cube, x, y, cube.bins as int) == 0);
    lemma_upper_bound_facts(cube, x, y, limit, cube.bins - 1);
    let lower = lower_bound_from(cube, x, y, limit, 0);
    let upper = upper_bound_from(cube, x, y, limit, cube.bins - 1);
    if upper < lower {
        lemma_prefix_suffix(cube, x, y, lower);
        lemma_suffix_monotone(cube, x, y, upper + 1, lower);
        assert(v <= 2 * limit);
    }
}
} // verus!
