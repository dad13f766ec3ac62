use vstd::prelude::*;
use crate::parameters::Parameters;
use crate::primitives::block_map::BlockMap;
use crate::primitives::bool_matrix::BooleanMatrix;
use crate::primitives::int_matrix::IntMatrix;
use crate::primitives::integers::{div_i32, div_toward_zero};

verus! {

/// Index of the first largest element of a nonempty sequence.
pub open spec fn max_index(s: Seq<int>) -> int
    decreases s.len(),
{
    if s.len() <= 1 {
        0
    } else {
        let j = max_index(s.drop_last());
        if s.last() > s[j] {
            s.len() - 1
        } else {
            j
        }
    }
}

/// Sum of the `k` largest elements of `s` (of all of them when `k` exceeds
/// the length).
pub open spec fn top_sum(s: Seq<int>, k: nat) -> int
    decreases k,
{
    if k == 0 || s.len() == 0 {
        0
    } else {
        let i = max_index(s);
        s[i] + top_sum(s.remove(i), (k - 1) as nat)
    }
}

/// The values of a matrix in row-major order.
pub open spec fn values(m: IntMatrix) -> Seq<int> {
    m.cells@.map_values(|v: i32| v as int)
}

/// Pixels per primary block, at least one.
pub open spec fn pixels_per_block(blocks: BlockMap) -> int {
    let q = div_toward_zero(blocks.pixels.x * blocks.pixels.y, blocks.primary.blocks.x * blocks.primary.blocks.y);
    if q < 1 { 1 } else { q }
}

/// Number of blocks sampled: all of them, or as many as the sample size
/// allows at the given block size.
pub open spec fn sample_count(blocks: BlockMap, count: int) -> int {
    let limit = (Parameters::RELATIVE_CONTRAST_SAMPLE as int) / pixels_per_block(blocks);
    if count < limit { count } else { limit }
}

/// Number of best blocks averaged: 49 % of the sample, rounded half up, at least one.
pub open spec fn considered_blocks(blocks: BlockMap, count: int) -> int {
    let c = (49 * sample_count(blocks, count) + 50) / 100;
    if c < 1 { 1 } else { c }
}

/// Whether a block's span is below 34 % of the average span of the
/// `k` best blocks, whose spans sum to `best`: `span < 0.34 * best / k`,
/// compared without division.
pub open spec fn low_relative_contrast(span: int, k: int, best: int) -> bool {
    100 * k * span < 34 * best
}

proof fn lemma_max_index(s: Seq<int>)
    requires
        s.len() >= 1,
    ensures
        0 <= max_index(s) < s.len(),
        forall|i: int| 0 <= i < s.len() ==> #[trigger] s[i] <= s[max_index(s)],
    decreases s.len(),
{
    if s.len() > 1 {
        lemma_max_index(s.drop_last());
        let j = max_index(s.drop_last());
        assert forall|i: int| 0 <= i < s.len() implies #[trigger] s[i] <= s[max_index(s)] by {
            if i < s.len() - 1 {
                assert(s[i] == s.drop_last()[i]);
            }
        }
    }
}

proof fn lemma_top_sum_bound(s: Seq<int>, k: nat, bound: int)
    requires
        bound >= 0,
        forall|i: int| 0 <= i < s.len() ==> -bound <= #[trigger] s[i] <= bound,
    ensures
        -bound * k <= top_sum(s, k) <= bound * k,
    decreases k,
{
    if k > 0 && s.len() > 0 {
        lemma_max_index(s);
        let i = max_index(s);
        let r = s.remove(i);
        assert forall|j: int| 0 <= j < r.len() implies -bound <= #[trigger] r[j] <= bound by {
            if j < i {
                assert(r[j] == s[j]);
            } else {
                assert(r[j] == s[j + 1]);
            }
        }
        lemma_top_sum_bound(r, (k - 1) as nat, bound);
        assert(bound * k == bound * (k - 1) + bound) by (nonlinear_arith);
        assert(-bound * k == -bound * (k - 1) - bound) by (nonlinear_arith);
    } else {
        assert(bound * k >= 0) by (nonlinear_arith) requires bound >= 0;
        assert(-bound * k <= 0) by (nonlinear_arith) requires bound >= 0;
    }
}

/// Index of the first largest element.
fn find_max(v: &Vec<i64>) -> (j: usize)
    requires
        v@.len() >= 1,
    ensures
        j == max_index(v@.map_values(|x: i64| x as int)),
        j < v@.len(),
{
    let ghost s = v@.map_values(|x: i64| x as int);
    let mut j: usize = 0;
    let mut i: usize = 1;
    assert(s.subrange(0, 1).len() == 1);
    while i < v.len()
        invariant
            s == v@.map_values(|x: i64| x as int),
            1 <= i <= v@.len(),
            j < i,
            j == max_index(s.subrange(0, i as int)),
        decreases v@.len() - i,
    {
        let ghost prefix = s.subrange(0, i as int + 1);
        assert(prefix.drop_last() =~= s.subrange(0, i as int));
        assert(prefix.last() == v@[i as int]);
        assert(prefix[j as int] == v@[j as int]);
        if v[i] > v[j] {
            j = i;
        }
        i = i + 1;
    }
    assert(s.subrange(0, v@.len() as int) =~= s);
    j
}

/// Sum of the `k` largest values of `values`.
fn sum_of_largest(values: Vec<i64>, k: usize) -> (total: i64)
    requires
        k <= Parameters::RELATIVE_CONTRAST_SAMPLE,
        forall|i: int| 0 <= i < values@.len() ==> i32::MIN <= #[trigger] values@[i] <= i32::MAX,
    ensures
        total == top_sum(values@.map_values(|x: i64| x as int), k as nat),
        -0x8000_0000 * k <= total <= 0x8000_0000 * k,
{
    let ghost initial = values@.map_values(|x: i64| x as int);
    let mut v = values;
    let mut total: i64 = 0;
    let mut t: usize = 0;
    proof {
        lemma_top_sum_bound(initial, k as nat, 0x8000_0000);
    }
    while t < k && v.len() > 0
        invariant
            k <= Parameters::RELATIVE_CONTRAST_SAMPLE,
            t <= k,
            forall|i: int| 0 <= i < v@.len() ==> i32::MIN <= #[trigger] v@[i] <= i32::MAX,
            total + top_sum(v@.map_values(|x: i64| x as int), (k - t) as nat) == top_sum(initial, k as nat),
            -0x8000_0000 * t <= total <= 0x8000_0000 * t,
        decreases k - t,
    {
        let ghost s = v@.map_values(|x: i64| x as int);
        let j = find_max(&v);
        let value = v[j];
        proof {
            assert(s[j as int] == value);
            assert(s.remove(j as int) =~= v@.remove(j as int).map_values(|x: i64| x as int));
            assert(top_sum(s, (k - t) as nat) == value + top_sum(s.remove(j as int), (k - t - 1) as nat));
        }
        v.remove(j);
        total = total + value;
        t = t + 1;
    }
    proof {
        let s = v@.map_values(|x: i64| x as int);
        assert(top_sum(s, (k - t) as nat) == 0);
    }
    total
}

/// Marks the blocks whose clipped contrast is below 34 % of the average
/// contrast of the best blocks.
///
/// `spans` holds the clipped span of each block; contrasts are spans scaled
/// by one common factor, so the comparison is made on the spans. The best
/// blocks are the `considered_blocks` largest spans, and the sample they
/// come from is limited to `RELATIVE_CONTRAST_SAMPLE` pixels' worth of blocks.
pub fn compute(spans: &IntMatrix, blocks: &BlockMap) -> (mask: BooleanMatrix)
    requires
        spans.wf(),
        i32::MIN <= blocks.pixels.x * blocks.pixels.y <= i32::MAX,
        i32::MIN <= blocks.primary.blocks.x * blocks.primary.blocks.y <= i32::MAX,
        blocks.primary.blocks.x * blocks.primary.blocks.y != 0,
        !(blocks.pixels.x * blocks.pixels.y == i32::MIN && blocks.primary.blocks.x * blocks.primary.blocks.y == -1),
    ensures
        mask.wf(),
        mask.width == spans.width,
        mask.height == spans.height,
        forall|x: int, y: int| #[trigger] mask.in_bounds(x, y) ==> mask.at(x, y) == low_relative_contrast(
            spans.at(x, y) as int,
            considered_blocks(*blocks, values(*spans).len() as int),
            top_sum(values(*spans), considered_blocks(*blocks, values(*spans).len() as int) as nat),
        ),
{
    let w = spans.width();
    let h = spans.height();
    let count = spans.cells.len();
    let mut all: Vec<i64> = Vec::new();
    let mut i: usize = 0;
    while i < count
        invariant
            count == spans.cells@.len(),
            i <= count,
            all@.len() == i,
            forall|j: int| 0 <= j < i ==> #[trigger] all@[j] == spans.cells@[j] as i64,
        decreases count - i,
    {
        all.push(spans.cells[i] as i64);
        i = i + 1;
    }
    proof {
        assert(all@.map_values(|x: i64| x as int) =~= values(*spans));
    }
    let pixel_area = blocks.pixels.area();
    let block_area = blocks.primary.blocks.area();
    let quotient = div_i32(pixel_area, block_area);
    let per_block: usize = if quotient < 1 { 1 } else { quotient as usize };
    let limit: usize = Parameters::RELATIVE_CONTRAST_SAMPLE / per_block;
    let sample: usize = if count < limit { count } else { limit };
    let rounded: usize = (49 * sample + 50) / 100;
    let considered: usize = if rounded < 1 { 1 } else { rounded };
    proof {
        assert(quotient == div_toward_zero(blocks.pixels.x * blocks.pixels.y, blocks.primary.blocks.x * blocks.primary.blocks.y));
        assert(per_block == pixels_per_block(*blocks));
        assert(sample == sample_count(*blocks, count as int));
        assert(considered == considered_blocks(*blocks, count as int));
        assert(considered <= Parameters::RELATIVE_CONTRAST_SAMPLE);
    }
    let best = sum_of_largest(all, considered);
    let ghost k = considered as int;
    let mut mask = BooleanMatrix::new(w, h);
    let mut y: usize = 0;
    while y < h
        invariant
            spans.wf(),
            w == spans.width,
            h == spans.height,
            1 <= considered <= Parameters::RELATIVE_CONTRAST_SAMPLE,
            k == considered,
            -0x8000_0000 * k <= best <= 0x8000_0000 * k,
            mask.wf(),
            mask.width == w,
            mask.height == h,
            y <= h,
            forall|a: int, b: int| #[trigger] mask.in_bounds(a, b) ==>
                mask.at(a, b) == (b < y && low_relative_contrast(spans.at(a, b) as int, k, best as int)),
        decreases h - y,
    {
        let mut x: usize = 0;
        while x < w
            invariant
                spans.wf(),
                w == spans.width,
                h == spans.height,
                1 <= considered <= Parameters::RELATIVE_CONTRAST_SAMPLE,
                k == considered,
                -0x8000_0000 * k <= best <= 0x8000_0000 * k,
                mask.wf(),
                mask.width == w,
                mask.height == h,
                y < h,
                x <= w,
                forall|a: int, b: int| #[trigger] mask.in_bounds(a, b) ==>
                    mask.at(a, b) == ((b < y || (b == y && a < x)) && low_relative_contrast(spans.at(a, b) as int, k, best as int)),
            decreases w - x,
        {
            let span = spans.get(x, y) as i64;
            let scaled: i64 = 100 * (considered as i64);
            proof {
                assert(-16856800 * 0x8000_0000 <= scaled * span <= 16856800 * 0x8000_0000) by (nonlinear_arith)
                    requires -0x8000_0000 <= span <= 0x8000_0000, 100 <= scaled <= 16856800;
                assert(0x8000_0000 * k <= 0x8000_0000 * 168568) by (nonlinear_arith)
                    requires k <= 168568;
            }
            let low = scaled * span < 34 * best;
            let ghost before = mask;
            mask.set(x, y, low);
            assert forall|a: int, b: int| #[trigger] mask.in_bounds(a, b) implies
                mask.at(a, b) == ((b < y || (b == y && a < x + 1)) && low_relative_contrast(spans.at(a, b) as int, k, best as int)) by {
                if !(a == x && b == y) {
                    assert(before.in_bounds(a, b));
                    assert(mask.at(a, b) == before.at(a, b));
                }
            }
            x = x + 1;
        }
        y = y + 1;
    }
    mask
}


/// The `k` largest elements sum to no more than `k` times an upper bound
/// of the elements, when that bound is not negative.
proof fn lemma_top_sum_at_most(s: Seq<int>, k: nat, top: int)
    requires
        top >= 0,
        forall|i: int| 0 <= i < s.len() ==> #[trigger] s[i] <= top,
    ensures
        top_sum(s, k) <= k * top,
    decreases k,
{
    if k > 0 && s.len() > 0 {
        lemma_max_index(s);
        let i = max_index(s);
        let r = s.remove(i);
        assert forall|j: int| 0 <= j < r.len() implies #[trigger] r[j] <= top by {
            if j < i {
                assert(r[j] == s[j]);
            } else {
                assert(r[j] == s[j + 1]);
            }
        }
        lemma_top_sum_at_most(r, (k - 1) as nat, top);
        assert(k * top == (k - 1) * top + top) by (nonlinear_arith);
    } else {
        assert(k * top >= 0) by (nonlinear_arith) requires top >= 0;
    }
}

/// A block whose span is at least that of every block, and not negative,
/// is never marked as of low relative contrast; in particular, blocks of
/// equal contrast are never marked.
pub proof fn law_best_block_kept(spans: Seq<int>, i: int, k: nat)
    requires
        0 <= i < spans.len(),
        k >= 1,
        spans[i] >= 0,
        forall|j: int| 0 <= j < spans.len() ==> #[trigger] spans[j] <= spans[i],
    ensures
        !low_relative_contrast(spans[i], k as int, top_sum(spans, k)),
{
    lemma_top_sum_at_most(spans, k, spans[i]);
    assert(34 * (k * spans[i]) <= 100 * k * spans[i]) by (nonlinear_arith) requires k >= 1, spans[i] >= 0;
}
/// The best blocks averaged cover at most about 49 % of
/// `RELATIVE_CONTRAST_SAMPLE` pixels: `considered` blocks of `pixels_per_block`
/// pixels each satisfy `100·considered·ppb ≤ 49·SAMPLE + 50·ppb` (unless a
/// single block is taken). When all `count` blocks together hold no more than
/// `SAMPLE` pixels, every block is in the sample and `considered` is 49 % of
/// `count`, rounded half up, at least one.
pub proof fn law_sample_in_pixels(blocks: BlockMap, count: int)
    requires
        count >= 0,
    ensures
        ({
            let k = considered_blocks(blocks, count);
            let ppb = pixels_per_block(blocks);
            k == 1 || 100 * k * ppb <= 49 * (Parameters::RELATIVE_CONTRAST_SAMPLE as int) + 50 * ppb
        }),
        count * pixels_per_block(blocks) <= Parameters::RELATIVE_CONTRAST_SAMPLE as int ==>
            considered_blocks(blocks, count) == if (49 * count + 50) / 100 < 1 { 1 } else { (49 * count + 50) / 100 },
        1 <= considered_blocks(blocks, count),
{
    let ppb = pixels_per_block(blocks);
    let total = Parameters::RELATIVE_CONTRAST_SAMPLE as int;
    let limit = total / ppb;
    let sample = sample_count(blocks, count);
    let k = considered_blocks(blocks, count);
    assert(ppb >= 1);
    assert(limit * ppb <= total) by (nonlinear_arith) requires limit == total / ppb, ppb >= 1, total >= 0;
    assert(sample * ppb <= total) by (nonlinear_arith)
        requires sample <= limit, limit * ppb <= total, ppb >= 1, sample >= 0;
    if k != 1 {
        let r = (49 * sample + 50) / 100;
        assert(100 * r <= 49 * sample + 50) by (nonlinear_arith) requires r == (49 * sample + 50) / 100;
        assert(k == r);
        assert(100 * k * ppb <= 49 * total + 50 * ppb) by (nonlinear_arith)
            requires 100 * k <= 49 * sample + 50, sample * ppb <= total, ppb >= 1, k >= 0;
    }
    if count * ppb <= total {
        assert(count <= limit) by (nonlinear_arith) requires count * ppb <= total, limit == total / ppb, ppb >= 1, count >= 0;
    }
}

} // verus!
