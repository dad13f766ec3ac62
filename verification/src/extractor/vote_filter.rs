use vstd::prelude::*;
use crate::extractor::window::{
    cell, column_count, rect_count, window_area, window_high, window_low, window_ones,
    lemma_column_bounds, lemma_rect_bounds, lemma_window_step,
};
use crate::parameters::{Fraction, Parameters};
use crate::primitives::bool_matrix::BooleanMatrix;
use crate::primitives::int_matrix::IntMatrix;
use crate::primitives::int_rect::IntRect;

verus! {

/// Whether the optional mask lets `(x, y)` take part in the vote.
pub open spec fn mask_allows(mask: Option<&BooleanMatrix>, x: int, y: int) -> bool {
    match mask {
        Some(m) => m.at(x, y),
        None => true,
    }
}

/// Whether `(x, y)` lies at least `border` cells away from every edge of a
/// `width × height` matrix.
pub open spec fn in_vote_area(width: int, height: int, border: int, x: int, y: int) -> bool {
    border <= x < width - border && border <= y < height - border
}

/// The outcome of the vote at `(x, y)`: inside the vote area, allowed by the
/// mask, and with at least the `majority` share of set cells in the square
/// window of `radius` around it (clipped to the matrix).
pub open spec fn vote_at(
    input: BooleanMatrix,
    mask: Option<&BooleanMatrix>,
    radius: int,
    majority: Fraction,
    border: int,
    x: int,
    y: int,
) -> bool {
    &&& in_vote_area(input.width as int, input.height as int, border, x, y)
    &&& mask_allows(mask, x, y)
    &&& majority.reached(window_ones(input, x, y, radius), window_area(input, x, y, radius))
}

/// The mask, when there is one, covers every cell of the vote area.
pub open spec fn mask_covers(mask: Option<&BooleanMatrix>, input: BooleanMatrix, border: int) -> bool {
    match mask {
        Some(m) => m.wf() && input.width - border <= m.width && input.height - border <= m.height,
        None => true,
    }
}

/// Cells of the vote area that a row-major scan has passed before `(cx, cy)`.
spec fn visited(input: BooleanMatrix, mask: Option<&BooleanMatrix>, border: int, a: int, b: int, cx: int, cy: int) -> bool {
    &&& in_vote_area(input.width as int, input.height as int, border, a, b)
    &&& mask_allows(mask, a, b)
    &&& (b < cy || (b == cy && a < cx))
}

/// The running table holds `ones + 1` at every visited cell and 0 elsewhere.
spec fn counts_match(
    counts: IntMatrix,
    input: BooleanMatrix,
    mask: Option<&BooleanMatrix>,
    radius: int,
    border: int,
    cx: int,
    cy: int,
) -> bool {
    &&& counts.wf()
    &&& counts.width == input.width
    &&& counts.height == input.height
    &&& forall|a: int, b: int| #![trigger counts.at(a, b)]
        counts.in_bounds(a, b) ==> counts.at(a, b) == if visited(input, mask, border, a, b, cx, cy) {
            window_ones(input, a, b, radius) + 1
        } else {
            0
        }
}

/// The clipped window of a cell is between 1 and `(2r + 1)²` cells, and
/// holds at most that many set cells.
pub proof fn lemma_window_bounds(m: BooleanMatrix, x: int, y: int, r: int)
    requires
        0 <= x < m.width,
        0 <= y < m.height,
        r >= 0,
    ensures
        0 <= window_ones(m, x, y, r) <= window_area(m, x, y, r),
        1 <= window_area(m, x, y, r) <= (2 * r + 1) * (2 * r + 1),
{
    let dx = window_high(x, r, m.width as int) - window_low(x, r);
    let dy = window_high(y, r, m.height as int) - window_low(y, r);
    assert(1 <= dx <= 2 * r + 1);
    assert(1 <= dy <= 2 * r + 1);
    lemma_rect_bounds(
        m,
        window_low(x, r),
        window_high(x, r, m.width as int),
        window_low(y, r),
        window_high(y, r, m.height as int),
    );
    assert(1 <= dx * dy <= (2 * r + 1) * (2 * r + 1)) by (nonlinear_arith)
        requires 1 <= dx <= 2 * r + 1, 1 <= dy <= 2 * r + 1;
}

/// Counts the set cells of `[x0, x1) × [y0, y1)` by scanning them.
fn count_ones(input: &BooleanMatrix, x0: usize, x1: usize, y0: usize, y1: usize) -> (o: i64)
    requires
        input.wf(),
        x0 <= x1 <= input.width,
        y0 <= y1 <= input.height,
        input.width <= i32::MAX,
        input.height <= i32::MAX,
    ensures
        o == rect_count(*input, x0 as int, x1 as int, y0 as int, y1 as int),
{
    let mut o: i64 = 0;
    let mut nx = x0;
    while nx < x1
        invariant
            input.wf(),
            x0 <= nx <= x1 <= input.width,
            y0 <= y1 <= input.height,
            input.width <= i32::MAX,
            input.height <= i32::MAX,
            o == rect_count(*input, x0 as int, nx as int, y0 as int, y1 as int),
            0 <= o <= (nx - x0) * (y1 - y0),
        decreases x1 - nx,
    {
        let mut c: i64 = 0;
        let mut ny = y0;
        while ny < y1
            invariant
                input.wf(),
                x0 <= nx < x1 <= input.width,
                y0 <= ny <= y1 <= input.height,
                input.height <= i32::MAX,
                c == column_count(*input, nx as int, y0 as int, ny as int),
                0 <= c <= ny - y0,
            decreases y1 - ny,
        {
            if input.get(nx, ny) {
                c = c + 1;
            }
            ny = ny + 1;
        }
        assert((nx - x0) * (y1 - y0) + (y1 - y0) == (nx + 1 - x0) * (y1 - y0)) by (nonlinear_arith);
        assert((nx + 1 - x0) * (y1 - y0) <= 0x7fff_ffff * 0x7fff_ffff) by (nonlinear_arith)
            requires nx + 1 - x0 <= 0x7fff_ffff, y1 - y0 <= 0x7fff_ffff, 0 <= y1 - y0, 0 <= nx + 1 - x0;
        o = o + c;
        nx = nx + 1;
    }
    o
}

/// The set cell at `(x, y)` counted as 1, when `(x, y)` lies inside the matrix.
fn corner(input: &BooleanMatrix, x: i64, y: i64) -> (c: i64)
    requires
        input.wf(),
        input.width <= i32::MAX,
        input.height <= i32::MAX,
    ensures
        c == if 0 <= x < input.width && 0 <= y < input.height { cell(*input, x as int, y as int) } else { 0 },
{
    if 0 <= x && x < input.width as i64 && 0 <= y && y < input.height as i64 {
        if input.get(x as usize, y as usize) {
            1
        } else {
            0
        }
    } else {
        0
    }
}

/// Set cells in the window of `(x, y)`: from the table of the neighbours on
/// the left, above and diagonally above when all three were visited, by a
/// full scan otherwise.
fn window_count(
    input: &BooleanMatrix,
    mask: Option<&BooleanMatrix>,
    counts: &IntMatrix,
    radius: i32,
    border: i32,
    x: i32,
    y: i32,
) -> (o: i64)
    requires
        input.wf(),
        input.width <= i32::MAX,
        input.height <= i32::MAX,
        0 <= x < input.width,
        0 <= y < input.height,
        0 <= radius,
        (2 * radius + 1) * (2 * radius + 1) < i32::MAX,
        counts_match(*counts, *input, mask, radius as int, border as int, x as int, y as int),
    ensures
        o == window_ones(*input, x as int, y as int, radius as int),
{
    let w = input.width as i64;
    let h = input.height as i64;
    let xi = x as i64;
    let yi = y as i64;
    let r = radius as i64;
    let left: i64 = if x > 0 { counts.get(x as usize - 1, y as usize) as i64 } else { 0 };
    let top: i64 = if y > 0 { counts.get(x as usize, y as usize - 1) as i64 } else { 0 };
    let diagonal: i64 = if x > 0 && y > 0 { counts.get(x as usize - 1, y as usize - 1) as i64 } else { 0 };
    if left > 0 && top > 0 && diagonal > 0 {
        proof {
            lemma_window_bounds(*input, x - 1, y as int, radius as int);
            lemma_window_bounds(*input, x as int, y - 1, radius as int);
            lemma_window_bounds(*input, x - 1, y - 1, radius as int);
            lemma_window_step(*input, x as int, y as int, radius as int);
        }
        let mut ones = top + left - diagonal - 1;
        ones = ones + corner(input, xi - r - 1, yi - r - 1);
        ones = ones - corner(input, xi - r - 1, yi + r);
        ones = ones - corner(input, xi + r, yi - r - 1);
        ones = ones + corner(input, xi + r, yi + r);
        ones
    } else {
        let x_lo: i64 = if xi - r > 0 { xi - r } else { 0 };
        let x_hi: i64 = if xi + r + 1 < w { xi + r + 1 } else { w };
        let y_lo: i64 = if yi - r > 0 { yi - r } else { 0 };
        let y_hi: i64 = if yi + r + 1 < h { yi + r + 1 } else { h };
        count_ones(input, x_lo as usize, x_hi as usize, y_lo as usize, y_hi as usize)
    }
}

/// Majority vote over square windows.
///
/// Every cell of the vote area (at least `border_distance` cells away from
/// each edge) that the mask allows becomes set when at least `majority` of
/// the cells in the window of `radius` around it (clipped to the matrix) are
/// set; every other cell of the result is clear. Each window sum is derived
/// from those of the neighbours on the left, above and diagonally above,
/// corrected by the four corner cells that enter or leave the window.
pub fn vote(
    input: &BooleanMatrix,
    mask: Option<&BooleanMatrix>,
    radius: i32,
    majority: Fraction,
    border_distance: i32,
) -> (out: BooleanMatrix)
    requires
        input.wf(),
        input.width <= i32::MAX,
        input.height <= i32::MAX,
        0 <= radius < 23170,
        0 <= border_distance < 0x4000_0000,
        mask_covers(mask, *input, border_distance as int),
    ensures
        out.wf(),
        out.width == input.width,
        out.height == input.height,
        forall|x: int, y: int| #[trigger] out.in_bounds(x, y) ==> out.at(x, y) == vote_at(
            *input,
            mask,
            radius as int,
            majority,
            border_distance as int,
            x,
            y,
        ),
{
    let width = input.width() as i32;
    let height = input.height() as i32;
    let n = input.cells.len();
    assert(n == input.width * input.height);
    assert((2 * radius + 1) * (2 * radius + 1) < i32::MAX) by (nonlinear_arith)
        requires 0 <= radius < 23170;
    let rect = IntRect::new(
        border_distance,
        border_distance,
        width - 2 * border_distance,
        height - 2 * border_distance,
    );
    let left = rect.left();
    let right = rect.right();
    let top = rect.top();
    let bottom = rect.bottom();
    let mut counts = IntMatrix::new(input.width(), input.height());
    let mut output = BooleanMatrix::new(input.width(), input.height());
    let ghost inp = *input;
    let ghost r = radius as int;
    let ghost bd = border_distance as int;
    let mut y = top;
    while y < bottom
        invariant
            inp == *input,
            input.wf(),
            input.width <= i32::MAX,
            input.height <= i32::MAX,
            width == input.width,
            height == input.height,
            0 <= radius,
            (2 * radius + 1) * (2 * radius + 1) < i32::MAX,
            r == radius,
            bd == border_distance,
            0 <= border_distance < 0x4000_0000,
            left == border_distance,
            top == border_distance,
            right == width - border_distance,
            bottom == height - border_distance,
            mask_covers(mask, inp, bd),
            top <= y,
            y <= bottom || y == top,
            counts_match(counts, inp, mask, r, bd, left as int, y as int),
            output.wf(),
            output.width == input.width,
            output.height == input.height,
            forall|a: int, b: int| #![trigger output.at(a, b)]
                output.in_bounds(a, b) ==> output.at(a, b) == (visited(inp, mask, bd, a, b, left as int, y as int)
                    && majority.reached(window_ones(inp, a, b, r), window_area(inp, a, b, r))),
        decreases bottom - y,
    {
        let mut x = left;
        while x < right
            invariant
                inp == *input,
                input.wf(),
                input.width <= i32::MAX,
                input.height <= i32::MAX,
                width == input.width,
                height == input.height,
                0 <= radius,
                (2 * radius + 1) * (2 * radius + 1) < i32::MAX,
                r == radius,
                bd == border_distance,
                0 <= border_distance < 0x4000_0000,
                left == border_distance,
                right == width - border_distance,
                bottom == height - border_distance,
                mask_covers(mask, inp, bd),
                top <= y < bottom,
                top == border_distance,
                left <= x,
                x <= right || x == left,
                counts_match(counts, inp, mask, r, bd, x as int, y as int),
                output.wf(),
                output.width == input.width,
                output.height == input.height,
                forall|a: int, b: int| #![trigger output.at(a, b)]
                    output.in_bounds(a, b) ==> output.at(a, b) == (visited(inp, mask, bd, a, b, x as int, y as int)
                        && majority.reached(window_ones(inp, a, b, r), window_area(inp, a, b, r))),
            decreases right - x,
        {
            let allowed = match mask {
                None => true,
                Some(m) => m.get(x as usize, y as usize),
            };
            if allowed {
                let ones = window_count(input, mask, &counts, radius, border_distance, x, y);
                proof {
                    lemma_window_bounds(inp, x as int, y as int, r);
                }
                counts.set(x as usize, y as usize, (ones + 1) as i32);
                let xi = x as i64;
                let yi = y as i64;
                let ri = radius as i64;
                let w = width as i64;
                let h = height as i64;
                let x_lo: i64 = if xi - ri > 0 { xi - ri } else { 0 };
                let x_hi: i64 = if xi + ri + 1 < w { xi + ri + 1 } else { w };
                let y_lo: i64 = if yi - ri > 0 { yi - ri } else { 0 };
                let y_hi: i64 = if yi + ri + 1 < h { yi + ri + 1 } else { h };
                let area = (x_hi - x_lo) * (y_hi - y_lo);
                assert(area == window_area(inp, x as int, y as int, r));
                let num = majority.numerator as i64;
                let den = majority.denominator as i64;
                assert(0 <= ones * den <= 0x7fff_ffff * 0xffff_ffff) by (nonlinear_arith)
                    requires 0 <= ones <= 0x7fff_ffff, 0 <= den <= 0xffff_ffff;
                assert(0 <= num * area <= 0xffff_ffff * 0x7fff_ffff) by (nonlinear_arith)
                    requires 0 <= area <= 0x7fff_ffff, 0 <= num <= 0xffff_ffff;
                if ones * den >= num * area {
                    output.set(x as usize, y as usize, true);
                }
            }
            x = x + 1;
        }
        y = y + 1;
    }
    output
}

/// The vote that marks blocks whose neighbourhood mostly disagrees with them.
pub fn block_errors_vote(input: &BooleanMatrix) -> (out: BooleanMatrix)
    requires
        input.wf(),
        input.width <= i32::MAX,
        input.height <= i32::MAX,
    ensures
        out.wf(),
        out.width == input.width,
        out.height == input.height,
        forall|x: int, y: int| #[trigger] out.in_bounds(x, y) ==> out.at(x, y) == vote_at(
            *input,
            None,
            Parameters::BLOCK_ERRORS_VOTE_RADIUS as int,
            (Fraction { numerator: 7, denominator: 10 }),
            Parameters::BLOCK_ERRORS_VOTE_BORDER_DISTANCE as int,
            x,
            y,
        ),
{
    vote(
        input,
        None,
        Parameters::BLOCK_ERRORS_VOTE_RADIUS as i32,
        Parameters::block_errors_vote_majority(),
        Parameters::BLOCK_ERRORS_VOTE_BORDER_DISTANCE as i32,
    )
}


/// Counts over a region where every cell has the same value `v`: the
/// region's size when `v` is set, 0 otherwise.
proof fn lemma_uniform_column(m: BooleanMatrix, v: bool, x: int, y0: int, y1: int)
    requires
        y0 <= y1,
        forall|y: int| y0 <= y < y1 ==> #[trigger] m.at(x, y) == v,
    ensures
        column_count(m, x, y0, y1) == if v { y1 - y0 } else { 0 },
    decreases y1 - y0,
{
    if y1 > y0 {
        lemma_uniform_column(m, v, x, y0, y1 - 1);
        assert(m.at(x, y1 - 1) == v);
    }
}

proof fn lemma_uniform_rect(m: BooleanMatrix, v: bool, x0: int, x1: int, y0: int, y1: int)
    requires
        x0 <= x1,
        y0 <= y1,
        forall|x: int, y: int| x0 <= x < x1 && y0 <= y < y1 ==> #[trigger] m.at(x, y) == v,
    ensures
        rect_count(m, x0, x1, y0, y1) == if v { (x1 - x0) * (y1 - y0) } else { 0 },
    decreases x1 - x0,
{
    if x1 > x0 {
        lemma_uniform_rect(m, v, x0, x1 - 1, y0, y1);
        assert forall|y: int| y0 <= y < y1 implies #[trigger] m.at(x1 - 1, y) == v by {}
        lemma_uniform_column(m, v, x1 - 1, y0, y1);
        assert((x1 - 1 - x0) * (y1 - y0) + (y1 - y0) == (x1 - x0) * (y1 - y0)) by (nonlinear_arith);
    } else {
        assert((x1 - x0) * (y1 - y0) == 0) by (nonlinear_arith) requires x1 == x0;
    }
}

/// Voting on a matrix whose cells all hold `v` (with a nonzero majority
/// that does not exceed one) gives `v` in every cell of the vote area that
/// the mask allows, and clear cells everywhere else.
pub proof fn law_vote_uniform(
    input: BooleanMatrix,
    v: bool,
    mask: Option<&BooleanMatrix>,
    radius: int,
    majority: Fraction,
    border: int,
    x: int,
    y: int,
)
    requires
        radius >= 0,
        border >= 0,
        0 < majority.numerator <= majority.denominator,
        forall|a: int, b: int| #[trigger] input.in_bounds(a, b) ==> input.at(a, b) == v,
    ensures
        vote_at(input, mask, radius, majority, border, x, y)
            == (v && in_vote_area(input.width as int, input.height as int, border, x, y) && mask_allows(mask, x, y)),
{
    if in_vote_area(input.width as int, input.height as int, border, x, y) {
        let x0 = window_low(x, radius);
        let x1 = window_high(x, radius, input.width as int);
        let y0 = window_low(y, radius);
        let y1 = window_high(y, radius, input.height as int);
        assert(0 <= x0 <= x < x1 <= input.width);
        assert(0 <= y0 <= y < y1 <= input.height);
        assert forall|a: int, b: int| x0 <= a < x1 && y0 <= b < y1 implies #[trigger] input.at(a, b) == v by {
            assert(input.in_bounds(a, b));
        }
        lemma_uniform_rect(input, v, x0, x1, y0, y1);
        let area = window_area(input, x, y, radius);
        assert(area == (x1 - x0) * (y1 - y0));
        assert(area >= 1) by (nonlinear_arith) requires area == (x1 - x0) * (y1 - y0), x1 - x0 >= 1, y1 - y0 >= 1;
        if v {
            assert(area * majority.denominator >= majority.numerator * area) by (nonlinear_arith)
                requires area >= 1, majority.numerator <= majority.denominator;
        } else {
            assert(0 * majority.denominator < majority.numerator * area) by (nonlinear_arith)
                requires area >= 1, majority.numerator > 0;
        }
    }
}
} // verus!
