use vstd::prelude::*;
use crate::primitives::bool_matrix::BooleanMatrix;

verus! {

/// 1 when the cell is set, 0 otherwise.
pub open spec fn cell(m: BooleanMatrix, x: int, y: int) -> int {
    if m.at(x, y) {
        1
    } else {
        0
    }
}

/// Number of set cells of column `x` in rows `[y0, y1)`.
pub open spec fn column_count(m: BooleanMatrix, x: int, y0: int, y1: int) -> int
    decreases y1 - y0,
{
    if y1 <= y0 {
        0
    } else {
        column_count(m, x, y0, y1 - 1) + cell(m, x, y1 - 1)
    }
}

/// Number of set cells in `[x0, x1) × [y0, y1)`.
pub open spec fn rect_count(m: BooleanMatrix, x0: int, x1: int, y0: int, y1: int) -> int
    decreases x1 - x0,
{
    if x1 <= x0 {
        0
    } else {
        rect_count(m, x0, x1 - 1, y0, y1) + column_count(m, x1 - 1, y0, y1)
    }
}

/// Lower end of the window of radius `r` around `c`, clipped at zero.
pub open spec fn window_low(c: int, r: int) -> int {
    if c - r >= 0 {
        c - r
    } else {
        0
    }
}

/// Upper end (exclusive) of the window of radius `r` around `c`, clipped at `n`.
pub open spec fn window_high(c: int, r: int, n: int) -> int {
    if c + r + 1 <= n {
        c + r + 1
    } else {
        n
    }
}

/// Number of set cells in the square of radius `r` around `(x, y)`, clipped to the matrix.
pub open spec fn window_ones(m: BooleanMatrix, x: int, y: int, r: int) -> int {
    rect_count(
        m,
        window_low(x, r),
        window_high(x, r, m.width as int),
        window_low(y, r),
        window_high(y, r, m.height as int),
    )
}

/// Number of cells in the square of radius `r` around `(x, y)`, clipped to the matrix.
pub open spec fn window_area(m: BooleanMatrix, x: int, y: int, r: int) -> int {
    (window_high(x, r, m.width as int) - window_low(x, r)) * (window_high(y, r, m.height as int) - window_low(y, r))
}

pub proof fn lemma_column_bounds(m: BooleanMatrix, x: int, y0: int, y1: int)
    ensures
        0 <= column_count(m, x, y0, y1),
        y0 <= y1 ==> column_count(m, x, y0, y1) <= y1 - y0,
    decreases y1 - y0,
{
    if y1 > y0 {
        lemma_column_bounds(m, x, y0, y1 - 1);
    }
}

pub proof fn lemma_rect_bounds(m: BooleanMatrix, x0: int, x1: int, y0: int, y1: int)
    requires
        y0 <= y1,
    ensures
        0 <= rect_count(m, x0, x1, y0, y1),
        x0 <= x1 ==> rect_count(m, x0, x1, y0, y1) <= (x1 - x0) * (y1 - y0),
    decreases x1 - x0,
{
    if x1 > x0 {
        lemma_rect_bounds(m, x0, x1 - 1, y0, y1);
        lemma_column_bounds(m, x1 - 1, y0, y1);
        assert((x1 - 1 - x0) * (y1 - y0) + (y1 - y0) == (x1 - x0) * (y1 - y0)) by (nonlinear_arith);
    }
}

/// Removing the first row of a column.
pub proof fn lemma_column_first(m: BooleanMatrix, x: int, y0: int, y1: int)
    requires
        y0 < y1,
    ensures
        column_count(m, x, y0, y1) == cell(m, x, y0) + column_count(m, x, y0 + 1, y1),
    decreases y1 - y0,
{
    if y1 > y0 + 1 {
        lemma_column_first(m, x, y0, y1 - 1);
        assert(column_count(m, x, y0 + 1, y1) == column_count(m, x, y0 + 1, y1 - 1) + cell(m, x, y1 - 1));
    } else {
        assert(column_count(m, x, y0, y0) == 0);
        assert(column_count(m, x, y0 + 1, y1) == 0);
    }
}

/// Removing the first column of a rectangle.
pub proof fn lemma_rect_first(m: BooleanMatrix, x0: int, x1: int, y0: int, y1: int)
    requires
        x0 < x1,
    ensures
        rect_count(m, x0, x1, y0, y1) == column_count(m, x0, y0, y1) + rect_count(m, x0 + 1, x1, y0, y1),
    decreases x1 - x0,
{
    if x1 > x0 + 1 {
        lemma_rect_first(m, x0, x1 - 1, y0, y1);
        assert(rect_count(m, x0 + 1, x1, y0, y1) == rect_count(m, x0 + 1, x1 - 1, y0, y1) + column_count(m, x1 - 1, y0, y1));
    } else {
        assert(rect_count(m, x0, x0, y0, y1) == 0);
        assert(rect_count(m, x0 + 1, x1, y0, y1) == 0);
    }
}

/// Sum of a rectangle's rows differences: the difference of two row ranges
/// that share `[y0 + 1, y1)` is the first row of one minus the last row of the other.
pub open spec fn row_count(m: BooleanMatrix, y: int, x0: int, x1: int) -> int
    decreases x1 - x0,
{
    if x1 <= x0 {
        0
    } else {
        row_count(m, y, x0, x1 - 1) + cell(m, x1 - 1, y)
    }
}

/// Adding one row at the bottom of a rectangle.
pub proof fn lemma_rect_add_row(m: BooleanMatrix, x0: int, x1: int, y0: int, y1: int)
    requires
        y0 <= y1,
    ensures
        rect_count(m, x0, x1, y0, y1 + 1) == rect_count(m, x0, x1, y0, y1) + row_count(m, y1, x0, x1),
    decreases x1 - x0,
{
    if x1 > x0 {
        lemma_rect_add_row(m, x0, x1 - 1, y0, y1);
    }
}

/// Adding one row at the top of a rectangle.
pub proof fn lemma_rect_add_top_row(m: BooleanMatrix, x0: int, x1: int, y0: int, y1: int)
    requires
        y0 < y1,
    ensures
        rect_count(m, x0, x1, y0, y1) == row_count(m, y0, x0, x1) + rect_count(m, x0, x1, y0 + 1, y1),
    decreases x1 - x0,
{
    if x1 > x0 {
        lemma_rect_add_top_row(m, x0, x1 - 1, y0, y1);
        lemma_column_first(m, x1 - 1, y0, y1);
    }
}

/// Removing the first cell of a row.
pub proof fn lemma_row_first(m: BooleanMatrix, y: int, x0: int, x1: int)
    requires
        x0 < x1,
    ensures
        row_count(m, y, x0, x1) == cell(m, x0, y) + row_count(m, y, x0 + 1, x1),
    decreases x1 - x0,
{
    if x1 > x0 + 1 {
        lemma_row_first(m, y, x0, x1 - 1);
        assert(row_count(m, y, x0 + 1, x1) == row_count(m, y, x0 + 1, x1 - 1) + cell(m, x1 - 1, y));
    } else {
        assert(row_count(m, y, x0, x0) == 0);
        assert(row_count(m, y, x0 + 1, x1) == 0);
    }
}

/// How the clipped window count changes from `(x-1, y)`, `(x, y-1)` and
/// `(x-1, y-1)` to `(x, y)`: the four corner cells just outside the previous
/// windows decide the difference.
pub proof fn lemma_window_step(m: BooleanMatrix, x: int, y: int, r: int)
    requires
        r >= 0,
        1 <= x < m.width,
        1 <= y < m.height,
    ensures
        window_ones(m, x, y, r) == window_ones(m, x - 1, y, r) + window_ones(m, x, y - 1, r) - window_ones(m, x - 1, y - 1, r)
            + (if x - r - 1 >= 0 && y - r - 1 >= 0 { cell(m, x - r - 1, y - r - 1) } else { 0 })
            - (if x - r - 1 >= 0 && y + r < m.height { cell(m, x - r - 1, y + r) } else { 0 })
            - (if x + r < m.width && y - r - 1 >= 0 { cell(m, x + r, y - r - 1) } else { 0 })
            + (if x + r < m.width && y + r < m.height { cell(m, x + r, y + r) } else { 0 }),
{
    let w = m.width as int;
    let h = m.height as int;
    let xa = window_low(x - 1, r);
    let xb = window_high(x - 1, r, w);
    let xc = window_low(x, r);
    let xd = window_high(x, r, w);
    let ya = window_low(y - 1, r);
    let yb = window_high(y - 1, r, h);
    let yc = window_low(y, r);
    let yd = window_high(y, r, h);
    // horizontal difference for a fixed row range
    assert forall|y0: int, y1: int| y0 <= y1 implies
        #[trigger] rect_count(m, xc, xd, y0, y1) - rect_count(m, xa, xb, y0, y1)
            == (if x + r < w { column_count(m, x + r, y0, y1) } else { 0 })
             - (if x - r - 1 >= 0 { column_count(m, x - r - 1, y0, y1) } else { 0 }) by {
        if x - r - 1 >= 0 {
            lemma_rect_first(m, xa, xb, y0, y1);
        }
    }
    // vertical difference of a column
    assert forall|c: int| #[trigger] column_count(m, c, yc, yd) - column_count(m, c, ya, yb)
        == (if y + r < h { cell(m, c, y + r) } else { 0 }) - (if y - r - 1 >= 0 { cell(m, c, y - r - 1) } else { 0 }) by {
        if y - r - 1 >= 0 {
            lemma_column_first(m, c, ya, yb);
        }
    }
    assert(rect_count(m, xc, xd, yc, yd) - rect_count(m, xa, xb, yc, yd)
        == (if x + r < w { column_count(m, x + r, yc, yd) } else { 0 })
         - (if x - r - 1 >= 0 { column_count(m, x - r - 1, yc, yd) } else { 0 }));
    assert(rect_count(m, xc, xd, ya, yb) - rect_count(m, xa, xb, ya, yb)
        == (if x + r < w { column_count(m, x + r, ya, yb) } else { 0 })
         - (if x - r - 1 >= 0 { column_count(m, x - r - 1, ya, yb) } else { 0 }));
    assert(column_count(m, x + r, yc, yd) - column_count(m, x + r, ya, yb)
        == (if y + r < h { cell(m, x + r, y + r) } else { 0 }) - (if y - r - 1 >= 0 { cell(m, x + r, y - r - 1) } else { 0 }));
    assert(column_count(m, x - r - 1, yc, yd) - column_count(m, x - r - 1, ya, yb)
        == (if y + r < h { cell(m, x - r - 1, y + r) } else { 0 }) - (if y - r - 1 >= 0 { cell(m, x - r - 1, y - r - 1) } else { 0 }));
}

} // verus!
