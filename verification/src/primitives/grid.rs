use vstd::prelude::*;

verus! {

/// Row-major cell index of `(x, y)` in a grid `width` cells wide.
pub open spec fn cell_index(x: int, y: int, width: int) -> int {
    y * width + x
}

/// A cell inside a `width × height` grid has an index inside `[0, width * height)`.
pub proof fn lemma_cell_index_bounds(x: int, y: int, width: int, height: int)
    requires
        0 <= x < width,
        0 <= y < height,
    ensures
        0 <= cell_index(x, y, width) < width * height,
        cell_index(x, y, width) <= width * height - 1,
{
    assert(0 <= y * width + x < width * height) by (nonlinear_arith)
        requires 0 <= x < width, 0 <= y < height;
}

/// Distinct cells of a grid have distinct indices.
pub proof fn lemma_cell_index_injective(x1: int, y1: int, x2: int, y2: int, width: int)
    requires
        0 <= x1 < width,
        0 <= x2 < width,
        0 <= y1,
        0 <= y2,
        cell_index(x1, y1, width) == cell_index(x2, y2, width),
    ensures
        x1 == x2,
        y1 == y2,
{
    assert(x1 == x2 && y1 == y2) by (nonlinear_arith)
        requires 0 <= x1 < width, 0 <= x2 < width, 0 <= y1, 0 <= y2, y1 * width + x1 == y2 * width + x2;
}

/// Every index of a `width × height` grid is the index of a cell inside it.
pub proof fn lemma_cell_of_index(i: int, width: int, height: int)
    requires
        0 <= i < width * height,
        width > 0,
    ensures
        0 <= i % width < width,
        0 <= i / width < height,
        cell_index(i % width, i / width, width) == i,
{
    assert(0 <= i / width < height) by (nonlinear_arith)
        requires 0 <= i < width * height, width > 0;
    assert(i == (i / width) * width + i % width) by (nonlinear_arith)
        requires width > 0;
}

} // verus!
