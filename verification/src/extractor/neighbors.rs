use vstd::prelude::*;
use crate::primitives::bool_matrix::BooleanMatrix;

verus! {

/// Whether `(x, y)` lies in a `w × h` image and is set in `f`.
pub open spec fn set_in(f: spec_fn(int, int) -> bool, w: int, h: int, x: int, y: int) -> bool {
    0 <= x < w && 0 <= y < h && f(x, y)
}

/// 1 for a set pixel inside the image, 0 otherwise.
pub open spec fn one_if(f: spec_fn(int, int) -> bool, w: int, h: int, x: int, y: int) -> int {
    if set_in(f, w, h, x, y) {
        1
    } else {
        0
    }
}

/// Number of set pixels among the eight around `(x, y)` in a `w × h` image.
pub open spec fn neighbors_of(f: spec_fn(int, int) -> bool, w: int, h: int, x: int, y: int) -> int {
    one_if(f, w, h, x - 1, y - 1) + one_if(f, w, h, x, y - 1) + one_if(f, w, h, x + 1, y - 1)
        + one_if(f, w, h, x - 1, y) + one_if(f, w, h, x + 1, y)
        + one_if(f, w, h, x - 1, y + 1) + one_if(f, w, h, x, y + 1) + one_if(f, w, h, x + 1, y + 1)
}

/// The cells of a matrix as a function of position.
pub open spec fn cells_of(m: BooleanMatrix) -> spec_fn(int, int) -> bool {
    |x: int, y: int| m.at(x, y)
}

/// Reading a matrix through `cells_of`.
pub proof fn lemma_cells_of(m: BooleanMatrix, x: int, y: int)
    ensures
        cells_of(m)(x, y) == m.at(x, y),
{
}

/// Two images that agree inside the image have the same neighbour counts.
pub proof fn lemma_neighbors_agree(f: spec_fn(int, int) -> bool, g: spec_fn(int, int) -> bool, w: int, h: int, x: int, y: int)
    requires
        forall|a: int, b: int| 0 <= a < w && 0 <= b < h ==> #[trigger] f(a, b) == g(a, b),
    ensures
        neighbors_of(f, w, h, x, y) == neighbors_of(g, w, h, x, y),
{
    assert(f(x - 1, y - 1) == g(x - 1, y - 1) || !(0 <= x - 1 < w && 0 <= y - 1 < h));
    assert(f(x, y - 1) == g(x, y - 1) || !(0 <= x < w && 0 <= y - 1 < h));
    assert(f(x + 1, y - 1) == g(x + 1, y - 1) || !(0 <= x + 1 < w && 0 <= y - 1 < h));
    assert(f(x - 1, y) == g(x - 1, y) || !(0 <= x - 1 < w && 0 <= y < h));
    assert(f(x + 1, y) == g(x + 1, y) || !(0 <= x + 1 < w && 0 <= y < h));
    assert(f(x - 1, y + 1) == g(x - 1, y + 1) || !(0 <= x - 1 < w && 0 <= y + 1 < h));
    assert(f(x, y + 1) == g(x, y + 1) || !(0 <= x < w && 0 <= y + 1 < h));
    assert(f(x + 1, y + 1) == g(x + 1, y + 1) || !(0 <= x + 1 < w && 0 <= y + 1 < h));
}

/// 1 when the pixel at `(x + dx, y + dy)` is set, 0 when it is clear or outside.
fn neighbor_one(m: &BooleanMatrix, x: usize, y: usize, dx: i64, dy: i64) -> (c: usize)
    requires
        m.wf(),
        m.width <= i32::MAX,
        m.height <= i32::MAX,
        x < m.width,
        y < m.height,
        -1 <= dx <= 1,
        -1 <= dy <= 1,
    ensures
        c == one_if(cells_of(*m), m.width as int, m.height as int, x + dx, y + dy),
{
    let nx = x as i64 + dx;
    let ny = y as i64 + dy;
    if nx >= 0 && ny >= 0 && nx < m.width as i64 && ny < m.height as i64 {
        if m.get(nx as usize, ny as usize) {
            1
        } else {
            0
        }
    } else {
        0
    }
}

/// Number of set pixels among the eight around `(x, y)`.
pub fn count_neighbors(m: &BooleanMatrix, x: usize, y: usize) -> (n: usize)
    requires
        m.wf(),
        m.width <= i32::MAX,
        m.height <= i32::MAX,
        x < m.width,
        y < m.height,
    ensures
        n == neighbors_of(cells_of(*m), m.width as int, m.height as int, x as int, y as int),
        n <= 8,
{
    neighbor_one(m, x, y, -1, -1) + neighbor_one(m, x, y, 0, -1) + neighbor_one(m, x, y, 1, -1)
        + neighbor_one(m, x, y, -1, 0) + neighbor_one(m, x, y, 1, 0)
        + neighbor_one(m, x, y, -1, 1) + neighbor_one(m, x, y, 0, 1) + neighbor_one(m, x, y, 1, 1)
}

} // verus!
