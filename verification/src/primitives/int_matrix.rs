use vstd::prelude::*;
use crate::primitives::grid::{cell_index, lemma_cell_index_bounds, lemma_cell_index_injective};
use crate::primitives::int_point::IntPoint;

verus! {

/// A row-major `width × height` grid of `i32` values.
#[derive(Clone, Debug)]
pub struct IntMatrix {
    pub width: usize,
    pub height: usize,
    pub cells: Vec<i32>,
}

impl IntMatrix {
    /// The cell storage matches the dimensions.
    pub open spec fn wf(&self) -> bool {
        self.cells@.len() == self.width * self.height
    }

    /// Value of the cell at column `x`, row `y`.
    pub open spec fn at(&self, x: int, y: int) -> i32 {
        self.cells@[cell_index(x, y, self.width as int)]
    }

    /// Whether `(x, y)` lies inside the matrix.
    pub open spec fn in_bounds(&self, x: int, y: int) -> bool {
        0 <= x < self.width && 0 <= y < self.height
    }

    /// Same dimensions and same cells.
    pub open spec fn same_as(&self, other: &IntMatrix) -> bool {
        &&& self.width == other.width
        &&& self.height == other.height
        &&& forall|x: int, y: int| self.in_bounds(x, y) ==> #[trigger] self.at(x, y) == other.at(x, y)
    }

    /// All-zero matrix of the given size.
    pub fn new(width: usize, height: usize) -> (r: IntMatrix)
        requires
            width * height <= usize::MAX,
        ensures
            r.wf(),
            r.width == width,
            r.height == height,
            forall|x: int, y: int| r.in_bounds(x, y) ==> #[trigger] r.at(x, y) == 0,
    {
        let cells = vec![0i32; width * height];
        let r = IntMatrix { width, height, cells };
        assert forall|x: int, y: int| r.in_bounds(x, y) implies #[trigger] r.at(x, y) == 0 by {
            lemma_cell_index_bounds(x, y, width as int, height as int);
        }
        r
    }

    /// All-zero matrix of the size given by a point.
    pub fn from_point(size: &IntPoint) -> (r: IntMatrix)
        requires
            size.x >= 0,
            size.y >= 0,
            size.x * size.y <= usize::MAX,
        ensures
            r.wf(),
            r.width == size.x,
            r.height == size.y,
            forall|x: int, y: int| r.in_bounds(x, y) ==> #[trigger] r.at(x, y) == 0,
    {
        IntMatrix::new(size.x() as usize, size.y() as usize)
    }

    pub fn width(&self) -> (r: usize)
        ensures
            r == self.width,
    {
        self.width
    }

    pub fn height(&self) -> (r: usize)
        ensures
            r == self.height,
    {
        self.height
    }

    /// The dimensions as a point (truncated to `i32` as `as` does).
    pub fn size(&self) -> (r: IntPoint)
        ensures
            r.x == self.width as i32,
            r.y == self.height as i32,
    {
        IntPoint::new(self.width as i32, self.height as i32)
    }

    /// Position of the cell `(x, y)` in the storage.
    fn index_of(&self, x: usize, y: usize) -> (i: usize)
        requires
            self.wf(),
            self.in_bounds(x as int, y as int),
        ensures
            i == cell_index(x as int, y as int, self.width as int),
            i < self.cells@.len(),
    {
        let n = self.cells.len();
        proof {
            lemma_cell_index_bounds(x as int, y as int, self.width as int, self.height as int);
        }
        y * self.width + x
    }

    pub fn get(&self, x: usize, y: usize) -> (r: i32)
        requires
            self.wf(),
            self.in_bounds(x as int, y as int),
        ensures
            r == self.at(x as int, y as int),
    {
        let i = self.index_of(x, y);
        self.cells[i]
    }

    pub fn get_int(&self, at: &IntPoint) -> (r: i32)
        requires
            self.wf(),
            self.in_bounds(at.x as int, at.y as int),
        ensures
            r == self.at(at.x as int, at.y as int),
    {
        self.get(at.x() as usize, at.y() as usize)
    }

    pub fn set(&mut self, x: usize, y: usize, value: i32)
        requires
            old(self).wf(),
            old(self).in_bounds(x as int, y as int),
        ensures
            final(self).wf(),
            final(self).width == old(self).width,
            final(self).height == old(self).height,
            final(self).at(x as int, y as int) == value,
            forall|x2: int, y2: int| final(self).in_bounds(x2, y2) && !(x2 == x && y2 == y) ==> #[trigger] final(self).at(x2, y2) == old(self).at(x2, y2),
    {
        let i = self.index_of(x, y);
        self.cells.set(i, value);
        proof {
            assert forall|x2: int, y2: int| self.in_bounds(x2, y2) && !(x2 == x && y2 == y) implies #[trigger] self.at(x2, y2) == old(self).at(x2, y2) by {
                lemma_cell_index_bounds(x2, y2, self.width as int, self.height as int);
                if cell_index(x2, y2, self.width as int) == i {
                    lemma_cell_index_injective(x2, y2, x as int, y as int, self.width as int);
                }
            }
        }
    }

    pub fn set_int(&mut self, at: &IntPoint, value: i32)
        requires
            old(self).wf(),
            old(self).in_bounds(at.x as int, at.y as int),
        ensures
            final(self).wf(),
            final(self).width == old(self).width,
            final(self).height == old(self).height,
            final(self).at(at.x as int, at.y as int) == value,
            forall|x2: int, y2: int| final(self).in_bounds(x2, y2) && !(x2 == at.x && y2 == at.y) ==> #[trigger] final(self).at(x2, y2) == old(self).at(x2, y2),
    {
        self.set(at.x() as usize, at.y() as usize, value);
    }

}

impl Default for IntMatrix {
    fn default() -> (r: IntMatrix)
        ensures
            r.wf(),
            r.width == 0,
            r.height == 0,
    {
        IntMatrix::new(0, 0)
    }
}

} // verus!
