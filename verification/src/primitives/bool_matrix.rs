use vstd::prelude::*;
use crate::primitives::grid::{cell_index, lemma_cell_index_bounds, lemma_cell_index_injective};
use crate::primitives::int_point::IntPoint;

verus! {

/// A row-major `width × height` grid of booleans.
#[derive(Clone, Debug)]
pub struct BooleanMatrix {
    pub width: usize,
    pub height: usize,
    pub cells: Vec<bool>,
}

impl BooleanMatrix {
    /// The cell storage matches the dimensions.
    pub open spec fn wf(&self) -> bool {
        self.cells@.len() == self.width * self.height
    }

    /// Value of the cell at column `x`, row `y`.
    pub open spec fn at(&self, x: int, y: int) -> bool {
        self.cells@[cell_index(x, y, self.width as int)]
    }

    /// Whether `(x, y)` lies inside the matrix.
    pub open spec fn in_bounds(&self, x: int, y: int) -> bool {
        0 <= x < self.width && 0 <= y < self.height
    }

    /// Same dimensions and same cells.
    pub open spec fn same_as(&self, other: &BooleanMatrix) -> bool {
        &&& self.width == other.width
        &&& self.height == other.height
        &&& forall|x: int, y: int| self.in_bounds(x, y) ==> #[trigger] self.at(x, y) == other.at(x, y)
    }

    /// All-false matrix of the given size.
    pub fn new(width: usize, height: usize) -> (r: BooleanMatrix)
        requires
            width * height <= usize::MAX,
        ensures
            r.wf(),
            r.width == width,
            r.height == height,
            forall|x: int, y: int| r.in_bounds(x, y) ==> !#[trigger] r.at(x, y),
    {
        let cells = vec![false; width * height];
        let r = BooleanMatrix { width, height, cells };
        assert forall|x: int, y: int| r.in_bounds(x, y) implies !#[trigger] r.at(x, y) by {
            lemma_cell_index_bounds(x, y, width as int, height as int);
        }
        r
    }

    /// All-false matrix of the size given by a point.
    pub fn from_point(size: &IntPoint) -> (r: BooleanMatrix)
        requires
            size.x >= 0,
            size.y >= 0,
            size.x * size.y <= usize::MAX,
        ensures
            r.wf(),
            r.width == size.x,
            r.height == size.y,
            forall|x: int, y: int| r.in_bounds(x, y) ==> !#[trigger] r.at(x, y),
    {
        BooleanMatrix::new(size.x() as usize, size.y() as usize)
    }

    /// A copy of `other`.
    pub fn from_clone(other: &BooleanMatrix) -> (r: BooleanMatrix)
        requires
            other.wf(),
        ensures
            r.wf(),
            r.same_as(other),
            r.cells@ == other.cells@,
    {
        let mut cells: Vec<bool> = Vec::new();
        let mut i: usize = 0;
        while i < other.cells.len()
            invariant
                0 <= i <= other.cells@.len(),
                cells@ == other.cells@.subrange(0, i as int),
            decreases other.cells@.len() - i,
        {
            cells.push(other.cells[i]);
            i = i + 1;
        }
        assert(cells@ == other.cells@);
        BooleanMatrix { width: other.width, height: other.height, cells }
    }

    pub fn width(&self) -> (r: usize)
        ensures
            r == self.width,
    {
        self.width
    }

    pub fn height(&self) -> (r: usize)
        ensures
            r == self.height,
    {
        self.height
    }

    /// The dimensions as a point (truncated to `i32` as `as` does).
    pub fn size(&self) -> (r: IntPoint)
        ensures
            r.x == self.width as i32,
            r.y == self.height as i32,
    {
        IntPoint::new(self.width as i32, self.height as i32)
    }

    /// Position of the cell `(x, y)` in the storage.
    fn index_of(&self, x: usize, y: usize) -> (i: usize)
        requires
            self.wf(),
            self.in_bounds(x as int, y as int),
        ensures
            i == cell_index(x as int, y as int, self.width as int),
            i < self.cells@.len(),
    {
        let n = self.cells.len();
        proof {
            lemma_cell_index_bounds(x as int, y as int, self.width as int, self.height as int);
        }
        y * self.width + x
    }

    pub fn get(&self, x: usize, y: usize) -> (r: bool)
        requires
            self.wf(),
            self.in_bounds(x as int, y as int),
        ensures
            r == self.at(x as int, y as int),
    {
        let i = self.index_of(x, y);
        self.cells[i]
    }

    pub fn get_int(&self, at: &IntPoint) -> (r: bool)
        requires
            self.wf(),
            self.in_bounds(at.x as int, at.y as int),
        ensures
            r == self.at(at.x as int, at.y as int),
    {
        self.get(at.x() as usize, at.y() as usize)
    }

    pub fn set(&mut self, x: usize, y: usize, value: bool)
        requires
            old(self).wf(),
            old(self).in_bounds(x as int, y as int),
        ensures
            final(self).wf(),
            final(self).width == old(self).width,
            final(self).height == old(self).height,
            final(self).at(x as int, y as int) == value,
            forall|x2: int, y2: int| final(self).in_bounds(x2, y2) && !(x2 == x && y2 == y) ==> #[trigger] final(self).at(x2, y2) == old(self).at(x2, y2),
            final(self).cells@ == old(self).cells@.update(cell_index(x as int, y as int, old(self).width as int), value),
    {
        let i = self.index_of(x, y);
        self.cells.set(i, value);
        proof {
            assert forall|x2: int, y2: int| self.in_bounds(x2, y2) && !(x2 == x && y2 == y) implies #[trigger] self.at(x2, y2) == old(self).at(x2, y2) by {
                lemma_cell_index_bounds(x2, y2, self.width as int, self.height as int);
                if cell_index(x2, y2, self.width as int) == i {
                    lemma_cell_index_injective(x2, y2, x as int, y as int, self.width as int);
                }
            }
        }
    }

    pub fn set_int(&mut self, at: &IntPoint, value: bool)
        requires
            old(self).wf(),
            old(self).in_bounds(at.x as int, at.y as int),
        ensures
            final(self).wf(),
            final(self).width == old(self).width,
            final(self).height == old(self).height,
            final(self).at(at.x as int, at.y as int) == value,
            forall|x2: int, y2: int| final(self).in_bounds(x2, y2) && !(x2 == at.x && y2 == at.y) ==> #[trigger] final(self).at(x2, y2) == old(self).at(x2, y2),
    {
        self.set(at.x() as usize, at.y() as usize, value);
    }

    /// The cell at `(x, y)`, or `fallback` when the position lies outside the matrix.
    pub fn get_with_fallback(&self, x: i32, y: i32, fallback: bool) -> (r: bool)
        requires
            self.wf(),
        ensures
            r == if self.in_bounds(x as int, y as int) { self.at(x as int, y as int) } else { fallback },
    {
        if x < 0 || y < 0 {
            return fallback;
        }
        let xu = x as usize;
        let yu = y as usize;
        if xu >= self.width || yu >= self.height {
            return fallback;
        }
        self.get(xu, yu)
    }

    /// Negates every cell.
    pub fn invert(&mut self)
        requires
            old(self).wf(),
        ensures
            final(self).wf(),
            final(self).width == old(self).width,
            final(self).height == old(self).height,
            forall|x: int, y: int| final(self).in_bounds(x, y) ==> #[trigger] final(self).at(x, y) == !old(self).at(x, y),
    {
        let n = self.cells.len();
        let mut i: usize = 0;
        while i < n
            invariant
                n == self.cells@.len(),
                n == old(self).cells@.len(),
                0 <= i <= n,
                self.width == old(self).width,
                self.height == old(self).height,
                forall|k: int| 0 <= k < i ==> #[trigger] self.cells@[k] == !old(self).cells@[k],
                forall|k: int| i <= k < n ==> #[trigger] self.cells@[k] == old(self).cells@[k],
            decreases n - i,
        {
            let v = !self.cells[i];
            self.cells.set(i, v);
            i = i + 1;
        }
        proof {
            assert forall|x: int, y: int| self.in_bounds(x, y) implies #[trigger] self.at(x, y) == !old(self).at(x, y) by {
                lemma_cell_index_bounds(x, y, self.width as int, self.height as int);
            }
        }
    }

    /// Sets every cell that is set in `other` (cell-wise or); both matrices must have the same size.
    pub fn merge(&mut self, other: &BooleanMatrix)
        requires
            old(self).wf(),
            other.wf(),
            old(self).width == other.width,
            old(self).height == other.height,
        ensures
            final(self).wf(),
            final(self).width == old(self).width,
            final(self).height == old(self).height,
            forall|x: int, y: int| final(self).in_bounds(x, y) ==> #[trigger] final(self).at(x, y) == (old(self).at(x, y) || other.at(x, y)),
    {
        let n = self.cells.len();
        let mut i: usize = 0;
        while i < n
            invariant
                n == self.cells@.len(),
                n == old(self).cells@.len(),
                n == other.cells@.len(),
                0 <= i <= n,
                self.width == old(self).width,
                self.height == old(self).height,
                forall|k: int| 0 <= k < i ==> #[trigger] self.cells@[k] == (old(self).cells@[k] || other.cells@[k]),
                forall|k: int| i <= k < n ==> #[trigger] self.cells@[k] == old(self).cells@[k],
            decreases n - i,
        {
            let v = self.cells[i] || other.cells[i];
            self.cells.set(i, v);
            i = i + 1;
        }
        proof {
            assert forall|x: int, y: int| self.in_bounds(x, y) implies #[trigger] self.at(x, y) == (old(self).at(x, y) || other.at(x, y)) by {
                lemma_cell_index_bounds(x, y, self.width as int, self.height as int);
            }
        }
    }
}

impl Default for BooleanMatrix {
    fn default() -> (r: BooleanMatrix)
        ensures
            r.wf(),
            r.width == 0,
            r.height == 0,
    {
        BooleanMatrix::new(0, 0)
    }
}


/// Inverting twice gives back the starting cells.
pub proof fn law_invert_twice(initial: BooleanMatrix, once: BooleanMatrix, twice: BooleanMatrix)
    requires
        once.width == initial.width && once.height == initial.height,
        twice.width == initial.width && twice.height == initial.height,
        forall|x: int, y: int| once.in_bounds(x, y) ==> #[trigger] once.at(x, y) == !initial.at(x, y),
        forall|x: int, y: int| twice.in_bounds(x, y) ==> #[trigger] twice.at(x, y) == !once.at(x, y),
    ensures
        twice.same_as(&initial),
{
    assert forall|x: int, y: int| twice.in_bounds(x, y) implies #[trigger] twice.at(x, y) == initial.at(x, y) by {
        assert(once.at(x, y) == !initial.at(x, y));
    }
}

} // verus!
