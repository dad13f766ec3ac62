use vstd::prelude::*;
use crate::primitives::int_point::IntPoint;
use crate::primitives::int_rect::IntRect;

verus! {

/// A grid of blocks described by the coordinates of its corner lines.
#[derive(Clone, Debug, PartialEq, Eq)]
pub struct BlockGrid {
    pub blocks: IntPoint,
    pub corners: IntPoint,
    pub x: Vec<i32>,
    pub y: Vec<i32>,
}

impl BlockGrid {
    /// Corner count is one more than block count on each axis, and the
    /// coordinate vectors hold one entry per corner line.
    pub open spec fn wf(&self) -> bool {
        &&& self.corners.x == self.blocks.x + 1
        &&& self.corners.y == self.blocks.y + 1
        &&& self.x@.len() == self.corners.x
        &&& self.y@.len() == self.corners.y
    }

    /// The corner at `(at_x, at_y)`.
    pub open spec fn corner_spec(&self, at_x: int, at_y: int) -> IntPoint {
        IntPoint { x: self.x@[at_x], y: self.y@[at_y] }
    }

    /// Grid of the given block counts, with all corner coordinates zero.
    pub fn new(size: &IntPoint) -> (r: BlockGrid)
        requires
            -1 <= size.x < i32::MAX,
            -1 <= size.y < i32::MAX,
        ensures
            r.wf(),
            r.blocks == *size,
            forall|i: int| 0 <= i < r.x@.len() ==> r.x@[i] == 0,
            forall|i: int| 0 <= i < r.y@.len() ==> r.y@[i] == 0,
    {
        let corners = IntPoint::new(size.x() + 1, size.y() + 1);
        let x = vec![0i32; (size.x() + 1) as usize];
        let y = vec![0i32; (size.y() + 1) as usize];
        BlockGrid { blocks: *size, corners, x, y }
    }

    /// Grid of `width × height` blocks.
    pub fn from_width_height(width: i32, height: i32) -> (r: BlockGrid)
        requires
            -1 <= width < i32::MAX,
            -1 <= height < i32::MAX,
        ensures
            r.wf(),
            r.blocks.x == width,
            r.blocks.y == height,
            forall|i: int| 0 <= i < r.x@.len() ==> r.x@[i] == 0,
            forall|i: int| 0 <= i < r.y@.len() ==> r.y@[i] == 0,
    {
        BlockGrid::new(&IntPoint::new(width, height))
    }

    /// Position of the corner at `(at_x, at_y)`.
    pub fn corner(&self, at_x: i32, at_y: i32) -> (r: IntPoint)
        requires
            0 <= at_x < self.x@.len(),
            0 <= at_y < self.y@.len(),
        ensures
            r == self.corner_spec(at_x as int, at_y as int),
    {
        IntPoint::new(self.x[at_x as usize], self.y[at_y as usize])
    }

    /// Position of the corner at `at`.
    pub fn corner_at(&self, at: &IntPoint) -> (r: IntPoint)
        requires
            0 <= at.x < self.x@.len(),
            0 <= at.y < self.y@.len(),
        ensures
            r == self.corner_spec(at.x as int, at.y as int),
    {
        self.corner(at.x(), at.y())
    }

    /// The block whose top-left corner is `(at_x, at_y)`.
    pub fn block(&self, at_x: i32, at_y: i32) -> (r: IntRect)
        requires
            0 <= at_x < i32::MAX && at_x + 1 < self.x@.len(),
            0 <= at_y < i32::MAX && at_y + 1 < self.y@.len(),
            i32::MIN <= self.x@[at_x + 1] - self.x@[at_x as int] <= i32::MAX,
            i32::MIN <= self.y@[at_y + 1] - self.y@[at_y as int] <= i32::MAX,
        ensures
            r.x == self.x@[at_x as int],
            r.y == self.y@[at_y as int],
            r.width == self.x@[at_x + 1] - self.x@[at_x as int],
            r.height == self.y@[at_y + 1] - self.y@[at_y as int],
    {
        IntRect::between(&self.corner(at_x, at_y), &self.corner(at_x + 1, at_y + 1))
    }

    /// The block whose top-left corner is `at`.
    pub fn block_at(&self, at: &IntPoint) -> (r: IntRect)
        requires
            0 <= at.x < i32::MAX && at.x + 1 < self.x@.len(),
            0 <= at.y < i32::MAX && at.y + 1 < self.y@.len(),
            i32::MIN <= self.x@[at.x + 1] - self.x@[at.x as int] <= i32::MAX,
            i32::MIN <= self.y@[at.y + 1] - self.y@[at.y as int] <= i32::MAX,
        ensures
            r.x == self.x@[at.x as int],
            r.y == self.y@[at.y as int],
            r.width == self.x@[at.x + 1] - self.x@[at.x as int],
            r.height == self.y@[at.y + 1] - self.y@[at.y as int],
    {
        self.block(at.x(), at.y())
    }
}

impl Default for BlockGrid {
    fn default() -> (r: BlockGrid)
        ensures
            r.wf(),
            r.blocks.x == 0 && r.blocks.y == 0,
    {
        BlockGrid::new(&IntPoint::new(0, 0))
    }
}

} // verus!
