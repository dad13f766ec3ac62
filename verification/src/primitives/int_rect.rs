use vstd::prelude::*;
use crate::primitives::int_point::IntPoint;
use crate::primitives::integers::{div_i32, div_toward_zero};

verus! {

/// An axis-aligned rectangle: origin `(x, y)` and size `width × height`.
#[derive(Clone, Copy, Debug, PartialEq, Eq, Structural, Hash)]
pub struct IntRect {
    pub x: i32,
    pub y: i32,
    pub width: i32,
    pub height: i32,
}

/// The largest of two integers.
pub open spec fn max_int(a: int, b: int) -> int {
    if a >= b {
        a
    } else {
        b
    }
}

/// The smallest of two integers.
pub open spec fn min_int(a: int, b: int) -> int {
    if a <= b {
        a
    } else {
        b
    }
}

impl IntRect {
    /// Bytes taken by the four coordinates.
    pub const MEMORY: usize = 16;

    /// Right edge (exclusive).
    pub open spec fn right_spec(self) -> int {
        self.x + self.width
    }

    /// Bottom edge (exclusive).
    pub open spec fn bottom_spec(self) -> int {
        self.y + self.height
    }

    /// Whether the right and bottom edges are representable.
    pub open spec fn edges_fit(self) -> bool {
        &&& i32::MIN <= self.x + self.width <= i32::MAX
        &&& i32::MIN <= self.y + self.height <= i32::MAX
    }

    pub fn x(&self) -> (r: i32)
        ensures
            r == self.x,
    {
        self.x
    }

    pub fn y(&self) -> (r: i32)
        ensures
            r == self.y,
    {
        self.y
    }

    pub fn width(&self) -> (r: i32)
        ensures
            r == self.width,
    {
        self.width
    }

    pub fn height(&self) -> (r: i32)
        ensures
            r == self.height,
    {
        self.height
    }

    pub fn new(x: i32, y: i32, width: i32, height: i32) -> (r: IntRect)
        ensures
            r.x == x,
            r.y == y,
            r.width == width,
            r.height == height,
    {
        IntRect { x, y, width, height }
    }

    /// The rectangle at the origin with the given size.
    pub fn from_size(size: &IntPoint) -> (r: IntRect)
        ensures
            r.x == 0,
            r.y == 0,
            r.width == size.x,
            r.height == size.y,
    {
        IntRect { x: 0, y: 0, width: size.x(), height: size.y() }
    }

    pub fn left(&self) -> (r: i32)
        ensures
            r == self.x,
    {
        self.x
    }

    pub fn top(&self) -> (r: i32)
        ensures
            r == self.y,
    {
        self.y
    }

    pub fn right(&self) -> (r: i32)
        requires
            i32::MIN <= self.x + self.width <= i32::MAX,
        ensures
            r == self.x + self.width,
    {
        self.x + self.width
    }

    pub fn bottom(&self) -> (r: i32)
        requires
            i32::MIN <= self.y + self.height <= i32::MAX,
        ensures
            r == self.y + self.height,
    {
        self.y + self.height
    }

    pub fn area(&self) -> (r: i32)
        requires
            i32::MIN <= self.width * self.height <= i32::MAX,
        ensures
            r == self.width * self.height,
    {
        self.width * self.height
    }

    /// Midpoint of the rectangle, each coordinate rounded toward zero.
    pub fn center(&self) -> (r: IntPoint)
        requires
            self.edges_fit(),
            i32::MIN <= 2 * self.x + self.width <= i32::MAX,
            i32::MIN <= 2 * self.y + self.height <= i32::MAX,
        ensures
            r.x == div_toward_zero(2 * self.x + self.width, 2),
            r.y == div_toward_zero(2 * self.y + self.height, 2),
    {
        IntPoint::new(
            div_i32(self.left() + self.right(), 2),
            div_i32(self.top() + self.bottom(), 2),
        )
    }

    /// The rectangle with corner `start` that ends (exclusively) at `end`.
    pub fn between(start: &IntPoint, end: &IntPoint) -> (r: IntRect)
        requires
            i32::MIN <= end.x - start.x <= i32::MAX,
            i32::MIN <= end.y - start.y <= i32::MAX,
        ensures
            r.x == start.x,
            r.y == start.y,
            r.width == end.x - start.x,
            r.height == end.y - start.y,
    {
        IntRect::new(start.x(), start.y(), end.x() - start.x(), end.y() - start.y())
    }

    /// The square of side `2 * radius + 1` centered on `(x, y)`.
    pub fn around(x: i32, y: i32, radius: i32) -> (r: IntRect)
        requires
            i32::MIN <= x - radius <= i32::MAX,
            i32::MIN <= x + radius,
            x + radius + 1 <= i32::MAX,
            i32::MIN <= y - radius <= i32::MAX,
            i32::MIN <= y + radius,
            y + radius + 1 <= i32::MAX,
            i32::MIN <= 2 * radius + 1 <= i32::MAX,
        ensures
            r.x == x - radius,
            r.y == y - radius,
            r.width == 2 * radius + 1,
            r.height == 2 * radius + 1,
    {
        IntRect::between(
            &IntPoint::new(x - radius, y - radius),
            &IntPoint::new(x + radius + 1, y + radius + 1),
        )
    }

    /// Overlap of two rectangles (width or height is negative when they do not overlap).
    pub fn intersect(&self, other: &IntRect) -> (r: IntRect)
        requires
            self.edges_fit(),
            other.edges_fit(),
            i32::MIN <= min_int(self.right_spec(), other.right_spec()) - max_int(self.x as int, other.x as int) <= i32::MAX,
            i32::MIN <= min_int(self.bottom_spec(), other.bottom_spec()) - max_int(self.y as int, other.y as int) <= i32::MAX,
        ensures
            r.x == max_int(self.x as int, other.x as int),
            r.y == max_int(self.y as int, other.y as int),
            r.width == min_int(self.right_spec(), other.right_spec()) - max_int(self.x as int, other.x as int),
            r.height == min_int(self.bottom_spec(), other.bottom_spec()) - max_int(self.y as int, other.y as int),
    {
        let left = if self.left() >= other.left() { self.left() } else { other.left() };
        let top = if self.top() >= other.top() { self.top() } else { other.top() };
        let right = if self.right() <= other.right() { self.right() } else { other.right() };
        let bottom = if self.bottom() <= other.bottom() { self.bottom() } else { other.bottom() };
        IntRect::new(left, top, right - left, bottom - top)
    }

    /// The same rectangle shifted by `delta`.
    pub fn move_rect(&self, delta: &IntPoint) -> (r: IntRect)
        requires
            i32::MIN <= self.x + delta.x <= i32::MAX,
            i32::MIN <= self.y + delta.y <= i32::MAX,
        ensures
            r.x == self.x + delta.x,
            r.y == self.y + delta.y,
            r.width == self.width,
            r.height == self.height,
    {
        IntRect::new(self.x + delta.x(), self.y + delta.y(), self.width, self.height)
    }

    /// All points inside the rectangle in row-major order.
    pub fn iterate(&self) -> (r: Vec<IntPoint>)
        requires
            self.edges_fit(),
        ensures
            self.width <= 0 || self.height <= 0 ==> r@.len() == 0,
            self.width > 0 && self.height > 0 ==> r@.len() == self.width * self.height,
            forall|i: int| 0 <= i < r@.len() ==> #[trigger] r@[i] == (IntPoint { x: (self.x + i % self.width as int) as i32, y: (self.y + i / self.width as int) as i32 }),
    {
        let mut points: Vec<IntPoint> = Vec::new();
        if self.width <= 0 || self.height <= 0 {
            return points;
        }
        let right = self.right();
        let bottom = self.bottom();
        let mut y: i32 = self.y;
        while y < bottom
            invariant
                self.y <= y <= bottom,
                bottom == self.y + self.height,
                right == self.x + self.width,
                self.width > 0,
                points@.len() == (y - self.y) * self.width,
                forall|i: int| 0 <= i < points@.len() ==> #[trigger] points@[i] == (IntPoint { x: (self.x + i % self.width as int) as i32, y: (self.y + i / self.width as int) as i32 }),
            decreases bottom - y,
        {
            let mut x: i32 = self.x;
            while x < right
                invariant
                    self.y <= y < bottom,
                    self.x <= x <= right,
                    right == self.x + self.width,
                    self.width > 0,
                    points@.len() == (y - self.y) * self.width + (x - self.x),
                    forall|i: int| 0 <= i < points@.len() ==> #[trigger] points@[i] == (IntPoint { x: (self.x + i % self.width as int) as i32, y: (self.y + i / self.width as int) as i32 }),
                decreases right - x,
            {
                proof {
                    let i = (y - self.y) * self.width + (x - self.x);
                    let w = self.width as int;
                    assert(i % w == x - self.x && i / w == y - self.y) by (nonlinear_arith)
                        requires i == (y - self.y) * w + (x - self.x), 0 <= x - self.x < w, 0 <= y - self.y;
                }
                points.push(IntPoint::new(x, y));
                x = x + 1;
            }
            proof {
                assert((y + 1 - self.y) * self.width == (y - self.y) * self.width + self.width) by (nonlinear_arith);
            }
            y = y + 1;
        }
        proof {
            assert(self.height * self.width == self.width * self.height) by (nonlinear_arith);
        }
        points
    }
}

impl Default for IntRect {
    fn default() -> (r: IntRect)
        ensures
            r.x == 0 && r.y == 0 && r.width == 0 && r.height == 0,
    {
        IntRect::new(0, 0, 0, 0)
    }
}

} // verus!
