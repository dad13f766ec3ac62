use vstd::prelude::*;
use crate::primitives::int_point::IntPoint;

verus! {

/// A 2D point with `i16` coordinates, ordered by `x` first and `y` second.
#[derive(Clone, Copy, Debug, PartialEq, Eq, Structural, PartialOrd, Ord, Hash)]
pub struct ShortPoint {
    pub x: i16,
    pub y: i16,
}

impl ShortPoint {
    /// Bytes taken by the two coordinates.
    pub const MEMORY: usize = 4;

    pub fn new(x: i16, y: i16) -> (r: ShortPoint)
        ensures
            r.x == x,
            r.y == y,
    {
        ShortPoint { x, y }
    }

    /// Conversion from `i32` coordinates (truncating, as `as i16` does).
    pub fn from_i32(x: i32, y: i32) -> (r: ShortPoint)
        ensures
            r.x == x as i16,
            r.y == y as i16,
    {
        ShortPoint { x: x as i16, y: y as i16 }
    }

    /// Squared Euclidean length.
    pub fn length_sq(&self) -> (r: i32)
        requires
            self.x * self.x + self.y * self.y <= i32::MAX,
        ensures
            r == self.x * self.x + self.y * self.y,
    {
        let x = self.x as i32;
        let y = self.y as i32;
        proof {
            assert(x * x >= 0) by (nonlinear_arith);
            assert(y * y >= 0) by (nonlinear_arith);
            assert(x * x <= 32768 * 32768) by (nonlinear_arith) requires -32768 <= x <= 32767;
            assert(y * y <= 32768 * 32768) by (nonlinear_arith) requires -32768 <= y <= 32767;
        }
        x * x + y * y
    }

    /// Conversion to `i32` coordinates.
    pub fn to_int(&self) -> (r: IntPoint)
        ensures
            r.x == self.x,
            r.y == self.y,
    {
        IntPoint::new(self.x as i32, self.y as i32)
    }
}

impl Default for ShortPoint {
    fn default() -> (r: ShortPoint)
        ensures
            r.x == 0 && r.y == 0,
    {
        ShortPoint { x: 0, y: 0 }
    }
}

} // verus!
