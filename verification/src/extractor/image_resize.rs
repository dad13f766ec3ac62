use vstd::prelude::*;
use crate::primitives::int_point::IntPoint;

verus! {

/// `v` clamped to `[lo, hi]`.
pub open spec fn clamp_int(v: int, lo: int, hi: int) -> int {
    if v < lo {
        lo
    } else if v > hi {
        hi
    } else {
        v
    }
}

/// A size given as `i32` read as `usize`, as a cast does (negative values wrap).
pub open spec fn as_size(v: i32) -> int {
    if v >= 0 {
        v as int
    } else {
        v + 0x1_0000_0000_0000_0000
    }
}

/// Target size of an image resized for a resolution.
pub struct ImageResizer {
    /// Target width in pixels.
    pub width: usize,
    /// Target height in pixels.
    pub height: usize,
}

impl ImageResizer {
    /// The target height is the resolution (500 when unknown); the target
    /// width keeps the aspect ratio of `size` (rounded down), or equals
    /// the height when `size` has no area; both are clamped to
    /// `[50, 2000]`.
    pub fn new(dpi: u32, size: &IntPoint) -> (r: ImageResizer)
        ensures
            ({
                let target: int = if dpi > 0 { dpi as int } else { 500 };
                let ox = as_size(size.x);
                let oy = as_size(size.y);
                let width = if oy > 0 && ox > 0 { (target * ox) / oy } else { target };
                &&& r.width == clamp_int(width, 50, 2000)
                &&& r.height == clamp_int(target, 50, 2000)
            }),
    {
        let target: u128 = if dpi > 0 { dpi as u128 } else { 500 };
        let ox: u128 = if size.x >= 0 { size.x as u128 } else { (size.x as i128 + 0x1_0000_0000_0000_0000) as u128 };
        let oy: u128 = if size.y >= 0 { size.y as u128 } else { (size.y as i128 + 0x1_0000_0000_0000_0000) as u128 };
        assert(target * ox <= 0x1_0000_0000 * 0x1_0000_0000_0000_0000) by (nonlinear_arith)
            requires target <= 0x1_0000_0000, ox <= 0x1_0000_0000_0000_0000;
        let width: u128 = if oy > 0 && ox > 0 { (target * ox) / oy } else { target };
        let width: usize = if width < 50 { 50 } else if width > 2000 { 2000 } else { width as usize };
        let height: usize = if target < 50 { 50 } else if target > 2000 { 2000 } else { target as usize };
        ImageResizer { width, height }
    }
}

} // verus!
