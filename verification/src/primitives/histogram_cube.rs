use vstd::prelude::*;
use crate::primitives::grid::{cell_index, lemma_cell_index_bounds, lemma_cell_index_injective};
use crate::primitives::int_point::IntPoint;

verus! {

/// A `width × height` grid of histograms with `bins` counters each.
#[derive(Clone, Debug)]
pub struct HistogramCube {
    pub width: usize,
    pub height: usize,
    pub bins: usize,
    pub counts: Vec<i32>,
}

/// Sum of the first `n` counters of a histogram in the cube.
pub open spec fn bin_prefix_sum(cube: HistogramCube, x: int, y: int, n: int) -> int
    decreases n,
{
    if n <= 0 {
        0
    } else {
        bin_prefix_sum(cube, x, y, n - 1) + cube.at(x, y, n - 1)
    }
}

/// Clamping of `z` into `[0, bins - 1]` as done with `i32` arithmetic.
pub open spec fn clamp_bin(z: int, bins: usize) -> int {
    let b = bins as i32;
    let z1 = if z < 0 { 0 } else { z };
    if z1 >= b { b - 1 } else { z1 }
}

impl HistogramCube {
    /// The counter storage matches the dimensions.
    pub open spec fn wf(&self) -> bool {
        self.counts@.len() == self.width * self.height * self.bins
    }

    /// Whether `(x, y, z)` addresses a counter.
    pub open spec fn in_bounds(&self, x: int, y: int, z: int) -> bool {
        0 <= x < self.width && 0 <= y < self.height && 0 <= z < self.bins
    }

    /// Position of counter `(x, y, z)` in the storage.
    pub open spec fn index_spec(&self, x: int, y: int, z: int) -> int {
        cell_index(x, y, self.width as int) * self.bins + z
    }

    /// Counter `z` of the histogram at `(x, y)`.
    pub open spec fn at(&self, x: int, y: int, z: int) -> i32 {
        self.counts@[self.index_spec(x, y, z)]
    }

    proof fn lemma_index(&self, x: int, y: int, z: int)
        requires
            self.wf(),
            self.in_bounds(x, y, z),
        ensures
            0 <= self.index_spec(x, y, z) < self.counts@.len(),
    {
        lemma_cell_index_bounds(x, y, self.width as int, self.height as int);
        let c = cell_index(x, y, self.width as int);
        let wh = self.width * self.height;
        assert(0 <= c * self.bins + z < wh * self.bins) by (nonlinear_arith)
            requires 0 <= c < wh, 0 <= z < self.bins;
        assert(wh * self.bins == self.width * self.height * self.bins) by (nonlinear_arith)
            requires wh == self.width * self.height;
    }

    proof fn lemma_index_injective(&self, x1: int, y1: int, z1: int, x2: int, y2: int, z2: int)
        requires
            self.in_bounds(x1, y1, z1),
            self.in_bounds(x2, y2, z2),
            self.index_spec(x1, y1, z1) == self.index_spec(x2, y2, z2),
        ensures
            x1 == x2 && y1 == y2 && z1 == z2,
    {
        let c1 = cell_index(x1, y1, self.width as int);
        let c2 = cell_index(x2, y2, self.width as int);
        lemma_cell_index_bounds(x1, y1, self.width as int, self.height as int);
        lemma_cell_index_bounds(x2, y2, self.width as int, self.height as int);
        let b = self.bins as int;
        assert(c1 == c2 && z1 == z2) by (nonlinear_arith)
            requires c1 * b + z1 == c2 * b + z2, 0 <= z1 < b, 0 <= z2 < b, c1 >= 0, c2 >= 0;
        lemma_cell_index_injective(x1, y1, x2, y2, self.width as int);
    }

    /// All-zero cube.
    pub fn new(width: usize, height: usize, bins: usize) -> (r: HistogramCube)
        requires
            width * height * bins <= usize::MAX,
        ensures
            r.wf(),
            r.width == width,
            r.height == height,
            r.bins == bins,
            forall|x: int, y: int, z: int| r.in_bounds(x, y, z) ==> #[trigger] r.at(x, y, z) == 0,
    {
        proof {
            assert(width * height <= width * height * bins || bins == 0) by (nonlinear_arith);
            if bins == 0 {
                assert(width * height * bins == 0) by (nonlinear_arith) requires bins == 0;
            }
        }
        let n = if bins == 0 { 0 } else { width * height * bins };
        let r = HistogramCube { width, height, bins, counts: vec![0i32; n] };
        assert forall|x: int, y: int, z: int| r.in_bounds(x, y, z) implies #[trigger] r.at(x, y, z) == 0 by {
            r.lemma_index(x, y, z);
        }
        r
    }

    /// All-zero cube of the size given by a point.
    pub fn from_point(size: &IntPoint, bins: usize) -> (r: HistogramCube)
        requires
            size.x >= 0,
            size.y >= 0,
            size.x * size.y * bins <= usize::MAX,
        ensures
            r.wf(),
            r.width == size.x,
            r.height == size.y,
            r.bins == bins,
            forall|x: int, y: int, z: int| r.in_bounds(x, y, z) ==> #[trigger] r.at(x, y, z) == 0,
    {
        HistogramCube::new(size.x() as usize, size.y() as usize, bins)
    }

    pub fn width(&self) -> (r: usize)
        ensures
            r == self.width,
    {
        self.width
    }

    pub fn height(&self) -> (r: usize)
        ensures
            r == self.height,
    {
        self.height
    }

    fn index_of(&self, x: usize, y: usize, z: usize) -> (i: usize)
        requires
            self.wf(),
            self.in_bounds(x as int, y as int, z as int),
        ensures
            i == self.index_spec(x as int, y as int, z as int),
            i < self.counts@.len(),
    {
        let n = self.counts.len();
        proof {
            self.lemma_index(x as int, y as int, z as int);
            lemma_cell_index_bounds(x as int, y as int, self.width as int, self.height as int);
            let c = cell_index(x as int, y as int, self.width as int);
            assert(c * self.bins <= c * self.bins + z);
            assert(c <= c * self.bins) by (nonlinear_arith) requires c >= 0, self.bins >= 1;
        }
        (y * self.width + x) * self.bins + z
    }

    pub fn get(&self, x: usize, y: usize, z: usize) -> (r: i32)
        requires
            self.wf(),
            self.in_bounds(x as int, y as int, z as int),
        ensures
            r == self.at(x as int, y as int, z as int),
    {
        let i = self.index_of(x, y, z);
        self.counts[i]
    }

    pub fn set(&mut self, x: usize, y: usize, z: usize, value: i32)
        requires
            old(self).wf(),
            old(self).in_bounds(x as int, y as int, z as int),
        ensures
            final(self).wf(),
            final(self).width == old(self).width,
            final(self).height == old(self).height,
            final(self).bins == old(self).bins,
            final(self).at(x as int, y as int, z as int) == value,
            forall|x2: int, y2: int, z2: int| final(self).in_bounds(x2, y2, z2) && !(x2 == x && y2 == y && z2 == z) ==> #[trigger] final(self).at(x2, y2, z2) == old(self).at(x2, y2, z2),
    {
        let i = self.index_of(x, y, z);
        self.counts.set(i, value);
        proof {
            assert forall|x2: int, y2: int, z2: int| self.in_bounds(x2, y2, z2) && !(x2 == x && y2 == y && z2 == z) implies #[trigger] self.at(x2, y2, z2) == old(self).at(x2, y2, z2) by {
                self.lemma_index(x2, y2, z2);
                if self.index_spec(x2, y2, z2) == i {
                    self.lemma_index_injective(x2, y2, z2, x as int, y as int, z as int);
                }
            }
        }
    }

    /// Adds `value` to counter `(x, y, z)`.
    pub fn add(&mut self, x: usize, y: usize, z: usize, value: i32)
        requires
            old(self).wf(),
            old(self).in_bounds(x as int, y as int, z as int),
            i32::MIN <= old(self).at(x as int, y as int, z as int) + value <= i32::MAX,
        ensures
            final(self).wf(),
            final(self).width == old(self).width,
            final(self).height == old(self).height,
            final(self).bins == old(self).bins,
            final(self).at(x as int, y as int, z as int) == old(self).at(x as int, y as int, z as int) + value,
            forall|x2: int, y2: int, z2: int| final(self).in_bounds(x2, y2, z2) && !(x2 == x && y2 == y && z2 == z) ==> #[trigger] final(self).at(x2, y2, z2) == old(self).at(x2, y2, z2),
    {
        let v = self.get(x, y, z);
        self.set(x, y, z, v + value);
    }

    /// Adds one to counter `(x, y, z)`.
    pub fn increment(&mut self, x: usize, y: usize, z: usize)
        requires
            old(self).wf(),
            old(self).in_bounds(x as int, y as int, z as int),
            old(self).at(x as int, y as int, z as int) < i32::MAX,
        ensures
            final(self).wf(),
            final(self).width == old(self).width,
            final(self).height == old(self).height,
            final(self).bins == old(self).bins,
            final(self).at(x as int, y as int, z as int) == old(self).at(x as int, y as int, z as int) + 1,
            forall|x2: int, y2: int, z2: int| final(self).in_bounds(x2, y2, z2) && !(x2 == x && y2 == y && z2 == z) ==> #[trigger] final(self).at(x2, y2, z2) == old(self).at(x2, y2, z2),
    {
        self.add(x, y, z, 1);
    }

    /// `z` clamped into `[0, bins - 1]`.
    pub fn constrain_z(&self, z: i32) -> (r: usize)
        requires
            self.bins as i32 != i32::MIN,
        ensures
            r == clamp_bin(z as int, self.bins) as usize,
    {
        let mut z = z;
        if z < 0 {
            z = 0;
        }
        let b = self.bins as i32;
        if z >= b {
            z = b - 1;
        }
        z as usize
    }

    /// Same as `constrain_z`.
    pub fn constrain(&self, z: i32) -> (r: usize)
        requires
            self.bins as i32 != i32::MIN,
        ensures
            r == clamp_bin(z as int, self.bins) as usize,
    {
        self.constrain_z(z)
    }

    /// Total of the histogram at `(x, y)`.
    pub fn sum(&self, x: usize, y: usize) -> (r: i32)
        requires
            self.wf(),
            0 <= x < self.width,
            0 <= y < self.height,
            forall|n: int| 0 <= n <= self.bins ==> i32::MIN <= #[trigger] bin_prefix_sum(*self, x as int, y as int, n) <= i32::MAX,
        ensures
            r == bin_prefix_sum(*self, x as int, y as int, self.bins as int),
    {
        let mut s: i32 = 0;
        let mut i: usize = 0;
        while i < self.bins
            invariant
                self.wf(),
                0 <= x < self.width,
                0 <= y < self.height,
                0 <= i <= self.bins,
                s == bin_prefix_sum(*self, x as int, y as int, i as int),
                forall|n: int| 0 <= n <= self.bins ==> i32::MIN <= #[trigger] bin_prefix_sum(*self, x as int, y as int, n) <= i32::MAX,
            decreases self.bins - i,
        {
            assert(i32::MIN <= bin_prefix_sum(*self, x as int, y as int, i + 1) <= i32::MAX);
            s = s + self.get(x, y, i);
            i = i + 1;
        }
        s
    }
}

impl Default for HistogramCube {
    fn default() -> (r: HistogramCube)
        ensures
            r.wf(),
            r.width == 0,
            r.height == 0,
            r.bins == 0,
    {
        HistogramCube::new(0, 0, 0)
    }
}

} // verus!
