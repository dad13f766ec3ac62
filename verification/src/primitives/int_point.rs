use vstd::prelude::*;
use crate::primitives::integers::Integers;
use crate::primitives::short_point::ShortPoint;

verus! {

/// A 2D point with `i32` coordinates.
///
/// The `y` field is declared first so that the derived ordering compares rows
/// first and columns second.
#[derive(Clone, Copy, Debug, PartialEq, Eq, Structural, PartialOrd, Ord, Hash)]
pub struct IntPoint {
    pub y: i32,
    pub x: i32,
}

/// Absolute value of an integer.
pub open spec fn abs(v: int) -> int {
    if v < 0 {
        -v
    } else {
        v
    }
}

/// `num / den` rounded to the nearest integer, halves up (`den > 0`).
pub open spec fn round_ratio(num: int, den: int) -> int {
    (2 * num + den) / (2 * den)
}

/// The `i`-th point of the rasterized line from `from` to `to`: one step
/// along the longer axis per point, the other coordinate moved by the exact
/// ratio rounded half up.
pub open spec fn line_point(from: IntPoint, to: IntPoint, i: int) -> IntPoint {
    let rx = to.x - from.x;
    let ry = to.y - from.y;
    if abs(rx) >= abs(ry) {
        if rx > 0 {
            IntPoint { x: (from.x + i) as i32, y: (from.y + round_ratio(i * ry, rx)) as i32 }
        } else if rx < 0 {
            IntPoint { x: (from.x - i) as i32, y: (from.y - round_ratio(i * (-ry), -rx)) as i32 }
        } else {
            from
        }
    } else {
        if ry > 0 {
            IntPoint { x: (from.x + round_ratio(i * rx, ry)) as i32, y: (from.y + i) as i32 }
        } else {
            IntPoint { x: (from.x - round_ratio(i * (-rx), -ry)) as i32, y: (from.y - i) as i32 }
        }
    }
}

/// Number of points of the rasterized line from `from` to `to`.
pub open spec fn line_len(from: IntPoint, to: IntPoint) -> int {
    let rx = to.x - from.x;
    let ry = to.y - from.y;
    if abs(rx) >= abs(ry) {
        if rx == 0 {
            1
        } else {
            abs(rx) + 1
        }
    } else {
        abs(ry) + 1
    }
}

/// A rounded ratio of a numerator no larger in magnitude than the positive
/// denominator stays within the numerator's sign and magnitude bound.
proof fn lemma_round_ratio_bounds(i: int, r: int, d: int)
    requires
        d > 0,
        0 <= i <= d,
        -d <= r <= d,
    ensures
        r >= 0 ==> 0 <= round_ratio(i * r, d) <= r,
        r < 0 ==> r <= round_ratio(i * r, d) <= 0,
{
    let n = 2 * (i * r) + d;
    if r >= 0 {
        assert(0 <= i * r <= d * r) by (nonlinear_arith) requires 0 <= i <= d, r >= 0;
        assert(n > 0);
        assert(n / (2 * d) >= 0) by (nonlinear_arith) requires n > 0, d > 0;
        assert(n <= 2 * (d * r) + d);
        assert(n / (2 * d) <= r) by (nonlinear_arith) requires n <= 2 * (d * r) + d, d > 0, n > 0;
    } else {
        assert(d * r <= i * r <= 0) by (nonlinear_arith) requires 0 <= i <= d, r < 0;
        assert(n <= d);
        assert(n >= 2 * (d * r) + d);
        assert(n / (2 * d) <= 0) by (nonlinear_arith) requires n <= d, d > 0;
        assert(n / (2 * d) >= r) by (nonlinear_arith) requires n >= 2 * (d * r) + d, d > 0;
    }
}

impl IntPoint {
    /// The origin.
    pub fn zero() -> (r: IntPoint)
        ensures
            r.x == 0 && r.y == 0,
    {
        IntPoint { x: 0i32, y: 0i32 }
    }

    pub fn new(x: i32, y: i32) -> (r: IntPoint)
        ensures
            r.x == x,
            r.y == y,
    {
        IntPoint { x, y }
    }

    pub fn x(&self) -> (r: i32)
        ensures
            r == self.x,
    {
        self.x
    }

    pub fn y(&self) -> (r: i32)
        ensures
            r == self.y,
    {
        self.y
    }

    /// The four edge-adjacent offsets: up, left, right, down.
    pub fn edge_neighbors() -> (r: Vec<IntPoint>)
        ensures
            r@ == seq![
                IntPoint { x: 0i32, y: -1i32 },
                IntPoint { x: -1i32, y: 0i32 },
                IntPoint { x: 1i32, y: 0i32 },
                IntPoint { x: 0i32, y: 1i32 },
            ],
    {
        vec![IntPoint::new(0, -1), IntPoint::new(-1, 0), IntPoint::new(1, 0), IntPoint::new(0, 1)]
    }

    /// The eight surrounding offsets in row-major order.
    pub fn corner_neighbors() -> (r: Vec<IntPoint>)
        ensures
            r@ == corner_offsets(),
    {
        vec![
            IntPoint::new(-1, -1),
            IntPoint::new(0, -1),
            IntPoint::new(1, -1),
            IntPoint::new(-1, 0),
            IntPoint::new(1, 0),
            IntPoint::new(-1, 1),
            IntPoint::new(0, 1),
            IntPoint::new(1, 1),
        ]
    }

    /// Product of the coordinates (the area of a size).
    pub fn area(&self) -> (r: i32)
        requires
            i32::MIN <= self.x * self.y <= i32::MAX,
        ensures
            r == self.x * self.y,
    {
        self.x * self.y
    }

    /// Squared Euclidean length.
    pub fn length_sq(&self) -> (r: i32)
        requires
            self.x * self.x + self.y * self.y <= i32::MAX,
        ensures
            r == self.x * self.x + self.y * self.y,
    {
        proof {
            assert(self.x * self.x >= 0) by (nonlinear_arith);
            assert(self.y * self.y >= 0) by (nonlinear_arith);
        }
        Integers::sq(self.x) + Integers::sq(self.y)
    }

    /// Conversion to a point with 16-bit coordinates (truncating, as `as i16` does).
    pub fn to_short(&self) -> (r: ShortPoint)
        ensures
            r.x == self.x as i16,
            r.y == self.y as i16,
    {
        ShortPoint::new(self.x as i16, self.y as i16)
    }

    /// Whether `other` lies in the rectangle `[0, x) × [0, y)` spanned by this size.
    pub fn contains(&self, other: &IntPoint) -> (r: bool)
        ensures
            r == (0 <= other.x < self.x && 0 <= other.y < self.y),
    {
        other.x >= 0 && other.y >= 0 && other.x < self.x && other.y < self.y
    }

    /// Component-wise sum.
    pub fn plus(&self, other: &IntPoint) -> (r: IntPoint)
        requires
            i32::MIN <= self.x + other.x <= i32::MAX,
            i32::MIN <= self.y + other.y <= i32::MAX,
        ensures
            r.x == self.x + other.x,
            r.y == self.y + other.y,
    {
        IntPoint { x: self.x + other.x, y: self.y + other.y }
    }

    /// Component-wise difference.
    pub fn minus(&self, other: &IntPoint) -> (r: IntPoint)
        requires
            i32::MIN <= self.x - other.x <= i32::MAX,
            i32::MIN <= self.y - other.y <= i32::MAX,
        ensures
            r.x == self.x - other.x,
            r.y == self.y - other.y,
    {
        IntPoint { x: self.x - other.x, y: self.y - other.y }
    }

    /// The points of the rasterized line from this point to `to`, both ends
    /// included: one point per step along the longer axis, the other
    /// coordinate moved by the exact ratio rounded half up.
    pub fn line_to(&self, to: &IntPoint) -> (r: Vec<IntPoint>)
        requires
            i32::MIN < to.x - self.x <= i32::MAX,
            i32::MIN < to.y - self.y <= i32::MAX,
        ensures
            r@.len() == line_len(*self, *to),
            forall|i: int| 0 <= i < r@.len() ==> #[trigger] r@[i] == line_point(*self, *to, i),
            r@.len() >= 1,
            r@[0] == *self,
            r@.last() == *to,
    {
        proof {
            law_line_endpoints(*self, *to);
        }
        let rx: i32 = to.x - self.x;
        let ry: i32 = to.y - self.y;
        let ax: i32 = if rx < 0 { -rx } else { rx };
        let ay: i32 = if ry < 0 { -ry } else { ry };
        let mut result: Vec<IntPoint> = Vec::new();
        if ax >= ay {
            if rx == 0 {
                result.push(*self);
                return result;
            }
            let mut i: i64 = 0;
            while i <= ax as i64
                invariant
                    0 <= i <= ax + 1,
                    ax == abs(rx as int),
                    ay == abs(ry as int),
                    ax >= ay,
                    rx != 0,
                    rx == to.x - self.x,
                    ry == to.y - self.y,
                    result@.len() == i,
                    forall|k: int| 0 <= k < i ==> #[trigger] result@[k] == line_point(*self, *to, k),
                decreases ax + 1 - i,
            {
                let p = if rx > 0 {
                    proof {
                        lemma_round_ratio_bounds(i as int, ry as int, ax as int);
                        assert(-(ax * ax) <= i * ry <= ax * ax) by (nonlinear_arith)
                            requires 0 <= i <= ax, -ax <= ry <= ax;
                        assert(ax * ax <= (i32::MAX as int) * (i32::MAX as int)) by (nonlinear_arith)
                            requires 0 <= ax <= i32::MAX;
                    }
                    let q = Self::rounded(i * ry as i64, ax as i64);
                    IntPoint { x: self.x + i as i32, y: self.y + q as i32 }
                } else {
                    proof {
                        lemma_round_ratio_bounds(i as int, -ry as int, ax as int);
                        assert(-(ax * ax) <= i * (-ry) <= ax * ax) by (nonlinear_arith)
                            requires 0 <= i <= ax, -ax <= ry <= ax;
                        assert(ax * ax <= (i32::MAX as int) * (i32::MAX as int)) by (nonlinear_arith)
                            requires 0 <= ax <= i32::MAX;
                    }
                    let q = Self::rounded(i * (-(ry as i64)), ax as i64);
                    IntPoint { x: self.x - i as i32, y: self.y - q as i32 }
                };
                result.push(p);
                i = i + 1;
            }
        } else {
            let mut i: i64 = 0;
            while i <= ay as i64
                invariant
                    0 <= i <= ay + 1,
                    ax == abs(rx as int),
                    ay == abs(ry as int),
                    ax < ay,
                    rx == to.x - self.x,
                    ry == to.y - self.y,
                    result@.len() == i,
                    forall|k: int| 0 <= k < i ==> #[trigger] result@[k] == line_point(*self, *to, k),
                decreases ay + 1 - i,
            {
                let p = if ry > 0 {
                    proof {
                        lemma_round_ratio_bounds(i as int, rx as int, ay as int);
                        assert(-(ay * ay) <= i * rx <= ay * ay) by (nonlinear_arith)
                            requires 0 <= i <= ay, -ay <= rx <= ay;
                        assert(ay * ay <= (i32::MAX as int) * (i32::MAX as int)) by (nonlinear_arith)
                            requires 0 <= ay <= i32::MAX;
                    }
                    let q = Self::rounded(i * rx as i64, ay as i64);
                    IntPoint { x: self.x + q as i32, y: self.y + i as i32 }
                } else {
                    proof {
                        lemma_round_ratio_bounds(i as int, -rx as int, ay as int);
                        assert(-(ay * ay) <= i * (-rx) <= ay * ay) by (nonlinear_arith)
                            requires 0 <= i <= ay, -ay <= rx <= ay;
                        assert(ay * ay <= (i32::MAX as int) * (i32::MAX as int)) by (nonlinear_arith)
                            requires 0 <= ay <= i32::MAX;
                    }
                    let q = Self::rounded(i * (-(rx as i64)), ay as i64);
                    IntPoint { x: self.x - q as i32, y: self.y - i as i32 }
                };
                result.push(p);
                i = i + 1;
            }
        }
        result
    }

    /// `round_ratio(num, den)` computed on machine integers.
    fn rounded(num: i64, den: i64) -> (r: i64)
        requires
            0 < den <= i32::MAX,
            -(den * den) <= num <= den * den,
        ensures
            r == round_ratio(num as int, den as int),
    {
        proof {
            assert(den * den <= (i32::MAX as int) * (i32::MAX as int)) by (nonlinear_arith)
                requires 0 < den <= i32::MAX;
        }
        let n: i64 = 2 * num + den;
        let d: i64 = 2 * den;
        if n >= 0 {
            n / d
        } else {
            let m: i64 = -n;
            let q: i64 = (m + d - 1) / d;
            proof {
                lemma_floor_negative(n as int, d as int, q as int);
            }
            -q
        }
    }

    /// All points of the rectangle `[0, x) × [0, y)` in row-major order.
    pub fn iterate(&self) -> (r: Vec<IntPoint>)
        ensures
            self.x <= 0 || self.y <= 0 ==> r@.len() == 0,
            self.x > 0 && self.y > 0 ==> r@.len() == self.x * self.y,
            forall|i: int| 0 <= i < r@.len() ==> #[trigger] r@[i] == (IntPoint { x: (i % self.x as int) as i32, y: (i / self.x as int) as i32 }),
    {
        let mut points: Vec<IntPoint> = Vec::new();
        if self.x <= 0 || self.y <= 0 {
            return points;
        }
        let mut y: i32 = 0;
        while y < self.y
            invariant
                0 <= y <= self.y,
                self.x > 0,
                points@.len() == y * self.x,
                forall|i: int| 0 <= i < points@.len() ==> #[trigger] points@[i] == (IntPoint { x: (i % self.x as int) as i32, y: (i / self.x as int) as i32 }),
            decreases self.y - y,
        {
            let mut x: i32 = 0;
            while x < self.x
                invariant
                    0 <= y < self.y,
                    0 <= x <= self.x,
                    self.x > 0,
                    points@.len() == y * self.x + x,
                    forall|i: int| 0 <= i < points@.len() ==> #[trigger] points@[i] == (IntPoint { x: (i % self.x as int) as i32, y: (i / self.x as int) as i32 }),
                decreases self.x - x,
            {
                proof {
                    let i = y * self.x + x;
                    assert(i % self.x as int == x && i / self.x as int == y) by (nonlinear_arith)
                        requires i == y * self.x + x, 0 <= x < self.x, 0 <= y;
                }
                points.push(IntPoint { x, y });
                x = x + 1;
            }
            proof {
                assert((y + 1) * self.x == y * self.x + self.x) by (nonlinear_arith);
            }
            y = y + 1;
        }
        proof {
            assert(self.y * self.x == self.x * self.y) by (nonlinear_arith);
        }
        points
    }
}

/// The eight surrounding offsets in row-major order.
pub open spec fn corner_offsets() -> Seq<IntPoint> {
    seq![
        IntPoint { x: -1i32, y: -1i32 },
        IntPoint { x: 0i32, y: -1i32 },
        IntPoint { x: 1i32, y: -1i32 },
        IntPoint { x: -1i32, y: 0i32 },
        IntPoint { x: 1i32, y: 0i32 },
        IntPoint { x: -1i32, y: 1i32 },
        IntPoint { x: 0i32, y: 1i32 },
        IntPoint { x: 1i32, y: 1i32 },
    ]
}

impl Default for IntPoint {
    fn default() -> (r: IntPoint)
        ensures
            r.x == 0 && r.y == 0,
    {
        IntPoint { x: 0i32, y: 0i32 }
    }
}

impl core::ops::Add for IntPoint {
    type Output = IntPoint;

    fn add(self, other: IntPoint) -> (r: IntPoint) {
        IntPoint { x: self.x + other.x, y: self.y + other.y }
    }
}

impl vstd::std_specs::ops::AddSpecImpl for IntPoint {
    open spec fn obeys_add_spec() -> bool {
        true
    }

    open spec fn add_req(self, rhs: IntPoint) -> bool {
        &&& i32::MIN <= self.x + rhs.x <= i32::MAX
        &&& i32::MIN <= self.y + rhs.y <= i32::MAX
    }

    open spec fn add_spec(self, rhs: IntPoint) -> IntPoint {
        IntPoint { x: (self.x + rhs.x) as i32, y: (self.y + rhs.y) as i32 }
    }
}

impl core::ops::Sub for IntPoint {
    type Output = IntPoint;

    fn sub(self, other: IntPoint) -> (r: IntPoint) {
        IntPoint { x: self.x - other.x, y: self.y - other.y }
    }
}

impl vstd::std_specs::ops::SubSpecImpl for IntPoint {
    open spec fn obeys_sub_spec() -> bool {
        true
    }

    open spec fn sub_req(self, rhs: IntPoint) -> bool {
        &&& i32::MIN <= self.x - rhs.x <= i32::MAX
        &&& i32::MIN <= self.y - rhs.y <= i32::MAX
    }

    open spec fn sub_spec(self, rhs: IntPoint) -> IntPoint {
        IntPoint { x: (self.x - rhs.x) as i32, y: (self.y - rhs.y) as i32 }
    }
}

impl core::ops::Neg for IntPoint {
    type Output = IntPoint;

    fn neg(self) -> (r: IntPoint) {
        IntPoint { x: (-self.x) as i32, y: (-self.y) as i32 }
    }
}

impl vstd::std_specs::ops::NegSpecImpl for IntPoint {
    open spec fn obeys_neg_spec() -> bool {
        true
    }

    open spec fn neg_req(self) -> bool {
        self.x != i32::MIN && self.y != i32::MIN
    }

    open spec fn neg_spec(self) -> IntPoint {
        IntPoint { x: (-self.x) as i32, y: (-self.y) as i32 }
    }
}


/// A rasterized line starts at its first point and ends at its second.
pub proof fn law_line_endpoints(from: IntPoint, to: IntPoint)
    ensures
        line_len(from, to) >= 1,
        line_point(from, to, 0) == from,
        line_point(from, to, line_len(from, to) - 1) == to,
{
    let rx = to.x - from.x;
    let ry = to.y - from.y;
    lemma_round_zero(ry, rx);
    lemma_round_zero(-ry, -rx);
    lemma_round_zero(rx, ry);
    lemma_round_zero(-rx, -ry);
    if abs(rx) >= abs(ry) {
        if rx > 0 {
            lemma_round_whole(rx, ry);
        } else if rx < 0 {
            lemma_round_whole(-rx, -ry);
        }
    } else {
        if ry > 0 {
            lemma_round_whole(ry, rx);
        } else {
            lemma_round_whole(-ry, -rx);
        }
    }
}

/// The floor of a negative `n` over a positive `d` is the negated ceiling of `-n / d`.
proof fn lemma_floor_negative(n: int, d: int, q: int)
    requires
        n < 0,
        d > 0,
        q == (-n + d - 1) / d,
    ensures
        n / d == -q,
{
    let m = -n;
    assert(q * d <= m + d - 1 < q * d + d) by (nonlinear_arith) requires q == (m + d - 1) / d, d > 0, m > 0;
    assert((-q) * d <= n < (-q) * d + d) by (nonlinear_arith) requires q * d <= m + d - 1 < q * d + d, m == -n;
    assert(n / d == -q) by (nonlinear_arith) requires (-q) * d <= n < (-q) * d + d, d > 0;
}

proof fn lemma_round_zero(r: int, d: int)
    ensures
        d > 0 ==> round_ratio(0 * r, d) == 0,
{
    if d > 0 {
        assert(0 * r == 0);
        assert(d / (2 * d) == 0) by (nonlinear_arith) requires d > 0;
    }
}

proof fn lemma_round_whole(d: int, r: int)
    requires
        d > 0,
    ensures
        round_ratio(d * r, d) == r,
{
    let n = 2 * (d * r) + d;
    assert((2 * d) * r <= n < (2 * d) * r + 2 * d) by (nonlinear_arith) requires n == 2 * (d * r) + d, d > 0;
    assert(n / (2 * d) == r) by (nonlinear_arith) requires (2 * d) * r <= n < (2 * d) * r + 2 * d, d > 0;
}
} // verus!
