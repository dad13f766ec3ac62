use vstd::prelude::*;
use vstd::std_specs::bits::{u32_leading_zeros, axiom_u32_leading_zeros};

verus! {

/// Number of set bits of `x`.
pub open spec fn popcount(x: nat) -> nat
    decreases x,
{
    if x == 0 {
        0
    } else {
        (x % 2) + popcount(x / 2)
    }
}

/// A natural number has no more set bits than its value.
pub proof fn lemma_popcount_bound(x: nat)
    ensures
        popcount(x) <= x,
    decreases x,
{
    if x > 0 {
        lemma_popcount_bound(x / 2);
    }
}

/// Integer division rounded toward zero, as Rust's `/` does on signed integers.
pub open spec fn div_toward_zero(a: int, b: int) -> int {
    if a == 0 {
        0
    } else if a > 0 && b > 0 {
        a / b
    } else if a < 0 && b < 0 {
        (-a) / (-b)
    } else if a < 0 {
        -((-a) / b)
    } else {
        -(a / (-b))
    }
}

/// `a / b` on `i32`, rounded toward zero.
pub fn div_i32(a: i32, b: i32) -> (r: i32)
    requires
        b != 0,
        !(a == i32::MIN && b == -1),
    ensures
        r == div_toward_zero(a as int, b as int),
{
    proof {
        let x = a as int;
        let d = b as int;
        if x > 0 && d > 0 {
            assert(x / d <= x) by (nonlinear_arith) requires x > 0, d > 0;
            assert(x / d >= 0) by (nonlinear_arith) requires x > 0, d > 0;
        } else if x < 0 && d < 0 {
            assert((-x) / (-d) <= -x) by (nonlinear_arith) requires x < 0, d < 0;
            assert((-x) / (-d) >= 0) by (nonlinear_arith) requires x < 0, d < 0;
            assert(d == -1 ==> x > i32::MIN);
            if d <= -2 {
                assert((-x) / (-d) <= (-x) / 2) by (nonlinear_arith) requires x < 0, d <= -2;
            }
        } else if x < 0 && d > 0 {
            assert((-x) / d <= -x) by (nonlinear_arith) requires x < 0, d > 0;
            assert((-x) / d >= 0) by (nonlinear_arith) requires x < 0, d > 0;
        } else if x > 0 {
            assert(x / (-d) <= x) by (nonlinear_arith) requires x > 0, d < 0;
            assert(x / (-d) >= 0) by (nonlinear_arith) requires x > 0, d < 0;
        }
    }
    a.checked_div(b).unwrap()
}

/// Static helpers for integer arithmetic.
pub struct Integers;

impl Integers {
    /// Square of `value`.
    pub fn sq(value: i32) -> (r: i32)
        requires
            value * value <= i32::MAX,
        ensures
            r == value * value,
    {
        proof {
            assert(value * value >= 0) by (nonlinear_arith);
        }
        value * value
    }

    /// Division rounded up for positive operands: `(dividend + divisor - 1) / divisor`.
    pub fn round_up_div(dividend: i32, divisor: i32) -> (r: i32)
        requires
            divisor != 0,
            i32::MIN <= dividend + divisor <= i32::MAX,
            i32::MIN <= dividend + divisor - 1,
            !(divisor == -1 && dividend + divisor - 1 == i32::MIN),
        ensures
            r == div_toward_zero(dividend + divisor - 1, divisor as int),
    {
        let n = dividend + divisor - 1;
        div_i32(n, divisor)
    }

    /// Number of set bits in `x`.
    pub fn population_count(x: u32) -> (r: u32)
        ensures
            r == popcount(x as nat),
    {
        proof {
            lemma_popcount_bound(x as nat);
        }
        let mut v = x;
        let mut count: u32 = 0;
        while v > 0
            invariant
                count + popcount(v as nat) == popcount(x as nat),
                popcount(x as nat) <= x,
            decreases v,
        {
            proof {
                lemma_popcount_bound((v / 2) as nat);
            }
            count = count + v % 2;
            v = v / 2;
        }
        count
    }

    /// Number of leading zero bits in the 32-bit value `x`.
    pub fn leading_zeros(x: u32) -> (r: u32)
        ensures
            r == u32_leading_zeros(x),
            r <= 32,
            (r == 32) == (x == 0),
    {
        proof {
            axiom_u32_leading_zeros(x);
        }
        x.leading_zeros()
    }
}

} // verus!
