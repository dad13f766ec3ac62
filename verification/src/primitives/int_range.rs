use vstd::prelude::*;
use vstd::string::StringExecFns;
use crate::primitives::decimal::{append_decimal, decimal};

verus! {

/// A half-open range `[start, end)`.
#[derive(Clone, Copy, Debug, PartialEq, Eq, Structural, PartialOrd, Ord)]
pub struct IntRange {
    pub start: i32,
    pub end: i32,
}

impl IntRange {
    /// The empty range at zero.
    pub fn zero() -> (r: IntRange)
        ensures
            r.start == 0 && r.end == 0,
    {
        IntRange { start: 0, end: 0 }
    }

    pub fn new(start: i32, end: i32) -> (r: IntRange)
        ensures
            r.start == start,
            r.end == end,
    {
        IntRange { start, end }
    }

    /// Number of integers in the range.
    pub fn length(&self) -> (r: i32)
        requires
            i32::MIN <= self.end - self.start <= i32::MAX,
        ensures
            r == self.end - self.start,
    {
        self.end - self.start
    }

    /// The range written as `start..end`.
    pub fn to_string(&self) -> (r: String)
        ensures
            r@ == decimal(self.start as int) + "..".view() + decimal(self.end as int),
    {
        let mut s = String::new();
        append_decimal(&mut s, self.start);
        s.append("..");
        append_decimal(&mut s, self.end);
        proof {
            assert(s@ =~= decimal(self.start as int) + "..".view() + decimal(self.end as int));
        }
        s
    }
}

impl Default for IntRange {
    fn default() -> (r: IntRange)
        ensures
            r.start == 0 && r.end == 0,
    {
        IntRange { start: 0, end: 0 }
    }
}

} // verus!
