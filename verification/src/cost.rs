//! Costs, as far as the algorithms read them: an order, a zero and infinities.
use vstd::prelude::*;

verus! {

/// A cost by its place in the numeric order.
///
/// `Number(k)` stands for a double-precision number: `k` is its bit pattern, with every
/// bit flipped for a negative number and the sign bit set for another one, so that `k`
/// orders as the number does. `Nan` is unordered with everything.
#[derive(Clone, Copy, Debug, PartialEq, Eq, Structural)]
pub enum Cost {
    Number(u64),
    Nan,
}

/// Place of zero in the order.
pub const ZERO_KEY: u64 = 0x8000_0000_0000_0000;

/// Place of positive infinity in the order.
pub const INFINITY_KEY: u64 = 0xfff0_0000_0000_0000;

/// Place of negative infinity in the order.
pub const NEG_INFINITY_KEY: u64 = 0x000f_ffff_ffff_ffff;

impl Cost {
    /// Numeric order; false where either side is not a number.
    pub open spec fn below(self, other: Cost) -> bool {
        match (self, other) {
            (Cost::Number(a), Cost::Number(b)) => a < b,
            _ => false,
        }
    }

    /// Numeric equality; false where either side is not a number.
    pub open spec fn same(self, other: Cost) -> bool {
        match (self, other) {
            (Cost::Number(a), Cost::Number(b)) => a == b,
            _ => false,
        }
    }

    /// Neither an infinity nor `Nan`.
    pub open spec fn finite(self) -> bool {
        match self {
            Cost::Number(a) => NEG_INFINITY_KEY < a < INFINITY_KEY,
            Cost::Nan => false,
        }
    }

    /// The larger of two; the other one where one is not a number.
    pub open spec fn larger(self, other: Cost) -> Cost {
        match (self, other) {
            (Cost::Nan, _) => other,
            (_, Cost::Nan) => self,
            _ => if self.below(other) {
                other
            } else {
                self
            },
        }
    }

    /// Zero.
    pub fn zero() -> (r: Cost)
        ensures
            r == Cost::Number(ZERO_KEY),
    {
        Cost::Number(ZERO_KEY)
    }

    /// Positive infinity.
    pub fn infinity() -> (r: Cost)
        ensures
            r == Cost::Number(INFINITY_KEY),
    {
        Cost::Number(INFINITY_KEY)
    }

    /// Numeric order; false where either side is not a number.
    pub fn less(self, other: Cost) -> (r: bool)
        ensures
            r == self.below(other),
    {
        match (self, other) {
            (Cost::Number(a), Cost::Number(b)) => a < b,
            _ => false,
        }
    }

    /// Numeric equality; false where either side is not a number.
    pub fn equal(self, other: Cost) -> (r: bool)
        ensures
            r == self.same(other),
    {
        match (self, other) {
            (Cost::Number(a), Cost::Number(b)) => a == b,
            _ => false,
        }
    }

    /// The larger of two; the other one where one is not a number.
    pub fn max(self, other: Cost) -> (r: Cost)
        ensures
            r == self.larger(other),
    {
        match (self, other) {
            (Cost::Nan, _) => other,
            (_, Cost::Nan) => self,
            _ => if self.less(other) {
                other
            } else {
                self
            },
        }
    }

    /// Neither an infinity nor `Nan`.
    pub fn is_finite(self) -> (r: bool)
        ensures
            r == self.finite(),
    {
        match self {
            Cost::Number(a) => NEG_INFINITY_KEY < a && a < INFINITY_KEY,
            Cost::Nan => false,
        }
    }
}

} // verus!
