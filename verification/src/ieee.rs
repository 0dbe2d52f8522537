//! IEEE 754 values held as bit patterns, with the comparisons of the standard.

use vstd::prelude::*;

verus! {

/// The sign bit of a 32-bit pattern.
pub const SIGN_32: u32 = 0x8000_0000;

/// The pattern of positive infinity; every larger magnitude is not a number.
pub const INFINITY_32: u32 = 0x7f80_0000;

/// The sign bit of a 64-bit pattern.
pub const SIGN_64: u64 = 0x8000_0000_0000_0000;

/// The pattern of positive infinity; every larger magnitude is not a number.
pub const INFINITY_64: u64 = 0x7ff0_0000_0000_0000;

/// A 32-bit IEEE 754 value, held as its bit pattern.
///
/// `==` compares patterns; [`Real32::equals`] compares numbers.
#[derive(Clone, Copy, Debug, PartialEq, Eq, Structural)]
pub struct Real32 {
    pub bits: u32,
}

/// A 64-bit IEEE 754 value, held as its bit pattern.
#[derive(Clone, Copy, Debug, PartialEq, Eq, Structural)]
pub struct Real64 {
    pub bits: u64,
}

impl Real32 {
    /// Whether the sign bit is set.
    pub open spec fn negative(self) -> bool {
        self.bits >= SIGN_32
    }

    /// The pattern without its sign: patterns of one sign are ordered by it.
    pub open spec fn magnitude(self) -> int {
        if self.negative() {
            self.bits - SIGN_32
        } else {
            self.bits as int
        }
    }

    /// The value is not a number.
    pub open spec fn nan(self) -> bool {
        self.magnitude() > INFINITY_32
    }

    /// A number's place among the numbers; the two zeros share a place.
    pub open spec fn rank(self) -> int {
        if self.negative() {
            -self.magnitude()
        } else {
            self.magnitude()
        }
    }

    /// The place in the total order, which tells the zeros apart and puts the
    /// values that are not numbers at the two ends.
    pub open spec fn total_rank(self) -> int {
        if self.negative() {
            -self.magnitude() - 1
        } else {
            self.magnitude()
        }
    }

    /// `self < other`.
    pub open spec fn below(self, other: Real32) -> bool {
        !self.nan() && !other.nan() && self.rank() < other.rank()
    }

    /// `self <= other`.
    pub open spec fn at_most(self, other: Real32) -> bool {
        !self.nan() && !other.nan() && self.rank() <= other.rank()
    }

    /// `self == other` as numbers.
    pub open spec fn same(self, other: Real32) -> bool {
        !self.nan() && !other.nan() && self.rank() == other.rank()
    }

    /// The value with its sign bit cleared.
    pub open spec fn unsigned(self) -> Real32 {
        Real32 { bits: self.magnitude() as u32 }
    }

    /// The value with this bit pattern.
    pub fn from_bits(bits: u32) -> (r: Real32)
        ensures
            r.bits == bits,
    {
        Real32 { bits }
    }

    /// Whether the value is not a number.
    pub fn is_nan(&self) -> (r: bool)
        ensures
            r == self.nan(),
    {
        let m: u32 = if self.bits >= SIGN_32 { self.bits - SIGN_32 } else { self.bits };
        m > INFINITY_32
    }

    /// The integer by which numbers are compared.
    pub fn number_rank(&self) -> (r: i64)
        ensures
            r == self.rank(),
            -0x8000_0000 < r < 0x8000_0000,
    {
        if self.bits >= SIGN_32 {
            -((self.bits - SIGN_32) as i64)
        } else {
            self.bits as i64
        }
    }

    /// The integer by which all values are ordered.
    pub fn order_rank(&self) -> (r: i64)
        ensures
            r == self.total_rank(),
            -0x8000_0000 <= r < 0x8000_0000,
    {
        if self.bits >= SIGN_32 {
            -((self.bits - SIGN_32) as i64) - 1
        } else {
            self.bits as i64
        }
    }

    /// `self < other`; false where either is not a number.
    pub fn less(&self, other: &Real32) -> (r: bool)
        ensures
            r == self.below(*other),
    {
        !self.is_nan() && !other.is_nan() && self.number_rank() < other.number_rank()
    }

    /// `self <= other`; false where either is not a number.
    pub fn less_or_equal(&self, other: &Real32) -> (r: bool)
        ensures
            r == self.at_most(*other),
    {
        !self.is_nan() && !other.is_nan() && self.number_rank() <= other.number_rank()
    }

    /// `self == other` as numbers: the zeros are equal, and nothing equals a
    /// value that is not a number.
    pub fn equals(&self, other: &Real32) -> (r: bool)
        ensures
            r == self.same(*other),
    {
        !self.is_nan() && !other.is_nan() && self.number_rank() == other.number_rank()
    }

    /// The absolute value.
    pub fn abs(&self) -> (r: Real32)
        ensures
            r == self.unsigned(),
            r.magnitude() == self.magnitude(),
            !r.negative(),
            r.nan() == self.nan(),
    {
        if self.bits >= SIGN_32 {
            Real32 { bits: self.bits - SIGN_32 }
        } else {
            Real32 { bits: self.bits }
        }
    }
}

impl Real64 {
    /// Whether the sign bit is set.
    pub open spec fn negative(self) -> bool {
        self.bits >= SIGN_64
    }

    /// The pattern without its sign.
    pub open spec fn magnitude(self) -> int {
        if self.negative() {
            self.bits - SIGN_64
        } else {
            self.bits as int
        }
    }

    /// The value is not a number.
    pub open spec fn nan(self) -> bool {
        self.magnitude() > INFINITY_64
    }

    /// A number's place among the numbers; the two zeros share a place.
    pub open spec fn rank(self) -> int {
        if self.negative() {
            -self.magnitude()
        } else {
            self.magnitude()
        }
    }

    /// `self < other`.
    pub open spec fn below(self, other: Real64) -> bool {
        !self.nan() && !other.nan() && self.rank() < other.rank()
    }

    /// `self <= other`.
    pub open spec fn at_most(self, other: Real64) -> bool {
        !self.nan() && !other.nan() && self.rank() <= other.rank()
    }

    /// The value with its sign bit cleared.
    pub open spec fn unsigned(self) -> Real64 {
        Real64 { bits: self.magnitude() as u64 }
    }

    /// The value with this bit pattern.
    pub fn from_bits(bits: u64) -> (r: Real64)
        ensures
            r.bits == bits,
    {
        Real64 { bits }
    }

    /// Whether the value is not a number.
    pub fn is_nan(&self) -> (r: bool)
        ensures
            r == self.nan(),
    {
        let m: u64 = if self.bits >= SIGN_64 { self.bits - SIGN_64 } else { self.bits };
        m > INFINITY_64
    }

    /// The integer by which numbers are compared.
    pub fn number_rank(&self) -> (r: i128)
        ensures
            r == self.rank(),
    {
        if self.bits >= SIGN_64 {
            -((self.bits - SIGN_64) as i128)
        } else {
            self.bits as i128
        }
    }

    /// `self < other`; false where either is not a number.
    pub fn less(&self, other: &Real64) -> (r: bool)
        ensures
            r == self.below(*other),
    {
        !self.is_nan() && !other.is_nan() && self.number_rank() < other.number_rank()
    }

    /// `self <= other`; false where either is not a number.
    pub fn less_or_equal(&self, other: &Real64) -> (r: bool)
        ensures
            r == self.at_most(*other),
    {
        !self.is_nan() && !other.is_nan() && self.number_rank() <= other.number_rank()
    }

    /// The absolute value.
    pub fn abs(&self) -> (r: Real64)
        ensures
            r == self.unsigned(),
    {
        if self.bits >= SIGN_64 {
            Real64 { bits: self.bits - SIGN_64 }
        } else {
            Real64 { bits: self.bits }
        }
    }
}

/// Clearing the sign twice is clearing it once, and what remains is at least zero.
pub proof fn unsigned_is_idempotent(x: Real32)
    ensures
        x.unsigned().unsigned() == x.unsigned(),
        !x.unsigned().nan() ==> x.unsigned().rank() >= 0,
{
}

/// Of two numbers exactly one of `<`, `==`, `>` holds.
pub proof fn numbers_are_ordered(a: Real32, b: Real32)
    requires
        !a.nan(),
        !b.nan(),
    ensures
        a.below(b) || a.same(b) || b.below(a),
        !(a.below(b) && b.below(a)),
        !(a.below(b) && a.same(b)),
{
}

/// The total order separates distinct patterns and refines `<` on numbers.
pub proof fn total_order_refines_numbers(a: Real32, b: Real32)
    ensures
        a.total_rank() == b.total_rank() ==> a == b,
        a.below(b) ==> a.total_rank() < b.total_rank(),
{
}

} // verus!
