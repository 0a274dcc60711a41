//! Binary64 measures, held by their bit patterns.
//!
//! A pattern is a sign bit above 63 bits of magnitude. Magnitudes up to
//! [`INFINITY_BITS`] are numbers (the last of them infinity), and larger
//! ones are not. Among numbers a larger magnitude is farther from zero, so
//! the magnitude taken with the sign, the [`Measure::rank`], orders the
//! patterns as the numbers themselves are ordered. The two zeros share a
//! rank and are equal.
use vstd::prelude::*;

verus! {

/// The pattern with only the sign bit set.
pub const SIGN_BIT: u64 = 0x8000_0000_0000_0000;

/// The magnitude of infinity, the largest that is a number.
pub const INFINITY_BITS: u64 = 0x7ff0_0000_0000_0000;

/// A binary64 number, or a pattern that is none.
#[derive(Clone, Copy, Debug, PartialEq, Eq, Structural)]
pub struct Measure {
    pub bits: u64,
}

impl Measure {
    /// The pattern without its sign bit.
    pub open spec fn magnitude(self) -> int {
        if self.bits >= SIGN_BIT {
            self.bits - SIGN_BIT
        } else {
            self.bits as int
        }
    }

    /// Whether the sign bit is set.
    pub open spec fn is_negative(self) -> bool {
        self.bits >= SIGN_BIT
    }

    /// Whether the pattern is not a number.
    pub open spec fn is_nan(self) -> bool {
        self.magnitude() > INFINITY_BITS
    }

    /// The place of a number among the numbers: its magnitude, counted
    /// downwards from zero where the sign bit is set.
    pub open spec fn rank(self) -> int {
        if self.is_negative() {
            -self.magnitude()
        } else {
            self.magnitude()
        }
    }

    /// Equality of numbers: both are numbers and have the same rank.
    pub open spec fn same_number(self, other: Measure) -> bool {
        !self.is_nan() && !other.is_nan() && self.rank() == other.rank()
    }

    /// Strict order of numbers: both are numbers and the first ranks lower.
    pub open spec fn below(self, other: Measure) -> bool {
        !self.is_nan() && !other.is_nan() && self.rank() < other.rank()
    }

    /// The measure with the given bit pattern.
    pub fn from_bits(bits: u64) -> (m: Measure)
        ensures
            m.bits == bits,
    {
        Measure { bits }
    }

    /// The bit pattern.
    pub fn to_bits(&self) -> (bits: u64)
        ensures
            bits == self.bits,
    {
        self.bits
    }

    /// Positive zero.
    pub fn zero() -> (m: Measure)
        ensures
            m.bits == 0,
            !m.is_nan(),
            m.rank() == 0,
    {
        Measure { bits: 0 }
    }

    /// Whether the pattern is not a number.
    pub fn not_a_number(&self) -> (b: bool)
        ensures
            b == self.is_nan(),
    {
        self.exec_magnitude() > INFINITY_BITS
    }

    fn exec_magnitude(&self) -> (m: u64)
        ensures
            m == self.magnitude(),
    {
        if self.bits >= SIGN_BIT {
            self.bits - SIGN_BIT
        } else {
            self.bits
        }
    }

    fn exec_rank(&self) -> (r: i128)
        ensures
            r == self.rank(),
    {
        let m: u64 = self.exec_magnitude();
        if self.bits >= SIGN_BIT {
            -(m as i128)
        } else {
            m as i128
        }
    }

    /// Whether the two are equal as numbers. A pattern that is no number
    /// equals nothing, itself included.
    pub fn equals(&self, other: &Measure) -> (b: bool)
        ensures
            b == self.same_number(*other),
    {
        !self.not_a_number() && !other.not_a_number() && self.exec_rank() == other.exec_rank()
    }

    /// Whether the first is the smaller number. A pattern that is no number
    /// is neither smaller nor larger than anything.
    pub fn less_than(&self, other: &Measure) -> (b: bool)
        ensures
            b == self.below(*other),
    {
        !self.not_a_number() && !other.not_a_number() && self.exec_rank() < other.exec_rank()
    }
}

} // verus!
