//! Binary floating point values, held by their bit patterns.
//!
//! Distances, deviations and tolerances are IEEE 754 numbers. The library
//! compares them, and does so exactly: the order of two numbers is read off
//! their bits. Arithmetic on them belongs to the
//! [`FloatArithmetic`](crate::scalar::FloatArithmetic) of the caller.

use vstd::prelude::*;

verus! {

/// A single precision number.
#[derive(Clone, Copy, Debug, PartialEq, Eq, Structural)]
pub struct Float32 {
    /// Sign, exponent and fraction, from the highest bit down.
    pub bits: u32,
}

/// A double precision number.
#[derive(Clone, Copy, Debug, PartialEq, Eq, Structural)]
pub struct Float64 {
    /// Sign, exponent and fraction, from the highest bit down.
    pub bits: u64,
}

impl Float32 {
    /// The bits below the sign, as a number.
    pub open spec fn magnitude(self) -> int {
        if self.bits < 0x8000_0000 {
            self.bits as int
        } else {
            self.bits - 0x8000_0000
        }
    }

    /// Whether the pattern stands for no number: all exponent bits are set and
    /// the fraction is not zero.
    pub open spec fn is_nan(self) -> bool {
        self.magnitude() > 0x7f80_0000
    }

    /// An integer that orders as the number does; both zeros have rank 0.
    pub open spec fn rank(self) -> int {
        if self.bits < 0x8000_0000 {
            self.magnitude()
        } else {
            -self.magnitude()
        }
    }

    /// The order of IEEE 754: nothing is below or above a NaN.
    pub open spec fn less(self, other: Float32) -> bool {
        &&& !self.is_nan()
        &&& !other.is_nan()
        &&& self.rank() < other.rank()
    }

    /// Positive zero.
    pub open spec fn spec_zero() -> Float32 {
        Float32 { bits: 0 }
    }

    /// The largest finite number.
    pub open spec fn spec_max() -> Float32 {
        Float32 { bits: 0x7f7f_ffff }
    }

    /// Positive infinity.
    pub open spec fn spec_infinity() -> Float32 {
        Float32 { bits: 0x7f80_0000 }
    }

    /// Positive zero.
    pub fn zero() -> (r: Float32)
        ensures
            r == Float32::spec_zero(),
    {
        Float32 { bits: 0 }
    }

    /// The largest finite number.
    pub fn max() -> (r: Float32)
        ensures
            r == Float32::spec_max(),
    {
        Float32 { bits: 0x7f7f_ffff }
    }

    /// Positive infinity.
    pub fn infinity() -> (r: Float32)
        ensures
            r == Float32::spec_infinity(),
    {
        Float32 { bits: 0x7f80_0000 }
    }

    /// Whether this number is below the other.
    pub fn lt(self, other: Float32) -> (r: bool)
        ensures
            r == self.less(other),
    {
        let a_negative: bool = self.bits >= 0x8000_0000;
        let b_negative: bool = other.bits >= 0x8000_0000;
        let a: u32 = if a_negative {
            self.bits - 0x8000_0000
        } else {
            self.bits
        };
        let b: u32 = if b_negative {
            other.bits - 0x8000_0000
        } else {
            other.bits
        };
        if a > 0x7f80_0000 || b > 0x7f80_0000 {
            false
        } else if a_negative {
            if b_negative {
                b < a
            } else {
                a > 0 || b > 0
            }
        } else {
            !b_negative && a < b
        }
    }
}

impl Float64 {
    /// The bits below the sign, as a number.
    pub open spec fn magnitude(self) -> int {
        if self.bits < 0x8000_0000_0000_0000 {
            self.bits as int
        } else {
            self.bits - 0x8000_0000_0000_0000
        }
    }

    /// Whether the pattern stands for no number: all exponent bits are set and
    /// the fraction is not zero.
    pub open spec fn is_nan(self) -> bool {
        self.magnitude() > 0x7ff0_0000_0000_0000
    }

    /// An integer that orders as the number does; both zeros have rank 0.
    pub open spec fn rank(self) -> int {
        if self.bits < 0x8000_0000_0000_0000 {
            self.magnitude()
        } else {
            -self.magnitude()
        }
    }

    /// The order of IEEE 754: nothing is below or above a NaN.
    pub open spec fn less(self, other: Float64) -> bool {
        &&& !self.is_nan()
        &&& !other.is_nan()
        &&& self.rank() < other.rank()
    }

    /// The number without its sign.
    pub open spec fn spec_abs(self) -> Float64 {
        Float64 { bits: self.magnitude() as u64 }
    }

    /// Positive zero.
    pub open spec fn spec_zero() -> Float64 {
        Float64 { bits: 0 }
    }

    /// Positive zero.
    pub fn zero() -> (r: Float64)
        ensures
            r == Float64::spec_zero(),
    {
        Float64 { bits: 0 }
    }

    /// The number without its sign.
    pub fn abs(self) -> (r: Float64)
        ensures
            r == self.spec_abs(),
    {
        if self.bits < 0x8000_0000_0000_0000 {
            self
        } else {
            Float64 { bits: self.bits - 0x8000_0000_0000_0000 }
        }
    }

    /// Whether this number is below the other.
    pub fn lt(self, other: Float64) -> (r: bool)
        ensures
            r == self.less(other),
    {
        let a_negative: bool = self.bits >= 0x8000_0000_0000_0000;
        let b_negative: bool = other.bits >= 0x8000_0000_0000_0000;
        let a: u64 = if a_negative {
            self.bits - 0x8000_0000_0000_0000
        } else {
            self.bits
        };
        let b: u64 = if b_negative {
            other.bits - 0x8000_0000_0000_0000
        } else {
            other.bits
        };
        if a > 0x7ff0_0000_0000_0000 || b > 0x7ff0_0000_0000_0000 {
            false
        } else if a_negative {
            if b_negative {
                b < a
            } else {
                a > 0 || b > 0
            }
        } else {
            !b_negative && a < b
        }
    }
}

/// The order of single precision numbers is strict and total up to the two
/// zeros, as long as no NaN takes part.
pub proof fn law_less_is_strict_weak_order(a: Float32, b: Float32, c: Float32)
    ensures
        !a.less(a),
        a.less(b) ==> !b.less(a),
        a.less(b) && b.less(c) ==> a.less(c),
        !b.is_nan() && a.less(c) ==> a.less(b) || b.less(c),
{
}

} // verus!
