//! Scalars of the animation data, carried as IEEE-754 single-precision bit
//! patterns.
//!
//! The library never computes with a scalar: it stores them, hands them on and
//! compares them. The comparisons are those of IEEE-754 (a NaN is unordered,
//! the two zeros are equal), worked out on the bit pattern with integer
//! arithmetic only.

use vstd::prelude::*;

verus! {

/// The bit pattern in which the sign bit alone is set (negative zero).
pub const SIGN_BIT: u32 = 0x8000_0000;

/// The bit pattern of positive infinity: every pattern whose magnitude lies
/// above it is a NaN.
pub const INFINITY_BITS: u32 = 0x7f80_0000;

/// The bit pattern of the number one.
pub const ONE_BITS: u32 = 0x3f80_0000;

/// One single-precision number, held as its 32 bits.
#[derive(Clone, Copy, Debug)]
pub struct Scalar {
    pub bits: u32,
}

impl Scalar {
    /// The pattern with the sign bit cleared.
    pub open spec fn magnitude(self) -> int {
        if self.bits >= SIGN_BIT {
            self.bits - SIGN_BIT
        } else {
            self.bits as int
        }
    }

    /// Whether the sign bit is set.
    pub open spec fn is_negative(self) -> bool {
        self.bits >= SIGN_BIT
    }

    /// Whether the pattern encodes a NaN.
    pub open spec fn is_nan(self) -> bool {
        self.magnitude() > INFINITY_BITS
    }

    /// The place of the number on the number line. Among patterns that are no
    /// NaN a greater number has a greater rank, and both zeros have rank 0.
    pub open spec fn rank(self) -> int {
        if self.is_negative() {
            -self.magnitude()
        } else {
            self.magnitude()
        }
    }

    /// `self < other` as IEEE-754 defines it.
    pub open spec fn lt(self, other: Scalar) -> bool {
        !self.is_nan() && !other.is_nan() && self.rank() < other.rank()
    }

    /// `self > other` as IEEE-754 defines it.
    pub open spec fn gt(self, other: Scalar) -> bool {
        other.lt(self)
    }

    /// `self >= other` as IEEE-754 defines it.
    pub open spec fn ge(self, other: Scalar) -> bool {
        !self.is_nan() && !other.is_nan() && self.rank() >= other.rank()
    }

    /// `self == other` as IEEE-754 defines it: no NaN equals anything, and
    /// negative zero equals positive zero.
    pub open spec fn same(self, other: Scalar) -> bool {
        !self.is_nan() && !other.is_nan() && self.rank() == other.rank()
    }

    /// Positive zero.
    pub open spec fn spec_zero() -> Scalar {
        Scalar { bits: 0 }
    }

    /// Positive zero.
    #[verifier::when_used_as_spec(spec_zero)]
    pub fn zero() -> (r: Scalar)
        ensures
            r == Scalar::spec_zero(),
    {
        Scalar { bits: 0 }
    }

    /// The number one.
    pub open spec fn spec_one() -> Scalar {
        Scalar { bits: ONE_BITS }
    }

    /// The number one.
    #[verifier::when_used_as_spec(spec_one)]
    pub fn one() -> (r: Scalar)
        ensures
            r == Scalar::spec_one(),
    {
        Scalar { bits: ONE_BITS }
    }

    /// The scalar with the given bit pattern.
    pub fn from_bits(bits: u32) -> (r: Scalar)
        ensures
            r.bits == bits,
    {
        Scalar { bits }
    }

    /// The bit pattern of the scalar.
    pub fn to_bits(self) -> (r: u32)
        ensures
            r == self.bits,
    {
        self.bits
    }

    /// Whether the scalar is a NaN.
    pub fn nan(self) -> (r: bool)
        ensures
            r == self.is_nan(),
    {
        if self.bits >= SIGN_BIT {
            self.bits - SIGN_BIT > INFINITY_BITS
        } else {
            self.bits > INFINITY_BITS
        }
    }

    /// `self < other`.
    pub fn less_than(self, other: Scalar) -> (r: bool)
        ensures
            r == self.lt(other),
    {
        if self.nan() || other.nan() {
            false
        } else if self.bits >= SIGN_BIT {
            if other.bits >= SIGN_BIT {
                self.bits > other.bits
            } else {
                self.bits > SIGN_BIT || other.bits > 0
            }
        } else {
            other.bits < SIGN_BIT && self.bits < other.bits
        }
    }

    /// `self > other`.
    pub fn greater_than(self, other: Scalar) -> (r: bool)
        ensures
            r == self.gt(other),
    {
        other.less_than(self)
    }

    /// `self >= other`.
    pub fn at_least(self, other: Scalar) -> (r: bool)
        ensures
            r == self.ge(other),
    {
        if self.nan() || other.nan() {
            false
        } else {
            !self.less_than(other)
        }
    }

    /// `self == other`, by value.
    pub fn equals(self, other: Scalar) -> (r: bool)
        ensures
            r == self.same(other),
    {
        if self.nan() || other.nan() {
            false
        } else if self.bits == other.bits {
            true
        } else {
            (self.bits == 0 || self.bits == SIGN_BIT) && (other.bits == 0 || other.bits
                == SIGN_BIT)
        }
    }
}

} // verus!
