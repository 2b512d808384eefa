//! Binary64 numbers held by their bit pattern.
//!
//! A `Float` is the 64-bit IEEE 754 interchange encoding of a number: one sign
//! bit, eleven exponent bits, fifty-two fraction bits. Everything here is
//! integer arithmetic on that encoding, so the results are the same on every
//! machine.

use vstd::prelude::*;
use vstd::std_specs::cmp::PartialEqSpecImpl;

verus! {

/// The sign bit of the encoding.
pub const SIGN_BIT: u64 = 0x8000_0000_0000_0000;

/// The encoding of positive infinity; every larger magnitude is a NaN.
pub const INFINITY_BITS: u64 = 0x7FF0_0000_0000_0000;

/// The encoding of the NaN that arithmetic here returns.
pub const NAN_BITS: u64 = 0x7FF8_0000_0000_0000;

/// A binary64 number, held by its encoding.
#[derive(Clone, Copy, Debug)]
pub struct Float {
    pub bits: u64,
}

impl Float {
    /// Positive zero.
    pub fn zero() -> (r: Float)
        ensures
            r.bits == 0,
    {
        Float { bits: 0 }
    }

    /// Positive infinity.
    pub fn infinity() -> (r: Float)
        ensures
            r.bits == INFINITY_BITS,
    {
        Float { bits: INFINITY_BITS }
    }

    /// Negative infinity.
    pub fn neg_infinity() -> (r: Float)
        ensures
            r.bits == INFINITY_BITS + SIGN_BIT,
    {
        Float { bits: INFINITY_BITS + SIGN_BIT }
    }

    /// The NaN that arithmetic here returns.
    pub fn nan() -> (r: Float)
        ensures
            r.bits == NAN_BITS,
    {
        Float { bits: NAN_BITS }
    }

    /// The encoding without its sign bit.
    pub open spec fn magnitude(self) -> nat {
        if self.bits >= SIGN_BIT {
            (self.bits - SIGN_BIT) as nat
        } else {
            self.bits as nat
        }
    }

    /// Whether the sign bit is set, as it is also in negative zero.
    pub open spec fn spec_is_sign_negative(self) -> bool {
        self.bits >= SIGN_BIT
    }

    /// Whether the encoding is that of no number.
    pub open spec fn spec_is_nan(self) -> bool {
        self.magnitude() > INFINITY_BITS
    }

    /// Whether the number is positive or negative infinity.
    pub open spec fn spec_is_infinite(self) -> bool {
        self.magnitude() == INFINITY_BITS
    }

    /// Whether the number is neither an infinity nor a NaN.
    pub open spec fn spec_is_finite(self) -> bool {
        self.magnitude() < INFINITY_BITS
    }

    /// Where a number that is no NaN stands in the order of all such numbers:
    /// the magnitude of the encoding, negated under a sign bit. Both zeros
    /// have key 0, and the infinities are the extremes.
    pub open spec fn key(self) -> int {
        if self.bits >= SIGN_BIT {
            -(self.magnitude() as int)
        } else {
            self.magnitude() as int
        }
    }

    /// Where an encoding stands in an order of all encodings that agrees with
    /// the order of the numbers and puts negative zero before positive zero.
    pub open spec fn rank(self) -> int {
        if self.bits >= SIGN_BIT {
            -(self.magnitude() as int) - 1
        } else {
            self.magnitude() as int
        }
    }

    /// `self < other` as numbers; false where either is a NaN.
    pub open spec fn spec_lt(self, other: Float) -> bool {
        !self.spec_is_nan() && !other.spec_is_nan() && self.key() < other.key()
    }

    /// `self <= other` as numbers; false where either is a NaN.
    pub open spec fn spec_le(self, other: Float) -> bool {
        !self.spec_is_nan() && !other.spec_is_nan() && self.key() <= other.key()
    }

    /// `self == other` as numbers: a NaN equals nothing, and the two zeros
    /// are equal.
    pub open spec fn same(self, other: Float) -> bool {
        !self.spec_is_nan() && !other.spec_is_nan() && self.key() == other.key()
    }

    /// The encoding with the opposite sign bit.
    pub open spec fn spec_neg(self) -> Float {
        Float {
            bits: if self.bits >= SIGN_BIT {
                (self.bits - SIGN_BIT) as u64
            } else {
                (self.bits + SIGN_BIT) as u64
            },
        }
    }

    /// The number with the given encoding.
    pub fn from_bits(bits: u64) -> (r: Float)
        ensures
            r.bits == bits,
    {
        Float { bits }
    }

    /// The encoding of the number.
    pub fn to_bits(self) -> (r: u64)
        ensures
            r == self.bits,
    {
        self.bits
    }

    /// The encoding without its sign bit.
    pub fn abs_bits(self) -> (r: u64)
        ensures
            r == self.magnitude(),
    {
        if self.bits >= SIGN_BIT {
            self.bits - SIGN_BIT
        } else {
            self.bits
        }
    }

    /// Whether the sign bit is set, as it is also in negative zero.
    #[verifier::when_used_as_spec(spec_is_sign_negative)]
    pub fn is_sign_negative(self) -> (r: bool)
        ensures
            r == self.spec_is_sign_negative(),
    {
        self.bits >= SIGN_BIT
    }

    /// Whether the encoding is that of no number.
    #[verifier::when_used_as_spec(spec_is_nan)]
    pub fn is_nan(self) -> (r: bool)
        ensures
            r == self.spec_is_nan(),
    {
        self.abs_bits() > INFINITY_BITS
    }

    /// Whether the number is positive or negative infinity.
    #[verifier::when_used_as_spec(spec_is_infinite)]
    pub fn is_infinite(self) -> (r: bool)
        ensures
            r == self.spec_is_infinite(),
    {
        self.abs_bits() == INFINITY_BITS
    }

    /// Whether the number is neither an infinity nor a NaN.
    #[verifier::when_used_as_spec(spec_is_finite)]
    pub fn is_finite(self) -> (r: bool)
        ensures
            r == self.spec_is_finite(),
    {
        self.abs_bits() < INFINITY_BITS
    }

    /// The same number with the opposite sign.
    #[verifier::when_used_as_spec(spec_neg)]
    pub fn neg(self) -> (r: Float)
        ensures
            r == self.spec_neg(),
    {
        if self.bits >= SIGN_BIT {
            Float { bits: self.bits - SIGN_BIT }
        } else {
            Float { bits: self.bits + SIGN_BIT }
        }
    }

    /// `self < other` as numbers; false where either is a NaN.
    #[verifier::when_used_as_spec(spec_lt)]
    pub fn lt(self, other: Float) -> (r: bool)
        ensures
            r == self.spec_lt(other),
    {
        if self.is_nan() || other.is_nan() {
            return false;
        }
        let a: u64 = self.abs_bits();
        let b: u64 = other.abs_bits();
        if self.is_sign_negative() {
            if other.is_sign_negative() {
                b < a
            } else {
                a > 0 || b > 0
            }
        } else {
            if other.is_sign_negative() {
                false
            } else {
                a < b
            }
        }
    }

    /// `self <= other` as numbers; false where either is a NaN.
    #[verifier::when_used_as_spec(spec_le)]
    pub fn le(self, other: Float) -> (r: bool)
        ensures
            r == self.spec_le(other),
    {
        if self.is_nan() || other.is_nan() {
            return false;
        }
        !other.lt(self)
    }

    /// Whether `self` stands before `other` in the order of `rank`.
    pub fn precedes(self, other: Float) -> (r: bool)
        ensures
            r == (self.rank() < other.rank()),
    {
        let a: u64 = self.abs_bits();
        let b: u64 = other.abs_bits();
        if self.is_sign_negative() {
            if other.is_sign_negative() {
                b < a
            } else {
                true
            }
        } else {
            if other.is_sign_negative() {
                false
            } else {
                a < b
            }
        }
    }

    /// The smaller of two numbers. A NaN is passed over: where one of the two
    /// is a NaN the other is returned. Of the two zeros the negative one is
    /// the smaller.
    pub fn min(self, other: Float) -> (r: Float)
        ensures
            r == self.spec_min(other),
    {
        if self.is_nan() {
            other
        } else if other.is_nan() {
            self
        } else if other.precedes(self) {
            other
        } else {
            self
        }
    }

    /// The larger of two numbers. A NaN is passed over: where one of the two
    /// is a NaN the other is returned. Of the two zeros the positive one is
    /// the larger.
    pub fn max(self, other: Float) -> (r: Float)
        ensures
            r == self.spec_max(other),
    {
        if self.is_nan() {
            other
        } else if other.is_nan() {
            self
        } else if self.precedes(other) {
            other
        } else {
            self
        }
    }

    /// The smaller of two numbers, a NaN passed over and negative zero
    /// before positive zero.
    pub open spec fn spec_min(self, other: Float) -> Float {
        if self.spec_is_nan() {
            other
        } else if other.spec_is_nan() {
            self
        } else if other.rank() < self.rank() {
            other
        } else {
            self
        }
    }

    /// The larger of two numbers, a NaN passed over and positive zero after
    /// negative zero.
    pub open spec fn spec_max(self, other: Float) -> Float {
        if self.spec_is_nan() {
            other
        } else if other.spec_is_nan() {
            self
        } else if self.rank() < other.rank() {
            other
        } else {
            self
        }
    }
}

impl PartialEq for Float {
    fn eq(&self, other: &Float) -> (r: bool) {
        if self.is_nan() || other.is_nan() {
            return false;
        }
        let a: u64 = self.abs_bits();
        let b: u64 = other.abs_bits();
        a == b && (a == 0 || self.is_sign_negative() == other.is_sign_negative())
    }
}

impl PartialEqSpecImpl for Float {
    open spec fn obeys_eq_spec() -> bool {
        true
    }

    open spec fn eq_spec(&self, other: &Float) -> bool {
        self.same(*other)
    }
}

} // verus!
