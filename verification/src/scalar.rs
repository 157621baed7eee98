//! Double-precision scalars held by their IEEE-754 bit pattern.
//!
//! Ordering, sign and zero tests are integer logic on the pattern and are
//! verified here. Rounded arithmetic is done by the hardware; each operation
//! is a trusted function whose result is named by an uninterpreted function
//! of the operands, so that callers can state exactly which chain of
//! operations produced a value.
use vstd::prelude::*;
use num::traits::Float;
use num_complex::Complex64;
use num_complex::ComplexFloat;

verus! {

/// The scalar that `Complex64` is made of.
pub(crate) type Double = <Complex64 as ComplexFloat>::Real;

/// The sign bit of a pattern.
pub const SIGN_BIT: u64 = 0x8000_0000_0000_0000;

/// The pattern of positive infinity; every larger magnitude is a NaN.
pub const INFINITY_BITS: u64 = 0x7ff0_0000_0000_0000;

/// The pattern that stands for every NaN in contracts.
pub const NAN_BITS: u64 = 0x7ff8_0000_0000_0000;

/// The pattern of 0.5.
pub const HALF_BITS: u64 = 0x3fe0_0000_0000_0000;

/// The pattern of 1.0.
pub const ONE_BITS: u64 = 0x3ff0_0000_0000_0000;

/// The pattern of 2.0.
pub const TWO_BITS: u64 = 0x4000_0000_0000_0000;

/// The pattern of -2.0.
pub const MINUS_TWO_BITS: u64 = 0xc000_0000_0000_0000;

/// The pattern of 4.0.
pub const FOUR_BITS: u64 = 0x4010_0000_0000_0000;

/// The pattern of 2 pi.
pub const TWO_PI_BITS: u64 = 0x4019_21fb_5444_2d18;

/// The pattern without its sign bit.
pub open spec fn magnitude(bits: u64) -> u64 {
    if bits >= SIGN_BIT {
        (bits - SIGN_BIT) as u64
    } else {
        bits
    }
}

pub open spec fn is_nan(bits: u64) -> bool {
    magnitude(bits) > INFINITY_BITS
}

pub open spec fn is_finite(bits: u64) -> bool {
    magnitude(bits) < INFINITY_BITS
}

/// Both zeros, positive and negative.
pub open spec fn is_zero(bits: u64) -> bool {
    magnitude(bits) == 0
}

/// The value a pattern denotes: the pattern itself, with all NaNs identified.
pub open spec fn canonical(bits: u64) -> u64 {
    if is_nan(bits) {
        NAN_BITS
    } else {
        bits
    }
}

/// An integer that orders the values other than NaN as IEEE-754 does:
/// both zeros map to 0, positive values to their pattern, negative values to
/// the negated magnitude.
pub open spec fn key(bits: u64) -> int {
    if bits >= SIGN_BIT {
        -((bits - SIGN_BIT) as int)
    } else {
        bits as int
    }
}

/// `a < b` as IEEE-754 has it: false as soon as one side is NaN.
pub open spec fn less(a: u64, b: u64) -> bool {
    !is_nan(a) && !is_nan(b) && key(a) < key(b)
}

/// `a == b` as IEEE-754 has it: NaN equals nothing, the two zeros are equal.
pub open spec fn same(a: u64, b: u64) -> bool {
    !is_nan(a) && !is_nan(b) && key(a) == key(b)
}

/// The pattern with its sign bit flipped.
pub open spec fn negated(bits: u64) -> u64 {
    if bits >= SIGN_BIT {
        (bits - SIGN_BIT) as u64
    } else {
        (bits + SIGN_BIT) as u64
    }
}

/// The rounded sum of two values.
pub uninterp spec fn real_sum(a: u64, b: u64) -> u64;

/// The rounded difference of two values.
pub uninterp spec fn real_difference(a: u64, b: u64) -> u64;

/// The rounded product of two values.
pub uninterp spec fn real_product(a: u64, b: u64) -> u64;

/// The rounded quotient of two values.
pub uninterp spec fn real_quotient(a: u64, b: u64) -> u64;

/// The rounded square root of a value.
pub uninterp spec fn real_root(a: u64) -> u64;

/// The value nearest to a count.
pub uninterp spec fn real_of_count(n: usize) -> u64;

/// A double-precision number. `==` compares patterns, so it tells the two
/// zeros apart and finds a NaN equal to itself; `same_as` compares as numbers
/// do.
#[derive(Clone, Copy, Debug, PartialEq, Eq, Structural)]
pub struct Real {
    pub bits: u64,
}

impl View for Real {
    type V = u64;

    open spec fn view(&self) -> u64 {
        canonical(self.bits)
    }
}

/// The values of a sequence of numbers.
pub open spec fn values(s: Seq<Real>) -> Seq<u64> {
    Seq::new(s.len(), |i: int| s[i]@)
}

impl Real {
    pub fn from_bits(bits: u64) -> (r: Real)
        ensures
            r.bits == bits,
    {
        Real { bits }
    }

    pub fn to_bits(self) -> (bits: u64)
        ensures
            bits == self.bits,
    {
        self.bits
    }

    /// 0.0
    pub fn zero() -> (r: Real)
        ensures
            r.bits == 0,
    {
        Real { bits: 0 }
    }

    /// 1.0
    pub fn one() -> (r: Real)
        ensures
            r.bits == ONE_BITS,
    {
        Real { bits: ONE_BITS }
    }

    pub fn is_nan(self) -> (r: bool)
        ensures
            r == is_nan(self@),
    {
        let m = if self.bits >= SIGN_BIT {
            self.bits - SIGN_BIT
        } else {
            self.bits
        };
        m > INFINITY_BITS
    }

    /// Whether the number is neither an infinity nor a NaN.
    pub fn is_finite(self) -> (r: bool)
        ensures
            r == is_finite(self@),
    {
        let m = if self.bits >= SIGN_BIT {
            self.bits - SIGN_BIT
        } else {
            self.bits
        };
        m < INFINITY_BITS
    }

    pub fn is_zero(self) -> (r: bool)
        ensures
            r == is_zero(self@),
    {
        self.bits == 0 || self.bits == SIGN_BIT
    }

    /// The integer by which the number is ordered; meaningless for a NaN.
    fn order_key(self) -> (k: i128)
        ensures
            k == key(self.bits),
    {
        if self.bits >= SIGN_BIT {
            -((self.bits - SIGN_BIT) as i128)
        } else {
            self.bits as i128
        }
    }

    /// `self < other`
    pub fn lt(self, other: Real) -> (r: bool)
        ensures
            r == less(self@, other@),
    {
        !self.is_nan() && !other.is_nan() && self.order_key() < other.order_key()
    }

    /// `self > other`
    pub fn gt(self, other: Real) -> (r: bool)
        ensures
            r == less(other@, self@),
    {
        other.lt(self)
    }

    /// `self <= other`
    pub fn le(self, other: Real) -> (r: bool)
        ensures
            r == (less(self@, other@) || same(self@, other@)),
    {
        !self.is_nan() && !other.is_nan() && self.order_key() <= other.order_key()
    }

    /// `self >= other`
    pub fn ge(self, other: Real) -> (r: bool)
        ensures
            r == (less(other@, self@) || same(self@, other@)),
    {
        other.le(self)
    }

    /// `self == other` as numbers: false for NaN, true for the two zeros.
    pub fn same_as(self, other: Real) -> (r: bool)
        ensures
            r == same(self@, other@),
    {
        !self.is_nan() && !other.is_nan() && self.order_key() == other.order_key()
    }

    /// `-self`: the sign bit flipped.
    pub fn neg(self) -> (r: Real)
        ensures
            r.bits == negated(self.bits),
            r@ == canonical(negated(self@)),
    {
        if self.bits >= SIGN_BIT {
            Real { bits: self.bits - SIGN_BIT }
        } else {
            Real { bits: self.bits + SIGN_BIT }
        }
    }

    /// `|self|`: the sign bit cleared.
    pub fn abs(self) -> (r: Real)
        ensures
            r.bits == magnitude(self.bits),
            r@ == canonical(magnitude(self@)),
    {
        if self.bits >= SIGN_BIT {
            Real { bits: self.bits - SIGN_BIT }
        } else {
            self
        }
    }

    /// `self + other`, rounded. Trusted: the `+` of the double scalar, which
    /// IEEE-754 determines up to the payload of a NaN.
    #[verifier::external_body]
    pub(crate) fn plus(self, other: Real) -> (r: Real)
        ensures
            r@ == real_sum(self@, other@),
    {
        Real { bits: (Double::from_bits(self.bits) + Double::from_bits(other.bits)).to_bits() }
    }

    /// `self - other`, rounded. Trusted: the `-` of the double scalar, which
    /// IEEE-754 determines up to the payload of a NaN.
    #[verifier::external_body]
    pub(crate) fn minus(self, other: Real) -> (r: Real)
        ensures
            r@ == real_difference(self@, other@),
    {
        Real { bits: (Double::from_bits(self.bits) - Double::from_bits(other.bits)).to_bits() }
    }

    /// `self * other`, rounded. Trusted: the `*` of the double scalar, which
    /// IEEE-754 determines up to the payload of a NaN.
    #[verifier::external_body]
    pub(crate) fn times(self, other: Real) -> (r: Real)
        ensures
            r@ == real_product(self@, other@),
    {
        Real { bits: (Double::from_bits(self.bits) * Double::from_bits(other.bits)).to_bits() }
    }

    /// `self / other`, rounded. Trusted: the `/` of the double scalar, which
    /// IEEE-754 determines up to the payload of a NaN; a zero divisor gives
    /// an infinity or a NaN and does not trap.
    #[verifier::external_body]
    pub(crate) fn over(self, other: Real) -> (r: Real)
        ensures
            r@ == real_quotient(self@, other@),
    {
        Real { bits: (Double::from_bits(self.bits) / Double::from_bits(other.bits)).to_bits() }
    }

    /// The square root, rounded. Trusted: `Float::sqrt` of num, which
    /// forwards to std's `sqrt`; std documents its result as the rounded
    /// exact root, NaN for a negative operand.
    #[verifier::external_body]
    pub(crate) fn sqrt(self) -> (r: Real)
        ensures
            r@ == real_root(self@),
    {
        Real { bits: Float::sqrt(Double::from_bits(self.bits)).to_bits() }
    }

    /// The four-quadrant arctangent of `self / other`. Trusted: `Float::atan2`
    /// of num, which forwards to std's `atan2`; std leaves its precision
    /// open, so nothing is claimed of the result.
    #[verifier::external_body]
    pub(crate) fn atan2(self, other: Real) -> (r: Real)
    {
        Real { bits: Float::atan2(Double::from_bits(self.bits), Double::from_bits(other.bits)).to_bits() }
    }

    /// The cosine. Trusted: `Float::cos` of num, which forwards to std's
    /// `cos`; std leaves its precision open, so nothing is claimed of the
    /// result.
    #[verifier::external_body]
    pub(crate) fn cos(self) -> (r: Real)
    {
        Real { bits: Float::cos(Double::from_bits(self.bits)).to_bits() }
    }

    /// The number nearest to a count. Trusted: `FromPrimitive::from_usize` of
    /// num for the double scalar, a cast that rounds to nearest and always
    /// succeeds.
    #[verifier::external_body]
    pub(crate) fn from_count(n: usize) -> (r: Real)
        ensures
            r@ == real_of_count(n),
    {
        let x: Option<Double> = num::FromPrimitive::from_usize(n);
        Real { bits: x.unwrap().to_bits() }
    }
}

} // verus!
