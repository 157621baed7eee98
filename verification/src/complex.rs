//! Complex numbers over the double-precision scalar. The arithmetic is that
//! of `num_complex`, reached through trusted functions whose contracts spell
//! out, operation by operation, what its source computes.
use vstd::prelude::*;
use num_complex::Complex64;
use crate::scalar::{
    canonical, is_zero, negated, real_difference, real_product, real_quotient, real_sum, Double,
    Real,
};

verus! {

/// The value of a complex number: the values of its two parts.
pub struct ComplexValue {
    pub re: u64,
    pub im: u64,
}

/// `(a.re + b.re) + i (a.im + b.im)`
pub open spec fn complex_sum(a: ComplexValue, b: ComplexValue) -> ComplexValue {
    ComplexValue { re: real_sum(a.re, b.re), im: real_sum(a.im, b.im) }
}

/// `(a.re - b.re) + i (a.im - b.im)`
pub open spec fn complex_difference(a: ComplexValue, b: ComplexValue) -> ComplexValue {
    ComplexValue { re: real_difference(a.re, b.re), im: real_difference(a.im, b.im) }
}

/// `(a.re b.re - a.im b.im) + i (a.re b.im + a.im b.re)`
pub open spec fn complex_product(a: ComplexValue, b: ComplexValue) -> ComplexValue {
    ComplexValue {
        re: real_difference(real_product(a.re, b.re), real_product(a.im, b.im)),
        im: real_sum(real_product(a.re, b.im), real_product(a.im, b.re)),
    }
}

/// `(a.re b.re + a.im b.im) / |b|^2 + i (a.im b.re - a.re b.im) / |b|^2`
pub open spec fn complex_quotient(a: ComplexValue, b: ComplexValue) -> ComplexValue {
    let norm_sqr = real_sum(real_product(b.re, b.re), real_product(b.im, b.im));
    ComplexValue {
        re: real_quotient(real_sum(real_product(a.re, b.re), real_product(a.im, b.im)), norm_sqr),
        im: real_quotient(
            real_difference(real_product(a.im, b.re), real_product(a.re, b.im)),
            norm_sqr,
        ),
    }
}

/// `-a.re - i a.im`
pub open spec fn complex_negated(a: ComplexValue) -> ComplexValue {
    ComplexValue { re: canonical(negated(a.re)), im: canonical(negated(a.im)) }
}

/// Whether both parts are zero, of either sign.
pub open spec fn complex_is_zero(a: ComplexValue) -> bool {
    is_zero(a.re) && is_zero(a.im)
}

/// A complex number of two double-precision parts.
#[derive(Clone, Copy, Debug, PartialEq, Eq, Structural)]
pub struct Complex {
    pub re: Real,
    pub im: Real,
}

impl View for Complex {
    type V = ComplexValue;

    open spec fn view(&self) -> ComplexValue {
        ComplexValue { re: self.re@, im: self.im@ }
    }
}

/// The values of a sequence of complex numbers.
pub open spec fn complex_values(s: Seq<Complex>) -> Seq<ComplexValue> {
    Seq::new(s.len(), |i: int| s[i]@)
}

impl Complex {
    pub fn new(re: Real, im: Real) -> (c: Complex)
        ensures
            c.re == re,
            c.im == im,
    {
        Complex { re, im }
    }

    /// The real number `re` as a complex one.
    pub fn from_real(re: Real) -> (c: Complex)
        ensures
            c.re == re,
            c.im.bits == 0,
    {
        Complex { re, im: Real::zero() }
    }

    /// `0 + 0i`
    pub fn zero() -> (c: Complex)
        ensures
            c.re.bits == 0,
            c.im.bits == 0,
    {
        Complex { re: Real::zero(), im: Real::zero() }
    }

    /// Whether the number equals zero: both parts zero, of either sign.
    pub fn is_zero(self) -> (r: bool)
        ensures
            r == complex_is_zero(self@),
    {
        self.re.is_zero() && self.im.is_zero()
    }

    /// `self + other`. Trusted: `Add` of `num_complex::Complex`, which adds
    /// part by part.
    #[verifier::external_body]
    pub(crate) fn plus(self, other: Complex) -> (r: Complex)
        ensures
            r@ == complex_sum(self@, other@),
    {
        let a = Complex64::new(Double::from_bits(self.re.bits), Double::from_bits(self.im.bits));
        let b = Complex64::new(Double::from_bits(other.re.bits), Double::from_bits(other.im.bits));
        let c = a + b;
        Complex { re: Real { bits: c.re.to_bits() }, im: Real { bits: c.im.to_bits() } }
    }

    /// `self - other`. Trusted: `Sub` of `num_complex::Complex`, which
    /// subtracts part by part.
    #[verifier::external_body]
    pub(crate) fn minus(self, other: Complex) -> (r: Complex)
        ensures
            r@ == complex_difference(self@, other@),
    {
        let a = Complex64::new(Double::from_bits(self.re.bits), Double::from_bits(self.im.bits));
        let b = Complex64::new(Double::from_bits(other.re.bits), Double::from_bits(other.im.bits));
        let c = a - b;
        Complex { re: Real { bits: c.re.to_bits() }, im: Real { bits: c.im.to_bits() } }
    }

    /// `self * other`. Trusted: `Mul` of `num_complex::Complex`, which forms
    /// the four products and combines them as `complex_product` says.
    #[verifier::external_body]
    pub(crate) fn times(self, other: Complex) -> (r: Complex)
        ensures
            r@ == complex_product(self@, other@),
    {
        let a = Complex64::new(Double::from_bits(self.re.bits), Double::from_bits(self.im.bits));
        let b = Complex64::new(Double::from_bits(other.re.bits), Double::from_bits(other.im.bits));
        let c = a * b;
        Complex { re: Real { bits: c.re.to_bits() }, im: Real { bits: c.im.to_bits() } }
    }

    /// `self / other`. Trusted: `Div` of `num_complex::Complex`, which
    /// multiplies by the conjugate and divides both parts by the squared norm
    /// of the divisor, as `complex_quotient` says; a zero divisor gives
    /// infinities or NaNs and does not trap.
    #[verifier::external_body]
    pub(crate) fn over(self, other: Complex) -> (r: Complex)
        ensures
            r@ == complex_quotient(self@, other@),
    {
        let a = Complex64::new(Double::from_bits(self.re.bits), Double::from_bits(self.im.bits));
        let b = Complex64::new(Double::from_bits(other.re.bits), Double::from_bits(other.im.bits));
        let c = a / b;
        Complex { re: Real { bits: c.re.to_bits() }, im: Real { bits: c.im.to_bits() } }
    }

    /// `-self`. Trusted: `Neg` of `num_complex::Complex`, which negates part
    /// by part.
    #[verifier::external_body]
    pub(crate) fn neg(self) -> (r: Complex)
        ensures
            r@ == complex_negated(self@),
    {
        let a = Complex64::new(Double::from_bits(self.re.bits), Double::from_bits(self.im.bits));
        let c = -a;
        Complex { re: Real { bits: c.re.to_bits() }, im: Real { bits: c.im.to_bits() } }
    }

    /// The principal square root. Trusted: `Complex::sqrt` of `num_complex`,
    /// which goes through the polar form and so through functions whose
    /// precision std leaves open; nothing is claimed of the result.
    #[verifier::external_body]
    pub(crate) fn sqrt(self) -> (r: Complex)
    {
        let a = Complex64::new(Double::from_bits(self.re.bits), Double::from_bits(self.im.bits));
        let c = a.sqrt();
        Complex { re: Real { bits: c.re.to_bits() }, im: Real { bits: c.im.to_bits() } }
    }

    /// The modulus. Trusted: `Complex::norm` of `num_complex`, which is
    /// std's `hypot` of the two parts; std leaves its precision open, so
    /// nothing is claimed of the result.
    #[verifier::external_body]
    pub(crate) fn norm(self) -> (r: Real)
    {
        let a = Complex64::new(Double::from_bits(self.re.bits), Double::from_bits(self.im.bits));
        Real { bits: a.norm().to_bits() }
    }
}

} // verus!
