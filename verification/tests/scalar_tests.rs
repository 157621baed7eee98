use vox_box::complex::Complex;
use vox_box::scalar::Real;

fn num(x: f64) -> Real {
    Real::from_bits(x.to_bits())
}

fn float(x: Real) -> f64 {
    f64::from_bits(x.to_bits())
}

fn samples() -> Vec<f64> {
    vec![
        0.0,
        -0.0,
        1.0,
        -1.0,
        1e-16,
        -1e-16,
        f64::MIN_POSITIVE,
        -f64::MIN_POSITIVE,
        5e-324,
        -5e-324,
        f64::MAX,
        f64::MIN,
        f64::INFINITY,
        f64::NEG_INFINITY,
        f64::NAN,
        -f64::NAN,
        0.9999,
        1.0001,
        320.0,
        -2.0,
    ]
}

#[test]
fn comparisons_agree_with_the_hardware() {
    for a in samples() {
        for b in samples() {
            assert_eq!(num(a).lt(num(b)), a < b, "{} < {}", a, b);
            assert_eq!(num(a).le(num(b)), a <= b, "{} <= {}", a, b);
            assert_eq!(num(a).gt(num(b)), a > b, "{} > {}", a, b);
            assert_eq!(num(a).ge(num(b)), a >= b, "{} >= {}", a, b);
            assert_eq!(num(a).same_as(num(b)), a == b, "{} == {}", a, b);
        }
    }
}

#[test]
fn classification_agrees_with_the_hardware() {
    for a in samples() {
        assert_eq!(num(a).is_nan(), a.is_nan(), "{}", a);
        assert_eq!(num(a).is_finite(), a.is_finite(), "{}", a);
        assert_eq!(num(a).is_zero(), a == 0.0, "{}", a);
        assert_eq!(num(a).neg().to_bits(), (-a).to_bits(), "{}", a);
        assert_eq!(num(a).abs().to_bits(), a.abs().to_bits(), "{}", a);
    }
    assert_eq!(float(Real::zero()), 0.0);
    assert_eq!(float(Real::one()), 1.0);
    assert_eq!(Real::from_bits(7).to_bits(), 7);
}

#[test]
fn complex_zero_test_agrees_with_the_hardware() {
    for a in samples() {
        for b in samples() {
            let c = Complex::new(num(a), num(b));
            assert_eq!(c.is_zero(), a == 0.0 && b == 0.0, "{} {}", a, b);
        }
    }
    let z = Complex::zero();
    assert_eq!((z.re.to_bits(), z.im.to_bits()), (0, 0));
    let r = Complex::from_real(num(2.5));
    assert_eq!((float(r.re), r.im.to_bits()), (2.5, 0));
}
