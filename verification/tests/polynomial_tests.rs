use vox_box::complex::Complex;
use vox_box::error::{PolynomialFault, VoxBoxError};
use vox_box::polynomial::Polynomial;
use vox_box::scalar::Real;

fn num(x: f64) -> Real {
    Real::from_bits(x.to_bits())
}

fn float(x: Real) -> f64 {
    f64::from_bits(x.to_bits())
}

fn complex(re: f64, im: f64) -> Complex {
    Complex::new(num(re), num(im))
}

fn poly(coefficients: &[f64]) -> Vec<Complex> {
    coefficients.iter().map(|c| complex(*c, 0.0)).collect()
}

fn poly32(coefficients: &[f32]) -> Vec<Complex> {
    coefficients.iter().map(|c| complex(*c as f64, 0.0)).collect()
}

#[test]
fn test_degree() {
    let a = poly(&[3.0, 2.0, 4.0, 0.0, 0.0]);
    assert_eq!(a.degree(), 2);
}

#[test]
fn test_off_low() {
    let a = poly(&[0.0f64, 0.0, 3.0, 2.0, 4.0]);
    assert_eq!(a.off_low(), 2);
}

#[test]
fn test_laguerre() {
    let vec = poly(&[1.0, 2.5, 2.0, 3.0]);
    let exp = (-0.1070229535872, -0.8514680262155);
    let point = complex(-64.0, -64.0);
    let res = vec.laguerre(point);
    let diff = (exp.0 - float(res.re), exp.1 - float(res.im));
    println!("res: {:?}", (float(res.re), float(res.im)));
    println!("diff: {:?}", diff);
    assert!(diff.0 < 0.00000001);
    assert!(diff.1 < 0.00000001);
}

#[test]
fn test_1d_roots() {
    let poly = poly(&[1.0, 2.5]);
    let roots = poly.find_roots().unwrap();
    let roots_exp = vec![(-0.4, 0.0)];
    assert_eq!(roots.len(), 1);
    for i in 0..roots_exp.len() {
        let diff = (float(roots[i].re) - roots_exp[i].0, float(roots[i].im) - roots_exp[i].1);
        assert!(diff.0.abs() < 1e-12);
        assert!(diff.1.abs() < 1e-12);
    }
}

#[test]
fn test_2d_roots() {
    let poly = poly(&[1.0, 2.5, -2.0]);
    let roots = poly.find_roots().unwrap();
    let roots_exp = vec![(-0.31872930440884, 0.0), (1.5687293044088, 0.0)];
    println!("Roots found: {:?}", roots);
    assert_eq!(roots.len(), roots_exp.len());
    for i in 0..roots_exp.len() {
        let diff = (float(roots[i].re) - roots_exp[i].0, float(roots[i].im) - roots_exp[i].1);
        assert!(diff.0.abs() < 1e-12);
        assert!(diff.1.abs() < 1e-12);
    }
}

#[test]
fn test_2d_complex_roots() {
    let coeffs = poly(&[1.0, -2.5, 2.0]);
    let roots = coeffs.find_roots().unwrap();
    let roots_exp = vec![(0.625, -0.33071891388307), (0.625, 0.33071891388307)];
    assert_eq!(roots.len(), roots_exp.len());
    println!("Roots found: {:?}", roots);
    for i in 0..roots_exp.len() {
        let diff = (float(roots[i].re) - roots_exp[i].0, float(roots[i].im) - roots_exp[i].1);
        assert!(diff.0.abs() < 1e-12);
        assert!(diff.1.abs() < 1e-12);
    }
}

#[test]
fn test_2d_complex_roots_f32() {
    let coeffs = poly32(&[1.0, -2.5, 2.0]);
    let roots = coeffs.find_roots().unwrap();
    let roots_exp: Vec<(f32, f32)> = vec![(0.625, -0.33071891388307), (0.625, 0.33071891388307)];
    assert_eq!(roots.len(), roots_exp.len());
    println!("Roots found: {:?}", roots);
    for i in 0..roots_exp.len() {
        let diff = (
            float(roots[i].re) as f32 - roots_exp[i].0,
            float(roots[i].im) as f32 - roots_exp[i].1,
        );
        assert!(diff.0.abs() < 1e-12);
        assert!(diff.1.abs() < 1e-12);
    }
}

#[test]
fn test_hi_d_roots() {
    let lpc_exp = poly(&[1.0, 2.5, -2.0, -3.0]);
    let roots_exp = vec![
        (-1.1409835232292, 0.0),
        (-0.35308705904629, 0.0),
        (0.82740391560878, 0.0),
    ];
    let roots = lpc_exp.find_roots().unwrap();
    println!("Roots: {:?}", roots);

    assert_eq!(roots.len(), roots_exp.len());
    for i in 0..roots_exp.len() {
        let diff = (float(roots[i].re) - roots_exp[i].0, float(roots[i].im) - roots_exp[i].1);
        assert!(diff.0.abs() < 1e-6);
        assert!(diff.1.abs() < 1e-6);
    }
}

#[test]
fn test_hi_d_roots_f32() {
    let lpc_exp = poly32(&[1.0, 2.5, -2.0, -3.0]);
    let roots_exp: Vec<(f32, f32)> = vec![
        (-1.1409835232292, 0.0),
        (-0.35308705904629, 0.0),
        (0.82740391560878, 0.0),
    ];
    let roots = lpc_exp.find_roots().unwrap();
    println!("Roots: {:?}", roots);

    assert_eq!(roots.len(), roots_exp.len());
    for i in 0..roots_exp.len() {
        let diff = (
            float(roots[i].re) as f32 - roots_exp[i].0,
            float(roots[i].im) as f32 - roots_exp[i].1,
        );
        assert!(diff.0.abs() < 1e-6);
        assert!(diff.1.abs() < 1e-6);
    }
}

#[test]
fn test_f32_roots() {
    let lpc_coeffs = poly32(&[
        1.0,
        -0.99640256,
        0.25383306,
        -0.25471634,
        0.5084799,
        -0.0685858,
        -0.35042483,
        0.07676613,
        -0.12874511,
        0.11829436,
        0.023972526,
    ]);
    let roots = lpc_coeffs.laguerre(complex(-64.0, -64.0));
    println!("Roots: {:?}", roots);
    assert!(float(roots.re).is_finite());
    assert!(float(roots.im).is_finite());
}

#[test]
fn zero_degree_polynomial_has_no_roots() {
    let constant = poly(&[3.0, 0.0, 0.0]);
    assert_eq!(
        constant.find_roots(),
        Err(VoxBoxError::Polynomial(PolynomialFault::ZeroDegree))
    );
    let empty: Vec<Complex> = Vec::new();
    assert_eq!(
        empty.find_roots(),
        Err(VoxBoxError::Polynomial(PolynomialFault::ZeroDegree))
    );
}

#[test]
fn low_offset_gives_zero_roots() {
    // z^2 (1 + 2.5 z)
    let p = poly(&[0.0, 0.0, 1.0, 2.5]);
    let roots = p.find_roots().unwrap();
    assert_eq!(roots.len(), 3);
    assert_eq!((float(roots[0].re), float(roots[0].im)), (0.0, 0.0));
    assert_eq!((float(roots[1].re), float(roots[1].im)), (0.0, 0.0));
    assert!((float(roots[2].re) + 0.4).abs() < 1e-12);
    assert_eq!(float(roots[2].im), 0.0);
}

#[test]
fn division_by_linear_factor() {
    // (z + 2)(z + 3) = 6 + 5 z + z^2, divided by z + 2
    let mut p = poly(&[6.0, 5.0, 1.0]);
    let rem = p.div_polynomial(complex(2.0, 0.0)).unwrap();
    let q: Vec<(f64, f64)> = p.iter().map(|c| (float(c.re), float(c.im))).collect();
    assert_eq!(q, vec![(3.0, 0.0), (1.0, 0.0), (0.0, 0.0)]);
    assert_eq!((float(rem[0].re), float(rem[0].im)), (0.0, 0.0));
}

#[test]
fn division_by_zero_is_refused() {
    let mut p = poly(&[6.0, 5.0, 1.0]);
    assert_eq!(
        p.div_polynomial(complex(0.0, 0.0)),
        Err(VoxBoxError::Polynomial(PolynomialFault::DivideByZero))
    );
    let q: Vec<f64> = p.iter().map(|c| float(c.re)).collect();
    assert_eq!(q, vec![6.0, 5.0, 1.0]);
}

#[test]
fn work_size_is_six_times_length_plus_four() {
    let p = poly(&[1.0, 2.0, 3.0]);
    assert_eq!(p.find_roots_work_size(), 22);
}

#[test]
fn roots_in_place_are_followed_by_zeros() {
    let mut p = poly(&[1.0, 2.5, -2.0, 0.0, 0.0]);
    let mut work = vec![complex(7.0, 7.0); 34];
    assert_eq!(p.find_roots_mut(&mut work[..]), Ok(()));
    assert!((float(p[0].re) + 0.31872930440884).abs() < 1e-12);
    assert!((float(p[1].re) - 1.5687293044088).abs() < 1e-12);
    for c in &p[2..] {
        assert_eq!((c.re.to_bits(), c.im.to_bits()), (0, 0));
    }
}

use vox_box::polynomial::{
    evaluate, is_tiny, laguerre_radicand, laguerre_step, quadratic_radicand, solve_linear,
    solve_quadratic,
};

#[test]
fn evaluation_gives_value_and_derivatives() {
    // p = 1 + 2 z + 3 z^2 at z = 2: p = 17, p' = 14, p''/2 = 3
    let p = poly(&[1.0, 2.0, 3.0]);
    let e = evaluate(&p[..], complex(2.0, 0.0));
    assert_eq!((float(e.value.re), float(e.value.im)), (17.0, 0.0));
    assert_eq!((float(e.first.re), float(e.first.im)), (14.0, 0.0));
    assert_eq!((float(e.second.re), float(e.second.im)), (3.0, 0.0));
    // at z = i: p = 1 + 2i - 3 = -2 + 2i, p' = 2 + 6i
    let e = evaluate(&p[..], complex(0.0, 1.0));
    assert_eq!((float(e.value.re), float(e.value.im)), (-2.0, 2.0));
    assert_eq!((float(e.first.re), float(e.first.im)), (2.0, 6.0));
}

#[test]
fn analytic_solvers() {
    let root = solve_linear(complex(1.0, 0.0), complex(2.5, 0.0));
    assert_eq!((float(root.re), float(root.im)), (-0.4, 0.0));
    // z^2 - 3 z + 2: radicand 1, roots 2 and 1
    let r = quadratic_radicand(complex(2.0, 0.0), complex(-3.0, 0.0), complex(1.0, 0.0));
    assert_eq!((float(r.re), float(r.im)), (1.0, 0.0));
    let (a, b) = solve_quadratic(complex(-3.0, 0.0), complex(1.0, 0.0), complex(1.0, 0.0));
    assert_eq!((float(a.re), float(a.im)), (2.0, 0.0));
    assert_eq!((float(b.re), float(b.im)), (1.0, 0.0));
}

#[test]
fn laguerre_step_on_a_quadratic_lands_on_a_root() {
    // p = z^2 - 1 from z = 3: G = -6/8, H = G^2 - 2/8, (n-1)(nH - G^2) = G^2 - 1/2
    let p = poly(&[-1.0, 0.0, 1.0]);
    let z = complex(3.0, 0.0);
    let e = evaluate(&p[..], z);
    let r = laguerre_radicand(&e, 2);
    assert!((float(r.re) - (0.5625 - 0.5)).abs() < 1e-15);
    let root = complex(0.25, 0.0);
    // G + r = -0.5, G - r = -1: the second has the larger modulus
    let next = laguerre_step(z, &e, 2, root, num(0.5), num(1.0));
    assert_eq!((float(next.re), float(next.im)), (1.0, 0.0));
    let other = laguerre_step(z, &e, 2, root, num(1.0), num(0.5));
    assert_eq!((float(other.re), float(other.im)), (-1.0, 0.0));
}

#[test]
fn tiny_is_at_most_ten_to_the_minus_sixteen() {
    assert!(is_tiny(num(0.0)));
    assert!(is_tiny(num(1e-16)));
    assert!(!is_tiny(num(1.0000000000000002e-16)));
    assert!(!is_tiny(num(f64::NAN)));
}

#[test]
fn laguerre_stays_on_a_root() {
    let p = poly(&[-1.0, 0.0, 1.0]);
    let root = p.laguerre(complex(1.0, 0.0));
    assert_eq!((float(root.re), float(root.im)), (1.0, 0.0));
}

#[test]
fn roots_of_a_higher_degree_polynomial_are_roots() {
    // (z - 1)(z - 2)(z - 3)(z - 4)(z + 5)
    let p = poly(&[120.0, -226.0, 125.0, -15.0, -5.0, 1.0]);
    let roots = p.find_roots().unwrap();
    assert_eq!(roots.len(), 5);
    let mut found: Vec<f64> = roots.iter().map(|r| float(r.re)).collect();
    found.sort_by(|a, b| a.partial_cmp(b).unwrap());
    for (f, w) in found.iter().zip([-5.0, 1.0, 2.0, 3.0, 4.0].iter()) {
        assert!((f - w).abs() < 1e-6, "{:?}", found);
    }
    for r in &roots {
        assert!(float(r.im).abs() < 1e-6);
    }
}

#[test]
fn fault_messages() {
    assert_eq!(
        PolynomialFault::ZeroDegree.message(),
        "Zero degree polynomial: no roots to be found."
    );
    assert_eq!(PolynomialFault::FailedDeflation.message(), "Failed to find roots");
    assert_eq!(PolynomialFault::DivideByZero.message(), "Tried to divide by zero");
}

#[test]
fn deflation_fails_on_a_zero_root_found_by_iteration() {
    // z^3 plus a constant too small to be seen at the seed: one step lands
    // on zero, where the polynomial is tiny, and zero cannot be divided out
    let mut p = poly(&[1e-300, 0.0, 0.0, 1.0]);
    assert_eq!(
        p.find_roots(),
        Err(VoxBoxError::Polynomial(PolynomialFault::FailedDeflation))
    );
    let mut work = vec![complex(0.0, 0.0); p.find_roots_work_size()];
    assert_eq!(
        p.find_roots_mut(&mut work[..]),
        Err(VoxBoxError::Polynomial(PolynomialFault::FailedDeflation))
    );
    let kept: Vec<f64> = p.iter().map(|c| float(c.re)).collect();
    assert_eq!(kept, vec![1e-300, 0.0, 0.0, 1.0]);
}

#[test]
fn a_polynomial_that_is_tiny_at_the_seed_takes_the_seed_as_a_root() {
    let p = poly(&[1e-300, 1e-300, 1e-300, 1e-300]);
    let roots = p.find_roots().unwrap();
    assert_eq!(roots.len(), 3);
    assert_eq!((float(roots[0].re), float(roots[0].im)), (-2.0, -2.0));
}

#[test]
fn found_roots_make_the_polynomial_small() {
    let coefficients = [1.0, -0.99640256, 0.25383306, -0.25471634, 0.5084799, -0.0685858];
    let p = poly(&coefficients);
    let roots = p.find_roots().unwrap();
    assert_eq!(roots.len(), p.degree());
    let scale: f64 = coefficients.iter().map(|c| c.abs()).sum();
    for r in &roots {
        let e = evaluate(&p[..], *r);
        let modulus = float(e.value.re).hypot(float(e.value.im));
        assert!(modulus < 1e-6 * scale, "{} at {:?}", modulus, r);
    }
}

#[test]
fn a_pure_power_has_only_zero_roots() {
    let p = poly(&[0.0, 0.0, 3.0]);
    let roots = p.find_roots().unwrap();
    assert_eq!(roots.len(), 2);
    for r in &roots {
        assert_eq!((r.re.to_bits(), r.im.to_bits()), (0, 0));
    }
}

#[test]
fn trailing_zero_coefficients_do_not_count() {
    let p = poly(&[1.0, 2.5, 0.0, 0.0]);
    let roots = p.find_roots().unwrap();
    assert_eq!(roots.len(), 1);
    assert!((float(roots[0].re) + 0.4).abs() < 1e-12);
}

use vox_box::polynomial::laguerre_round;

#[test]
fn laguerre_round_stops_on_a_tiny_modulus_and_steps_otherwise() {
    // p = z^2 - 1 from z = 3, with the square root 0.25 of the radicand
    let p = poly(&[-1.0, 0.0, 1.0]);
    let z = complex(3.0, 0.0);
    let root = complex(0.25, 0.0);
    assert_eq!(laguerre_round(&p[..], z, num(1e-16), root, num(0.5), num(1.0)), None);
    assert_eq!(laguerre_round(&p[..], z, num(0.0), root, num(0.5), num(1.0)), None);
    let next = laguerre_round(&p[..], z, num(8.0), root, num(0.5), num(1.0)).unwrap();
    assert_eq!((float(next.re), float(next.im)), (1.0, 0.0));
    let other = laguerre_round(&p[..], z, num(8.0), root, num(1.0), num(0.5)).unwrap();
    assert_eq!((float(other.re), float(other.im)), (-1.0, 0.0));
}

#[test]
fn roots_come_in_the_order_they_are_peeled_off() {
    // z^2 (z - 1)(z - 2)(z - 3): two zero roots, one root by search, then
    // the two roots of the quadratic that is left
    let p = poly(&[0.0, 0.0, -6.0, 11.0, -6.0, 1.0]);
    let roots = p.find_roots().unwrap();
    assert_eq!(roots.len(), 5);
    assert_eq!((roots[0].re.to_bits(), roots[0].im.to_bits()), (0, 0));
    assert_eq!((roots[1].re.to_bits(), roots[1].im.to_bits()), (0, 0));
    let searched = float(roots[2].re);
    assert!((searched - 1.0).abs() < 1e-6, "{}", searched);
    // the quadratic left is (z - 2)(z - 3); the formula gives the greater
    // root first
    assert!((float(roots[3].re) - 3.0).abs() < 1e-6);
    assert!((float(roots[4].re) - 2.0).abs() < 1e-6);
}
