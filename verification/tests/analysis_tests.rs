use vox_box::analysis::{
    find_formants, find_formants_complex_work_size, find_formants_real_work_size,
    formant_estimates, predictor_polynomial, update_formants, FEMALE_FORMANT_ESTIMATES,
    MALE_FORMANT_ESTIMATES, MAX_RESONANCES,
};
use vox_box::complex::Complex;
use vox_box::error::{PolynomialFault, VoxBoxError};
use vox_box::scalar::Real;

fn num(x: f64) -> Real {
    Real::from_bits(x.to_bits())
}

fn float(x: Real) -> f64 {
    f64::from_bits(x.to_bits())
}

fn nums(values: &[f64]) -> Vec<Real> {
    values.iter().map(|v| num(*v)).collect()
}

fn floats(values: &[Real]) -> Vec<f64> {
    values.iter().map(|v| float(*v)).collect()
}

/// The impulse response of an all-pole filter with two pole pairs.
fn two_resonances(len: usize, rate: f64, f1: f64, f2: f64, radius: f64) -> Vec<f64> {
    let t1 = 2.0 * std::f64::consts::PI * f1 / rate;
    let t2 = 2.0 * std::f64::consts::PI * f2 / rate;
    // (1 - 2 r cos t1 z^-1 + r^2 z^-2)(1 - 2 r cos t2 z^-1 + r^2 z^-2)
    let p1 = [1.0, -2.0 * radius * t1.cos(), radius * radius];
    let p2 = [1.0, -2.0 * radius * t2.cos(), radius * radius];
    let mut a = [0.0; 5];
    for i in 0..3 {
        for j in 0..3 {
            a[i + j] += p1[i] * p2[j];
        }
    }
    let mut x = vec![0.0; len];
    for n in 0..len {
        let mut v = if n == 0 { 1.0 } else { 0.0 };
        for k in 1..5 {
            if n >= k {
                v -= a[k] * x[n - k];
            }
        }
        x[n] = v;
    }
    x
}

#[test]
fn work_sizes_follow_the_formulas() {
    assert_eq!(find_formants_real_work_size(512, 16), 2 * 512 + 23 * 16 + 2);
    assert_eq!(find_formants_real_work_size(0, 0), 2);
    assert_eq!(find_formants_complex_work_size(16), 7 * 16 + 4);
    assert_eq!(find_formants_complex_work_size(0), 4);
    assert_eq!(MAX_RESONANCES, 32);
}

#[test]
fn estimate_tables_hold_the_documented_frequencies() {
    assert_eq!(
        floats(&formant_estimates(&MALE_FORMANT_ESTIMATES)),
        vec![320.0, 1440.0, 2760.0, 3200.0]
    );
    assert_eq!(
        floats(&formant_estimates(&FEMALE_FORMANT_ESTIMATES)),
        vec![480.0, 1760.0, 3200.0, 3520.0]
    );
}

#[test]
fn predictor_polynomial_reverses_the_coefficients() {
    let a = nums(&[1.0, -1.3, 0.8]);
    let mut out = vec![Complex::new(num(9.0), num(9.0)); 3];
    predictor_polynomial(&a[..], &mut out[..]);
    let got: Vec<(f64, f64)> = out.iter().map(|c| (float(c.re), float(c.im))).collect();
    assert_eq!(got, vec![(0.8, 0.0), (-1.3, 0.0), (1.0, 0.0)]);
}

#[test]
fn update_formants_writes_sorted_front_and_keeps_tail() {
    let mut formants = nums(&[140.0, 230.0, 320.0]);
    update_formants(&mut formants[..], &nums(&[100.0, 150.0, 200.0, 240.0, 300.0]));
    assert_eq!(floats(&formants), vec![150.0, 240.0, 300.0]);

    // one peak for three slots: two slots are cleared and stay as they were
    let mut formants = nums(&[140.0, 230.0, 320.0]);
    update_formants(&mut formants[..], &nums(&[200.0]));
    assert_eq!(floats(&formants), vec![200.0, 230.0, 320.0]);

    // no peak at all
    let mut formants = nums(&[140.0, 230.0, 320.0]);
    update_formants(&mut formants[..], &Vec::new());
    assert_eq!(floats(&formants), vec![140.0, 230.0, 320.0]);
}

#[test]
fn find_formants_recovers_two_resonances() {
    let rate = 8000.0;
    let frame = nums(&two_resonances(400, rate, 700.0, 1800.0, 0.97));
    let n_coeffs = 4;
    let mut resampled = vec![num(0.0); frame.len()];
    let mut real_work = vec![num(0.0); find_formants_real_work_size(frame.len(), n_coeffs)];
    let mut complex_work =
        vec![Complex::new(num(0.0), num(0.0)); find_formants_complex_work_size(n_coeffs)];
    let mut formants = nums(&[500.0, 1500.0]);
    let result = find_formants(
        &frame[..],
        num(rate),
        num(1.0),
        &mut resampled[..],
        n_coeffs,
        &mut real_work[..],
        &mut complex_work[..],
        &mut formants[..],
    );
    assert_eq!(result, Ok(()));
    let found = floats(&formants);
    assert!((found[0] - 700.0).abs() < 40.0, "first formant {:?}", found);
    assert!((found[1] - 1800.0).abs() < 40.0, "second formant {:?}", found);
}

#[test]
fn find_formants_with_resampling() {
    let rate = 16000.0;
    let frame = nums(&two_resonances(800, rate, 700.0, 1800.0, 0.985));
    let n_coeffs = 4;
    // half the rate: half the samples
    let mut resampled = vec![num(0.0); 400];
    let mut real_work = vec![num(0.0); find_formants_real_work_size(400, n_coeffs)];
    let mut complex_work =
        vec![Complex::new(num(0.0), num(0.0)); find_formants_complex_work_size(n_coeffs)];
    let mut formants = nums(&[500.0, 1500.0]);
    let result = find_formants(
        &frame[..],
        num(rate),
        num(0.5),
        &mut resampled[..],
        n_coeffs,
        &mut real_work[..],
        &mut complex_work[..],
        &mut formants[..],
    );
    assert_eq!(result, Ok(()));
    let found = floats(&formants);
    assert!((found[0] - 700.0).abs() < 80.0, "first formant {:?}", found);
    assert!((found[1] - 1800.0).abs() < 80.0, "second formant {:?}", found);
}

#[test]
fn find_formants_refuses_small_workspaces() {
    let frame = nums(&two_resonances(64, 8000.0, 700.0, 1800.0, 0.97));
    let n_coeffs = 4;
    let mut resampled = vec![num(0.0); 64];
    let mut complex_work =
        vec![Complex::new(num(0.0), num(0.0)); find_formants_complex_work_size(n_coeffs)];
    let mut formants = nums(&[500.0, 1500.0]);
    let mut short = vec![num(0.0); find_formants_real_work_size(64, n_coeffs) - 1];
    assert_eq!(
        find_formants(
            &frame[..],
            num(8000.0),
            num(1.0),
            &mut resampled[..],
            n_coeffs,
            &mut short[..],
            &mut complex_work[..],
            &mut formants[..],
        ),
        Err(VoxBoxError::Workspace)
    );
    let mut real_work = vec![num(0.0); find_formants_real_work_size(64, n_coeffs)];
    let mut short =
        vec![Complex::new(num(0.0), num(0.0)); find_formants_complex_work_size(n_coeffs) - 1];
    assert_eq!(
        find_formants(
            &frame[..],
            num(8000.0),
            num(1.0),
            &mut resampled[..],
            n_coeffs,
            &mut real_work[..],
            &mut short[..],
            &mut formants[..],
        ),
        Err(VoxBoxError::Workspace)
    );
    assert_eq!(floats(&formants), vec![500.0, 1500.0]);
}

#[test]
fn find_formants_reports_silence_as_numeric() {
    let frame = nums(&[0.0; 64]);
    let n_coeffs = 4;
    let mut resampled = vec![num(0.0); 64];
    let mut real_work = vec![num(0.0); find_formants_real_work_size(64, n_coeffs)];
    let mut complex_work =
        vec![Complex::new(num(0.0), num(0.0)); find_formants_complex_work_size(n_coeffs)];
    let mut formants = nums(&[500.0, 1500.0]);
    assert_eq!(
        find_formants(
            &frame[..],
            num(8000.0),
            num(1.0),
            &mut resampled[..],
            n_coeffs,
            &mut real_work[..],
            &mut complex_work[..],
            &mut formants[..],
        ),
        Err(VoxBoxError::Numeric)
    );
    assert_eq!(floats(&formants), vec![500.0, 1500.0]);
}

#[test]
fn find_formants_of_order_zero_has_no_roots() {
    let frame = nums(&two_resonances(64, 8000.0, 700.0, 1800.0, 0.97));
    let mut resampled = vec![num(0.0); 64];
    let mut real_work = vec![num(0.0); find_formants_real_work_size(64, 0)];
    let mut complex_work =
        vec![Complex::new(num(0.0), num(0.0)); find_formants_complex_work_size(0)];
    let mut formants = nums(&[500.0, 1500.0]);
    assert_eq!(
        find_formants(
            &frame[..],
            num(8000.0),
            num(1.0),
            &mut resampled[..],
            0,
            &mut real_work[..],
            &mut complex_work[..],
            &mut formants[..],
        ),
        Err(VoxBoxError::Polynomial(PolynomialFault::ZeroDegree))
    );
}

#[test]
fn errors_in_words() {
    assert_eq!(VoxBoxError::Workspace.message(), "Workspace too small");
    assert_eq!(VoxBoxError::Numeric.message(), "Numeric error");
    assert_eq!(
        VoxBoxError::Polynomial(PolynomialFault::DivideByZero).message(),
        "Tried to divide by zero"
    );
    assert_eq!(
        VoxBoxError::Polynomial(PolynomialFault::ZeroDegree).message(),
        PolynomialFault::ZeroDegree.message()
    );
}
