use vox_box::scalar::Real;
use vox_box::signal::{
    autocorrelate, autocorrelate_mut, hanning, hanning_weight, is_near_unity, resample_linear,
};

fn num(x: f64) -> Real {
    Real::from_bits(x.to_bits())
}

fn float(x: Real) -> f64 {
    f64::from_bits(x.to_bits())
}

fn nums(values: &[f64]) -> Vec<Real> {
    values.iter().map(|v| num(*v)).collect()
}

fn floats(values: &[Real]) -> Vec<f64> {
    values.iter().map(|v| float(*v)).collect()
}

#[test]
fn resampling_with_ratio_one_is_the_identity() {
    let src = nums(&[0.25, -1.5, 3.0, -0.0, 7.75]);
    let mut out = vec![num(9.0); 5];
    resample_linear(&src[..], num(1.0), &mut out[..]);
    let got: Vec<u64> = out.iter().map(|v| v.to_bits()).collect();
    let want: Vec<u64> = src.iter().map(|v| v.to_bits()).collect();
    assert_eq!(got, want);
}

#[test]
fn resampling_to_the_same_length_is_the_identity_for_any_ratio() {
    let src = nums(&[0.25, -1.5, 3.0, -0.0, 7.75]);
    let mut out = vec![num(9.0); 5];
    resample_linear(&src[..], num(2.0), &mut out[..]);
    let got: Vec<u64> = out.iter().map(|v| v.to_bits()).collect();
    let want: Vec<u64> = src.iter().map(|v| v.to_bits()).collect();
    assert_eq!(got, want);
}

#[test]
fn resampling_interpolates_linearly() {
    // 3 samples to 5: positions 0, 0.5, 1, 1.5, 2
    let src = nums(&[0.0, 10.0, 30.0]);
    let mut out = vec![num(0.0); 5];
    resample_linear(&src[..], num(5.0 / 3.0), &mut out[..]);
    assert_eq!(floats(&out), vec![0.0, 5.0, 10.0, 20.0, 30.0]);

    // 5 samples to 3: positions 0, 2, 4
    let src = nums(&[1.0, 2.0, 4.0, 8.0, 16.0]);
    let mut out = vec![num(0.0); 3];
    resample_linear(&src[..], num(0.6), &mut out[..]);
    assert_eq!(floats(&out), vec![1.0, 4.0, 16.0]);

    // 4 samples to 3: positions 0, 1.5, 3
    let src = nums(&[1.0, 2.0, 4.0, 8.0]);
    let mut out = vec![num(0.0); 3];
    resample_linear(&src[..], num(0.75), &mut out[..]);
    assert_eq!(floats(&out), vec![1.0, 3.0, 8.0]);
}

#[test]
fn resampling_edge_lengths() {
    let src = nums(&[1.0, 2.0, 4.0]);
    let mut one = vec![num(0.0); 1];
    resample_linear(&src[..], num(0.3), &mut one[..]);
    assert_eq!(floats(&one), vec![1.0]);

    let mut none: Vec<Real> = Vec::new();
    resample_linear(&src[..], num(0.3), &mut none[..]);
    assert!(none.is_empty());

    // a single input sample is repeated
    let single = nums(&[5.0]);
    let mut out = vec![num(0.0); 3];
    resample_linear(&single[..], num(3.0), &mut out[..]);
    assert_eq!(floats(&out), vec![5.0, 5.0, 5.0]);

    // near unity with a longer output: the rest stays
    let mut out = vec![num(9.0); 5];
    resample_linear(&src[..], num(1.00005), &mut out[..]);
    assert_eq!(floats(&out), vec![1.0, 2.0, 4.0, 9.0, 9.0]);
}

#[test]
fn near_unity_is_within_one_part_in_ten_thousand() {
    assert!(is_near_unity(num(1.0)));
    assert!(is_near_unity(num(0.9999)));
    assert!(is_near_unity(num(1.0001)));
    assert!(!is_near_unity(num(0.9998)));
    assert!(!is_near_unity(num(1.0002)));
    assert!(!is_near_unity(num(-1.0)));
    assert!(!is_near_unity(num(f64::NAN)));
}

#[test]
fn hanning_window_values() {
    assert_eq!(float(hanning_weight(num(1.0))), 0.0);
    assert_eq!(float(hanning_weight(num(-1.0))), 1.0);
    assert_eq!(float(hanning_weight(num(0.0))), 0.5);

    let mut buf = nums(&[2.0, 2.0, 2.0, 2.0]);
    hanning(&mut buf[..]);
    let got = floats(&buf);
    // phases 0, 1/4, 1/2, 3/4: weights 0, 0.5, 1, 0.5
    let want = [0.0, 1.0, 2.0, 1.0];
    for (g, w) in got.iter().zip(want.iter()) {
        assert!((g - w).abs() < 1e-12, "{:?}", got);
    }
}

#[test]
fn autocorrelation_of_a_short_signal() {
    let signal = nums(&[1.0, 2.0, 3.0]);
    assert_eq!(floats(&autocorrelate(&signal[..], 5)), vec![14.0, 8.0, 3.0, 0.0, 0.0]);
    let mut out = nums(&[9.0, 9.0, 9.0]);
    autocorrelate_mut(&signal[..], 2, &mut out[..]);
    assert_eq!(floats(&out), vec![14.0, 8.0, 9.0]);
}

use vox_box::signal::{hanning_phase, normalize};

#[test]
fn hanning_phase_is_two_pi_times_the_fraction() {
    assert_eq!(float(hanning_phase(0, 8)), 0.0);
    assert_eq!(float(hanning_phase(2, 8)), 2.0 * std::f64::consts::PI * (2.0 / 8.0));
    assert_eq!(float(hanning_phase(3, 7)), 2.0 * std::f64::consts::PI * (3.0 / 7.0));
    assert!(float(hanning_phase(0, 0)).is_nan());
}

#[test]
fn normalize_divides_by_the_greatest_magnitude() {
    let mut buf = nums(&[1.0, -4.0, 2.0, 0.0]);
    normalize(&mut buf[..]);
    assert_eq!(floats(&buf), vec![0.25, -1.0, 0.5, 0.0]);

    // a NaN is passed over when the greatest magnitude is sought
    let mut buf = nums(&[f64::NAN, 2.0, -1.0]);
    normalize(&mut buf[..]);
    assert!(float(buf[0]).is_nan());
    assert_eq!(floats(&buf[1..]), vec![1.0, -0.5]);

    let mut empty: Vec<Real> = Vec::new();
    normalize(&mut empty[..]);
    assert!(empty.is_empty());
}
