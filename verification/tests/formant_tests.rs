use vox_box::formant::FormantExtractor;
use vox_box::scalar::Real;

fn reals(values: &[f64]) -> Vec<Real> {
    values.iter().map(|v| Real::from_bits(v.to_bits())).collect()
}

fn floats(values: &[Real]) -> Vec<f64> {
    values.iter().map(|v| f64::from_bits(v.to_bits())).collect()
}

#[test]
fn test_formant_extractor() {
    let resonances = vec![
        reals(&[100.0, 150.0, 200.0, 240.0, 300.0]),
        reals(&[110.0, 180.0, 210.0, 230.0, 310.0]),
        reals(&[230.0, 270.0, 290.0, 350.0, 360.0]),
    ];
    let mut extractor = FormantExtractor::new(3, &resonances, reals(&[140.0, 230.0, 320.0]));
    // First cycle has initial guesses
    match extractor.next() {
        Some(r) => assert_eq!(floats(&r), vec![150.0, 240.0, 300.0]),
        None => panic!(),
    };

    // Second cycle should be different
    match extractor.next() {
        Some(r) => assert_eq!(floats(&r), vec![180.0, 230.0, 310.0]),
        None => panic!(),
    };

    // Third cycle should have removed duplicates and shifted to fill all slots
    match extractor.next() {
        Some(r) => assert_eq!(floats(&r), vec![230.0, 270.0, 290.0]),
        None => panic!(),
    };
}

use vox_box::formant::{sort_ascending, track};

#[test]
fn tracker_ends_when_frames_are_exhausted() {
    let resonances = vec![reals(&[100.0, 150.0])];
    let mut extractor = FormantExtractor::new(2, &resonances, reals(&[90.0, 160.0]));
    assert_eq!(extractor.num_formants, 2);
    assert_eq!(extractor.frame_index, 0);
    assert_eq!(floats(&extractor.next().unwrap()), vec![100.0, 150.0]);
    assert_eq!(extractor.frame_index, 1);
    assert_eq!(floats(&extractor.estimates), vec![100.0, 150.0]);
    assert!(extractor.next().is_none());
    assert!(extractor.next().is_none());
    assert_eq!(extractor.frame_index, 1);
    assert_eq!(floats(&extractor.estimates), vec![100.0, 150.0]);
}

#[test]
fn tracker_without_frames_returns_none_at_once() {
    let resonances: Vec<Vec<Real>> = Vec::new();
    let mut extractor = FormantExtractor::new(3, &resonances, reals(&[90.0, 160.0]));
    assert!(extractor.next().is_none());
    assert_eq!(floats(&extractor.estimates), vec![90.0, 160.0]);
}

#[test]
fn tracker_breaks_ties_towards_the_lower_index() {
    // 150 lies midway between 100 and 200
    assert_eq!(floats(&track(&reals(&[150.0]), &reals(&[100.0, 200.0]))), vec![100.0]);
}

#[test]
fn tracker_keeps_the_slot_nearer_to_a_shared_peak() {
    // both estimates are nearest to 200; 210 is nearer and keeps it, and no
    // unused peak is left for the other slot but 100
    assert_eq!(
        floats(&track(&reals(&[150.0, 210.0]), &reals(&[20.0, 200.0]))),
        vec![20.0, 200.0]
    );
    // the left slot keeps the peak where it is nearer
    assert_eq!(
        floats(&track(&reals(&[190.0, 250.0]), &reals(&[200.0, 1000.0]))),
        vec![200.0, 1000.0]
    );
}

#[test]
fn tracker_tolerates_frames_shorter_than_the_slots() {
    let resonances = vec![reals(&[200.0]), reals(&[]), reals(&[300.0])];
    let mut extractor = FormantExtractor::new(3, &resonances, reals(&[140.0, 230.0, 320.0]));
    assert_eq!(floats(&extractor.next().unwrap()), vec![200.0]);
    assert_eq!(floats(&extractor.estimates), vec![200.0]);
    // an empty frame leaves no formant
    assert_eq!(floats(&extractor.next().unwrap()), Vec::<f64>::new());
    assert_eq!(floats(&extractor.estimates), Vec::<f64>::new());
    assert_eq!(floats(&extractor.next().unwrap()), Vec::<f64>::new());
    assert!(extractor.next().is_none());
}

#[test]
fn tracker_drops_peaks_that_are_not_positive() {
    assert_eq!(
        floats(&track(&reals(&[-5.0, 0.0, 7.0]), &reals(&[-4.0, 0.0, 8.0]))),
        vec![8.0]
    );
    assert_eq!(
        floats(&track(&reals(&[1.0]), &reals(&[f64::NAN]))),
        Vec::<f64>::new()
    );
}

#[test]
fn tracker_output_is_sorted_while_estimates_keep_slot_order() {
    // all three slots are nearest to 600, the last is nearest and keeps it;
    // 700 then takes the middle slot
    let resonances = vec![reals(&[600.0, 700.0, 800.0])];
    let mut extractor = FormantExtractor::new(3, &resonances, reals(&[590.0, 595.0, 599.0]));
    assert_eq!(floats(&extractor.next().unwrap()), vec![600.0, 700.0]);
    assert_eq!(floats(&extractor.estimates), vec![700.0, 600.0]);
}

#[test]
fn tracker_can_emit_a_peak_twice_when_equal_peaks_lie_apart() {
    // 1e20 is equally far from both peaks in double precision and takes the
    // lower one, so the slots hold 1, 2, 1: the sweep compares neighbours only
    assert_eq!(
        floats(&track(&reals(&[1.2, 1.6, 1e20]), &reals(&[1.0, 2.0]))),
        vec![1.0, 2.0, 1.0]
    );
}

#[test]
fn sorting_orders_numbers_as_the_hardware_does() {
    let v = reals(&[3.0, -1.0, 2.5, f64::INFINITY, 0.0, -7.5, f64::NEG_INFINITY, 1e-300]);
    assert_eq!(
        floats(&sort_ascending(&v)),
        vec![f64::NEG_INFINITY, -7.5, -1.0, 0.0, 1e-300, 2.5, 3.0, f64::INFINITY]
    );
    assert_eq!(floats(&sort_ascending(&Vec::new())), Vec::<f64>::new());
}

#[test]
fn sorting_puts_each_number_before_the_first_greater_one() {
    // a NaN goes to the end of what is placed when its turn comes
    let v = reals(&[3.0, f64::NAN, 1.0, 2.0]);
    let sorted = floats(&sort_ascending(&v));
    assert_eq!(sorted[0], 1.0);
    assert_eq!(sorted[1], 2.0);
    assert_eq!(sorted[2], 3.0);
    assert!(sorted[3].is_nan());
    // the two zeros compare equal and keep their order
    let zeros = sort_ascending(&reals(&[0.0, -0.0, -1.0]));
    let bits: Vec<u64> = zeros.iter().map(|z| z.to_bits()).collect();
    assert_eq!(bits, vec![(-1.0f64).to_bits(), 0.0f64.to_bits(), (-0.0f64).to_bits()]);
}
