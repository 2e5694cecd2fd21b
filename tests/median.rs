use stats::ieee::{is_nan_bits, total_order_key};
use stats::median;

fn bits(xs: &[f64]) -> Vec<u64> {
    xs.iter().map(|x| x.to_bits()).collect()
}

fn median_f64(xs: &[f64]) -> Option<f64> {
    median(&bits(xs)).map(f64::from_bits)
}

#[test]
fn median_of_empty_is_none() {
    assert_eq!(None, median_f64(&[]));
}

#[test]
fn median_takes_lower_of_two_middles() {
    assert_eq!(Some(0.0), median_f64(&[0.0, 0.5, -1.0, 1.0]));
}

#[test]
fn median_of_one_element() {
    assert_eq!(Some(5.0), median_f64(&[5.0]));
}

#[test]
fn median_of_any_single_value_is_that_value() {
    for v in [-2.5, 0.0, -0.0, 1e300, f64::INFINITY, f64::NEG_INFINITY] {
        let r = median(&[v.to_bits()]);
        assert_eq!(Some(v.to_bits()), r);
    }
}

#[test]
fn median_of_odd_length_is_middle() {
    assert_eq!(Some(3.0), median_f64(&[9.0, 3.0, -4.0, 7.0, 1.0]));
}

#[test]
fn median_with_repeated_values() {
    assert_eq!(Some(2.0), median_f64(&[2.0, 2.0, 1.0, 2.0, 8.0, 8.0]));
}

#[test]
fn median_is_one_of_the_elements() {
    let xs = [3.25, -7.5, 10.0, 0.125, 4.0, -1.0];
    let r = median_f64(&xs).unwrap();
    assert!(xs.contains(&r));
    assert_eq!(0.125, r);
}

#[test]
fn median_twice_gives_the_same_and_leaves_the_sample() {
    let sample = bits(&[4.0, -2.0, 6.5, 0.0, 1.0, 1.0, -9.0]);
    let copy = sample.clone();
    let first = median(&sample);
    let second = median(&sample);
    assert_eq!(first, second);
    assert_eq!(copy, sample);
    assert_eq!(Some(1.0f64.to_bits()), first);
}

#[test]
fn median_with_nan_is_none() {
    assert_eq!(None, median_f64(&[1.0, f64::NAN, 2.0]));
    assert_eq!(None, median_f64(&[-f64::NAN]));
}

#[test]
fn median_handles_infinities() {
    assert_eq!(
        Some(f64::NEG_INFINITY),
        median_f64(&[f64::INFINITY, f64::NEG_INFINITY, f64::NEG_INFINITY])
    );
}

#[test]
fn median_puts_negative_zero_below_positive_zero() {
    assert_eq!(Some((-0.0f64).to_bits()), median(&bits(&[0.0, -0.0])));
    assert_eq!(Some((-0.0f64).to_bits()), median(&bits(&[-0.0, 0.0])));
}

#[test]
fn median_of_a_long_descending_sample() {
    let xs: Vec<f64> = (0..1001).rev().map(|i| i as f64).collect();
    assert_eq!(Some(500.0), median_f64(&xs));
    let ys: Vec<f64> = (0..1000).map(|i| (999 - i) as f64 - 0.5).collect();
    assert_eq!(Some(498.5), median_f64(&ys));
}

#[test]
fn nan_patterns_are_recognised() {
    assert!(is_nan_bits(f64::NAN.to_bits()));
    assert!(is_nan_bits((-f64::NAN).to_bits()));
    assert!(!is_nan_bits(f64::INFINITY.to_bits()));
    assert!(!is_nan_bits(f64::NEG_INFINITY.to_bits()));
    assert!(!is_nan_bits(0.0f64.to_bits()));
    assert!(!is_nan_bits(f64::MAX.to_bits()));
}

#[test]
fn total_order_keys_follow_the_numbers() {
    assert_eq!(0, total_order_key(0.0f64.to_bits()));
    assert_eq!(-1, total_order_key((-0.0f64).to_bits()));
    assert_eq!(0x3FF0_0000_0000_0000, total_order_key(1.0f64.to_bits()));
    assert_eq!(-0x3FF0_0000_0000_0000 - 1, total_order_key((-1.0f64).to_bits()));
    let xs = [f64::NEG_INFINITY, -1e10, -1.0, -1e-300, 0.0, 1e-300, 2.0, f64::MAX, f64::INFINITY];
    for w in xs.windows(2) {
        assert!(total_order_key(w[0].to_bits()) < total_order_key(w[1].to_bits()));
    }
    assert_eq!(i64::MIN, total_order_key(u64::MAX));
    assert_eq!(i64::MAX, total_order_key(0x7FFF_FFFF_FFFF_FFFF));
}
