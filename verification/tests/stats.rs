//! Statistics over fixed-point series: one unit is a millionth.

use barnacle::calculation::{mean, median, std_deviation};

#[test]
fn empty_series_have_no_statistics() {
    let empty: Vec<i64> = Vec::new();
    assert_eq!(mean(&empty), None);
    assert_eq!(median(&empty), None);
    assert_eq!(std_deviation(&empty), None);
}

#[test]
fn median_of_one_two_and_three_values() {
    assert_eq!(median(&[4_000_000]), Some(4_000_000));
    assert_eq!(median(&[1_000_000, 3_000_000]), Some(2_000_000));
    assert_eq!(median(&[1_000_000, 2_000_000, 3_000_000]), Some(2_000_000));
}

#[test]
fn mean_is_exact_on_fixed_point_values() {
    assert_eq!(mean(&[1_000_000, 2_000_000, 3_000_000]), Some(2_000_000));
    assert_eq!(mean(&[5_000_000]), Some(5_000_000));
    // Rounded towards zero when the total does not divide evenly.
    assert_eq!(mean(&[1, 2]), Some(1));
}

#[test]
fn std_deviation_is_the_rounded_population_deviation() {
    // Values one unit either side of the mean: the deviation is one unit.
    assert_eq!(std_deviation(&[1_000_000, 3_000_000]), Some(1_000_000));
    // A constant series has no spread.
    assert_eq!(std_deviation(&[7_000_000, 7_000_000, 7_000_000]), Some(0));
    // Deviations 2, 4 and 7 around the mean 7 give variance 23, root 4.
    assert_eq!(std_deviation(&[5, 3, 14]), Some(4));
}
