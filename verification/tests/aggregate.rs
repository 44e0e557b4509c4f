//! Cross-play aggregation into the per-annum result.

use barnacle::calculation::{combine_round_outcomes, per_annum_result};
use barnacle::data_types::MonteCarloResult;
use barnacle::numeric::SCALE;

fn summary(description: &str, mean: i64) -> MonteCarloResult {
    MonteCarloResult {
        description: description.to_owned(),
        annual_loss_event_prob: 75 * SCALE,
        fifth_percentile: 1,
        ninety_fifth_percentile: 9,
        mean,
        median: 5,
        std_dev: 2,
    }
}

#[test]
fn combined_round_totals_are_the_per_round_sums() {
    let series = vec![vec![0, 5, 0, 7], vec![0, 0, 3, 7]];
    let combined = combine_round_outcomes(&series, 4);
    assert_eq!(combined, vec![0, 5, 3, 14]);
}

#[test]
fn no_plays_give_no_aggregate() {
    let results: Vec<MonteCarloResult> = Vec::new();
    let series: Vec<Vec<i64>> = Vec::new();
    assert!(per_annum_result(&results, &series, 4).is_none());
}

#[test]
fn a_single_play_is_copied_into_the_aggregate() {
    let results = vec![summary("only", 6)];
    let series = vec![vec![0, 5, 0, 7]];
    let total = per_annum_result(&results, &series, 4).unwrap();
    assert_eq!(total.description, "PER ANNUM");
    assert_eq!(total.annual_loss_event_prob, 75 * SCALE);
    assert_eq!(total.fifth_percentile, 1);
    assert_eq!(total.ninety_fifth_percentile, 9);
    assert_eq!(total.mean, 6);
    assert_eq!(total.median, 5);
    assert_eq!(total.std_dev, 2);
}

#[test]
fn two_plays_combine_round_by_round() {
    // Round sums: 0, 5, 3, 14. The all-zero round is excluded from the
    // statistics but still counts towards the probability's denominator;
    // the round where only one play lost is included.
    let results = vec![summary("a", 6), summary("b", 6)];
    let series = vec![vec![0, 5, 0, 7], vec![0, 0, 3, 7]];
    let total = per_annum_result(&results, &series, 4).unwrap();
    assert_eq!(total.description, "PER ANNUM");
    assert_eq!(total.annual_loss_event_prob, 75 * SCALE);
    assert_eq!(total.fifth_percentile, 3);
    assert_eq!(total.ninety_fifth_percentile, 14);
    // Mean of 5, 3 and 14 rounded towards zero.
    assert_eq!(total.mean, 7);
    assert_eq!(total.median, 5);
    // Deviations 2, 4 and 7 give variance 23, whose integer root is 4.
    assert_eq!(total.std_dev, 4);
}

#[test]
fn identical_plays_double_every_round() {
    let results = vec![summary("a", 6), summary("a", 6)];
    let series = vec![vec![0, 5, 0, 7], vec![0, 5, 0, 7]];
    let combined = combine_round_outcomes(&series, 4);
    assert_eq!(combined, vec![0, 10, 0, 14]);
    let total = per_annum_result(&results, &series, 4).unwrap();
    // Two of four rounds lost something.
    assert_eq!(total.annual_loss_event_prob, 50 * SCALE);
    assert_eq!(total.fifth_percentile, 10);
    assert_eq!(total.ninety_fifth_percentile, 14);
    assert_eq!(total.mean, 12);
    assert_eq!(total.median, 12);
}
