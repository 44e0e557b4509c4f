//! The Monte Carlo loop end to end, with values in fixed-point units.

use barnacle::calculation::{get_condition_rand, monte_carlo};
use barnacle::data_types::{
    Condition, Cost, Entry, Event, IntRange, Leaf, Play, Range, Validation,
};
use barnacle::distribution::Triangular;
use barnacle::numeric::{PROB_ONE, SCALE};
use barnacle::rng::RandomSource;

fn bound_play(
    event_range: (i64, i64, i64),
    condition_percent: (i64, i64, i64),
    magnitude: (i64, i64, i64),
    cost_money: (i64, i64, i64),
) -> Play {
    let (el, em, eh) = event_range;
    let (cl, cm, ch) = condition_percent;
    let (ml, mm, mh) = magnitude;
    let (kl, km, kh) = cost_money;
    Play {
        description: "test play".to_owned(),
        file_name: Some("plays/test.yaml".to_owned()),
        event: Event {
            description: "outage".to_owned(),
            includes_controls: None,
            range: IntRange { low: Some(el / SCALE), mode: Some(em / SCALE), high: Some(eh / SCALE) },
            prob: Some(Triangular::new(el, eh, em)),
        },
        scenario: vec![Entry::Single(Condition {
            description: "always".to_owned(),
            range: Range { low: Some(cl), mode: Some(cm), high: Some(ch) },
            prob: Some(Triangular::new(cl, ch, cm)),
        })],
        magnitude: Range { low: Some(ml), mode: Some(mm), high: Some(mh) },
        magnitude_prob: Some(Triangular::new(ml, mh, mm)),
        costs: vec![Cost {
            description: "fine".to_owned(),
            range: Range { low: Some(kl), mode: Some(km), high: Some(kh) },
            prob: Some(Triangular::new(kl, kh, km)),
        }],
    }
}

#[test]
fn zero_iterations_give_the_all_zero_result() {
    let play = bound_play(
        (1_000_000, 2_000_000, 3_000_000),
        (100_000_000, 100_000_000, 100_000_000),
        (1_000_000, 1_000_000, 1_000_000),
        (1_000_000_000, 1_000_000_000, 1_000_000_000),
    );
    let mut rng = RandomSource::from_seed(5);
    let (result, outcomes) = monte_carlo(0, &play, &mut rng);
    assert_eq!(outcomes.len(), 0);
    assert_eq!(result.annual_loss_event_prob, 0);
    assert_eq!(result.fifth_percentile, 0);
    assert_eq!(result.ninety_fifth_percentile, 0);
    assert_eq!(result.mean, 0);
    assert_eq!(result.median, 0);
    assert_eq!(result.std_dev, 0);
}

#[test]
fn a_frequency_that_rounds_to_zero_gives_the_all_zero_result() {
    let mut play = bound_play(
        (1_000_000, 2_000_000, 3_000_000),
        (100_000_000, 100_000_000, 100_000_000),
        (1_000_000, 1_000_000, 1_000_000),
        (1_000_000_000, 1_000_000_000, 1_000_000_000),
    );
    // Every frequency sample is zero, so no round ever fires.
    play.event.prob = Some(Triangular::new(0, 0, 0));
    let mut rng = RandomSource::from_seed(5);
    let (result, outcomes) = monte_carlo(50, &play, &mut rng);
    assert_eq!(outcomes.len(), 50);
    assert!(outcomes.iter().all(|&o| o == 0));
    assert_eq!(result.annual_loss_event_prob, 0);
    assert_eq!(result.mean, 0);
    assert_eq!(result.std_dev, 0);
}

#[test]
fn a_certain_loss_is_seen_every_round() {
    // One deterministic condition that always passes, a unit magnitude and a
    // fixed cost of one thousand money units: every round loses a multiple
    // of one thousand, depending only on how often the event fires.
    let play = bound_play(
        (1_000_000, 2_000_000, 3_000_000),
        (100_000_000, 100_000_000, 100_000_000),
        (1_000_000, 1_000_000, 1_000_000),
        (1_000_000_000, 1_000_000_000, 1_000_000_000),
    );
    let mut rng = RandomSource::from_seed(11);
    let iterations = 1000;
    let (result, outcomes) = monte_carlo(iterations, &play, &mut rng);
    assert_eq!(outcomes.len(), iterations);
    // The event fires one to three times per round, so the loss probability
    // is exactly one hundred percent.
    assert_eq!(result.annual_loss_event_prob, 100 * SCALE);
    // Each firing loses exactly one thousand money units.
    for &o in outcomes.iter() {
        assert!(o == 1_000_000_000 || o == 2_000_000_000 || o == 3_000_000_000);
    }
    assert!(result.mean >= 1_000_000_000);
    assert!(result.mean <= 3_000_000_000);
    assert!(result.fifth_percentile >= 1_000_000_000);
    assert!(result.ninety_fifth_percentile <= 3_000_000_000);
    assert!(result.median >= result.fifth_percentile);
    assert!(result.median <= result.ninety_fifth_percentile);
}

#[test]
fn a_validated_play_summarizes_its_own_outcomes() {
    // A degenerate play: the loss is always exactly 2000 money units
    // (magnitude two, cost one thousand), once per round.
    let play = bound_play(
        (1_000_000, 1_000_000, 1_000_000),
        (100_000_000, 100_000_000, 100_000_000),
        (2_000_000, 2_000_000, 2_000_000),
        (1_000_000_000, 1_000_000_000, 1_000_000_000),
    );
    assert!(play.validate().is_ok());
    let mut rng = RandomSource::from_seed(1);
    let (result, outcomes) = monte_carlo(10, &play, &mut rng);
    assert!(outcomes.iter().all(|&o| o == 2_000_000_000));
    assert_eq!(result.annual_loss_event_prob, 100 * SCALE);
    assert_eq!(result.mean, 2_000_000_000);
    assert_eq!(result.median, 2_000_000_000);
    assert_eq!(result.std_dev, 0);
    assert_eq!(result.fifth_percentile, 2_000_000_000);
    assert_eq!(result.ninety_fifth_percentile, 2_000_000_000);
}

#[test]
fn a_branch_contributes_the_weighted_average() {
    // Two mutually exclusive alternatives: an always-true condition with
    // weight fifty and an always-false one with weight fifty. The gating
    // probability is exactly one half.
    let always = Condition {
        description: "always".to_owned(),
        range: Range { low: Some(100_000_000), mode: Some(100_000_000), high: Some(100_000_000) },
        prob: Some(Triangular::new(100_000_000, 100_000_000, 100_000_000)),
    };
    let never = Condition {
        description: "never".to_owned(),
        range: Range { low: Some(0), mode: Some(0), high: Some(0) },
        prob: Some(Triangular::new(0, 0, 0)),
    };
    let scenario = vec![Entry::Branch(vec![
        Leaf { weight: 50, scenario: vec![Entry::Single(always)] },
        Leaf { weight: 50, scenario: vec![Entry::Single(never)] },
    ])];
    let mut rng = RandomSource::from_seed(21);
    let p = get_condition_rand(&scenario, &mut rng);
    assert_eq!(p, PROB_ONE / 2);
}

#[test]
fn sibling_conditions_multiply() {
    // Two independent fifty-percent conditions gate together at one quarter.
    let half = |name: &str| Condition {
        description: name.to_owned(),
        range: Range { low: Some(50_000_000), mode: Some(50_000_000), high: Some(50_000_000) },
        prob: Some(Triangular::new(50_000_000, 50_000_000, 50_000_000)),
    };
    let scenario = vec![
        Entry::Single(half("first gate")),
        Entry::Single(half("second gate")),
    ];
    let mut rng = RandomSource::from_seed(22);
    let p = get_condition_rand(&scenario, &mut rng);
    assert_eq!(p, PROB_ONE / 4);
}
