//! Validation of catalogs and plays, with ranges in fixed-point units.

use barnacle::data_types::{
    Condition, Entry, IntRange, Leaf, Range, RangeIssue, Validation, ValidationError,
    WeightChecking,
};

fn range(low: Option<i64>, mode: Option<i64>, high: Option<i64>) -> Range {
    Range { low, mode, high }
}

fn condition(name: &str, low: i64, mode: i64, high: i64) -> Condition {
    Condition {
        description: name.to_owned(),
        range: range(Some(low), Some(mode), Some(high)),
        prob: None,
    }
}

#[test]
fn missing_low_is_rejected() {
    let r = range(None, None, Some(5_000_000));
    match r.range_checks("conditions.yaml", "x") {
        Err(ValidationError::Range { context, description, issue }) => {
            assert_eq!(context, "conditions.yaml");
            assert_eq!(description, "x");
            assert_eq!(issue, RangeIssue::MissingLow);
        },
        other => panic!("expected a missing-low error, got {:?}", other),
    }
}

#[test]
fn low_above_high_is_rejected() {
    let r = range(Some(10_000_000), None, Some(5_000_000));
    match r.range_checks("costs.yaml", "y") {
        Err(ValidationError::Range { issue, .. }) => {
            assert_eq!(issue, RangeIssue::LowAboveHigh);
        },
        other => panic!("expected a low-above-high error, got {:?}", other),
    }
}

#[test]
fn mode_above_high_is_rejected() {
    let r = range(Some(1_000_000), Some(20_000_000), Some(10_000_000));
    match r.range_checks("conditions.yaml", "z") {
        Err(ValidationError::Range { issue, .. }) => {
            assert_eq!(issue, RangeIssue::ModeAboveHigh);
        },
        other => panic!("expected a mode-above-high error, got {:?}", other),
    }
}

#[test]
fn non_positive_bounds_are_rejected() {
    let r = range(Some(0), None, Some(5_000_000));
    match r.range_checks("events.yaml", "n") {
        Err(ValidationError::Range { issue, .. }) => {
            assert_eq!(issue, RangeIssue::LowNotPositive);
        },
        other => panic!("expected a low-not-positive error, got {:?}", other),
    }
}

#[test]
fn int_range_checks_mirror_the_fixed_point_checks() {
    let missing = IntRange { low: None, mode: None, high: None };
    match missing.range_checks("events.yaml", "outage") {
        Err(ValidationError::Range { issue, .. }) => {
            assert_eq!(issue, RangeIssue::MissingBoth);
        },
        other => panic!("expected a missing-both error, got {:?}", other),
    }
    let ok = IntRange { low: Some(1), mode: Some(2), high: Some(3) };
    assert!(ok.range_checks("events.yaml", "outage").is_ok());
}

#[test]
fn a_valid_range_passes() {
    let r = range(Some(1_000_000), Some(2_000_000), Some(3_000_000));
    assert!(r.range_checks("conditions.yaml", "ok").is_ok());
    // The mode may be absent.
    let no_mode = range(Some(1_000_000), None, Some(3_000_000));
    assert!(no_mode.range_checks("conditions.yaml", "ok").is_ok());
}

#[test]
fn duplicate_descriptions_are_rejected() {
    let catalog = vec![
        condition("fire", 1_000_000, 2_000_000, 3_000_000),
        condition("fire", 1_000_000, 2_000_000, 3_000_000),
    ];
    match catalog.validate() {
        Err(ValidationError::Duplicate { context, description }) => {
            assert_eq!(context, "conditions.yaml");
            assert_eq!(description, "fire");
        },
        other => panic!("expected a duplicate error, got {:?}", other),
    }
}

#[test]
fn distinct_descriptions_pass() {
    let catalog = vec![
        condition("fire", 1_000_000, 2_000_000, 3_000_000),
        condition("flood", 1_000_000, 2_000_000, 3_000_000),
    ];
    assert!(catalog.validate().is_ok());
}

#[test]
fn branch_weights_must_total_one_hundred() {
    let scenario = vec![Entry::Branch(vec![
        Leaf { weight: 49, scenario: vec![] },
        Leaf { weight: 50, scenario: vec![] },
    ])];
    match scenario.check_weight_totals() {
        Err(ValidationError::WeightSum) => {},
        other => panic!("expected a weight-sum error, got {:?}", other),
    }
    let balanced = vec![Entry::Branch(vec![
        Leaf { weight: 50, scenario: vec![] },
        Leaf { weight: 50, scenario: vec![] },
    ])];
    assert!(balanced.check_weight_totals().is_ok());
}

#[test]
fn nested_branch_weights_are_checked() {
    let nested = vec![Entry::Branch(vec![Leaf {
        weight: 100,
        scenario: vec![Entry::Branch(vec![Leaf { weight: 99, scenario: vec![] }])],
    }])];
    assert!(nested.check_weight_totals().is_err());
}

#[test]
fn every_range_check_fires_in_order() {
    let cases: Vec<(Range, RangeIssue)> = vec![
        (range(None, None, None), RangeIssue::MissingBoth),
        (range(None, None, Some(5_000_000)), RangeIssue::MissingLow),
        (range(Some(1_000_000), None, None), RangeIssue::MissingHigh),
        (range(Some(0), None, Some(5_000_000)), RangeIssue::LowNotPositive),
        (range(Some(1_000_000), None, Some(0)), RangeIssue::HighNotPositive),
        (range(Some(6_000_000), None, Some(5_000_000)), RangeIssue::LowAboveHigh),
        (
            range(Some(1_000_000), Some(-1), Some(5_000_000)),
            RangeIssue::ModeNotPositive,
        ),
        (
            range(Some(2_000_000), Some(1_000_000), Some(5_000_000)),
            RangeIssue::LowAboveMode,
        ),
        (
            range(Some(1_000_000), Some(9_000_000), Some(5_000_000)),
            RangeIssue::ModeAboveHigh,
        ),
    ];
    for (r, expected) in cases {
        match r.range_checks("conditions.yaml", "case") {
            Err(ValidationError::Range { issue, .. }) => assert_eq!(issue, expected),
            other => panic!("expected {:?}, got {:?}", expected, other),
        }
    }
}
