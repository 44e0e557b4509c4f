//! Binding plays against the reference catalogs.

use barnacle::data_types::{
    BindError, Condition, Cost, Entry, Event, IntRange, Leaf, Play, Range,
};

fn event(name: &str, low: i64, mode: i64, high: i64) -> Event {
    Event {
        description: name.to_owned(),
        includes_controls: None,
        range: IntRange { low: Some(low), mode: Some(mode), high: Some(high) },
        prob: None,
    }
}

fn condition(name: &str, low: i64, mode: i64, high: i64) -> Condition {
    Condition {
        description: name.to_owned(),
        range: Range { low: Some(low), mode: Some(mode), high: Some(high) },
        prob: None,
    }
}

fn cost(name: &str, low: i64, mode: i64, high: i64) -> Cost {
    Cost {
        description: name.to_owned(),
        range: Range { low: Some(low), mode: Some(mode), high: Some(high) },
        prob: None,
    }
}

fn unbound_play() -> Play {
    Play {
        description: "outage play".to_owned(),
        file_name: Some("plays/outage.yaml".to_owned()),
        event: event("outage", 0, 0, 0),
        scenario: vec![Entry::Single(condition("door unlocked", 0, 0, 0))],
        magnitude: Range { low: Some(1_000_000), mode: Some(1_000_000), high: Some(2_000_000) },
        magnitude_prob: None,
        costs: vec![cost("fine", 0, 0, 0)],
    }
}

fn catalogs() -> (Vec<Event>, Vec<Condition>, Vec<Cost>) {
    (
        vec![event("outage", 1, 2, 3)],
        vec![condition("door unlocked", 25_000_000, 50_000_000, 75_000_000)],
        vec![cost("fine", 1_000_000_000, 2_000_000_000, 3_000_000_000)],
    )
}

#[test]
fn binding_copies_ranges_and_builds_distributions() {
    let (events, conditions, costs) = catalogs();
    let mut play = unbound_play();
    let bound = play.build_models(&events, &conditions, &costs);
    assert!(bound.is_ok());

    // The event range is copied in; its distribution is scaled to fixed point.
    assert_eq!(play.event.range.low, Some(1));
    assert_eq!(play.event.range.high, Some(3));
    let ev = play.event.prob.unwrap();
    assert_eq!(ev.min, 1_000_000);
    assert_eq!(ev.mode, 2_000_000);
    assert_eq!(ev.max, 3_000_000);

    // The condition in the tree is populated from the catalog.
    match &play.scenario[0] {
        Entry::Single(c) => {
            assert_eq!(c.range.low, Some(25_000_000));
            let tri = c.prob.unwrap();
            assert_eq!(tri.min, 25_000_000);
            assert_eq!(tri.mode, 50_000_000);
            assert_eq!(tri.max, 75_000_000);
        },
        other => panic!("expected the single condition to survive, got {:?}", other),
    }

    // The magnitude distribution is built from the play's own range.
    let mag = play.magnitude_prob.unwrap();
    assert_eq!(mag.min, 1_000_000);
    assert_eq!(mag.max, 2_000_000);

    // The cost is populated from the catalog.
    let fine = play.costs[0].prob.unwrap();
    assert_eq!(fine.min, 1_000_000_000);
    assert_eq!(fine.max, 3_000_000_000);
}

#[test]
fn binding_resolves_nested_branches() {
    let (events, conditions, costs) = catalogs();
    let mut play = unbound_play();
    play.scenario = vec![Entry::Branch(vec![
        Leaf {
            weight: 60,
            scenario: vec![Entry::Single(condition("door unlocked", 0, 0, 0))],
        },
        Leaf { weight: 40, scenario: vec![] },
    ])];
    assert!(play.build_models(&events, &conditions, &costs).is_ok());
    match &play.scenario[0] {
        Entry::Branch(leaves) => {
            assert_eq!(leaves[0].weight, 60);
            match &leaves[0].scenario[0] {
                Entry::Single(c) => assert!(c.prob.is_some()),
                other => panic!("expected a bound condition, got {:?}", other),
            }
        },
        other => panic!("expected the branch to survive, got {:?}", other),
    }
}

#[test]
fn an_unknown_event_is_reported() {
    let (_, conditions, costs) = catalogs();
    let events = vec![event("something else", 1, 2, 3)];
    let mut play = unbound_play();
    match play.build_models(&events, &conditions, &costs) {
        Err(BindError::UnknownEvent { description }) => assert_eq!(description, "outage"),
        other => panic!("expected an unknown-event error, got {:?}", other),
    }
}

#[test]
fn an_unknown_condition_is_reported() {
    let (events, _, costs) = catalogs();
    let conditions = vec![condition("window open", 1_000_000, 2_000_000, 3_000_000)];
    let mut play = unbound_play();
    match play.build_models(&events, &conditions, &costs) {
        Err(BindError::UnknownCondition { description }) => {
            assert_eq!(description, "door unlocked")
        },
        other => panic!("expected an unknown-condition error, got {:?}", other),
    }
}

#[test]
fn an_unknown_cost_is_reported() {
    let (events, conditions, _) = catalogs();
    let costs = vec![cost("cleanup", 1_000_000, 1_500_000, 2_000_000)];
    let mut play = unbound_play();
    match play.build_models(&events, &conditions, &costs) {
        Err(BindError::UnknownCost { description }) => assert_eq!(description, "fine"),
        other => panic!("expected an unknown-cost error, got {:?}", other),
    }
}

#[test]
fn a_missing_mode_is_reported() {
    let (events, mut conditions, costs) = catalogs();
    conditions[0].range.mode = None;
    let mut play = unbound_play();
    match play.build_models(&events, &conditions, &costs) {
        Err(BindError::MissingMode { description }) => assert_eq!(description, "door unlocked"),
        other => panic!("expected a missing-mode error, got {:?}", other),
    }
}
