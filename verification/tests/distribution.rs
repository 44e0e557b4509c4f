//! Triangular distribution behaviour, with values in fixed-point units
//! (one unit is a millionth).

use barnacle::distribution::Triangular;
use barnacle::numeric::UNIT_DRAW;
use barnacle::rng::RandomSource;

#[test]
fn test_new() {
    for &(min, max, mode) in &[
        (-1_000_000i64, 1_000_000i64, 0i64),
        (1_000_000, 2_000_000, 1_000_000),
        (5_000_000, 25_000_000, 25_000_000),
        (10, 100_000_000_000, 1_000),
        (0, 1_000_000, 900_000),
        (-4_000_000, -500_000, -2_000_000),
        (-13_039_000, 8_410_000, 1_170_000),
    ] {
        println!("{} {} {}", min, max, mode);
        let _ = Triangular::new(min, max, mode);
    }
}

#[test]
fn test_sample() {
    let norm = Triangular::new(0, 1_000_000, 500_000);
    let mut rng = RandomSource::from_seed(1);
    for _ in 0..1000 {
        norm.sample(&mut rng);
    }
}

#[test]
fn samples_stay_within_bounds() {
    let tri = Triangular::new(2_000_000, 9_000_000, 3_500_000);
    let mut rng = RandomSource::from_seed(7);
    for _ in 0..2000 {
        let s = tri.sample(&mut rng);
        assert!(s >= 2_000_000);
        assert!(s <= 9_000_000);
    }
}

#[test]
fn degenerate_bounds_give_the_constant() {
    let tri = Triangular::new(4_250_000, 4_250_000, 4_250_000);
    let mut rng = RandomSource::from_seed(99);
    for _ in 0..100 {
        assert_eq!(tri.sample(&mut rng), 4_250_000);
    }
}

#[test]
fn sample_at_is_deterministic_in_the_draw() {
    let tri = Triangular::new(0, 10_000_000, 2_500_000);
    let a = tri.sample_at(123_456);
    let b = tri.sample_at(123_456);
    assert_eq!(a, b);
    // The lowest draw lands on the lower bound.
    assert_eq!(tri.sample_at(0), 0);
}

#[test]
fn seeded_sources_reproduce_their_draws() {
    let mut a = RandomSource::from_seed(42);
    let mut b = RandomSource::from_seed(42);
    for _ in 0..100 {
        assert_eq!(a.next_upto(1_000_000), b.next_upto(1_000_000));
    }
}

#[test]
fn draws_vary_and_respect_the_bound() {
    let mut rng = RandomSource::from_seed(3);
    let mut below = false;
    for _ in 0..100 {
        let d = rng.next_upto(UNIT_DRAW - 1);
        assert!(d <= UNIT_DRAW - 1);
        if d < UNIT_DRAW - 1 {
            below = true;
        }
    }
    assert!(below);
}

#[test]
fn an_entropy_seeded_source_respects_bounds() {
    let mut rng = RandomSource::from_entropy();
    for _ in 0..50 {
        assert!(rng.next_upto(10) <= 10);
    }
}
