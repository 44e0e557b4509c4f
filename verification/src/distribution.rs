//! The triangular distribution, extended so that collapsed bounds give a
//! deterministic value.
//!
//! A sample is driven by one uniform draw `u` standing for the fraction
//! `u / UNIT_DRAW` in `[0, 1)`. With `d1 = mode - min`, `d2 = max - min` and
//! `d3 = max - mode`, the draw is mapped to
//! `min + sqrt(u/U * d2 * d1)` when `u/U * d2 < d1`, and to
//! `max - sqrt((1 - u/U) * d2 * d3)` otherwise, all in fixed-point
//! arithmetic with an exact integer square root. Every sample lies in
//! `[min, max]`, and equals `min` when the bounds collapse.

use crate::numeric::{is_floor_sqrt, isqrt, isqrt_spec, BOUND_LIMIT, UNIT_DRAW};
use crate::rng::RandomSource;
use vstd::prelude::*;

verus! {

#[derive(Clone, Copy, Debug)]
pub struct Triangular {
    pub min: i64,
    pub max: i64,
    pub mode: i64,
}

impl Triangular {
    /// The bounds are ordered and small enough for sampling arithmetic.
    pub open spec fn wf(self) -> bool {
        -BOUND_LIMIT <= self.min <= self.mode <= self.max <= BOUND_LIMIT
    }

    /// The exact value a given uniform draw is mapped to.
    pub open spec fn sample_at_spec(self, u: u64) -> int {
        let d1 = self.mode - self.min;
        let d2 = self.max - self.min;
        let d3 = self.max - self.mode;
        if u * d2 < d1 * UNIT_DRAW {
            self.min + isqrt_spec(u * d2 * d1 / (UNIT_DRAW as int))
        } else {
            self.max - isqrt_spec((UNIT_DRAW - u) * d2 * d3 / (UNIT_DRAW as int))
        }
    }

    pub fn new(min: i64, max: i64, mode: i64) -> (t: Triangular)
        requires
            -BOUND_LIMIT <= min,
            min <= mode,
            mode <= max,
            max <= BOUND_LIMIT,
        ensures
            t == (Triangular { min, max, mode }),
            t.wf(),
    {
        Triangular { min, max, mode }
    }

    /// Maps one uniform draw to a sample; deterministic in the draw.
    pub fn sample_at(&self, u: u64) -> (r: i64)
        requires
            self.wf(),
            u < UNIT_DRAW,
        ensures
            r == self.sample_at_spec(u),
            self.min <= r <= self.max,
            self.min == self.max ==> r == self.min,
    {
        let d1: i64 = self.mode - self.min;
        let d2: i64 = self.max - self.min;
        let d3: i64 = self.max - self.mode;
        proof {
            assert(u * d2 <= 0x100000u128 * 0x20_0000_0000_0000u128 && d1 * UNIT_DRAW
                <= 0x20_0000_0000_0000u128 * 0x100000u128) by (nonlinear_arith)
                requires
                    0 <= u <= 0x100000,
                    0 <= d2 <= 0x20_0000_0000_0000,
                    0 <= d1 <= 0x20_0000_0000_0000,
                    UNIT_DRAW == 0x100000,
            ;
        }
        let lhs: u128 = (u as u128) * (d2 as u128);
        let rhs: u128 = (d1 as u128) * (UNIT_DRAW as u128);
        if lhs < rhs {
            proof {
                assert(u * d2 * d1 < d1 * d1 * UNIT_DRAW && u * d2 * d1 <= 0x100000u128
                    * 0x20_0000_0000_0000u128 * 0x20_0000_0000_0000u128 && 0 < d1)
                    by (nonlinear_arith)
                    requires
                        u * d2 < d1 * UNIT_DRAW,
                        0 <= u <= 0x100000,
                        0 <= d2 <= 0x20_0000_0000_0000,
                        0 <= d1 <= 0x20_0000_0000_0000,
                        UNIT_DRAW == 0x100000,
                ;
            }
            let t: u128 = lhs * (d1 as u128) / (UNIT_DRAW as u128);
            assert(t < d1 * d1) by {
                assert(t * UNIT_DRAW <= u * d2 * d1) by (nonlinear_arith)
                    requires
                        t == u * d2 * d1 / (UNIT_DRAW as int),
                        u * d2 * d1 >= 0,
                        UNIT_DRAW == 0x100000,
                ;
                assert(t * UNIT_DRAW < d1 * d1 * UNIT_DRAW ==> t < d1 * d1) by (nonlinear_arith)
                    requires
                        UNIT_DRAW == 0x100000,
                ;
            }
            let s = isqrt(t);
            proof {
                assert(s < d1) by (nonlinear_arith)
                    requires
                        is_floor_sqrt(t as int, s as int),
                        t < d1 * d1,
                        0 < d1,
                ;
            }
            self.min + (s as i64)
        } else {
            let g: u64 = UNIT_DRAW - u;
            proof {
                assert(g * d2 <= 0x100000u128 * 0x20_0000_0000_0000u128 && g * d2 * d3
                    <= 0x100000u128 * 0x20_0000_0000_0000u128 * 0x20_0000_0000_0000u128 && g * d2
                    * d3 <= UNIT_DRAW * (d2 * d3)) by (nonlinear_arith)
                    requires
                        0 < g <= 0x100000,
                        0 <= d2 <= 0x20_0000_0000_0000,
                        0 <= d3 <= 0x20_0000_0000_0000,
                        UNIT_DRAW == 0x100000,
                ;
            }
            let t: u128 = (g as u128) * (d2 as u128) * (d3 as u128) / (UNIT_DRAW as u128);
            assert(t <= d2 * d2) by {
                assert(UNIT_DRAW * (d2 * d3) / (UNIT_DRAW as int) == d2 * d3 && g * d2 * d3
                    / (UNIT_DRAW as int) <= UNIT_DRAW * (d2 * d3) / (UNIT_DRAW as int))
                    by (nonlinear_arith)
                    requires
                        g * d2 * d3 <= UNIT_DRAW * (d2 * d3),
                        g * d2 * d3 >= 0,
                        UNIT_DRAW == 0x100000,
                ;
                assert(d2 * d3 <= d2 * d2) by (nonlinear_arith)
                    requires
                        0 <= d3 <= d2,
                ;
            }
            let s = isqrt(t);
            proof {
                assert(s <= d2) by (nonlinear_arith)
                    requires
                        is_floor_sqrt(t as int, s as int),
                        t <= d2 * d2,
                        0 <= d2,
                ;
            }
            self.max - (s as i64)
        }
    }

    /// Draws a fresh uniform value and maps it to a sample. Every sample lies
    /// within the bounds, and collapsed bounds give that constant back.
    pub fn sample(&self, source: &mut RandomSource) -> (r: i64)
        requires
            self.wf(),
        ensures
            self.min <= r <= self.max,
            self.min == self.max ==> r == self.min,
            exists|u: u64| u < UNIT_DRAW && r == self.sample_at_spec(u),
    {
        let u = source.next_upto(UNIT_DRAW - 1);
        self.sample_at(u)
    }
}

} // verus!
