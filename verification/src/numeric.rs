//! Fixed-point scale constants and an exact integer square root.

use vstd::prelude::*;

verus! {

/// Fixed-point denominator: a stored value `q` stands for the real `q / SCALE`.
pub const SCALE: i64 = 1_000_000;

/// Half of `SCALE`, used for round-to-nearest conversions.
pub const HALF_SCALE: i64 = 500_000;

/// A condition probability of one hundred percent, in fixed-point units.
pub const PERCENT_SCALE: i64 = 100_000_000;

/// Denominator of the uniform draw that drives triangular sampling:
/// the draw `u` stands for the fraction `u / UNIT_DRAW` in `[0, 1)`.
pub const UNIT_DRAW: u64 = 1_048_576;

/// Fixed-point one for probabilities: a probability `p` stands for `p / PROB_ONE`.
pub const PROB_ONE: u64 = 4_294_967_296;

/// Largest magnitude a triangular distribution bound may have; keeps the
/// sampling arithmetic within 128 bits.
pub const BOUND_LIMIT: i64 = 0x10_0000_0000_0000;

/// Largest per-round outcome the statistics accept; keeps sums of squared
/// deviations within 128 bits.
pub const VAL_LIMIT: i64 = 0x1_0000_0000_0000;

/// Longest outcome series the statistics accept.
pub const LEN_LIMIT: usize = 0x4000_0000;

/// `r` is the floor of the square root of `n`.
pub open spec fn is_floor_sqrt(n: int, r: int) -> bool {
    0 <= r && r * r <= n && n < (r + 1) * (r + 1)
}

/// The integer square root: the unique `r` with `r * r <= n < (r + 1) * (r + 1)`.
pub open spec fn isqrt_spec(n: int) -> int {
    choose|r: int| is_floor_sqrt(n, r)
}

/// At most one integer brackets `n` as its floor square root.
pub proof fn lemma_floor_sqrt_unique(n: int, a: int, b: int)
    by (nonlinear_arith)
    requires
        is_floor_sqrt(n, a),
        is_floor_sqrt(n, b),
    ensures
        a == b,
{
}

/// Any witness of `is_floor_sqrt` is the value of `isqrt_spec`.
pub proof fn lemma_isqrt_spec_of(n: int, w: int)
    requires
        is_floor_sqrt(n, w),
    ensures
        isqrt_spec(n) == w,
        is_floor_sqrt(n, isqrt_spec(n)),
{
    assert(exists|r: int| is_floor_sqrt(n, r)) by {
        assert(is_floor_sqrt(n, w));
    }
    lemma_floor_sqrt_unique(n, isqrt_spec(n), w);
}

/// Computes the integer square root of `n` by bisection.
pub fn isqrt(n: u128) -> (r: u128)
    ensures
        r == isqrt_spec(n as int),
        is_floor_sqrt(n as int, r as int),
{
    let mut lo: u128 = 0;
    let mut hi: u128 = 0xFFFF_FFFF_FFFF_FFFF;
    if n < hi {
        hi = n;
    }
    proof {
        assert((hi + 1) * (hi + 1) > n) by (nonlinear_arith)
            requires
                hi == if n < 0xFFFF_FFFF_FFFF_FFFFu128 {
                    n as int
                } else {
                    0xFFFF_FFFF_FFFF_FFFF as int
                },
                n <= u128::MAX,
        ;
    }
    while lo < hi
        invariant
            lo <= hi <= 0xFFFF_FFFF_FFFF_FFFF,
            lo * lo <= n,
            (hi + 1) * (hi + 1) > n,
        decreases hi - lo,
    {
        let mid = lo + (hi - lo + 1) / 2;
        assert(lo < mid <= hi);
        assert(mid * mid <= u128::MAX) by (nonlinear_arith)
            requires
                mid <= 0xFFFF_FFFF_FFFF_FFFFu128,
        ;
        let sq = mid * mid;
        if sq <= n {
            lo = mid;
        } else {
            hi = mid - 1;
        }
    }
    proof {
        lemma_isqrt_spec_of(n as int, lo as int);
    }
    lo
}

} // verus!
