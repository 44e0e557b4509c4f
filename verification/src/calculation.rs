//! The Monte Carlo engine and its statistics: per-round simulation of one
//! play, order statistics over the non-zero outcomes, and the cross-play
//! per-annum aggregation.

use crate::data_types::{Cost, Entry, Leaf, MonteCarloResult, Play};
use crate::numeric::{
    is_floor_sqrt, isqrt, isqrt_spec, HALF_SCALE, LEN_LIMIT, PERCENT_SCALE, PROB_ONE, SCALE,
    VAL_LIMIT,
};
use crate::rng::RandomSource;
use vstd::prelude::*;
use vstd::relations::total_ordering;
use vstd::seq_lib::lemma_sorted_unique;

verus! {

/// The total of a series.
pub open spec fn sum_seq(s: Seq<i64>) -> int
    decreases s.len(),
{
    if s.len() == 0 {
        0
    } else {
        sum_seq(s.drop_last()) + s.last()
    }
}

/// The arithmetic mean, rounded towards zero.
pub open spec fn mean_spec(s: Seq<i64>) -> int
    recommends
        s.len() > 0,
{
    sum_seq(s) / (s.len() as int)
}

/// The total squared deviation of a series from `m`.
pub open spec fn sq_dev_sum(s: Seq<i64>, m: int) -> int
    decreases s.len(),
{
    if s.len() == 0 {
        0
    } else {
        sq_dev_sum(s.drop_last(), m) + (m - s.last()) * (m - s.last())
    }
}

/// The population variance around the rounded mean.
pub open spec fn variance_spec(s: Seq<i64>) -> int
    recommends
        s.len() > 0,
{
    sq_dev_sum(s, mean_spec(s)) / (s.len() as int)
}

/// The population standard deviation: the integer square root of the variance.
pub open spec fn std_dev_spec(s: Seq<i64>) -> int
    recommends
        s.len() > 0,
{
    isqrt_spec(variance_spec(s))
}

/// The median of a sorted series: the central element, or the rounded
/// average of the two central elements when the length is even.
pub open spec fn median_spec(s: Seq<i64>) -> int
    recommends
        s.len() > 0,
{
    let l = s.len() as int;
    if l == 1 {
        s[0] as int
    } else if l % 2 == 0 {
        (s[l / 2 - 1] + s[l / 2]) / 2
    } else {
        s[l / 2] as int
    }
}

/// Every value of the series lies in `[0, VAL_LIMIT]`, so sums and squared
/// deviations stay within 128 bits.
pub open spec fn bounded_series(s: Seq<i64>) -> bool {
    forall|i: int| 0 <= i < s.len() ==> 0 <= #[trigger] s[i] <= VAL_LIMIT
}

/// Computes the arithmetic mean of a series, rounded towards zero;
/// an empty series has no mean.
#[verifier::loop_isolation(false)]
pub fn mean(data: &[i64]) -> (res: Option<i64>)
    requires
        data@.len() <= LEN_LIMIT,
        bounded_series(data@),
    ensures
        res is Some <==> data@.len() > 0,
        res matches Some(m) ==> m == mean_spec(data@) && 0 <= m <= VAL_LIMIT,
{
    let n = data.len();
    if n == 0 {
        return None;
    }
    let mut acc: i128 = 0;
    for i in 0..n
        invariant
            acc == sum_seq(data@.subrange(0, i as int)),
            0 <= acc <= i * VAL_LIMIT,
    {
        proof {
            assert(data@.subrange(0, i + 1).drop_last() =~= data@.subrange(0, i as int));
        }
        acc = acc + (data[i] as i128);
    }
    proof {
        assert(data@.subrange(0, n as int) =~= data@);
    }
    let m = acc / (n as i128);
    proof {
        assert(0 <= m <= VAL_LIMIT) by (nonlinear_arith)
            requires
                m == (acc as int) / (n as int),
                0 <= acc <= n * VAL_LIMIT,
                0 < n,
                VAL_LIMIT > 0,
        ;
    }
    Some(m as i64)
}

/// Computes the population standard deviation around the rounded mean;
/// an empty series has none.
#[verifier::loop_isolation(false)]
pub fn std_deviation(data: &[i64]) -> (res: Option<i64>)
    requires
        data@.len() <= LEN_LIMIT,
        bounded_series(data@),
    ensures
        res is Some <==> data@.len() > 0,
        res matches Some(d) ==> d == std_dev_spec(data@) && 0 <= d <= VAL_LIMIT,
{
    let n = data.len();
    let m = match mean(data) {
        None => {
            return None;
        },
        Some(m) => m,
    };
    let mut acc: i128 = 0;
    for i in 0..n
        invariant
            acc == sq_dev_sum(data@.subrange(0, i as int), m as int),
            0 <= acc <= i * (VAL_LIMIT * VAL_LIMIT),
    {
        proof {
            assert(data@.subrange(0, i + 1).drop_last() =~= data@.subrange(0, i as int));
        }
        let diff: i128 = (m as i128) - (data[i] as i128);
        proof {
            assert(0 <= diff * diff <= VAL_LIMIT * VAL_LIMIT) by (nonlinear_arith)
                requires
                    -VAL_LIMIT <= diff <= VAL_LIMIT,
                    VAL_LIMIT > 0,
            ;
        }
        acc = acc + diff * diff;
    }
    proof {
        assert(data@.subrange(0, n as int) =~= data@);
    }
    let variance = acc / (n as i128);
    proof {
        assert(0 <= variance <= VAL_LIMIT * VAL_LIMIT) by (nonlinear_arith)
            requires
                variance == (acc as int) / (n as int),
                0 <= acc <= n * (VAL_LIMIT * VAL_LIMIT),
                0 < n,
                VAL_LIMIT > 0,
        ;
    }
    let d = isqrt(variance as u128);
    proof {
        assert(d <= VAL_LIMIT) by (nonlinear_arith)
            requires
                is_floor_sqrt(variance as int, d as int),
                variance <= VAL_LIMIT * VAL_LIMIT,
                VAL_LIMIT > 0,
        ;
    }
    Some(d as i64)
}

/// Returns the median of an already sorted series: the central element, or
/// the rounded average of the two central elements; an empty series has none.
pub fn median(values: &[i64]) -> (res: Option<i64>)
    requires
        bounded_series(values@),
    ensures
        res is Some <==> values@.len() > 0,
        res matches Some(m) ==> m == median_spec(values@),
{
    let length = values.len();
    if length == 0 {
        return None;
    }
    if length == 1 {
        return Some(values[0]);
    }
    if length % 2 == 0 {
        let val1 = values[(length / 2) - 1];
        let val2 = values[length / 2];
        Some((val1 + val2) / 2)
    } else {
        Some(values[length / 2])
    }
}

/// The ascending order on outcomes.
pub open spec fn i64_le() -> spec_fn(i64, i64) -> bool {
    |a: i64, b: i64| a <= b
}

/// The non-zero outcomes of a series, in order of appearance.
pub open spec fn nonzeros(s: Seq<i64>) -> Seq<i64> {
    s.filter(|x: i64| x > 0)
}

/// Sorts a series ascending.
#[verifier::loop_isolation(false)]
fn sort_outcomes(values: Vec<i64>) -> (res: Vec<i64>)
    ensures
        res@ == values@.sort_by(i64_le()),
        res@.len() == values@.len(),
        res@.to_multiset() == values@.to_multiset(),
        vstd::relations::sorted_by(res@, i64_le()),
{
    broadcast use vstd::seq_lib::group_to_multiset_ensures;

    let mut v = values;
    let n = v.len();
    let mut i: usize = 1;
    while i < n
        invariant
            1 <= i <= n || n == 0,
            n == v@.len(),
            v@.to_multiset() == values@.to_multiset(),
            forall|x: int, y: int| 0 <= x < y < i ==> v@[x] <= v@[y],
        decreases n - i,
    {
        let mut j: usize = i;
        while j > 0 && v[j - 1] > v[j]
            invariant
                0 <= j <= i < n,
                n == v@.len(),
                v@.to_multiset() == values@.to_multiset(),
                forall|x: int, y: int| 0 <= x < y <= i && y != j ==> v@[x] <= v@[y],
            decreases j,
        {
            let a = v[j - 1];
            let b = v[j];
            v.set(j - 1, b);
            v.set(j, a);
            j = j - 1;
        }
        i = i + 1;
    }
    proof {
        assert(total_ordering(i64_le())) by {
            assert forall|a: i64, b: i64| #[trigger] i64_le()(a, b) || i64_le()(b, a) by {}
        }
        values@.lemma_sort_by_ensures(i64_le());
        assert(vstd::relations::sorted_by(v@, i64_le())) by {
            assert(forall|x: int, y: int| 0 <= x < y < v@.len() ==> v@[x] <= v@[y]);
        }
        lemma_sorted_unique(v@, values@.sort_by(i64_le()), i64_le());
    }
    v
}

/// A fixed-point percentage converted to a probability in `PROB_ONE` units.
pub open spec fn pct_to_prob(p: int) -> int {
    p * (PROB_ONE as int) / (PERCENT_SCALE as int)
}

/// Converts a sampled fixed-point percentage to a probability.
fn percent_to_prob(sample: i64) -> (r: u64)
    requires
        0 <= sample <= PERCENT_SCALE,
    ensures
        r == pct_to_prob(sample as int),
        r <= PROB_ONE,
{
    proof {
        assert(sample * (PROB_ONE as int) <= PERCENT_SCALE * (PROB_ONE as int)) by (nonlinear_arith)
            requires
                0 <= sample <= PERCENT_SCALE,
                PROB_ONE == 0x1_0000_0000u64,
                PERCENT_SCALE == 100_000_000i64,
        ;
    }
    let wide: u128 = (sample as u128) * (PROB_ONE as u128) / (PERCENT_SCALE as u128);
    proof {
        assert(wide <= PROB_ONE) by (nonlinear_arith)
            requires
                wide == sample * (PROB_ONE as int) / (PERCENT_SCALE as int),
                0 <= sample <= PERCENT_SCALE,
                PROB_ONE == 0x1_0000_0000u64,
                PERCENT_SCALE == 100_000_000i64,
        ;
    }
    wide as u64
}

/// Every condition in the scenario tree carries a well-formed distribution
/// whose values are percentages.
pub open spec fn entries_simulatable(s: Seq<Entry>) -> bool
    decreases s,
{
    forall|i: int| 0 <= i < s.len() ==> entry_simulatable(#[trigger] s[i])
}

/// The conditions under one scenario entry carry well-formed percentage
/// distributions.
pub open spec fn entry_simulatable(e: Entry) -> bool
    decreases e,
{
    match e {
        Entry::Single(c) => c.prob is Some && c.prob->0.wf() && 0 <= c.prob->0.min
            && c.prob->0.max <= PERCENT_SCALE,
        Entry::Branch(leaves) => forall|i: int|
            0 <= i < leaves@.len() ==> entries_simulatable(#[trigger] leaves@[i].scenario@),
    }
}

/// Every condition in the scenario tree is degenerate: its distribution
/// always returns the same value.
pub open spec fn entries_deterministic(s: Seq<Entry>) -> bool
    decreases s,
{
    forall|i: int| 0 <= i < s.len() ==> entry_deterministic(#[trigger] s[i])
}

/// The conditions under one scenario entry are all degenerate.
pub open spec fn entry_deterministic(e: Entry) -> bool
    decreases e,
{
    match e {
        Entry::Single(c) => c.prob->0.min == c.prob->0.max,
        Entry::Branch(leaves) => forall|i: int|
            0 <= i < leaves@.len() ==> entries_deterministic(#[trigger] leaves@[i].scenario@),
    }
}

/// The probability a deterministic scenario suffix folds to, starting from
/// the running product `acc`: each entry's contribution is multiplied in and
/// renormalized by `PROB_ONE`, in order.
pub open spec fn cond_prob_det_from(s: Seq<Entry>, acc: int) -> int
    decreases s, 0int,
{
    if s.len() == 0 {
        acc
    } else {
        cond_prob_det_from(s.drop_first(), acc * entry_det_prob(s[0]) / (PROB_ONE as int))
    }
}

/// The deterministic contribution of one scenario entry: a single
/// condition's percentage as a probability, or a branch's weighted sum of
/// leaf probabilities scaled down by the hundred total weight.
pub open spec fn entry_det_prob(e: Entry) -> int
    decreases e, 0int,
{
    match e {
        Entry::Single(c) => pct_to_prob(c.prob->0.min as int),
        Entry::Branch(leaves) => leaf_det_sum(leaves@) / 100,
    }
}

/// The weighted sum of the leaves' deterministic sub-scenario probabilities.
pub open spec fn leaf_det_sum(ls: Seq<Leaf>) -> int
    decreases ls, 0int,
{
    if ls.len() == 0 {
        0
    } else {
        leaf_det_sum(ls.drop_last()) + ls.last().weight * cond_prob_det(ls.last().scenario@)
    }
}

/// The probability a fully deterministic scenario evaluates to.
pub open spec fn cond_prob_det(s: Seq<Entry>) -> int
    decreases s, 1int,
{
    cond_prob_det_from(s, PROB_ONE as int)
}

/// A weight total is never negative.
proof fn lemma_leaf_weight_sum_nonneg(ls: Seq<Leaf>)
    ensures
        crate::data_types::leaf_weight_sum(ls) >= 0,
    decreases ls.len(),
{
    if ls.len() > 0 {
        lemma_leaf_weight_sum_nonneg(ls.drop_last());
    }
}

/// A prefix's weight total never exceeds the whole total.
proof fn lemma_leaf_weight_prefix(ls: Seq<Leaf>, j: int)
    requires
        0 <= j <= ls.len(),
    ensures
        crate::data_types::leaf_weight_sum(ls.subrange(0, j)) <= crate::data_types::leaf_weight_sum(
            ls,
        ),
    decreases ls.len() - j,
{
    if j == ls.len() {
        assert(ls.subrange(0, j) =~= ls);
    } else {
        assert(ls.subrange(0, j + 1).drop_last() =~= ls.subrange(0, j));
        assert(ls.subrange(0, j + 1).last() == ls[j]);
        lemma_leaf_weight_prefix(ls, j + 1);
    }
}

/// Evaluates the gating probability of a scenario once: every condition is
/// sampled afresh, a branch contributes the weighted sum of its leaves'
/// sub-probabilities. The result never exceeds one; over a fully
/// deterministic tree it equals the tree's deterministic probability.
#[verifier::loop_isolation(false)]
pub fn get_condition_rand(entries: &Vec<Entry>, source: &mut RandomSource) -> (r: u64)
    requires
        entries_simulatable(entries@),
        crate::data_types::entries_weights_ok(entries@),
    ensures
        r <= PROB_ONE,
        entries_deterministic(entries@) ==> r == cond_prob_det(entries@),
    decreases entries@,
{
    let n = entries.len();
    let mut running: u64 = PROB_ONE;
    proof {
        assert(entries@.skip(0) =~= entries@);
    }
    for i in 0..n
        invariant
            running <= PROB_ONE,
            entries_deterministic(entries@) ==> cond_prob_det(entries@) == cond_prob_det_from(
                entries@.skip(i as int),
                running as int,
            ),
    {
        proof {
            assert(entries@.skip(i as int)[0] == entries@[i as int]);
            assert(entries@.skip(i as int).drop_first() =~= entries@.skip(i + 1));
        }
        let factor: u64 = match &entries[i] {
            Entry::Single(c) => {
                proof {
                    assert(entries@[i as int] == Entry::Single(*c));
                }
                let sampled = c.prob.unwrap().sample(source);
                percent_to_prob(sampled)
            },
            Entry::Branch(leaves) => {
                proof {
                    assert(entries@[i as int] == Entry::Branch(*leaves));
                    assert(crate::data_types::leaf_weight_sum(leaves@) == 100);
                    assert(leaves@.subrange(0, 0) =~= Seq::<Leaf>::empty());
                }
                let m = leaves.len();
                let mut leaves_total: u64 = 0;
                for j in 0..m
                    invariant
                        leaves_total <= crate::data_types::leaf_weight_sum(
                            leaves@.subrange(0, j as int),
                        ) * (PROB_ONE as int),
                        leaves_total >= 0,
                        entries_deterministic(entries@) ==> leaves_total == leaf_det_sum(
                            leaves@.subrange(0, j as int),
                        ),
                {
                    proof {
                        let ghost e = entries@[i as int];
                        let ghost lf = leaves@[j as int];
                        assert(decreases_to!(entries@ => e));
                        assert(decreases_to!(e => *leaves));
                        assert(decreases_to!(*leaves => leaves@));
                        assert(decreases_to!(leaves@ => lf));
                        assert(decreases_to!(lf => lf.scenario));
                        assert(decreases_to!(lf.scenario => lf.scenario@));
                        assert(leaves@.subrange(0, j + 1).drop_last() =~= leaves@.subrange(
                            0,
                            j as int,
                        ));
                        assert(leaves@.subrange(0, j + 1).last() == leaves@[j as int]);
                        lemma_leaf_weight_prefix(leaves@, j + 1);
                        lemma_leaf_weight_sum_nonneg(leaves@.subrange(0, j as int));
                        if entries_deterministic(entries@) {
                            assert(entry_deterministic(entries@[i as int]));
                            assert(entries_deterministic(leaves@[j as int].scenario@));
                        }
                    }
                    let sub = get_condition_rand(&leaves[j].scenario, source);
                    let w: u64 = leaves[j].weight as u64;
                    proof {
                        assert(w <= 100) by {
                            assert(crate::data_types::leaf_weight_sum(leaves@.subrange(0, j + 1))
                                == crate::data_types::leaf_weight_sum(leaves@.subrange(0, j as int))
                                + w);
                        }
                        assert(w * sub <= 100 * (PROB_ONE as int) && w * sub <= w * (
                        PROB_ONE as int)) by (nonlinear_arith)
                            requires
                                0 <= w <= 100,
                                0 <= sub <= PROB_ONE,
                                PROB_ONE == 0x1_0000_0000u64,
                        ;
                    }
                    leaves_total = leaves_total + w * sub;
                }
                proof {
                    assert(leaves@.subrange(0, m as int) =~= leaves@);
                }
                leaves_total / 100
            },
        };
        proof {
            assert(factor <= PROB_ONE);
            if entries_deterministic(entries@) {
                assert(entry_deterministic(entries@[i as int]));
                assert(factor == entry_det_prob(entries@[i as int]));
            }
            assert((running as int) * (factor as int) <= (PROB_ONE as int) * (PROB_ONE as int))
                by (nonlinear_arith)
                requires
                    0 <= running <= PROB_ONE,
                    0 <= factor <= PROB_ONE,
            ;
        }
        let wide: u128 = (running as u128) * (factor as u128) / (PROB_ONE as u128);
        proof {
            assert(wide <= PROB_ONE) by (nonlinear_arith)
                requires
                    wide == (running as int) * (factor as int) / (PROB_ONE as int),
                    (running as int) * (factor as int) <= (PROB_ONE as int) * (PROB_ONE as int),
                    0 <= (running as int) * (factor as int),
                    PROB_ONE == 0x1_0000_0000u64,
            ;
        }
        running = wide as u64;
    }
    proof {
        assert(entries@.skip(n as int).len() == 0);
    }
    running
}

/// The total of the costs' largest possible samples.
pub open spec fn cost_max_sum(cs: Seq<Cost>) -> int
    decreases cs.len(),
{
    if cs.len() == 0 {
        0
    } else {
        cost_max_sum(cs.drop_last()) + cs.last().prob->0.max
    }
}

/// The total of the costs' smallest possible samples.
pub open spec fn cost_min_sum(cs: Seq<Cost>) -> int
    decreases cs.len(),
{
    if cs.len() == 0 {
        0
    } else {
        cost_min_sum(cs.drop_last()) + cs.last().prob->0.min
    }
}

/// Every cost carries a well-formed, non-negative distribution.
pub open spec fn costs_simulatable(cs: Seq<Cost>) -> bool {
    forall|i: int|
        0 <= i < cs.len() ==> (#[trigger] cs[i].prob) is Some && cs[i].prob->0.wf()
            && cs[i].prob->0.min >= 0
}

/// Samples every cost's distribution once and totals the draws; the total
/// lies between the sums of the distributions' lower and upper bounds, so
/// an empty cost list always totals zero.
#[verifier::loop_isolation(false)]
fn get_cost_rand(costs: &Vec<Cost>, source: &mut RandomSource) -> (r: i128)
    requires
        costs_simulatable(costs@),
    ensures
        0 <= r <= cost_max_sum(costs@),
        cost_min_sum(costs@) <= r,
{
    let n = costs.len();
    let mut running: i128 = 0;
    proof {
        assert(costs@.subrange(0, 0) =~= Seq::<Cost>::empty());
    }
    for i in 0..n
        invariant
            0 <= running <= cost_max_sum(costs@.subrange(0, i as int)),
            cost_min_sum(costs@.subrange(0, i as int)) <= running,
            running <= i * crate::numeric::BOUND_LIMIT,
    {
        proof {
            assert(costs@.subrange(0, i + 1).drop_last() =~= costs@.subrange(0, i as int));
            assert(costs@.subrange(0, i + 1).last() == costs@[i as int]);
        }
        let sampled = costs[i].prob.unwrap().sample(source);
        running = running + (sampled as i128);
    }
    proof {
        assert(costs@.subrange(0, n as int) =~= costs@);
    }
    running
}

/// Scaling a quotient keeps it under the scaled quotient.
proof fn lemma_mul_div_le(a: int, x: int, s: int)
    requires
        a >= 0,
        x >= 0,
        s > 0,
    ensures
        a * (x / s) <= (a * x) / s,
{
    let q = x / s;
    let r = x % s;
    vstd::arithmetic::div_mod::lemma_fundamental_div_mod(x, s);
    assert(a * (s * q + r) == s * (a * q) + a * r) by (nonlinear_arith);
    assert((a * x) / s >= a * q) by (nonlinear_arith)
        requires
            a * x == s * (a * q) + a * r,
            0 <= r < s,
            a >= 0,
            s > 0,
    ;
}

/// Two series with the same elements are bounded together.
proof fn lemma_bounded_multiset(a: Seq<i64>, b: Seq<i64>)
    requires
        a.to_multiset() == b.to_multiset(),
        bounded_series(b),
    ensures
        bounded_series(a),
{
    broadcast use vstd::seq_lib::group_to_multiset_ensures;

    assert forall|i: int| 0 <= i < a.len() implies 0 <= #[trigger] a[i] <= VAL_LIMIT by {
        assert(a.contains(a[i]));
        assert(a.to_multiset().count(a[i]) > 0);
        assert(b.to_multiset().count(a[i]) > 0);
        assert(b.contains(a[i]));
        let j = choose|j: int| 0 <= j < b.len() && b[j] == a[i];
        assert(0 <= b[j] <= VAL_LIMIT);
    }
}

/// Neither cost total bound is ever negative.
proof fn lemma_cost_sums_nonneg(cs: Seq<Cost>)
    requires
        costs_simulatable(cs),
    ensures
        cost_max_sum(cs) >= 0,
        cost_min_sum(cs) >= 0,
    decreases cs.len(),
{
    if cs.len() > 0 {
        assert(costs_simulatable(cs.drop_last())) by {
            assert(forall|i: int|
                0 <= i < cs.drop_last().len() ==> #[trigger] cs.drop_last()[i] == cs[i]);
        }
        lemma_cost_sums_nonneg(cs.drop_last());
        assert(cs.last().prob->0.max >= 0);
        assert(cs.last().prob->0.min >= 0);
    }
}

/// Every distribution the simulation samples is attached and well formed:
/// non-negative event frequencies and magnitudes, percentage conditions with
/// balanced branch weights, and non-negative costs.
pub open spec fn play_simulatable(p: Play) -> bool {
    &&& p.event.prob is Some
    &&& p.event.prob->0.wf()
    &&& p.event.prob->0.min >= 0
    &&& p.magnitude_prob is Some
    &&& p.magnitude_prob->0.wf()
    &&& p.magnitude_prob->0.min >= 1
    &&& entries_simulatable(p.scenario@)
    &&& crate::data_types::entries_weights_ok(p.scenario@)
    &&& costs_simulatable(p.costs@)
}

/// The most firings one round can see: the event distribution's upper bound,
/// rounded to the nearest whole count.
pub open spec fn max_firings(p: Play) -> int {
    (p.event.prob->0.max + HALF_SCALE) / (SCALE as int)
}

/// The largest total one round can reach, scaled by `SCALE`: the most
/// firings, each losing at most the largest magnitude times the largest
/// cost total.
pub open spec fn round_cap(p: Play) -> int {
    max_firings(p) * (p.magnitude_prob->0.max * cost_max_sum(p.costs@))
}

/// The smallest loss a single firing can record: the smallest magnitude
/// times the smallest cost total, renormalized by `SCALE`.
pub open spec fn min_firing_loss(p: Play) -> int {
    p.magnitude_prob->0.min * cost_min_sum(p.costs@) / (SCALE as int)
}

/// The play loses in every round: its gating tree is deterministic and
/// certain, its event fires at least once per round, and each firing's
/// smallest possible loss is still positive.
pub open spec fn always_loses(p: Play) -> bool {
    &&& entries_deterministic(p.scenario@)
    &&& cond_prob_det(p.scenario@) == PROB_ONE
    &&& (p.event.prob->0.min + HALF_SCALE) / (SCALE as int) >= 1
    &&& min_firing_loss(p) >= 1
}

/// Builds the summary of one sorted, zero-filtered outcome series: the loss
/// probability is the share of rounds kept, the percentile fields are the
/// series' extremes, and mean, median and standard deviation are taken over
/// the kept values alone. An empty series gives the all-zero summary.
#[verifier::loop_isolation(false)]
fn summarize(description: String, sorted: &Vec<i64>, iterations: usize) -> (r: MonteCarloResult)
    requires
        sorted@.len() <= iterations <= LEN_LIMIT,
        bounded_series(sorted@),
    ensures
        r.description == description,
        sorted@.len() == 0 ==> r.annual_loss_event_prob == 0 && r.fifth_percentile == 0
            && r.ninety_fifth_percentile == 0 && r.mean == 0 && r.median == 0 && r.std_dev == 0,
        sorted@.len() > 0 ==> {
            &&& r.annual_loss_event_prob == sorted@.len() * 100 * SCALE / (iterations as int)
            &&& r.fifth_percentile == sorted@[0]
            &&& r.ninety_fifth_percentile == sorted@[sorted@.len() - 1]
            &&& r.mean == mean_spec(sorted@)
            &&& r.median == median_spec(sorted@)
            &&& r.std_dev == std_dev_spec(sorted@)
        },
{
    let outcomes_length = sorted.len();
    if outcomes_length == 0 {
        return MonteCarloResult {
            description,
            annual_loss_event_prob: 0,
            fifth_percentile: 0,
            ninety_fifth_percentile: 0,
            mean: 0,
            median: 0,
            std_dev: 0,
        };
    }
    let prob_wide: i128 = (outcomes_length as i128) * 100 * (SCALE as i128) / (iterations as i128);
    proof {
        assert(0 <= prob_wide <= 100 * SCALE) by (nonlinear_arith)
            requires
                prob_wide == (outcomes_length as int) * 100 * (SCALE as int) / (iterations as int),
                0 < outcomes_length <= iterations,
                SCALE == 1_000_000i64,
        ;
    }
    let annual_loss_event_prob = prob_wide as i64;
    let fifth_percentile = sorted[0];
    let ninety_fifth_percentile = sorted[outcomes_length - 1];
    let median = median(sorted.as_slice()).unwrap();
    let mean = mean(sorted.as_slice()).unwrap();
    let std_dev = std_deviation(sorted.as_slice()).unwrap();
    MonteCarloResult {
        description,
        annual_loss_event_prob,
        fifth_percentile,
        ninety_fifth_percentile,
        mean,
        median,
        std_dev,
    }
}

/// Runs the Monte Carlo loop for one play. Each round samples how often the
/// event fires; each firing that passes the sampled gating probability adds
/// one sampled magnitude times one sampled cost total to the round's
/// outcome. The returned series holds every round's outcome in order,
/// zero rounds included; the summary is computed over the sorted non-zero
/// outcomes exactly as `summarize` states. Every recorded outcome is either
/// zero or at least the smallest possible firing loss, and a play that
/// `always_loses` records a loss in every round, making the loss probability
/// exactly one hundred percent.
#[verifier::loop_isolation(false)]
pub fn monte_carlo(iterations: usize, play: &Play, source: &mut RandomSource) -> (res: (
    MonteCarloResult,
    Vec<i64>,
))
    requires
        play_simulatable(*play),
        iterations <= LEN_LIMIT,
        round_cap(*play) <= VAL_LIMIT * (SCALE as int),
    ensures
        res.1@.len() == iterations,
        bounded_series(res.1@),
        res.0.description == play.description,
        iterations == 0 || max_firings(*play) == 0 ==> (forall|i: int|
            0 <= i < iterations ==> res.1@[i] == 0) && res.0.annual_loss_event_prob == 0
            && res.0.fifth_percentile == 0 && res.0.ninety_fifth_percentile == 0 && res.0.mean == 0
            && res.0.median == 0 && res.0.std_dev == 0,
        forall|r: int|
            0 <= r < iterations ==> res.1@[r] == 0 || res.1@[r] >= min_firing_loss(*play),
        always_loses(*play) ==> forall|r: int| 0 <= r < iterations ==> res.1@[r] > 0,
        always_loses(*play) && iterations > 0 ==> res.0.annual_loss_event_prob == 100 * SCALE,
        ({
            let sorted = nonzeros(res.1@).sort_by(i64_le());
            &&& sorted.len() == 0 ==> res.0.annual_loss_event_prob == 0 && res.0.fifth_percentile
                == 0 && res.0.ninety_fifth_percentile == 0 && res.0.mean == 0 && res.0.median == 0
                && res.0.std_dev == 0
            &&& sorted.len() > 0 ==> {
                &&& res.0.annual_loss_event_prob == sorted.len() * 100 * SCALE / (
                iterations as int)
                &&& res.0.fifth_percentile == sorted[0]
                &&& res.0.ninety_fifth_percentile == sorted[sorted.len() - 1]
                &&& res.0.mean == mean_spec(sorted)
                &&& res.0.median == median_spec(sorted)
                &&& res.0.std_dev == std_dev_spec(sorted)
            }
        }),
{
    broadcast use vstd::seq_lib::group_to_multiset_ensures;

    let ghost mag_cost_cap: int = play.magnitude_prob->0.max * cost_max_sum(play.costs@);
    let ghost firing_cap: int = mag_cost_cap / (SCALE as int);
    let ghost firing_floor: int = min_firing_loss(*play);
    proof {
        lemma_cost_sums_nonneg(play.costs@);
        assert(firing_floor >= 0) by (nonlinear_arith)
            requires
                firing_floor == play.magnitude_prob->0.min * cost_min_sum(play.costs@) / (
                SCALE as int),
                play.magnitude_prob->0.min >= 1,
                cost_min_sum(play.costs@) >= 0,
                SCALE == 1_000_000i64,
        ;
        assert(mag_cost_cap >= 0) by (nonlinear_arith)
            requires
                mag_cost_cap == play.magnitude_prob->0.max * cost_max_sum(play.costs@),
                play.magnitude_prob->0.max >= 1,
                cost_max_sum(play.costs@) >= 0,
        ;
        assert(firing_cap >= 0) by (nonlinear_arith)
            requires
                firing_cap == mag_cost_cap / (SCALE as int),
                mag_cost_cap >= 0,
                SCALE == 1_000_000i64,
        ;
        assert(max_firings(*play) >= 0) by (nonlinear_arith)
            requires
                max_firings(*play) == (play.event.prob->0.max + HALF_SCALE) / (SCALE as int),
                play.event.prob->0.max >= 0,
                SCALE == 1_000_000i64,
                HALF_SCALE == 500_000i64,
        ;
        lemma_mul_div_le(max_firings(*play), mag_cost_cap, SCALE as int);
        vstd::arithmetic::div_mod::lemma_div_is_ordered(
            max_firings(*play) * mag_cost_cap,
            VAL_LIMIT * (SCALE as int),
            SCALE as int,
        );
        assert(VAL_LIMIT * (SCALE as int) / (SCALE as int) == VAL_LIMIT) by (nonlinear_arith)
            requires
                SCALE == 1_000_000i64,
                VAL_LIMIT == 0x1_0000_0000_0000i64,
        ;
        assert(max_firings(*play) * firing_cap <= VAL_LIMIT);
    }
    let mut round_outcomes_nozeros: Vec<i64> = Vec::new();
    let mut round_outcomes: Vec<i64> = Vec::new();
    proof {
        reveal(Seq::filter);
        assert(nonzeros(round_outcomes@) =~= round_outcomes_nozeros@);
    }
    for round in 0..iterations
        invariant
            round_outcomes@.len() == round,
            bounded_series(round_outcomes@),
            bounded_series(round_outcomes_nozeros@),
            round_outcomes_nozeros@ == nonzeros(round_outcomes@),
            round_outcomes_nozeros@.len() <= round,
            max_firings(*play) == 0 ==> round_outcomes_nozeros@.len() == 0 && (forall|k: int|
                0 <= k < round ==> round_outcomes@[k] == 0),
            forall|k: int|
                0 <= k < round ==> round_outcomes@[k] == 0 || round_outcomes@[k] >= firing_floor,
            always_loses(*play) ==> round_outcomes_nozeros@.len() == round && (forall|k: int|
                0 <= k < round ==> round_outcomes@[k] > 0),
    {
        let event_sample = play.event.prob.unwrap().sample(source);
        let n: i64 = (event_sample + HALF_SCALE) / SCALE;
        proof {
            assert(0 <= n <= max_firings(*play)) by {
                vstd::arithmetic::div_mod::lemma_div_is_ordered(
                    event_sample as int,
                    play.event.prob->0.max as int,
                    1,
                );
                assert(n == (event_sample + HALF_SCALE) / (SCALE as int));
                vstd::arithmetic::div_mod::lemma_div_is_ordered(
                    (event_sample + HALF_SCALE) as int,
                    (play.event.prob->0.max + HALF_SCALE) as int,
                    SCALE as int,
                );
            }
            if always_loses(*play) {
                vstd::arithmetic::div_mod::lemma_div_is_ordered(
                    (play.event.prob->0.min + HALF_SCALE) as int,
                    (event_sample + HALF_SCALE) as int,
                    SCALE as int,
                );
                assert(n >= 1);
            }
        }
        let mut simulation_total: i64 = 0;
        let mut fired: i64 = 0;
        while fired < n
            invariant
                0 <= fired <= n,
                0 <= simulation_total,
                simulation_total <= fired * firing_cap,
                simulation_total == 0 || simulation_total >= firing_floor,
                always_loses(*play) && fired > 0 ==> simulation_total >= firing_floor,
            decreases n - fired,
        {
            proof {
                assert((fired + 1) * firing_cap <= max_firings(*play) * firing_cap) by (
                nonlinear_arith)
                    requires
                        fired + 1 <= n <= max_firings(*play),
                        firing_cap >= 0,
                ;
            }
            let condition_prob = get_condition_rand(&play.scenario, source);
            let round_rand = source.next_upto(PROB_ONE);
            if round_rand <= condition_prob {
                let magnitude_sample = play.magnitude_prob.unwrap().sample(source);
                let cost_sample = get_cost_rand(&play.costs, source);
                proof {
                    assert(0 <= magnitude_sample * cost_sample <= mag_cost_cap) by (
                    nonlinear_arith)
                        requires
                            mag_cost_cap == play.magnitude_prob->0.max * cost_max_sum(play.costs@),
                            0 <= magnitude_sample <= play.magnitude_prob->0.max,
                            0 <= cost_sample <= cost_max_sum(play.costs@),
                    ;
                    assert(mag_cost_cap <= VAL_LIMIT * (SCALE as int)) by (nonlinear_arith)
                        requires
                            max_firings(*play) * mag_cost_cap <= VAL_LIMIT * (SCALE as int),
                            max_firings(*play) >= 1,
                            mag_cost_cap >= 0,
                    ;
                }
                let loss_wide: i128 = (magnitude_sample as i128) * cost_sample / (SCALE as i128);
                proof {
                    vstd::arithmetic::div_mod::lemma_div_is_ordered(
                        (magnitude_sample * cost_sample) as int,
                        mag_cost_cap,
                        SCALE as int,
                    );
                    assert(0 <= loss_wide <= firing_cap);
                    assert(magnitude_sample * cost_sample >= play.magnitude_prob->0.min
                        * cost_min_sum(play.costs@)) by (nonlinear_arith)
                        requires
                            0 <= play.magnitude_prob->0.min <= magnitude_sample,
                            0 <= cost_min_sum(play.costs@) <= cost_sample,
                    ;
                    vstd::arithmetic::div_mod::lemma_div_is_ordered(
                        play.magnitude_prob->0.min * cost_min_sum(play.costs@),
                        (magnitude_sample * cost_sample) as int,
                        SCALE as int,
                    );
                    assert(loss_wide >= firing_floor);
                    assert(simulation_total + loss_wide <= (fired + 1) * firing_cap) by (
                    nonlinear_arith)
                        requires
                            simulation_total <= fired * firing_cap,
                            loss_wide <= firing_cap,
                            fired >= 0,
                    ;
                }
                simulation_total = simulation_total + (loss_wide as i64);
                proof {
                    assert(simulation_total <= (fired + 1) * firing_cap);
                }
            } else {
                proof {
                    assert(simulation_total <= (fired + 1) * firing_cap) by (nonlinear_arith)
                        requires
                            simulation_total <= fired * firing_cap,
                            firing_cap >= 0,
                            fired >= 0,
                    ;
                    // A certain gate is never missed: the draw cannot exceed
                    // a probability of one.
                    if always_loses(*play) {
                        assert(condition_prob == PROB_ONE);
                        assert(false);
                    }
                }
            }
            fired = fired + 1;
        }
        proof {
            assert(simulation_total <= VAL_LIMIT) by {
                assert(fired * firing_cap <= max_firings(*play) * firing_cap) by (nonlinear_arith)
                    requires
                        0 <= fired <= max_firings(*play),
                        firing_cap >= 0,
                ;
            }
            if always_loses(*play) {
                assert(fired == n >= 1);
                assert(simulation_total >= firing_floor >= 1);
            }
            reveal(Seq::filter);
            assert(round_outcomes@.push(simulation_total).drop_last() =~= round_outcomes@);
        }
        if simulation_total > 0 {
            round_outcomes_nozeros.push(simulation_total);
        }
        round_outcomes.push(simulation_total);
    }
    let ghost full = round_outcomes@;
    let sorted = sort_outcomes(round_outcomes_nozeros);
    proof {
        lemma_bounded_multiset(sorted@, nonzeros(full));
    }
    let result = summarize(play.description.clone(), &sorted, iterations);
    proof {
        if always_loses(*play) && iterations > 0 {
            assert(sorted@.len() == iterations);
            assert((iterations as int) * 100 * (SCALE as int) == (iterations as int) * (100 * (
            SCALE as int))) by (nonlinear_arith);
            vstd::arithmetic::div_mod::lemma_div_multiples_vanish(
                100 * (SCALE as int),
                iterations as int,
            );
            assert(result.annual_loss_event_prob == 100 * SCALE);
        }
    }
    (result, round_outcomes)
}

/// The combined outcome of round `r` across all plays: the plays' outcomes
/// at that round summed.
pub open spec fn combined_at(ss: Seq<Vec<i64>>, r: int) -> int
    decreases ss.len(),
{
    if ss.len() == 0 {
        0
    } else {
        combined_at(ss.drop_last(), r) + ss.last()@[r]
    }
}

/// Every play's series is as long as the run and non-negative.
pub open spec fn series_ok(ss: Seq<Vec<i64>>, iterations: int) -> bool {
    forall|p: int|
        0 <= p < ss.len() ==> (#[trigger] ss[p])@.len() == iterations && forall|r: int|
            0 <= r < iterations ==> 0 <= #[trigger] ss[p]@[r]
}

/// A prefix of the plays contributes a non-negative combined total.
proof fn lemma_combined_prefix_nonneg(ss: Seq<Vec<i64>>, r: int, p: int, iterations: int)
    requires
        series_ok(ss, iterations),
        0 <= r < iterations,
        0 <= p <= ss.len(),
    ensures
        combined_at(ss.subrange(0, p), r) >= 0,
    decreases p,
{
    if p > 0 {
        lemma_combined_prefix_nonneg(ss, r, p - 1, iterations);
        assert(ss.subrange(0, p).drop_last() =~= ss.subrange(0, p - 1));
        assert(ss.subrange(0, p).last() == ss[p - 1]);
        assert(ss[p - 1]@[r] >= 0);
    }
}

/// A prefix of the plays contributes at most the whole combined total.
proof fn lemma_combined_prefix_le(ss: Seq<Vec<i64>>, r: int, p: int, iterations: int)
    requires
        series_ok(ss, iterations),
        0 <= r < iterations,
        0 <= p <= ss.len(),
    ensures
        0 <= combined_at(ss.subrange(0, p), r) <= combined_at(ss, r),
    decreases ss.len() - p,
{
    lemma_combined_prefix_nonneg(ss, r, p, iterations);
    if p == ss.len() {
        assert(ss.subrange(0, p) =~= ss);
    } else {
        assert(ss.subrange(0, p + 1).drop_last() =~= ss.subrange(0, p));
        assert(ss.subrange(0, p + 1).last() == ss[p]);
        assert(ss[p]@[r] >= 0);
        lemma_combined_prefix_le(ss, r, p + 1, iterations);
    }
}

/// A combined round total is never negative.
proof fn lemma_combined_nonneg(ss: Seq<Vec<i64>>, r: int, iterations: int)
    requires
        series_ok(ss, iterations),
        0 <= r < iterations,
    ensures
        combined_at(ss, r) >= 0,
    decreases ss.len(),
{
    if ss.len() > 0 {
        assert(series_ok(ss.drop_last(), iterations)) by {
            assert(forall|i: int|
                0 <= i < ss.drop_last().len() ==> #[trigger] ss.drop_last()[i] == ss[i]);
        }
        lemma_combined_nonneg(ss.drop_last(), r, iterations);
        assert(ss.last()@[r] >= 0);
    }
}

/// Sums the plays' raw outcome series round by round into one combined
/// per-round series.
#[verifier::loop_isolation(false)]
pub fn combine_round_outcomes(series: &Vec<Vec<i64>>, iterations: usize) -> (r: Vec<i64>)
    requires
        series_ok(series@, iterations as int),
        forall|rd: int| 0 <= rd < iterations ==> combined_at(series@, rd) <= VAL_LIMIT,
    ensures
        r@.len() == iterations,
        forall|rd: int| 0 <= rd < iterations ==> r@[rd] == combined_at(series@, rd),
        bounded_series(r@),
{
    let plays = series.len();
    let mut out: Vec<i64> = Vec::new();
    for rd in 0..iterations
        invariant
            out@.len() == rd,
            forall|k: int| 0 <= k < rd ==> out@[k] == combined_at(series@, k),
            bounded_series(out@),
    {
        let mut total: i64 = 0;
        proof {
            assert(series@.subrange(0, 0) =~= Seq::<Vec<i64>>::empty());
            lemma_combined_nonneg(series@, rd as int, iterations as int);
        }
        for p in 0..plays
            invariant
                total == combined_at(series@.subrange(0, p as int), rd as int),
                0 <= total <= combined_at(series@, rd as int),
        {
            proof {
                assert(series@.subrange(0, p + 1).drop_last() =~= series@.subrange(0, p as int));
                assert(series@.subrange(0, p + 1).last() == series@[p as int]);
                lemma_combined_prefix_le(series@, rd as int, p + 1, iterations as int);
            }
            total = total + series[p][rd];
        }
        proof {
            assert(series@.subrange(0, plays as int) =~= series@);
        }
        out.push(total);
    }
    out
}

/// Reduces the plays' results to one per-annum aggregate. A single play's
/// aggregate copies that play's summary; several plays are combined round by
/// round and the combined series is summarized exactly as one play's would
/// be. No plays give no aggregate.
#[verifier::loop_isolation(false)]
pub fn per_annum_result(
    results: &Vec<MonteCarloResult>,
    series: &Vec<Vec<i64>>,
    iterations: usize,
) -> (res: Option<MonteCarloResult>)
    requires
        results@.len() == series@.len(),
        iterations <= LEN_LIMIT,
        series_ok(series@, iterations as int),
        forall|rd: int| 0 <= rd < iterations ==> combined_at(series@, rd) <= VAL_LIMIT,
    ensures
        res is Some <==> results@.len() > 0,
        res matches Some(r) ==> r.description@ == "PER ANNUM"@,
        results@.len() == 1 ==> (res matches Some(r) && r.annual_loss_event_prob == results@[0].annual_loss_event_prob
            && r.fifth_percentile == results@[0].fifth_percentile && r.ninety_fifth_percentile
            == results@[0].ninety_fifth_percentile && r.mean == results@[0].mean && r.median
            == results@[0].median && r.std_dev == results@[0].std_dev),
        results@.len() > 1 ==> (res matches Some(r) && ({
            let combined = Seq::new(iterations as nat, |rd: int| combined_at(series@, rd) as i64);
            let sorted = nonzeros(combined).sort_by(i64_le());
            &&& sorted.len() == 0 ==> r.annual_loss_event_prob == 0 && r.fifth_percentile == 0
                && r.ninety_fifth_percentile == 0 && r.mean == 0 && r.median == 0 && r.std_dev == 0
            &&& sorted.len() > 0 ==> {
                &&& r.annual_loss_event_prob == sorted.len() * 100 * SCALE / (iterations as int)
                &&& r.fifth_percentile == sorted[0]
                &&& r.ninety_fifth_percentile == sorted[sorted.len() - 1]
                &&& r.mean == mean_spec(sorted)
                &&& r.median == median_spec(sorted)
                &&& r.std_dev == std_dev_spec(sorted)
            }
        })),
{
    broadcast use vstd::seq_lib::group_to_multiset_ensures;

    if results.len() == 0 {
        return None;
    }
    if results.len() == 1 {
        let first = &results[0];
        return Some(
            MonteCarloResult {
                description: "PER ANNUM".to_owned(),
                annual_loss_event_prob: first.annual_loss_event_prob,
                fifth_percentile: first.fifth_percentile,
                ninety_fifth_percentile: first.ninety_fifth_percentile,
                mean: first.mean,
                median: first.median,
                std_dev: first.std_dev,
            },
        );
    }
    let combined = combine_round_outcomes(series, iterations);
    proof {
        assert(combined@ =~= Seq::new(
            iterations as nat,
            |rd: int| combined_at(series@, rd) as i64,
        ));
        reveal(Seq::filter);
        assert(combined@.subrange(0, 0) =~= Seq::<i64>::empty());
        assert(nonzeros(combined@.subrange(0, 0)) =~= Seq::<i64>::empty());
    }
    let n = combined.len();
    let mut scenario_totals: Vec<i64> = Vec::new();
    for i in 0..n
        invariant
            scenario_totals@ == nonzeros(combined@.subrange(0, i as int)),
            scenario_totals@.len() <= i,
            bounded_series(scenario_totals@),
    {
        proof {
            reveal(Seq::filter);
            assert(combined@.subrange(0, i + 1).drop_last() =~= combined@.subrange(0, i as int));
            assert(combined@.subrange(0, i + 1).last() == combined@[i as int]);
        }
        if combined[i] > 0 {
            scenario_totals.push(combined[i]);
        }
    }
    proof {
        assert(combined@.subrange(0, n as int) =~= combined@);
    }
    let sorted = sort_outcomes(scenario_totals);
    proof {
        lemma_bounded_multiset(sorted@, nonzeros(combined@));
    }
    Some(summarize("PER ANNUM".to_owned(), &sorted, iterations))
}

/// A deterministic scenario's probability stays within `[0, PROB_ONE]` when
/// its branch weights balance and every condition is a percentage.
pub proof fn lemma_det_prob_bounded(s: Seq<Entry>)
    requires
        entries_simulatable(s),
        crate::data_types::entries_weights_ok(s),
    ensures
        0 <= cond_prob_det(s) <= PROB_ONE,
    decreases s, 2int,
{
    lemma_det_from_bounded(s, PROB_ONE as int);
}

/// Folding a scenario into a running product within `[0, PROB_ONE]` keeps
/// it there.
proof fn lemma_det_from_bounded(s: Seq<Entry>, acc: int)
    requires
        entries_simulatable(s),
        crate::data_types::entries_weights_ok(s),
        0 <= acc <= PROB_ONE,
    ensures
        0 <= cond_prob_det_from(s, acc) <= PROB_ONE,
    decreases s, 1int,
{
    if s.len() > 0 {
        lemma_entry_det_bounded(s[0]);
        let stepped = acc * entry_det_prob(s[0]) / (PROB_ONE as int);
        assert(0 <= stepped <= PROB_ONE) by (nonlinear_arith)
            requires
                stepped == acc * entry_det_prob(s[0]) / (PROB_ONE as int),
                0 <= acc <= PROB_ONE,
                0 <= entry_det_prob(s[0]) <= PROB_ONE,
                PROB_ONE == 0x1_0000_0000u64,
        ;
        assert(entries_simulatable(s.drop_first()) && crate::data_types::entries_weights_ok(
            s.drop_first(),
        )) by {
            assert(forall|i: int|
                0 <= i < s.drop_first().len() ==> #[trigger] s.drop_first()[i] == s[i + 1]);
        }
        lemma_det_from_bounded(s.drop_first(), stepped);
    }
}

/// One entry's deterministic probability stays within `[0, PROB_ONE]`.
proof fn lemma_entry_det_bounded(e: Entry)
    requires
        entry_simulatable(e),
        crate::data_types::entry_weights_ok(e),
    ensures
        0 <= entry_det_prob(e) <= PROB_ONE,
    decreases e, 1int,
{
    match e {
        Entry::Single(c) => {
            assert(0 <= pct_to_prob(c.prob->0.min as int) <= PROB_ONE) by (nonlinear_arith)
                requires
                    0 <= c.prob->0.min <= PERCENT_SCALE,
                    PROB_ONE == 0x1_0000_0000u64,
                    PERCENT_SCALE == 100_000_000i64,
            ;
        },
        Entry::Branch(leaves) => {
            lemma_leaf_det_sum_bounded(leaves@);
            assert(0 <= leaf_det_sum(leaves@) / 100 <= PROB_ONE) by (nonlinear_arith)
                requires
                    0 <= leaf_det_sum(leaves@) <= crate::data_types::leaf_weight_sum(leaves@) * (
                    PROB_ONE as int),
                    crate::data_types::leaf_weight_sum(leaves@) == 100,
                    PROB_ONE == 0x1_0000_0000u64,
            ;
        },
    }
}

/// The weighted sum of deterministic leaf probabilities lies between zero
/// and the weight total times `PROB_ONE`.
proof fn lemma_leaf_det_sum_bounded(ls: Seq<Leaf>)
    requires
        forall|i: int| 0 <= i < ls.len() ==> entries_simulatable(#[trigger] ls[i].scenario@),
        forall|i: int|
            0 <= i < ls.len() ==> crate::data_types::entries_weights_ok(#[trigger] ls[i].scenario@),
    ensures
        0 <= leaf_det_sum(ls) <= crate::data_types::leaf_weight_sum(ls) * (PROB_ONE as int),
    decreases ls, 3int,
{
    if ls.len() == 0 {
    } else {
        assert(forall|i: int|
            0 <= i < ls.drop_last().len() ==> #[trigger] ls.drop_last()[i] == ls[i]);
        lemma_leaf_det_sum_bounded(ls.drop_last());
        lemma_det_prob_bounded(ls.last().scenario@);
        let w = ls.last().weight as int;
        let sub = cond_prob_det(ls.last().scenario@);
        assert(0 <= w * sub <= w * (PROB_ONE as int)) by (nonlinear_arith)
            requires
                w >= 0,
                0 <= sub <= PROB_ONE,
        ;
        assert(crate::data_types::leaf_weight_sum(ls) == crate::data_types::leaf_weight_sum(
            ls.drop_last(),
        ) + w);
        assert((crate::data_types::leaf_weight_sum(ls.drop_last()) + w) * (PROB_ONE as int)
            == crate::data_types::leaf_weight_sum(ls.drop_last()) * (PROB_ONE as int) + w * (
        PROB_ONE as int)) by (nonlinear_arith);
    }
}

/// The deterministic probability of a branch whose leaf weights total one
/// hundred is the weighted average of its leaves' deterministic
/// sub-probabilities, and lies within `[0, PROB_ONE]` when every condition
/// is a percentage.
pub proof fn lemma_branch_probability(leaves: Seq<Leaf>)
    requires
        crate::data_types::leaf_weight_sum(leaves) == 100,
        forall|i: int| 0 <= i < leaves.len() ==> entries_simulatable(#[trigger] leaves[i].scenario@),
        forall|i: int|
            0 <= i < leaves.len() ==> crate::data_types::entries_weights_ok(
                #[trigger] leaves[i].scenario@,
            ),
    ensures
        0 <= leaf_det_sum(leaves) <= 100 * (PROB_ONE as int),
        0 <= leaf_det_sum(leaves) / 100 <= PROB_ONE,
        forall|i: int|
            0 <= i < leaves.len() ==> 0 <= cond_prob_det(#[trigger] leaves[i].scenario@)
                <= PROB_ONE,
{
    lemma_leaf_det_sum_bounded(leaves);
    assert(0 <= leaf_det_sum(leaves) / 100 <= PROB_ONE) by (nonlinear_arith)
        requires
            0 <= leaf_det_sum(leaves) <= 100 * (PROB_ONE as int),
            PROB_ONE == 0x1_0000_0000u64,
    ;
    assert forall|i: int| 0 <= i < leaves.len() implies 0 <= cond_prob_det(
        #[trigger] leaves[i].scenario@,
    ) <= PROB_ONE by {
        lemma_det_prob_bounded(leaves[i].scenario@);
    }
}

} // verus!
