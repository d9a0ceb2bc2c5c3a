//! Chance: weighted outcomes and the random numbers that pick among them.

use rand::rngs::SmallRng;
use rand::{Rng, SeedableRng};
use vstd::arithmetic::div_mod::{lemma_fundamental_div_mod, lemma_mod_bound};
use vstd::prelude::*;
use vstd::set_lib::{lemma_int_range, set_int_range};

verus! {

/// The random number generator `SmallRng` of rand.
#[verifier::external_type_specification]
#[verifier::external_body]
pub struct ExSmallRng(SmallRng);

/// `SmallRng::from_os_rng` of rand: a generator seeded by the operating
/// system. Nothing is claimed of its seed.
#[verifier::external_body]
pub(crate) fn seeded_rng() -> SmallRng {
    SmallRng::from_os_rng()
}

/// `Rng::random_range` of rand on a half-open range from zero: some number
/// of the range. Which one is left to chance.
#[verifier::external_body]
pub(crate) fn random_below(rng: &mut SmallRng, end: u128) -> (r: u128)
    requires
        end > 0,
    ensures
        r < end,
{
    rng.random_range(0..end)
}

/// Whether a generator that is asked for a number below `end` gives `r`: a
/// call in that state gave it.
pub closed spec fn gives(rng: SmallRng, end: int, r: int) -> bool {
    exists|call: &mut SmallRng, n: u128, x: u128|
        *call == rng && n == end && x == r && #[trigger] random_below.ensures((call, n), x)
}

/// Whether `threshold` was drawn for outcomes that weigh `total` together: it
/// is the number that a generator gave for the range of the whole numbers up
/// to that. Every number from zero up to the total, rounded up to a whole
/// one, picks the same outcome, so that nothing is lost by drawing whole
/// numbers.
pub open spec fn drawn(total: int, threshold: int) -> bool {
    exists|rng: SmallRng| #[trigger] gives(rng, total + 1, threshold)
}

/// What a generator gives is what a call for a number below `end` gave, in
/// that state.
pub(crate) proof fn lemma_a_call_gave_it(rng: SmallRng, end: int, r: int)
    requires
        gives(rng, end, r),
    ensures
        0 <= r < end,
        exists|call: &mut SmallRng, n: u128, x: u128|
            *call == rng && n == end && x == r && #[trigger] random_below.ensures((call, n), x),
{
}

/// A drawn threshold is what a call for the whole range up to the total gave.
pub(crate) proof fn lemma_a_draw_is_a_call(total: int, threshold: int)
    requires
        drawn(total, threshold),
    ensures
        0 <= threshold <= total,
        exists|call: &mut SmallRng, n: u128, x: u128|
            n == total + 1 && x == threshold && #[trigger] random_below.ensures((call, n), x),
{
    let rng = choose|rng: SmallRng| #[trigger] gives(rng, total + 1, threshold);
    lemma_a_call_gave_it(rng, total + 1, threshold);
}

/// A drawn threshold is no more than the total.
pub proof fn lemma_drawn(total: int, threshold: int)
    requires
        drawn(total, threshold),
    ensures
        0 <= threshold <= total,
{
    lemma_a_draw_is_a_call(total, threshold);
}

/// Draws a threshold: the number that the generator gives for the range up to
/// the total weight.
pub(crate) fn draw_threshold(rng: &mut SmallRng, total: u128) -> (r: u128)
    requires
        total < u128::MAX,
    ensures
        r <= total,
        gives(*old(rng), total + 1, r as int),
        drawn(total as int, r as int),
        exists|call: &mut SmallRng, end: u128|
            *call == *old(rng) && *final(call) == *final(rng) && end == total + 1
                && #[trigger] random_below.ensures((call, end), r),
{
    random_below(rng, total + 1)
}

/// A weight from a percentage; nothing is less likely than impossible.
pub open spec fn weight(percentage: i64) -> int {
    if percentage > 0 {
        percentage as int
    } else {
        0
    }
}

pub fn weight_of(percentage: i64) -> (r: u128)
    ensures
        r == weight(percentage),
        r <= i64::MAX,
{
    if percentage > 0 {
        percentage as u128
    } else {
        0
    }
}

/// The weights of the first `n` outcomes together.
pub open spec fn weight_sum(percentages: Seq<i64>, n: int) -> int
    decreases n,
{
    if n <= 0 {
        0
    } else {
        weight_sum(percentages, n - 1) + weight(percentages[n - 1])
    }
}

/// The outcome that a threshold picks, among those from `from` on: the first
/// one at which the weights so far reach the threshold, else the last.
pub open spec fn picked_from(percentages: Seq<i64>, threshold: int, from: int) -> int
    decreases percentages.len() - from,
{
    if from >= percentages.len() {
        percentages.len() - 1
    } else if weight_sum(percentages, from + 1) >= threshold {
        from
    } else {
        picked_from(percentages, threshold, from + 1)
    }
}

/// The outcome that a threshold picks.
pub open spec fn picked(percentages: Seq<i64>, threshold: int) -> int {
    picked_from(percentages, threshold, 0)
}

/// More outcomes weigh no less, and no more than their number allows.
pub proof fn lemma_weight_sum_grows(percentages: Seq<i64>, n: int, m: int)
    requires
        0 <= n <= m <= percentages.len(),
    ensures
        0 <= weight_sum(percentages, n) <= weight_sum(percentages, m),
        weight_sum(percentages, m) <= m * i64::MAX,
    decreases m,
{
    if m > 0 {
        if n < m {
            lemma_weight_sum_grows(percentages, n, m - 1);
        } else {
            lemma_weight_sum_grows(percentages, n - 1, m - 1);
        }
        assert(m * i64::MAX == (m - 1) * i64::MAX + i64::MAX) by (nonlinear_arith);
    }
}

/// An outcome is as likely as its weight: of the thresholds above zero up to
/// the total, just those of its own stretch, as many as its weight, pick it.
/// Zero picks the first outcome.
pub proof fn lemma_pick(percentages: Seq<i64>, threshold: int, j: int)
    requires
        0 <= threshold <= weight_sum(percentages, percentages.len() as int),
        0 <= j < percentages.len(),
    ensures
        picked(percentages, threshold) == j <==> if threshold == 0 {
            j == 0
        } else {
            weight_sum(percentages, j) < threshold <= weight_sum(percentages, j) + weight(
                percentages[j],
            )
        },
        0 <= picked(percentages, threshold) < percentages.len(),
{
    lemma_weight_sum_grows(percentages, 0, 1);
    if threshold > 0 {
        lemma_pick_from(percentages, threshold, 0);
        let p = picked(percentages, threshold);
        if j < p {
            lemma_weight_sum_grows(percentages, j + 1, p);
        } else if p < j {
            lemma_weight_sum_grows(percentages, p + 1, j);
        }
    }
}

/// Every outcome is reached by as many of the thresholds above zero as its
/// weight, all of them together by as many as the total.
pub proof fn lemma_as_many_thresholds_as_weight(percentages: Seq<i64>, j: int)
    requires
        0 <= j < percentages.len(),
    ensures
        ({
            let total = weight_sum(percentages, percentages.len() as int);
            let reaching = Set::new(
                |t: int| 0 < t <= total && picked(percentages, t) == j,
            );
            &&& reaching.finite()
            &&& reaching.len() == weight(percentages[j])
        }),
{
    let n = percentages.len() as int;
    let total = weight_sum(percentages, n);
    let low = weight_sum(percentages, j);
    let w = weight(percentages[j]);
    let reaching = Set::new(|t: int| 0 < t <= total && picked(percentages, t) == j);
    lemma_weight_sum_grows(percentages, 0, j);
    lemma_weight_sum_grows(percentages, j + 1, n);
    assert forall|t: int| reaching.contains(t) <==> low + 1 <= t < low + w + 1 by {
        if 0 < t <= total {
            lemma_pick(percentages, t, j);
        }
    }
    assert(reaching =~= set_int_range(low + 1, low + w + 1));
    lemma_int_range(low + 1, low + w + 1);
}

/// A threshold between whole numbers picks what the next whole number picks:
/// where the thresholds are split `parts` times as finely, the stretch of
/// each outcome is split so too.
pub proof fn lemma_fine_thresholds(percentages: Seq<i64>, fine: int, parts: int, n: int)
    requires
        parts > 0,
        fine >= 0,
    ensures
        weight_sum(percentages, n) * parts >= fine <==> weight_sum(percentages, n) >= (fine
            + parts - 1) / parts,
{
    let w = weight_sum(percentages, n);
    let t = (fine + parts - 1) / parts;
    lemma_fundamental_div_mod(fine + parts - 1, parts);
    lemma_mod_bound(fine + parts - 1, parts);
    let r = (fine + parts - 1) % parts;
    if w >= t {
        assert(w * parts >= t * parts) by (nonlinear_arith)
            requires
                w >= t,
                parts > 0,
        ;
        assert(t * parts == parts * t) by (nonlinear_arith);
    } else {
        assert(w * parts <= t * parts - parts) by (nonlinear_arith)
            requires
                w + 1 <= t,
                parts > 0,
        ;
        assert(t * parts == parts * t) by (nonlinear_arith);
    }
}

proof fn lemma_pick_from(percentages: Seq<i64>, threshold: int, from: int)
    requires
        0 <= from < percentages.len(),
        weight_sum(percentages, from) < threshold <= weight_sum(
            percentages,
            percentages.len() as int,
        ),
    ensures
        from <= picked_from(percentages, threshold, from) < percentages.len(),
        weight_sum(percentages, picked_from(percentages, threshold, from)) < threshold,
        threshold <= weight_sum(percentages, picked_from(percentages, threshold, from) + 1),
    decreases percentages.len() - from,
{
    if weight_sum(percentages, from + 1) < threshold {
        lemma_pick_from(percentages, threshold, from + 1);
    }
}

} // verus!
