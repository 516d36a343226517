//! What holds of everything that is learned, where the arithmetic keeps the order of measures.

use vstd::prelude::*;

use crate::formula::{constant, lemma_between, steady, Formula};
use crate::measure::{larger, smaller, Arithmetic, Measure, EPSILON, INFINITY, ONE, QUARTER, ZERO};
use crate::order::{
    below, lemma_below_at_least, lemma_below_between, lemma_below_itself, lemma_below_over,
    lemma_below_plus, lemma_below_times, lemma_proper, orderly, proper,
};
use crate::quality::{
    moved_by, newest_share, one_more, result_share, result_weight, sample_weight, volatility,
    Estimate, Reliability, STEADY_WEIGHT, VOLATILITY_LIFT,
};

verus! {

/// Whether an estimate is made of measures.
pub open spec fn proper_estimate(estimate: Estimate) -> bool {
    &&& estimate.mad.bits <= INFINITY
    &&& estimate.mean matches Some(mean) ==> mean.bits <= INFINITY
}

proof fn lemma_moved_order<A: Arithmetic>(
    kit: &A,
    weight: Formula,
    old: Formula,
    low: Formula,
    high: Formula,
)
    requires
        steady(kit),
        orderly(kit),
        proper(weight),
        proper(old),
        below(kit, low, high),
    ensures
        below(kit, moved_by(weight, old, low), moved_by(weight, old, high)),
{
    let kept = constant(ONE).off(weight).times(old);
    assert(proper(kept)) by {
        reveal_with_fuel(proper, 3);
    }
    lemma_below_itself(kit, kept);
    lemma_below_itself(kit, weight);
    lemma_below_times(kit, weight, low, weight, high);
    lemma_below_plus(kit, kept, weight.times(low), kept, weight.times(high));
}

proof fn lemma_weight_proper(mean: Measure, mad: Measure, samples: u64)
    requires
        mean.bits <= INFINITY,
        mad.bits <= INFINITY,
    ensures
        proper(sample_weight(mean, mad, samples)),
        proper(result_share(samples)),
{
    reveal_with_fuel(proper, 10);
}

/// Of two samples folded into the same estimate the larger leaves no lower a mean. The arithmetic is
/// to be steady and orderly.
pub proof fn larger_samples_leave_no_lower_mean<A: Arithmetic>(
    kit: &A,
    before: Estimate,
    low: Measure,
    after_low: Estimate,
    high: Measure,
    after_high: Estimate,
)
    requires
        steady(kit),
        orderly(kit),
        proper_estimate(before),
        low.bits <= high.bits <= INFINITY,
        before.folds(kit, low, after_low),
        before.folds(kit, high, after_high),
    ensures
        after_low.mean is Some,
        after_high.mean is Some,
        after_low.mean->0.bits <= after_high.mean->0.bits,
{
    if let Some(mean) = before.mean {
        let weight = sample_weight(mean, before.mad, before.samples);
        let (old, small, large) = (Formula::Known(mean), Formula::Known(low), Formula::Known(high));
        lemma_weight_proper(mean, before.mad, before.samples);
        lemma_moved_order(kit, weight, old, small, large);
    }
}

/// A sample never weighs less than in a steady stream, nor more than everything, and a wider
/// deviation never makes it weigh less. The arithmetic is to be steady and orderly.
pub proof fn samples_weigh_more_in_swings<A: Arithmetic>(
    kit: &A,
    mean: Measure,
    narrow: Measure,
    narrow_weight: Measure,
    wide: Measure,
    wide_weight: Measure,
    samples: u64,
)
    requires
        steady(kit),
        orderly(kit),
        mean.bits <= INFINITY,
        narrow.bits <= wide.bits <= INFINITY,
        sample_weight(mean, narrow, samples).gives(kit, narrow_weight),
        sample_weight(mean, wide, samples).gives(kit, wide_weight),
    ensures
        STEADY_WEIGHT <= narrow_weight.bits <= wide_weight.bits <= ONE,
{
    let (n_swings, w_swings) = (volatility(Some(mean), narrow), volatility(Some(mean), wide));
    let (base, lift) = (constant(STEADY_WEIGHT), constant(VOLATILITY_LIFT));
    let share = newest_share(samples);
    if mean.bits > EPSILON {
        let (n, w, m) = (Formula::Known(narrow), Formula::Known(wide), Formula::Known(mean));
        lemma_below_over(kit, n, m, w, m);
        lemma_below_between(kit, n.over(m), w.over(m), ZERO, ONE);
    }
    lemma_below_times(kit, lift, n_swings, lift, w_swings);
    lemma_below_plus(kit, base, lift.times(n_swings), base, lift.times(w_swings));
    assert(proper(share)) by {
        reveal_with_fuel(proper, 3);
    }
    lemma_below_itself(kit, share);
    let (n_driven, w_driven) = (
        base.plus(lift.times(n_swings)),
        base.plus(lift.times(w_swings)),
    );
    lemma_below_at_least(kit, share, n_driven, share, w_driven);
    lemma_below_between(kit, share.at_least(n_driven), share.at_least(w_driven), ZERO, ONE);
    lemma_between(kit, share.at_least(w_driven), ZERO, ONE, wide_weight);
    lemma_weight_floor(kit, mean, narrow, samples, narrow_weight);
}

proof fn lemma_weight_floor<A: Arithmetic>(
    kit: &A,
    mean: Measure,
    mad: Measure,
    samples: u64,
    weight: Measure,
)
    requires
        orderly(kit),
        mean.bits <= INFINITY,
        mad.bits <= INFINITY,
        sample_weight(mean, mad, samples).gives(kit, weight),
    ensures
        STEADY_WEIGHT <= weight.bits,
{
    let lift = constant(VOLATILITY_LIFT).times(volatility(Some(mean), mad));
    let driven = constant(STEADY_WEIGHT).plus(lift);
    let raw = newest_share(samples).at_least(driven);
    let (a, b) = choose|a: Measure, b: Measure|
        raw.at_least(constant(ZERO)).gives(kit, a) && constant(ONE).gives(kit, b) && weight
            == #[trigger] smaller(a, b);
    let (c, d) = choose|c: Measure, d: Measure|
        raw.gives(kit, c) && constant(ZERO).gives(kit, d) && a == #[trigger] larger(c, d);
    let (e, f) = choose|e: Measure, f: Measure|
        newest_share(samples).gives(kit, e) && driven.gives(kit, f) && c == #[trigger] larger(e, f);
    let (g, h) = choose|g: Measure, h: Measure|
        constant(STEADY_WEIGHT).gives(kit, g) && lift.gives(kit, h) && #[trigger] call_ensures(
            A::sum,
            (kit, g, h),
            f,
        );
    assert(proper(lift)) by {
        reveal_with_fuel(proper, 6);
    }
    lemma_proper(kit, lift, h);
    assert(g.bits == STEADY_WEIGHT);
}

/// What a sample can leave of a mean at most: what a sample in a steady stream leaves of it, and the
/// sample on top.
pub open spec fn ceiling(mean: Measure, sample: Measure) -> Formula {
    constant(ONE).off(constant(STEADY_WEIGHT)).times(Formula::Known(mean)).plus(
        Formula::Known(sample),
    )
}

/// What a sample leaves of a mean at least: its weight in a steady stream.
pub open spec fn footing(sample: Measure) -> Formula {
    constant(STEADY_WEIGHT).times(Formula::Known(sample))
}

proof fn lemma_kept_below<A: Arithmetic>(kit: &A, estimate: Estimate, kept: Measure, most: Measure)
    requires
        orderly(kit),
        proper_estimate(estimate),
        estimate.mean is Some,
        constant(ONE).off(
            sample_weight(estimate.mean->0, estimate.mad, estimate.samples),
        ).times(Formula::Known(estimate.mean->0)).gives(kit, kept),
        constant(ONE).off(constant(STEADY_WEIGHT)).times(
            Formula::Known(estimate.mean->0),
        ).gives(kit, most),
    ensures
        kept.bits <= most.bits <= estimate.mean->0.bits,
{
    let (one, old) = (constant(ONE), Formula::Known(estimate.mean->0));
    let weight = sample_weight(estimate.mean->0, estimate.mad, estimate.samples);
    let (rest, same) = choose|rest: Measure, same: Measure|
        one.off(weight).gives(kit, rest) && old.gives(kit, same) && #[trigger] call_ensures(
            A::product,
            (kit, rest, same),
            kept,
        );
    let (whole, share) = choose|whole: Measure, share: Measure|
        one.gives(kit, whole) && weight.gives(kit, share) && #[trigger] call_ensures(
            A::gap,
            (kit, whole, share),
            rest,
        );
    let (left, again) = choose|left: Measure, again: Measure|
        one.off(constant(STEADY_WEIGHT)).gives(kit, left) && old.gives(kit, again)
            && #[trigger] call_ensures(A::product, (kit, left, again), most);
    let (all, least) = choose|all: Measure, least: Measure|
        one.gives(kit, all) && constant(STEADY_WEIGHT).gives(kit, least)
            && #[trigger] call_ensures(A::gap, (kit, all, least), left);
    lemma_weight_floor(kit, estimate.mean->0, estimate.mad, estimate.samples, share);
    let raw = newest_share(estimate.samples).at_least(
        constant(STEADY_WEIGHT).plus(
            constant(VOLATILITY_LIFT).times(volatility(estimate.mean, estimate.mad)),
        ),
    );
    lemma_between(kit, raw, ZERO, ONE, share);
    assert(whole == Measure { bits: ONE } && all == whole && least.bits == STEADY_WEIGHT);
    assert(same == estimate.mean->0 && again == same);
    assert(rest.bits <= left.bits && left.bits <= ONE);
}

/// However an estimate was made, a sample pulls its mean: to no more than what a sample in a steady
/// stream leaves of it with the sample on top, and to no less than the weight in a steady stream
/// gives the sample. So a mean wears off at least as fast as in a steady stream where samples fall,
/// and catches up at least as fast where they rise. The arithmetic is to be orderly.
pub proof fn samples_pull_the_mean<A: Arithmetic>(
    kit: &A,
    before: Estimate,
    sample: Measure,
    after: Estimate,
    most: Measure,
    least: Measure,
)
    requires
        orderly(kit),
        proper_estimate(before),
        before.mean is Some,
        sample.bits <= INFINITY,
        before.folds(kit, sample, after),
        ceiling(before.mean->0, sample).gives(kit, most),
        footing(sample).gives(kit, least),
    ensures
        after.mean is Some,
        least.bits <= after.mean->0.bits <= most.bits,
{
    let mean = before.mean->0;
    let (one, old, new) = (constant(ONE), Formula::Known(mean), Formula::Known(sample));
    let weight = sample_weight(mean, before.mad, before.samples);
    let (kept, added) = choose|kept: Measure, added: Measure|
        one.off(weight).times(old).gives(kit, kept) && weight.times(new).gives(kit, added)
            && #[trigger] call_ensures(A::sum, (kit, kept, added), after.mean->0);
    let (share, same) = choose|share: Measure, same: Measure|
        weight.gives(kit, share) && new.gives(kit, same) && #[trigger] call_ensures(
            A::product,
            (kit, share, same),
            added,
        );
    let (left, top) = choose|left: Measure, top: Measure|
        one.off(constant(STEADY_WEIGHT)).times(old).gives(kit, left) && new.gives(kit, top)
            && #[trigger] call_ensures(A::sum, (kit, left, top), most);
    let (low, again) = choose|low: Measure, again: Measure|
        constant(STEADY_WEIGHT).gives(kit, low) && new.gives(kit, again) && #[trigger] call_ensures(
            A::product,
            (kit, low, again),
            least,
        );
    lemma_kept_below(kit, before, kept, left);
    lemma_weight_floor(kit, mean, before.mad, before.samples, share);
    let raw = newest_share(before.samples).at_least(
        constant(STEADY_WEIGHT).plus(
            constant(VOLATILITY_LIFT).times(volatility(before.mean, before.mad)),
        ),
    );
    lemma_between(kit, raw, ZERO, ONE, share);
    assert(same == sample && top == sample && again == sample && low.bits == STEADY_WEIGHT);
    assert(added.bits <= sample.bits);
    assert(least.bits <= added.bits);
}

/// Whether `bound` is three quarters of a rate, as `kit` computes.
pub open spec fn three_quarters<A: Arithmetic>(kit: &A, rate: Measure, bound: Measure) -> bool {
    constant(ONE).off(constant(QUARTER)).times(Formula::Known(rate)).gives(kit, bound)
}

/// Whether a success rate is none or at most one.
pub open spec fn within_one(reliability: Reliability) -> bool {
    reliability.rate matches Some(rate) ==> rate.bits <= ONE
}

/// A success rate starts between zero and one and stays there, whatever is observed and whatever the
/// prior is. A success never lowers it and a failure never raises it. Each verification failure is
/// counted, and nothing else is: whether a success is called hard makes no difference.
pub proof fn rates_follow_the_results<A: Arithmetic>(
    kit: &A,
    before: Reliability,
    ok: bool,
    hard: bool,
    after: Reliability,
    prior: Measure,
)
    requires
        within_one(before),
        before.hears(kit, ok, hard, after),
    ensures
        within_one(Reliability::fresh()),
        within_one(before.seeded(prior)),
        within_one(after),
        after.rate is Some,
        after.samples > 0,
        before.rate is Some && ok ==> before.rate->0.bits <= after.rate->0.bits,
        before.rate is Some && !ok ==> after.rate->0.bits <= before.rate->0.bits,
        after.hard_failures == (if !ok && hard {
            one_more(before.hard_failures)
        } else {
            before.hard_failures
        }),
        ok ==> before.hears(kit, ok, !hard, after),
{
    if !ok && hard {
        let (first, second, third) = choose|
            first: Reliability,
            second: Reliability,
            third: Reliability,
        |
            #![trigger before.steps(kit, ok, first), first.steps(kit, ok, second), second.steps(kit, ok, third)]
            before.steps(kit, ok, first) && first.steps(kit, ok, second) && second.steps(
                kit,
                ok,
                third,
            ) && after == (Reliability { hard_failures: one_more(before.hard_failures), ..third });
        lemma_step(kit, before, ok, first);
        lemma_step(kit, first, ok, second);
        lemma_step(kit, second, ok, third);
    } else {
        lemma_step(kit, before, ok, after);
    }
}

proof fn lemma_step<A: Arithmetic>(kit: &A, before: Reliability, ok: bool, after: Reliability)
    requires
        within_one(before),
        before.steps(kit, ok, after),
    ensures
        within_one(after),
        before.rate is Some && ok ==> before.rate->0.bits <= after.rate->0.bits,
        before.rate is Some && !ok ==> after.rate->0.bits <= before.rate->0.bits,
{
    if let Some(rate) = before.rate {
        let old = Formula::Known(rate);
        let moved = moved_by(
            result_share(before.samples),
            old,
            Formula::Known(result_weight(ok)),
        );
        if ok {
            let (a, b) = choose|a: Measure, b: Measure|
                moved.at_least(old).gives(kit, a) && constant(ONE).gives(kit, b) && after.rate->0
                    == #[trigger] smaller(a, b);
            let (c, d) = choose|c: Measure, d: Measure|
                moved.gives(kit, c) && old.gives(kit, d) && a == #[trigger] larger(c, d);
            assert(b.bits == ONE && d == rate);
        } else {
            let (a, b) = choose|a: Measure, b: Measure|
                moved.gives(kit, a) && old.gives(kit, b) && after.rate->0 == #[trigger] smaller(
                    a,
                    b,
                );
            assert(b == rate);
        }
    }
}

/// A success leaves no lower a rate than a failure would.
pub proof fn successes_leave_no_lower_rate<A: Arithmetic>(
    kit: &A,
    before: Reliability,
    success: Reliability,
    hard: bool,
    failure: Reliability,
)
    requires
        within_one(before),
        before.hears(kit, true, hard, success),
        before.hears(kit, false, hard, failure),
    ensures
        success.rate is Some,
        failure.rate is Some,
        failure.rate->0.bits <= success.rate->0.bits,
{
    rates_follow_the_results(kit, before, true, hard, success, Measure { bits: ZERO });
    rates_follow_the_results(kit, before, false, hard, failure, Measure { bits: ZERO });
    if before.rate is None && hard {
        let (first, second, third) = choose|
            first: Reliability,
            second: Reliability,
            third: Reliability,
        |
            #![trigger before.steps(kit, false, first), first.steps(kit, false, second), second.steps(kit, false, third)]
            before.steps(kit, false, first) && first.steps(kit, false, second) && second.steps(
                kit,
                false,
                third,
            ) && failure == (Reliability {
                hard_failures: one_more(before.hard_failures),
                ..third
            });
        lemma_step(kit, first, false, second);
        lemma_step(kit, second, false, third);
    }
}

/// A failure, whatever its reason, takes at least a quarter off the success rate. The arithmetic is
/// to be orderly.
pub proof fn failures_wear_the_rate_down<A: Arithmetic>(
    kit: &A,
    before: Reliability,
    hard: bool,
    after: Reliability,
    bound: Measure,
)
    requires
        orderly(kit),
        before.rate is Some,
        before.rate->0.bits <= INFINITY,
        before.hears(kit, false, hard, after),
        three_quarters(kit, before.rate->0, bound),
    ensures
        after.rate is Some,
        after.rate->0.bits <= bound.bits,
        after.rate->0.bits <= before.rate->0.bits,
{
    if hard {
        let (first, second, third) = choose|
            first: Reliability,
            second: Reliability,
            third: Reliability,
        |
            #![trigger before.steps(kit, false, first), first.steps(kit, false, second), second.steps(kit, false, third)]
            before.steps(kit, false, first) && first.steps(kit, false, second) && second.steps(
                kit,
                false,
                third,
            ) && after == (Reliability { hard_failures: one_more(before.hard_failures), ..third });
        lemma_failure_step(kit, before, first, bound);
        lemma_failure_no_rise(kit, first, second);
        lemma_failure_no_rise(kit, second, third);
    } else {
        lemma_failure_step(kit, before, after, bound);
    }
}

/// The parts of a rate after a failure: the weight of the result, what is kept, and what is added.
proof fn lemma_failure_parts<A: Arithmetic>(kit: &A, before: Reliability, after: Reliability) -> (r:
    (Measure, Measure))
    requires
        orderly(kit),
        before.rate is Some,
        before.rate->0.bits <= INFINITY,
        before.steps(kit, false, after),
    ensures
        QUARTER <= r.0.bits <= ONE,
        call_ensures(A::gap, (kit, Measure { bits: ONE }, r.0), r.1),
        r.1.bits <= ONE,
        exists|kept: Measure| #[trigger]
            call_ensures(A::product, (kit, r.1, before.rate->0), kept) && after.rate->0.bits
                <= kept.bits,
        after.rate->0.bits <= before.rate->0.bits,
{
    let weight = result_share(before.samples);
    let rate = before.rate->0;
    let (one, old, new) = (
        constant(ONE),
        Formula::Known(rate),
        Formula::Known(result_weight(false)),
    );
    let (moved, top) = choose|moved: Measure, top: Measure|
        moved_by(weight, old, new).gives(kit, moved) && old.gives(kit, top) && after.rate->0
            == #[trigger] smaller(moved, top);
    let (kept, added) = choose|kept: Measure, added: Measure|
        one.off(weight).times(old).gives(kit, kept) && weight.times(new).gives(kit, added)
            && #[trigger] call_ensures(A::sum, (kit, kept, added), moved);
    let (rest, same) = choose|rest: Measure, same: Measure|
        one.off(weight).gives(kit, rest) && old.gives(kit, same) && #[trigger] call_ensures(
            A::product,
            (kit, rest, same),
            kept,
        );
    let (whole, share) = choose|whole: Measure, share: Measure|
        one.gives(kit, whole) && weight.gives(kit, share) && #[trigger] call_ensures(
            A::gap,
            (kit, whole, share),
            rest,
        );
    let (other, zero) = choose|other: Measure, zero: Measure|
        weight.gives(kit, other) && new.gives(kit, zero) && #[trigger] call_ensures(
            A::product,
            (kit, other, zero),
            added,
        );
    lemma_result_share(kit, before.samples, share);
    lemma_result_share(kit, before.samples, other);
    assert(whole == Measure { bits: ONE } && same == rate && zero.bits == ZERO);
    assert(added.bits == ZERO);
    (share, rest)
}

proof fn lemma_failure_step<A: Arithmetic>(
    kit: &A,
    before: Reliability,
    after: Reliability,
    bound: Measure,
)
    requires
        orderly(kit),
        before.rate is Some,
        before.rate->0.bits <= INFINITY,
        before.steps(kit, false, after),
        three_quarters(kit, before.rate->0, bound),
    ensures
        after.rate->0.bits <= bound.bits,
        after.rate->0.bits <= before.rate->0.bits,
{
    let (share, rest) = lemma_failure_parts(kit, before, after);
    let kept = choose|kept: Measure| #[trigger]
        call_ensures(A::product, (kit, rest, before.rate->0), kept) && after.rate->0.bits
            <= kept.bits;
    let (most, same) = choose|most: Measure, same: Measure|
        constant(ONE).off(constant(QUARTER)).gives(kit, most) && Formula::Known(
            before.rate->0,
        ).gives(kit, same) && #[trigger] call_ensures(A::product, (kit, most, same), bound);
    let (whole, quarter) = choose|whole: Measure, quarter: Measure|
        constant(ONE).gives(kit, whole) && constant(QUARTER).gives(kit, quarter)
            && #[trigger] call_ensures(A::gap, (kit, whole, quarter), most);
    assert(whole == Measure { bits: ONE } && quarter.bits == QUARTER && same == before.rate->0);
    assert(rest.bits <= most.bits);
    assert(most.bits <= ONE);
}

proof fn lemma_failure_no_rise<A: Arithmetic>(kit: &A, before: Reliability, after: Reliability)
    requires
        orderly(kit),
        before.rate is Some,
        before.rate->0.bits <= INFINITY,
        before.steps(kit, false, after),
    ensures
        after.rate->0.bits <= before.rate->0.bits,
{
    lemma_failure_parts(kit, before, after);
}

proof fn lemma_result_share<A: Arithmetic>(kit: &A, samples: u64, weight: Measure)
    requires
        orderly(kit),
        result_share(samples).gives(kit, weight),
    ensures
        QUARTER <= weight.bits <= ONE,
{
    let total = Formula::Count(samples).plus(constant(ONE));
    let (share, floor) = choose|share: Measure, floor: Measure|
        newest_share(samples).gives(kit, share) && constant(QUARTER).gives(kit, floor) && weight
            == #[trigger] larger(share, floor);
    let (one, all) = choose|one: Measure, all: Measure|
        constant(ONE).gives(kit, one) && total.gives(kit, all) && #[trigger] call_ensures(
            A::quotient,
            (kit, one, all),
            share,
        );
    let (count, last) = choose|count: Measure, last: Measure|
        Formula::Count(samples).gives(kit, count) && constant(ONE).gives(kit, last)
            && #[trigger] call_ensures(A::sum, (kit, count, last), all);
    assert(one.bits == ONE && last.bits == ONE && floor.bits == QUARTER);
    assert(ONE <= all.bits);
    assert(proper(total)) by {
        reveal_with_fuel(proper, 2);
    }
    lemma_proper(kit, total, all);
}

} // verus!
