//! By how much a measurement moves what was learned, in numbers.

use vstd::prelude::*;

use crate::closeness::{
    around, dust, lemma_count_number, lemma_decimals, lemma_ends, lemma_factors, lemma_fraction,
    lemma_gap_number, lemma_grains, lemma_held, lemma_larger_of, lemma_number_order,
    lemma_quotient_number, lemma_share_product, lemma_share_rest, lemma_share_sum, lemma_smaller_of,
    lemma_sum_number, lemma_summands, lemma_vast, lemma_vaster, lemma_whole_constants,
    lemma_worth_share, number, slip, VAST, VASTER,
};
use crate::doubles::{is_gap, is_number, is_product, is_quotient, Doubles};
use crate::formula::{constant, Formula};
use crate::measure::{Arithmetic, Measure, ONE, QUARTER, ZERO};
use crate::quality::{
    moved_by, newest_share, one_more, result_share, result_weight, sample_weight, volatility,
    Estimate, Reliability, STEADY_WEIGHT, VOLATILITY_LIFT,
};
use crate::rounding::units;
use crate::scoring::{averaged, drift, RelayModel, DRIFT_FLOOR};
use crate::worth_laws::{lemma_constant, lemma_ratio, swing, volatility_is_the_relative_swing};

verus! {

/// The larger of two numbers.
pub open spec fn most(a: real, b: real) -> real {
    if a < b {
        b
    } else {
        a
    }
}

/// A number moved towards another by a share of the way.
pub open spec fn moved(old: real, new: real, share: real) -> real {
    (1real - share) * old + share * new
}

/// Whether a measure is no larger than any that can be measured comes to.
pub open spec fn moderate(m: Measure) -> bool {
    m.bits <= VAST
}

/// Products do not care for the order of their factors.
pub proof fn lemma_swapped(a: Measure, b: Measure, r: Measure)
    requires
        is_product(a, b, r),
    ensures
        is_product(b, a, r),
{
    if is_number(a) && is_number(b) {
        assert(units(a.bits) * units(b.bits)
            == units(b.bits) * units(a.bits)) by (nonlinear_arith);
    }
}

/// What is moved by a weight is moved by as much of the way, up to rounding.
pub proof fn lemma_moved(
    kit: &Doubles,
    weight: Formula,
    old: Formula,
    new: Formula,
    v: Measure,
    share: real,
    e: real,
) -> (parts: (Measure, Measure))
    requires
        moved_by(weight, old, new).gives(kit, v),
        forall|w: Measure| #[trigger]
            weight.gives(kit, w) ==> w.bits <= ONE && around(number(w), share, e * slip()),
        forall|x: Measure| #[trigger] old.gives(kit, x) ==> moderate(x),
        forall|x: Measure| #[trigger] new.gives(kit, x) ==> moderate(x),
        0real <= share <= 1real,
        0real <= e <= 20real,
    ensures
        old.gives(kit, parts.0),
        new.gives(kit, parts.1),
        is_number(v),
        around(
            number(v),
            moved(number(parts.0), number(parts.1), share),
            (e + 12real) * (slip() * (number(parts.0) + number(parts.1)) + 2real * dust()),
        ),
{
    lemma_grains();
    lemma_vast();
    lemma_vaster();
    let (vast, vaster) = (Measure { bits: VAST }, Measure { bits: VASTER });
    let rest = constant(ONE).off(weight);
    let (a, b) = lemma_summands(kit, rest.times(old), weight.times(new), v);
    let (r, x) = lemma_factors(kit, rest, old, a);
    let (o, w) = lemma_ends(kit, constant(ONE), weight, r);
    lemma_constant(kit, ONE, o);
    let (u, y) = lemma_factors(kit, weight, new, b);
    lemma_swapped(r, x, a);
    lemma_swapped(u, y, b);
    let s = slip();
    let (p, q) = (number(x), number(y));
    lemma_number_order(x, vast);
    lemma_number_order(y, vast);
    lemma_share_rest(w, r, share, e * s);
    assert(e * s + 2real * s == (e + 2real) * s) by (nonlinear_arith);
    assert(0real * (s * p + dust()) == 0real && 0real * (s * q + dust()) == 0real);
    lemma_worth_share(x, r, a, p, 1real - share, p, 0real, e + 2real);
    lemma_worth_share(y, u, b, q, share, q, 0real, e);
    lemma_number_order(a, x);
    lemma_number_order(b, y);
    lemma_sum_number(a, b, v, vaster);
    lemma_added(p, q, number(a), number(b), number(v), share, e, s, dust());
    (x, y)
}

proof fn lemma_added(
    p: real,
    q: real,
    a: real,
    b: real,
    v: real,
    share: real,
    e: real,
    s: real,
    d: real,
)
    requires
        0real <= p,
        0real <= q,
        0real <= a <= p,
        0real <= b <= q,
        0real <= e <= 20real,
        0real < s,
        1000real * s <= 1real,
        0real < d,
        around(a, p * (1real - share), (e + 5real) * (s * p + d)),
        around(b, q * share, (e + 3real) * (s * q + d)),
        around(v, a + b, 1real * (s * (a + b) + d)),
    ensures
        around(v, moved(p, q, share), (e + 12real) * (s * (p + q) + 2real * d)),
{
    let (f, g) = (s * p, s * q);
    assert(f >= 0real && g >= 0real) by (nonlinear_arith)
        requires
            f == s * p,
            g == s * q,
            0real < s,
            p >= 0real,
            q >= 0real,
    ;
    assert(s * (a + b) <= f + g) by (nonlinear_arith)
        requires
            f == s * p,
            g == s * q,
            0real < s,
            a <= p,
            b <= q,
    ;
    assert(p * (1real - share) == (1real - share) * p && q * share == share * q) by (nonlinear_arith);
    let (c, k) = (f + d, g + d);
    assert((e + 5real) * c <= (e + 11real) * c && (e + 3real) * k <= (e + 11real) * k)
        by (nonlinear_arith)
        requires
            c >= 0real,
            k >= 0real,
    ;
    assert((e + 11real) * c + (e + 11real) * k + (c + k) == (e + 12real) * (c + k))
        by (nonlinear_arith);
    assert(s * (p + q) == f + g) by (nonlinear_arith)
        requires
            f == s * p,
            g == s * q,
    ;
    assert(c + k == s * (p + q) + 2real * d);
}

/// The share of one more thing among some, up to rounding.
proof fn lemma_newest(kit: &Doubles, samples: u64, v: Measure)
    requires
        newest_share(samples).gives(kit, v),
    ensures
        v.bits <= ONE,
        0real <= 1real / (samples as real + 1real) <= 1real,
        around(number(v), 1real / (samples as real + 1real), 9real * slip()),
{
    lemma_grains();
    lemma_vast();
    lemma_whole_constants();
    let count = Formula::Count(samples);
    let (o, total) = lemma_fraction(kit, constant(ONE), count.plus(constant(ONE)), v);
    lemma_constant(kit, ONE, o);
    let (m, f) = lemma_summands(kit, count, constant(ONE), total);
    lemma_constant(kit, ONE, f);
    lemma_count_number(samples, m);
    let (one, vast) = (Measure { bits: ONE }, Measure { bits: VAST });
    let (x, s, d) = (samples as real, slip(), dust());
    let (mn, tn) = (number(m), number(total));
    lemma_number_order(m, m);
    assert(s * x <= x) by (nonlinear_arith)
        requires
            0real < s <= 1real,
            x >= 0real,
    ;
    lemma_sum_number(m, f, total, vast);
    let y = x + 1real;
    assert(s * s <= s) by (nonlinear_arith)
        requires
            0real < s <= 1real,
    ;
    lemma_one_more_number(x, mn, tn, s, d);
    lemma_share_of(one, total, v, y);
}

proof fn lemma_one_more_number(x: real, m: real, t: real, s: real, d: real)
    requires
        x >= 0real,
        x - 2real * (s * x) <= m <= x + 2real * (s * x),
        0real < s,
        1000real * s <= 1real,
        0real < d <= s,
        (m + 1real) - 1real * (s * (m + 1real) + d) <= t <= (m + 1real) + 1real * (s * (m + 1real)
            + d),
    ensures
        (x + 1real) - 4real * (s * (x + 1real)) <= t <= (x + 1real) + 4real * (s * (x + 1real)),
{
    let e = s * x;
    assert(e >= 0real && e <= x / 1000real) by (nonlinear_arith)
        requires
            e == s * x,
            0real < s,
            1000real * s <= 1real,
            x >= 0real,
    ;
    let g = s * (m + 1real);
    assert(g <= e + e / 100real + s) by (nonlinear_arith)
        requires
            g == s * (m + 1real),
            m <= x + 2real * e,
            e == s * x,
            0real < s,
            1000real * s <= 1real,
            e >= 0real,
    ;
    assert(s * (x + 1real) == e + s) by (nonlinear_arith)
        requires
            e == s * x,
    ;
}

/// One over what is close to a number is close to one over that.
pub proof fn lemma_share_of(one: Measure, total: Measure, v: Measure, y: real)
    requires
        one.bits == ONE,
        is_quotient(one, total, v),
        is_number(total),
        total.bits >= ONE,
        y >= 1real,
        y - 4real * (slip() * y) <= number(total) <= y + 4real * (slip() * y),
    ensures
        v.bits <= ONE,
        0real <= 1real / y <= 1real,
        around(number(v), 1real / y, 9real * slip()),
{
    lemma_grains();
    lemma_whole_constants();
    lemma_number_order(one, total);
    let (t, s) = (number(total), slip());
    let q = 1real / t;
    assert(0real <= q <= 1real) by (nonlinear_arith)
        requires
            q == 1real / t,
            t >= 1real,
    ;
    lemma_quotient_number(one, total, v, one);
    lemma_ratio(1real, t, 1real, y, q, 1real / y);
    assert(0real <= s * q <= s && s * s <= s) by (nonlinear_arith)
        requires
            0real <= q <= 1real,
            0real < s <= 1real,
    ;
}

/// The weight of an observation is its share, and a tenth at least; up to rounding.
pub proof fn observations_weigh_their_share(kit: &Doubles, samples: u64, v: Measure)
    requires
        drift(samples).gives(kit, v),
        samples >= 1,
    ensures
        v.bits <= ONE,
        0real <= most(1real / (samples as real), 1real / 10real) <= 1real,
        around(number(v), most(1real / (samples as real), 1real / 10real), 9real * slip()),
{
    lemma_grains();
    lemma_decimals();
    lemma_whole_constants();
    let share = constant(ONE).over(Formula::Count(samples));
    let (a, b) = lemma_larger_of(kit, share, constant(DRIFT_FLOOR), v);
    lemma_constant(kit, DRIFT_FLOOR, b);
    let (o, c) = lemma_fraction(kit, constant(ONE), Formula::Count(samples), a);
    lemma_constant(kit, ONE, o);
    lemma_count_number(samples, c);
    let (y, s) = (samples as real, slip());
    assert(s * y >= 0real) by (nonlinear_arith)
        requires
            s > 0real,
            y >= 1real,
    ;
    lemma_share_of(o, c, a, y);
    lemma_number_order(a, b);
}

/// The weight of a sample is its share, or three twentieths and nine twentieths of the relative swing
/// more where that is more; up to rounding.
proof fn lemma_sample_weight(kit: &Doubles, estimate: Estimate, v: Measure)
    requires
        estimate.mean is Some,
        is_number(estimate.mean->0),
        is_number(estimate.mad),
        sample_weight(estimate.mean->0, estimate.mad, estimate.samples).gives(kit, v),
    ensures
        v.bits <= ONE,
        0real <= share_of_sample(estimate) <= 1real,
        around(number(v), share_of_sample(estimate), 9real * slip()),
{
    lemma_grains();
    lemma_decimals();
    lemma_whole_constants();
    let s = slip();
    let mean = estimate.mean->0;
    let swings = volatility(Some(mean), estimate.mad);
    let lift = constant(VOLATILITY_LIFT).times(swings);
    let driven = constant(STEADY_WEIGHT).plus(lift);
    let x = lemma_held(kit, newest_share(estimate.samples).at_least(driven), ZERO, ONE, v);
    let (a, b) = lemma_larger_of(kit, newest_share(estimate.samples), driven, x);
    lemma_newest(kit, estimate.samples, a);
    let (c, d) = lemma_summands(kit, constant(STEADY_WEIGHT), lift, b);
    lemma_constant(kit, STEADY_WEIGHT, c);
    let (e, f) = lemma_factors(kit, constant(VOLATILITY_LIFT), swings, d);
    lemma_constant(kit, VOLATILITY_LIFT, e);
    volatility_is_the_relative_swing(kit, estimate, f);
    let sw = swing(estimate);
    lemma_share_product(e, f, d, 9real / 20real, sw, s, 2real * s);
    lemma_share_sum(c, d, b, 3real / 20real, (9real / 20real) * sw, s, 5real * s);
    lemma_number_order(a, b);
    lemma_number_order(x, Measure { bits: ONE });
    lemma_number_order(x, Measure { bits: ZERO });
}

/// What share of the way a sample moves an estimate: one in as many samples, or three twentieths and
/// nine twentieths of the relative swing more where that is more.
pub open spec fn share_of_sample(estimate: Estimate) -> real {
    most(
        1real / (estimate.samples as real + 1real),
        3real / 20real + (9real / 20real) * swing(estimate),
    )
}

/// The first sample is the mean. A later one moves the mean by its share of the way to it, and the
/// deviation by the same share of the way to its distance from the mean; up to rounding.
pub proof fn samples_move_estimates_by_their_share(
    kit: &Doubles,
    before: Estimate,
    sample: Measure,
    after: Estimate,
)
    requires
        before.folds(kit, sample, after),
        before.mean matches Some(mean) ==> moderate(mean),
        moderate(before.mad),
        moderate(sample),
    ensures
        after.mean is Some,
        before.samples < u64::MAX ==> after.samples == before.samples + 1,
        before.mean is None ==> after.mean == Some(sample) && after.mad.bits == ZERO,
        before.mean matches Some(mean) ==> {
            let (m, x, d) = (number(mean), number(sample), number(before.mad));
            let distance = if x < m {
                m - x
            } else {
                x - m
            };
            &&& around(
                number(after.mean->0),
                moved(m, x, share_of_sample(before)),
                21real * (slip() * (m + x) + 2real * dust()),
            )
            &&& around(
                number(after.mad),
                moved(d, distance, share_of_sample(before)),
                25real * (slip() * (d + m + x) + 2real * dust()),
            )
        },
{
    if let Some(mean) = before.mean {
        lemma_grains();
        lemma_vast();
        let weight = sample_weight(mean, before.mad, before.samples);
        let (old, new) = (Formula::Known(mean), Formula::Known(sample));
        let share = share_of_sample(before);
        assert forall|w: Measure| #[trigger] weight.gives(kit, w) implies w.bits <= ONE && around(
            number(w),
            share,
            9real * slip(),
        ) && 0real <= share <= 1real by {
            lemma_sample_weight(kit, before, w);
        }
        assert(0real <= share <= 1real) by {
            lemma_share_bounds(before);
        }
        let _ = lemma_moved(kit, weight, old, new, after.mean->0, share, 9real);
        let gap = new.off(old);
        let vast = Measure { bits: VAST };
        lemma_number_order(mean, vast);
        lemma_number_order(sample, vast);
        let (m, x, d) = (number(mean), number(sample), number(before.mad));
        let distance = if x < m {
            m - x
        } else {
            x - m
        };
        assert forall|g: Measure| #[trigger] gap.gives(kit, g) implies moderate(g) && around(
            number(g),
            distance,
            slip() * (m + x) + dust(),
        ) by {
            lemma_distance(kit, mean, sample, g);
        }
        let (_, g) = lemma_moved(
            kit,
            weight,
            Formula::Known(before.mad),
            gap,
            after.mad,
            share,
            9real,
        );
        lemma_number_order(before.mad, g);
        lemma_deviation(m, x, d, distance, number(g), number(after.mad), share, slip(), dust());
    }
}

proof fn lemma_share_bounds(estimate: Estimate)
    ensures
        0real <= share_of_sample(estimate) <= 1real,
{
    let y = estimate.samples as real + 1real;
    assert(0real <= 1real / y <= 1real) by (nonlinear_arith)
        requires
            y >= 1real,
    ;
    let sw = swing(estimate);
    assert(0real <= sw <= 1real);
}

proof fn lemma_distance(kit: &Doubles, mean: Measure, sample: Measure, g: Measure)
    requires
        Formula::Known(sample).off(Formula::Known(mean)).gives(kit, g),
        moderate(mean),
        moderate(sample),
    ensures
        moderate(g),
        ({
            let (m, x) = (number(mean), number(sample));
            around(
                number(g),
                if x < m {
                    m - x
                } else {
                    x - m
                },
                slip() * (m + x) + dust(),
            )
        }),
{
    lemma_grains();
    let (a, b) = lemma_ends(kit, Formula::Known(sample), Formula::Known(mean), g);
    lemma_number_order(sample, mean);
    lemma_number_order(mean, sample);
    let (m, x, s) = (number(mean), number(sample), slip());
    if mean.bits <= sample.bits {
        lemma_gap_number(sample, mean, g);
        assert(s * (x - m) <= s * (m + x)) by (nonlinear_arith)
            requires
                0real < s,
                m >= 0real,
        ;
    } else {
        assert(is_gap(mean, sample, g));
        lemma_gap_number(mean, sample, g);
        assert(s * (m - x) <= s * (m + x)) by (nonlinear_arith)
            requires
                0real < s,
                x >= 0real,
        ;
    }
}

proof fn lemma_deviation(
    m: real,
    x: real,
    d: real,
    distance: real,
    g: real,
    v: real,
    share: real,
    s: real,
    dust: real,
)
    requires
        0real <= m,
        0real <= x,
        0real <= d,
        0real <= distance <= m + x,
        0real <= g,
        0real <= share <= 1real,
        0real < s,
        1000real * s <= 1real,
        0real < dust <= s,
        around(g, distance, s * (m + x) + dust),
        around(v, moved(d, g, share), 21real * (s * (d + g) + 2real * dust)),
    ensures
        around(v, moved(d, distance, share), 25real * (s * (d + m + x) + 2real * dust)),
{
    let t = m + x;
    let (e, f) = (s * t, s * d);
    assert(e >= 0real && f >= 0real && e <= t / 1000real) by (nonlinear_arith)
        requires
            e == s * t,
            f == s * d,
            0real < s,
            1000real * s <= 1real,
            t >= 0real,
            d >= 0real,
    ;
    let h = e + dust;
    assert(share * g - share * distance <= h && share * g - share * distance >= -h)
        by (nonlinear_arith)
        requires
            distance - h <= g <= distance + h,
            0real <= share <= 1real,
            h >= 0real,
    ;
    assert(g <= t + h);
    assert(s * (d + g) <= f + e + h / 100real) by (nonlinear_arith)
        requires
            g <= t + h,
            e == s * t,
            f == s * d,
            0real < s,
            1000real * s <= 1real,
            h >= 0real,
    ;
    assert(s * (d + m + x) == f + e) by (nonlinear_arith)
        requires
            e == s * t,
            f == s * d,
            t == m + x,
    ;
}

/// What share of the way a result moves a success rate: one in as many results, and a quarter at
/// least.
pub open spec fn share_of_result(samples: u64) -> real {
    most(1real / (samples as real + 1real), 1real / 4real)
}

/// The first result is the success rate: one for a success, zero for a failure. A later one moves the
/// rate by its share of the way, up to rounding; never away from it, and never out of bounds.
pub proof fn results_move_rates_by_their_share(
    kit: &Doubles,
    before: Reliability,
    ok: bool,
    after: Reliability,
)
    requires
        before.steps(kit, ok, after),
        before.rate matches Some(rate) ==> rate.bits <= ONE,
    ensures
        after.rate is Some,
        after.rate->0.bits <= ONE,
        before.samples < u64::MAX ==> after.samples == before.samples + 1,
        after.hard_failures == before.hard_failures,
        before.rate is None ==> number(after.rate->0) == (if ok {
            1real
        } else {
            0real
        }),
        before.rate matches Some(rate) ==> {
            let target = if ok {
                1real
            } else {
                0real
            };
            &&& ok ==> number(after.rate->0) >= number(rate)
            &&& !ok ==> number(after.rate->0) <= number(rate)
            &&& around(
                number(after.rate->0),
                moved(number(rate), target, share_of_result(before.samples)),
                90real * slip(),
            )
        },
{
    lemma_grains();
    lemma_whole_constants();
    let (zero, one) = (Measure { bits: ZERO }, Measure { bits: ONE });
    if let Some(rate) = before.rate {
        lemma_vast();
        let v = after.rate->0;
        let weight = result_share(before.samples);
        let (old, new) = (Formula::Known(rate), Formula::Known(result_weight(ok)));
        let step = moved_by(weight, old, new);
        let share = share_of_result(before.samples);
        assert forall|w: Measure| #[trigger] weight.gives(kit, w) implies w.bits <= ONE && around(
            number(w),
            share,
            9real * slip(),
        ) by {
            lemma_result_share(kit, before.samples, w);
        }
        let y = before.samples as real + 1real;
        assert(0real <= 1real / y <= 1real) by (nonlinear_arith)
            requires
                y >= 1real,
        ;
        lemma_number_order(rate, one);
        lemma_number_order(one, Measure { bits: VAST });
        lemma_number_order(zero, Measure { bits: VAST });
        let x = if ok {
            let (a, b) = lemma_smaller_of(kit, step.at_least(old), constant(ONE), v);
            lemma_constant(kit, ONE, b);
            let (c, d) = lemma_larger_of(kit, step, old, a);
            c
        } else {
            let (a, b) = lemma_smaller_of(kit, step, old, v);
            a
        };
        let _ = lemma_moved(kit, weight, old, new, x, share, 9real);
        let (p, q, s) = (number(rate), number(result_weight(ok)), slip());
        assert(21real * (s * (p + q) + 2real * dust()) <= 90real * s) by (nonlinear_arith)
            requires
                0real <= p + q <= 2real,
                0real < s,
                dust() <= s,
        ;
        let target = if ok {
            1real
        } else {
            0real
        };
        let m = moved(p, target, share);
        assert(ok ==> p <= m <= 1real) by {
            lemma_towards_one(p, share);
        }
        assert(!ok ==> 0real <= m <= p) by (nonlinear_arith)
            requires
                m == (1real - share) * p + share * target,
                target == 0real || ok,
                0real <= share <= 1real,
                0real <= p,
        ;
        lemma_number_order(x, rate);
        lemma_number_order(x, one);
        lemma_number_order(v, rate);
        lemma_number_order(rate, v);
        lemma_number_order(v, one);
    }
}

proof fn lemma_towards_one(p: real, share: real)
    requires
        0real <= share <= 1real,
        0real <= p <= 1real,
    ensures
        p <= moved(p, 1real, share) <= 1real,
{
    assert((1real - share) * p + share * 1real == p + share * (1real - p)) by (nonlinear_arith);
    assert(0real <= share * (1real - p) <= 1real - p) by (nonlinear_arith)
        requires
            0real <= share <= 1real,
            0real <= p <= 1real,
    ;
}

proof fn lemma_result_share(kit: &Doubles, samples: u64, v: Measure)
    requires
        result_share(samples).gives(kit, v),
    ensures
        v.bits <= ONE,
        around(number(v), share_of_result(samples), 9real * slip()),
{
    lemma_grains();
    lemma_whole_constants();
    let (a, b) = lemma_larger_of(kit, newest_share(samples), constant(QUARTER), v);
    lemma_constant(kit, QUARTER, b);
    lemma_newest(kit, samples, a);
    lemma_number_order(a, b);
}

/// A success, or a failure of another kind, moves the rate once. A verification failure is counted,
/// and moves the rate as three failures do.
pub proof fn verification_failures_move_the_rate_three_times(
    kit: &Doubles,
    before: Reliability,
    ok: bool,
    hard: bool,
    after: Reliability,
)
    requires
        before.hears(kit, ok, hard, after),
        before.rate matches Some(rate) ==> rate.bits <= ONE,
        before.samples <= u64::MAX - 3,
        before.hard_failures < u64::MAX,
    ensures
        after.rate is Some,
        after.rate->0.bits <= ONE,
        ok || !hard ==> before.steps(kit, ok, after) && after.hard_failures == before.hard_failures,
        !ok && hard ==> after.hard_failures == before.hard_failures + 1 && after.samples
            == before.samples + 3,
        !ok && hard && before.rate is None ==> number(after.rate->0) == 0real,
        !ok && hard ==> (before.rate matches Some(rate) ==> {
            let first = (1real - share_of_result(before.samples)) * number(rate);
            let second = (1real - share_of_result((before.samples + 1) as u64)) * first;
            let third = (1real - share_of_result((before.samples + 2) as u64)) * second;
            around(number(after.rate->0), third, 270real * slip())
        }),
{
    if !ok && hard {
        lemma_grains();
        let (first, second, third) = choose|
            first: Reliability,
            second: Reliability,
            third: Reliability,
        |
            #![trigger before.steps(kit, ok, first), first.steps(kit, ok, second), second.steps(kit, ok, third)]
            before.steps(kit, ok, first) && first.steps(kit, ok, second) && second.steps(
                kit,
                ok,
                third,
            ) && after == (Reliability {
                hard_failures: one_more(before.hard_failures),
                ..third
            });
        results_move_rates_by_their_share(kit, before, ok, first);
        results_move_rates_by_their_share(kit, first, ok, second);
        results_move_rates_by_their_share(kit, second, ok, third);
        let (a, b, c) = (number(first.rate->0), number(second.rate->0), number(third.rate->0));
        lemma_number_order(first.rate->0, second.rate->0);
        lemma_number_order(second.rate->0, third.rate->0);
        let (n, m) = ((before.samples + 1) as u64, (before.samples + 2) as u64);
        assert(first.samples == n && second.samples == m);
        if let Some(rate) = before.rate {
            let p = number(rate);
            let (u, v, w) = (
                share_of_result(before.samples),
                share_of_result(n),
                share_of_result(m),
            );
            lemma_result_bounds(before.samples);
            lemma_result_bounds(n);
            lemma_result_bounds(m);
            let x = (1real - u) * p;
            let y = (1real - v) * x;
            let z = (1real - w) * y;
            let s = slip();
            assert(u * 0real == 0real && v * 0real == 0real && w * 0real == 0real);
            assert(around(a, x, 90real * s));
            lemma_step_on(a, x, v, b, 90real * s, s);
            lemma_step_on(b, y, w, c, 180real * s, s);
        }
    } else {
        results_move_rates_by_their_share(kit, before, ok, after);
    }
}

proof fn lemma_result_bounds(samples: u64)
    ensures
        1real / 4real <= share_of_result(samples) <= 1real,
{
    let y = samples as real + 1real;
    assert(0real <= 1real / y <= 1real) by (nonlinear_arith)
        requires
            y >= 1real,
    ;
}

proof fn lemma_step_on(a: real, x: real, share: real, b: real, e: real, s: real)
    requires
        around(a, x, e),
        0real <= share <= 1real,
        0real <= e,
        around(b, moved(a, 0real, share), 90real * s),
    ensures
        around(b, (1real - share) * x, e + 90real * s),
{
    assert(share * 0real == 0real);
    assert((1real - share) * a <= (1real - share) * x + e && (1real - share) * a >= (1real - share)
        * x - e) by (nonlinear_arith)
        requires
            x - e <= a <= x + e,
            0real <= share <= 1real,
            0real <= e,
    ;
}

/// A transfer that moved something moves the mean of its kind of path by its share of the way, and a
/// tenth at least, up to rounding; the first is the mean. The mean of the other kind stays, and a
/// transfer that moved nothing changes neither.
pub proof fn transfers_move_the_mean_of_their_path(
    kit: &Doubles,
    before: RelayModel,
    relayed: bool,
    throughput: Measure,
    after: RelayModel,
)
    requires
        before.learns(kit, relayed, throughput, after),
        before.relayed_mean matches Some(mean) ==> moderate(mean),
        before.direct_mean matches Some(mean) ==> moderate(mean),
        moderate(throughput),
        before.relayed_samples < u64::MAX,
        before.direct_samples < u64::MAX,
    ensures
        number(throughput) == 0real ==> after == before,
        number(throughput) > 0real && relayed ==> {
            &&& after.direct_mean == before.direct_mean
            &&& after.direct_samples == before.direct_samples
            &&& after.relayed_samples == before.relayed_samples + 1
            &&& after.relayed_mean is Some
            &&& before.relayed_mean is None ==> after.relayed_mean == Some(throughput)
            &&& before.relayed_mean matches Some(mean) ==> around(
                number(after.relayed_mean->0),
                moved(
                    number(mean),
                    number(throughput),
                    most(1real / (after.relayed_samples as real), 1real / 10real),
                ),
                21real * (slip() * (number(mean) + number(throughput)) + 2real * dust()),
            )
        },
        number(throughput) > 0real && !relayed ==> {
            &&& after.relayed_mean == before.relayed_mean
            &&& after.relayed_samples == before.relayed_samples
            &&& after.direct_samples == before.direct_samples + 1
            &&& after.direct_mean is Some
            &&& before.direct_mean is None ==> after.direct_mean == Some(throughput)
            &&& before.direct_mean matches Some(mean) ==> around(
                number(after.direct_mean->0),
                moved(
                    number(mean),
                    number(throughput),
                    most(1real / (after.direct_samples as real), 1real / 10real),
                ),
                21real * (slip() * (number(mean) + number(throughput)) + 2real * dust()),
            )
        },
{
    lemma_whole_constants();
    lemma_number_order(Measure { bits: ZERO }, throughput);
    if throughput.bits > ZERO {
        if relayed {
            lemma_averaged(
                kit,
                before.relayed_mean,
                after.relayed_samples,
                throughput,
                after.relayed_mean,
            );
        } else {
            lemma_averaged(
                kit,
                before.direct_mean,
                after.direct_samples,
                throughput,
                after.direct_mean,
            );
        }
    }
}

proof fn lemma_averaged(
    kit: &Doubles,
    mean: Option<Measure>,
    samples: u64,
    sample: Measure,
    after: Option<Measure>,
)
    requires
        averaged(kit, mean, samples, sample, after),
        mean matches Some(mean) ==> moderate(mean),
        moderate(sample),
        samples >= 1,
    ensures
        after is Some,
        mean is None ==> after == Some(sample),
        mean matches Some(mean) ==> around(
            number(after->0),
            moved(
                number(mean),
                number(sample),
                most(1real / (samples as real), 1real / 10real),
            ),
            21real * (slip() * (number(mean) + number(sample)) + 2real * dust()),
        ),
{
    if let Some(mean) = mean {
        let weight = drift(samples);
        let share = most(1real / (samples as real), 1real / 10real);
        assert forall|w: Measure| #[trigger] weight.gives(kit, w) implies w.bits <= ONE && around(
            number(w),
            share,
            9real * slip(),
        ) by {
            observations_weigh_their_share(kit, samples, w);
        }
        lemma_drift_bounds(samples);
        let _ = lemma_moved(
            kit,
            weight,
            Formula::Known(mean),
            Formula::Known(sample),
            after->0,
            share,
            9real,
        );
    }
}

/// An observation moves a point by a tenth of the way at least, and by all of it at most.
pub proof fn lemma_drift_bounds(samples: u64)
    requires
        samples >= 1,
    ensures
        1real / 10real <= most(1real / (samples as real), 1real / 10real) <= 1real,
{
    let y = samples as real;
    assert(0real <= 1real / y <= 1real) by (nonlinear_arith)
        requires
            y >= 1real,
    ;
}

} // verus!
