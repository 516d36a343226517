//! How a mean follows what is measured, where the arithmetic is in doubles.

use vstd::arithmetic::power::{lemma_pow0, lemma_pow1, lemma_pow_adds, lemma_pow_positive, pow};
use vstd::arithmetic::power2::{
    lemma2_to64, lemma2_to64_rest, lemma_pow2_adds, lemma_pow2_pos, lemma_pow2_strictly_increases,
    lemma_pow2_unfold, pow2,
};
use vstd::prelude::*;

use crate::double_laws::{
    doubles_are_orderly, doubles_are_steady, lemma_gap_value, lemma_product_parts,
};
use crate::doubles::{is_gap, is_number, is_product, is_sum, lemma_shift_order, lemma_zero, Doubles};
use crate::formula::{constant, formulas_have_one_value, Formula};
use crate::learning_laws::{proper_estimate, samples_weigh_more_in_swings};
use crate::life::lemma_folded_genuine;
use crate::measure::{Arithmetic, Measure, INFINITY, ONE, ZERO};
use crate::quality::{sample_weight, Estimate, STEADY_WEIGHT};
use crate::rounding::{
    is_nearest, lemma_at_most, lemma_next, lemma_nothing, lemma_one, lemma_parts, lemma_units,
    lemma_units_order, shift, significand, units, DEPTH, FRACTIONS,
};

verus! {

/// The bit pattern of an eighth.
const EIGHTH: u64 = 0x3FC0_0000_0000_0000;

/// The bit pattern of seven eighths.
const SEVEN_EIGHTHS: u64 = 0x3FEC_0000_0000_0000;

/// What one more in the last digit of a double counts.
pub open spec fn last_place(bits: u64) -> nat {
    pow2(shift(bits))
}

/// The nearest double is not far above.
proof fn lemma_not_far_above(p: nat, q: nat, bits: u64, bound: u64)
    requires
        q > 0,
        is_nearest(p, q, bits),
        bits <= bound + 1,
    ensures
        2 * (units(bits) * q) <= 2 * p + last_place(bound) * q,
{
    lemma_zero();
    if bits > 0 {
        let last = (bits - 1) as u64;
        lemma_next(last);
        lemma_shift_order(last, bound);
        lemma_places(last, bound);
        let (a, b, g, h) = (units(last), units(bits), last_place(last), last_place(bound));
        assert(2 * (b * q) <= 2 * p + h * q) by (nonlinear_arith)
            requires
                (a + b) * q <= 2 * p,
                b == a + g,
                g <= h,
        ;
    } else {
        assert(units(0) * q == 0 && 0 <= last_place(bound) * q) by (nonlinear_arith)
            requires
                units(0) == 0,
                last_place(bound) >= 0,
        ;
    }
}

/// The nearest double is not far below.
proof fn lemma_not_far_below(p: nat, q: nat, bits: u64, bound: u64)
    requires
        q > 0,
        is_nearest(p, q, bits),
        bits <= bound,
        bits < INFINITY,
    ensures
        2 * (units(bits) * q) + last_place(bound) * q >= 2 * p,
{
    let next = (bits + 1) as u64;
    lemma_next(bits);
    lemma_places(bits, bound);
    let (a, b, g, h) = (units(bits), units(next), last_place(bits), last_place(bound));
    assert(2 * (a * q) + h * q >= 2 * p) by (nonlinear_arith)
        requires
            (a + b) * q >= 2 * p,
            b == a + g,
            g <= h,
    ;
}

proof fn lemma_places(low: u64, high: u64)
    requires
        low <= high,
    ensures
        0 < last_place(low) <= last_place(high),
{
    lemma_shift_order(low, high);
    lemma_pow2_pos(shift(low));
    if shift(low) < shift(high) {
        lemma_pow2_strictly_increases(shift(low), shift(high));
    }
}

/// So many doubles further on it is at least as many last places more.
proof fn lemma_steps(bits: u64, n: nat)
    requires
        bits + n <= u64::MAX,
    ensures
        units((bits + n) as u64) >= units(bits) + n * last_place(bits),
    decreases n,
{
    if n > 0 {
        let before = (bits + n - 1) as u64;
        lemma_steps(bits, (n - 1) as nat);
        lemma_next(before);
        lemma_places(bits, before);
        let g = last_place(bits);
        assert(n * g == (n - 1) * g + g) by (nonlinear_arith);
    } else {
        assert(0 * last_place(bits) == 0) by (nonlinear_arith);
    }
}

/// What is kept of a mean, rounded twice, is not far from what is to be kept of it.
proof fn lemma_kept(weight: Measure, rest: Measure, mean: Measure, kept: Measure)
    requires
        STEADY_WEIGHT <= weight.bits <= ONE,
        is_gap(Measure { bits: ONE }, weight, rest),
        mean.bits < INFINITY,
        is_product(rest, mean, kept),
    ensures
        kept.bits <= mean.bits,
        ({
            let one = pow2(DEPTH as nat);
            let (w, x, a, g) = (
                units(weight.bits),
                units(mean.bits),
                units(kept.bits),
                last_place(mean.bits),
            );
            &&& w <= one <= 8 * w
            &&& 2 * (a * one) < 2 * ((one - w) * x) + 2 * (g * one)
            &&& 2 * (a * one) + 2 * (g * one) > 2 * ((one - w) * x)
        }),
{
    lemma_one();
    lemma2_to64();
    lemma2_to64_rest();
    let one = pow2(DEPTH as nat);
    let whole = Measure { bits: ONE };
    let (w, r, x, a) = (
        units(weight.bits),
        units(rest.bits),
        units(mean.bits),
        units(kept.bits),
    );
    let g = last_place(mean.bits);
    // The weight is at least an eighth, and so the rest is below one.
    lemma_units(FRACTIONS as nat, 1019, EIGHTH);
    lemma_pow2_adds(52, 1019);
    lemma_pow2_adds(3, 1071);
    lemma_units_order(EIGHTH, weight.bits);
    lemma_units_order(weight.bits, ONE);
    lemma_gap_value(whole, weight, rest);
    lemma_units(7 * 0x4_0000_0000_0000, 1021, SEVEN_EIGHTHS);
    lemma_pow2_adds(50, 1021);
    assert(units(SEVEN_EIGHTHS) == 7 * pow2(1071)) by (nonlinear_arith)
        requires
            units(SEVEN_EIGHTHS) == (7 * 0x4_0000_0000_0000nat) * pow2(1021),
            pow2(1071) == pow2(50) * pow2(1021),
            pow2(50) == 0x4_0000_0000_0000,
    ;
    lemma_at_most((one - w) as nat, 1, rest.bits, SEVEN_EIGHTHS);
    let h = last_place(SEVEN_EIGHTHS);
    assert(shift(SEVEN_EIGHTHS) == 1021);
    lemma_pow2_adds(53, 1021);
    lemma_not_far_above((one - w) as nat, 1, rest.bits, SEVEN_EIGHTHS);
    lemma_not_far_below((one - w) as nat, 1, rest.bits, SEVEN_EIGHTHS);
    // What is kept is rounded by half a last place of the mean at most.
    lemma_product_parts(rest, mean, kept);
    lemma_not_far_above(r * x, one, kept.bits, mean.bits);
    lemma_not_far_below(r * x, one, kept.bits, mean.bits);
    lemma_parts(mean.bits);
    lemma_pow2_pos(shift(mean.bits));
    let wide = 0x20_0000_0000_0000nat;
    assert(x < wide * g) by (nonlinear_arith)
        requires
            x == significand(mean.bits) * g,
            significand(mean.bits) < wide,
            g > 0,
    ;
    lemma_units_order(ZERO, mean.bits);
    assert(one == wide * h);
    assert(h * x < g * one) by (nonlinear_arith)
        requires
            x < wide * g,
            one == wide * h,
            h > 0,
    ;
    let left = (one - w) as nat;
    assert(2 * (r * x) <= 2 * (left * x) + h * x) by (nonlinear_arith)
        requires
            2 * r <= 2 * left + h,
            x >= 0,
    ;
    assert(2 * (r * x) + h * x >= 2 * (left * x)) by (nonlinear_arith)
        requires
            2 * r + h >= 2 * left,
            x >= 0,
    ;
}

/// How a mean falls: a sample that is no larger leaves it no larger but for the last digit, and one
/// that is smaller by more than a few last digits lowers it.
proof fn lemma_falls(
    weight: Measure,
    rest: Measure,
    mean: Measure,
    kept: Measure,
    sample: Measure,
    added: Measure,
    after: Measure,
)
    requires
        STEADY_WEIGHT <= weight.bits <= ONE,
        is_gap(Measure { bits: ONE }, weight, rest),
        ZERO < mean.bits < INFINITY,
        is_product(rest, mean, kept),
        sample.bits <= mean.bits,
        is_product(weight, sample, added),
        is_sum(kept, added, after),
    ensures
        after.bits <= mean.bits + 1,
        sample.bits + 32 <= mean.bits ==> after.bits < mean.bits,
{
    lemma_one();
    lemma_kept(weight, rest, mean, kept);
    lemma_product_parts(weight, sample, added);
    let one = pow2(DEPTH as nat);
    let (w, x, s) = (units(weight.bits), units(mean.bits), units(sample.bits));
    let (a, b, g) = (units(kept.bits), units(added.bits), last_place(mean.bits));
    lemma_not_far_above(w * s, one, added.bits, mean.bits);
    lemma_units_order(sample.bits, mean.bits);
    lemma_places(mean.bits, mean.bits);
    let d = (x - s) as nat;
    assert(2 * ((a + b) * one) + 2 * (w * d) < 2 * (x * one) + 3 * (g * one)) by (nonlinear_arith)
        requires
            2 * (a * one) < 2 * ((one - w) * x) + 2 * (g * one),
            2 * (b * one) <= 2 * (w * s) + g * one,
            d == x - s,
    ;
    assert(2 * (a + b) < 2 * x + 3 * g) by (nonlinear_arith)
        requires
            2 * ((a + b) * one) + 2 * (w * d) < 2 * (x * one) + 3 * (g * one),
            w * d >= 0,
            one > 0,
    ;
    let next = (mean.bits + 1) as u64;
    lemma_next(mean.bits);
    if after.bits > next {
        lemma_next(next);
        lemma_places(mean.bits, next);
        lemma_units_order(next, (after.bits - 1) as u64);
        lemma_units_order((next + 1) as u64, after.bits);
    }
    if sample.bits + 32 <= mean.bits && after.bits >= mean.bits {
        lemma_thirty_two(mean.bits, sample.bits);
        assert(2 * (w * d) >= 4 * (g * one)) by (nonlinear_arith)
            requires
                one <= 8 * w,
                d >= 16 * g,
                g > 0,
        ;
        assert(2 * (a + b) < 2 * x - g) by (nonlinear_arith)
            requires
                2 * ((a + b) * one) + 2 * (w * d) < 2 * (x * one) + 3 * (g * one),
                2 * (w * d) >= 4 * (g * one),
                one > 0,
        ;
        let last = (mean.bits - 1) as u64;
        lemma_next(last);
        lemma_places(last, mean.bits);
        lemma_units_order(last, (after.bits - 1) as u64);
        lemma_units_order(mean.bits, after.bits);
    }
}

/// Thirty-two doubles down it is sixteen last places less, at least.
proof fn lemma_thirty_two(high: u64, low: u64)
    requires
        low + 32 <= high,
    ensures
        units(high) - units(low) >= 16 * last_place(high),
{
    let from = (high - 32) as u64;
    lemma_steps(from, 32);
    lemma_units_order(low, from);
    lemma_places(from, high);
    if shift(from) < shift(high) {
        assert(shift(from) + 1 >= shift(high)) by (nonlinear_arith)
            requires
                from == high - 32,
                shift(high) == (high / FRACTIONS - 1),
                high >= FRACTIONS,
                shift(from) == (if from < FRACTIONS {
                    0
                } else {
                    from / FRACTIONS - 1
                }),
        ;
        lemma_pow2_unfold(shift(high));
    }
}

/// How a mean rises: a sample that is larger by more than a few last digits raises it.
proof fn lemma_rises(
    weight: Measure,
    rest: Measure,
    mean: Measure,
    kept: Measure,
    sample: Measure,
    added: Measure,
    after: Measure,
)
    requires
        STEADY_WEIGHT <= weight.bits <= ONE,
        is_gap(Measure { bits: ONE }, weight, rest),
        ZERO < mean.bits < INFINITY,
        is_product(rest, mean, kept),
        mean.bits + 64 <= sample.bits < INFINITY,
        is_product(weight, sample, added),
        is_sum(kept, added, after),
    ensures
        after.bits > mean.bits,
{
    lemma_one();
    lemma_kept(weight, rest, mean, kept);
    lemma_product_parts(weight, sample, added);
    let one = pow2(DEPTH as nat);
    let (w, x, s) = (units(weight.bits), units(mean.bits), units(sample.bits));
    let (a, b) = (units(kept.bits), units(added.bits));
    let (g, h) = (last_place(mean.bits), last_place(sample.bits));
    lemma_not_far_below(w * s, one, added.bits, sample.bits);
    lemma_units_order(mean.bits, sample.bits);
    lemma_places(mean.bits, sample.bits);
    lemma_sixty_four(mean.bits, sample.bits);
    let d = (s - x) as nat;
    assert(2 * ((a + b) * one) + 2 * (g * one) + h * one > 2 * (x * one) + 2 * (w * d))
        by (nonlinear_arith)
        requires
            2 * (a * one) + 2 * (g * one) > 2 * ((one - w) * x),
            2 * (b * one) + h * one >= 2 * (w * s),
            d == s - x,
    ;
    assert(2 * (w * d) >= 8 * (h * one)) by (nonlinear_arith)
        requires
            one <= 8 * w,
            d >= 32 * h,
            h > 0,
    ;
    assert(2 * (a + b) > 2 * x + g) by (nonlinear_arith)
        requires
            2 * ((a + b) * one) + 2 * (g * one) + h * one > 2 * (x * one) + 2 * (w * d),
            2 * (w * d) >= 8 * (h * one),
            g <= h,
            one > 0,
    ;
    if after.bits <= mean.bits {
        lemma_next(mean.bits);
        lemma_units_order(after.bits, mean.bits);
        lemma_units_order((after.bits + 1) as u64, (mean.bits + 1) as u64);
    }
}

/// Sixty-four doubles up it is thirty-two last places more, at least.
proof fn lemma_sixty_four(low: u64, high: u64)
    requires
        low + 64 <= high,
    ensures
        units(high) - units(low) >= 32 * last_place(high),
{
    lemma_steps(low, 64);
    lemma_units_order((low + 64) as u64, high);
    lemma_places(low, high);
    if shift(low) + 1 == shift(high) {
        lemma_pow2_unfold(shift(high));
    } else if shift(low) + 2 <= shift(high) {
        lemma_parts(low);
        lemma_parts(high);
        let (g, h) = (last_place(low), last_place(high));
        lemma_pow2_unfold(shift(high));
        lemma_pow2_unfold((shift(high) - 1) as nat);
        if shift(low) + 2 < shift(high) {
            lemma_pow2_strictly_increases(shift(low), (shift(high) - 2) as nat);
        }
        assert(4 * g <= h);
        assert(units(high) >= FRACTIONS * h && 2 * units(low) <= FRACTIONS * h) by (nonlinear_arith)
            requires
                units(high) == significand(high) * h,
                significand(high) >= FRACTIONS,
                units(low) == significand(low) * g,
                significand(low) <= 2 * FRACTIONS,
                4 * g <= h,
                g > 0,
        ;
    }
}

/// How far two doubles lie apart, as a multiple of the smallest double above zero.
pub open spec fn apart(a: Measure, b: Measure) -> nat {
    if a.bits <= b.bits {
        (units(b.bits) - units(a.bits)) as nat
    } else {
        (units(a.bits) - units(b.bits)) as nat
    }
}

/// A mean with a sample folded in is near what the weight makes of the two.
proof fn lemma_near_the_blend(
    weight: Measure,
    rest: Measure,
    mean: Measure,
    kept: Measure,
    sample: Measure,
    added: Measure,
    after: Measure,
    bound: u64,
)
    requires
        STEADY_WEIGHT <= weight.bits <= ONE,
        is_gap(Measure { bits: ONE }, weight, rest),
        mean.bits <= bound < INFINITY,
        is_product(rest, mean, kept),
        sample.bits <= bound,
        is_product(weight, sample, added),
        is_sum(kept, added, after),
    ensures
        ({
            let one = pow2(DEPTH as nat);
            let (w, x, s, v) = (
                units(weight.bits),
                units(mean.bits),
                units(sample.bits),
                units(after.bits),
            );
            let g = last_place(bound);
            &&& 0 < one <= 8 * w
            &&& w <= one
            &&& v * one <= (one - w) * x + w * s + 2 * (g * one)
            &&& v * one + 2 * (g * one) >= (one - w) * x + w * s
        }),
{
    lemma_one();
    lemma_kept(weight, rest, mean, kept);
    lemma_product_parts(weight, sample, added);
    let one = pow2(DEPTH as nat);
    let (w, x, s) = (units(weight.bits), units(mean.bits), units(sample.bits));
    let (a, b, v) = (units(kept.bits), units(added.bits), units(after.bits));
    let (g, h, top) = (last_place(bound), last_place(mean.bits), units(bound));
    lemma_places(mean.bits, bound);
    lemma_places(bound, bound);
    lemma_units_order(mean.bits, bound);
    lemma_units_order(sample.bits, bound);
    lemma_not_far_above(w * s, one, added.bits, bound);
    lemma_not_far_below(w * s, one, added.bits, bound);
    let blend = (one - w) * x + w * s;
    let p = a + b;
    assert(2 * (p * one) < 2 * blend + 3 * (g * one)) by (nonlinear_arith)
        requires
            2 * (a * one) < 2 * ((one - w) * x) + 2 * (h * one),
            2 * (b * one) <= 2 * (w * s) + g * one,
            h <= g,
            p == a + b,
            blend == (one - w) * x + w * s,
    ;
    assert(2 * (p * one) + 3 * (g * one) > 2 * blend) by (nonlinear_arith)
        requires
            2 * (a * one) + 2 * (h * one) > 2 * ((one - w) * x),
            2 * (b * one) + g * one >= 2 * (w * s),
            h <= g,
            p == a + b,
            blend == (one - w) * x + w * s,
    ;
    assert(blend <= top * one) by (nonlinear_arith)
        requires
            blend == (one - w) * x + w * s,
            x <= top,
            s <= top,
            w <= one,
    ;
    assert(2 * p < 2 * top + 3 * g) by (nonlinear_arith)
        requires
            2 * (p * one) < 2 * blend + 3 * (g * one),
            blend <= top * one,
            one > 0,
    ;
    let next = (bound + 1) as u64;
    lemma_next(bound);
    if after.bits > next {
        lemma_next(next);
        lemma_places(bound, next);
        lemma_units_order(next, (after.bits - 1) as u64);
        lemma_units_order((next + 1) as u64, after.bits);
    }
    lemma_not_far_above(p, 1, after.bits, bound);
    assert(v * one <= blend + 2 * (g * one)) by (nonlinear_arith)
        requires
            2 * v <= 2 * p + g,
            2 * (p * one) < 2 * blend + 3 * (g * one),
    ;
    if after.bits <= bound {
        lemma_not_far_below(p, 1, after.bits, bound);
        assert(v * one + 2 * (g * one) >= blend) by (nonlinear_arith)
            requires
                2 * v + g >= 2 * p,
                2 * (p * one) + 3 * (g * one) > 2 * blend,
        ;
    } else {
        lemma_units_order(bound, after.bits);
        assert(v * one + 2 * (g * one) >= blend) by (nonlinear_arith)
            requires
                v >= top,
                blend <= top * one,
                g >= 0,
        ;
    }
}

/// Folding a sample in takes an eighth off the distance of the mean to it, but for rounding.
proof fn lemma_settles(
    weight: Measure,
    rest: Measure,
    mean: Measure,
    kept: Measure,
    sample: Measure,
    added: Measure,
    after: Measure,
    bound: u64,
)
    requires
        STEADY_WEIGHT <= weight.bits <= ONE,
        is_gap(Measure { bits: ONE }, weight, rest),
        mean.bits <= bound < INFINITY,
        is_product(rest, mean, kept),
        sample.bits + 64 <= bound,
        is_product(weight, sample, added),
        is_sum(kept, added, after),
    ensures
        after.bits <= bound,
        8 * apart(after, sample) <= 7 * apart(mean, sample) + 16 * last_place(bound),
{
    lemma_near_the_blend(weight, rest, mean, kept, sample, added, after, bound);
    let one = pow2(DEPTH as nat);
    let (w, x, s, v) = (
        units(weight.bits),
        units(mean.bits),
        units(sample.bits),
        units(after.bits),
    );
    let (g, top) = (last_place(bound), units(bound));
    lemma_places(bound, bound);
    lemma_sixty_four(sample.bits, bound);
    lemma_units_order(mean.bits, bound);
    let d = x - s;
    // What the blend is above the sample, in eighths of the distance.
    assert(v * one <= s * one + (one - w) * d + 2 * (g * one) && v * one + 2 * (g * one) >= s * one
        + (one - w) * d) by (nonlinear_arith)
        requires
            v * one <= (one - w) * x + w * s + 2 * (g * one),
            v * one + 2 * (g * one) >= (one - w) * x + w * s,
            d == x - s,
    ;
    if d >= 0 {
        assert(8 * (v - s) <= 7 * d + 16 * g) by (nonlinear_arith)
            requires
                v * one <= s * one + (one - w) * d + 2 * (g * one),
                8 * (one - w) <= 7 * one,
                d >= 0,
                one > 0,
        ;
        assert(8 * (s - v) <= 16 * g) by (nonlinear_arith)
            requires
                v * one + 2 * (g * one) >= s * one + (one - w) * d,
                one - w >= 0,
                d >= 0,
                one > 0,
        ;
    } else {
        assert(8 * (v - s) <= 16 * g) by (nonlinear_arith)
            requires
                v * one <= s * one + (one - w) * d + 2 * (g * one),
                one - w >= 0,
                d < 0,
                one > 0,
        ;
        assert(8 * (s - v) <= 7 * (-d) + 16 * g) by (nonlinear_arith)
            requires
                v * one + 2 * (g * one) >= s * one + (one - w) * d,
                8 * (one - w) <= 7 * one,
                d < 0,
                one > 0,
        ;
    }
    if mean.bits <= sample.bits {
        lemma_units_order(mean.bits, sample.bits);
    } else {
        lemma_units_order(sample.bits, mean.bits);
    }
    if after.bits <= sample.bits {
        lemma_units_order(after.bits, sample.bits);
    } else {
        lemma_units_order(sample.bits, after.bits);
    }
    assert(v <= top);
    if after.bits > bound {
        lemma_units_order(bound, after.bits);
    }
}

/// The parts of a mean with a sample folded in: the weight, the rest, what is kept and what is added.
proof fn lemma_folded_parts(kit: &Doubles, before: Estimate, sample: Measure, after: Estimate) -> (r: (
    Measure,
    Measure,
    Measure,
    Measure,
))
    requires
        proper_estimate(before),
        before.mean is Some,
        before.folds(kit, sample, after),
    ensures
        STEADY_WEIGHT <= r.0.bits <= ONE,
        is_gap(Measure { bits: ONE }, r.0, r.1),
        is_product(r.1, before.mean->0, r.2),
        is_product(r.0, sample, r.3),
        is_sum(r.2, r.3, after.mean->0),
{
    doubles_are_steady(kit);
    doubles_are_orderly(kit);
    let mean = before.mean->0;
    let (one, old, new) = (constant(ONE), Formula::Known(mean), Formula::Known(sample));
    let weight = sample_weight(mean, before.mad, before.samples);
    let (kept, added) = choose|kept: Measure, added: Measure|
        one.off(weight).times(old).gives(kit, kept) && weight.times(new).gives(kit, added)
            && #[trigger] call_ensures(Doubles::sum, (kit, kept, added), after.mean->0);
    let (rest, same) = choose|rest: Measure, same: Measure|
        one.off(weight).gives(kit, rest) && old.gives(kit, same) && #[trigger] call_ensures(
            Doubles::product,
            (kit, rest, same),
            kept,
        );
    let (whole, share) = choose|whole: Measure, share: Measure|
        one.gives(kit, whole) && weight.gives(kit, share) && #[trigger] call_ensures(
            Doubles::gap,
            (kit, whole, share),
            rest,
        );
    let (other, again) = choose|other: Measure, again: Measure|
        weight.gives(kit, other) && new.gives(kit, again) && #[trigger] call_ensures(
            Doubles::product,
            (kit, other, again),
            added,
        );
    formulas_have_one_value(kit, weight, share, other);
    samples_weigh_more_in_swings(
        kit,
        mean,
        before.mad,
        share,
        before.mad,
        share,
        before.samples,
    );
    assert(whole == Measure { bits: ONE } && same == mean && again == sample);
    (share, rest, kept, added)
}

/// In doubles a mean follows what is measured. A sample that is no larger leaves it no larger, but for
/// one in the last digit by rounding; one that lies at least thirty-two doubles below lowers it, and
/// one that lies at least sixty-four above raises it.
pub proof fn means_follow_the_samples(
    kit: &Doubles,
    before: Estimate,
    sample: Measure,
    after: Estimate,
)
    requires
        proper_estimate(before),
        before.mean is Some,
        is_number(before.mean->0),
        is_number(sample),
        before.folds(kit, sample, after),
    ensures
        after.mean is Some,
        sample.bits <= before.mean->0.bits ==> after.mean->0.bits <= before.mean->0.bits + 1,
        sample.bits + 32 <= before.mean->0.bits ==> after.mean->0.bits < before.mean->0.bits,
        before.mean->0.bits + 64 <= sample.bits && before.mean->0.bits > ZERO
            ==> after.mean->0.bits > before.mean->0.bits,
{
    let mean = before.mean->0;
    let (weight, rest, kept, added) = lemma_folded_parts(kit, before, sample, after);
    if mean.bits == ZERO {
        if sample.bits == ZERO {
            lemma_zero();
            lemma_one();
            let one = pow2(DEPTH as nat);
            let whole = Measure { bits: ONE };
            lemma_gap_value(whole, weight, rest);
            lemma_at_most((units(ONE) - units(weight.bits)) as nat, 1, rest.bits, ONE);
            assert(units(rest.bits) * units(ZERO) == 0 && units(weight.bits) * units(ZERO) == 0)
                by (nonlinear_arith)
                requires
                    units(ZERO) == 0,
            ;
            lemma_nothing(one, kept.bits);
            lemma_nothing(one, added.bits);
            lemma_nothing(1, after.mean->0.bits);
        }
    } else {
        if sample.bits <= mean.bits {
            lemma_falls(weight, rest, mean, kept, sample, added, after.mean->0);
        } else if mean.bits + 64 <= sample.bits {
            lemma_rises(weight, rest, mean, kept, sample, added, after.mean->0);
        }
    }
}

/// Whether each of these estimates is the one before with the same sample folded in.
pub open spec fn stationary(kit: &Doubles, estimates: Seq<Estimate>, sample: Measure) -> bool {
    forall|k: int|
        #![trigger estimates[k]]
        0 <= k && k + 1 < estimates.len() ==> estimates[k].folds(kit, sample, estimates[k + 1])
}

/// In doubles a mean settles on what keeps being measured. Wherever it starts, each sample takes at
/// least a sixteenth off its distance to them until it is within thirty-two last places, and there it
/// stays. The places are those of a double that the start does not exceed, nor the samples by far.
pub proof fn means_settle_on_a_stationary_stream(
    kit: &Doubles,
    estimates: Seq<Estimate>,
    sample: Measure,
    bound: u64,
    k: int,
)
    requires
        stationary(kit, estimates, sample),
        0 <= k < estimates.len(),
        proper_estimate(estimates[0]),
        estimates[0].mean is Some,
        estimates[0].mean->0.bits <= bound < INFINITY,
        sample.bits + 64 <= bound,
    ensures
        proper_estimate(estimates[k]),
        estimates[k].mean is Some,
        estimates[k].mean->0.bits <= bound,
        apart(estimates[k].mean->0, sample) <= 32 * last_place(bound) || pow(16, k as nat) * apart(
            estimates[k].mean->0,
            sample,
        ) <= pow(15, k as nat) * apart(estimates[0].mean->0, sample),
        k > 0 && apart(estimates[k - 1].mean->0, sample) <= 32 * last_place(bound) ==> apart(
            estimates[k].mean->0,
            sample,
        ) <= 32 * last_place(bound),
    decreases k,
{
    let start = apart(estimates[0].mean->0, sample);
    if k == 0 {
        lemma_pow0(16);
        lemma_pow0(15);
    } else {
        means_settle_on_a_stationary_stream(kit, estimates, sample, bound, k - 1);
        let (before, after) = (estimates[k - 1], estimates[(k - 1) + 1]);
        assert(before.folds(kit, sample, after));
        let (weight, rest, kept, added) = lemma_folded_parts(kit, before, sample, after);
        lemma_settles(
            weight,
            rest,
            before.mean->0,
            kept,
            sample,
            added,
            after.mean->0,
            bound,
        );
        doubles_are_orderly(kit);
        lemma_folded_genuine(kit, before, sample, after);
        let (d, e, g) = (
            apart(before.mean->0, sample),
            apart(after.mean->0, sample),
            last_place(bound),
        );
        let (high, low) = (pow(16, (k - 1) as nat), pow(15, (k - 1) as nat));
        lemma_pow_positive(16, (k - 1) as nat);
        lemma_pow_positive(15, (k - 1) as nat);
        lemma_pow_adds(16, 1, (k - 1) as nat);
        lemma_pow_adds(15, 1, (k - 1) as nat);
        lemma_pow1(16);
        lemma_pow1(15);
        if d > 32 * g {
            assert(16 * e <= 15 * d);
            assert((16 * high) * e <= (15 * low) * start) by (nonlinear_arith)
                requires
                    16 * e <= 15 * d,
                    high * d <= low * start,
                    high > 0,
                    low > 0,
            ;
        }
    }
}

} // verus!
