//! Doubles as numbers, and rounding to the nearest of them.

use vstd::arithmetic::power2::{
    lemma2_to64, lemma2_to64_rest, lemma_pow2_adds, lemma_pow2_pos, lemma_pow2_unfold, pow2,
};
use vstd::prelude::*;

use crate::measure::{INFINITY, ONE};

verus! {

/// How many doubles share an exponent: two to the number of bits of a fraction.
pub const FRACTIONS: u64 = 0x10_0000_0000_0000;

/// The binary exponent of the smallest double above zero, negated.
pub const DEPTH: u32 = 1074;

/// The digits of a double, as a whole number.
pub open spec fn significand(bits: u64) -> nat {
    if bits < FRACTIONS {
        bits as nat
    } else {
        (FRACTIONS + bits % FRACTIONS) as nat
    }
}

/// By how many binary places the digits are shifted.
pub open spec fn shift(bits: u64) -> nat {
    if bits < FRACTIONS {
        0
    } else {
        (bits / FRACTIONS - 1) as nat
    }
}

/// The number that a bit pattern stands for, as a multiple of the smallest double above zero. The
/// pattern of infinity stands for the number that would come after the largest double.
pub open spec fn units(bits: u64) -> nat {
    significand(bits) * pow2(shift(bits))
}

/// Whether a bit pattern is that of the double nearest to `p / q`, in multiples of the smallest double
/// above zero: of two doubles that are equally near, the one whose last digit is even.
pub open spec fn is_nearest(p: nat, q: nat, bits: u64) -> bool {
    &&& bits <= INFINITY
    &&& bits > 0 ==> {
        let below = (units((bits - 1) as u64) + units(bits)) * q;
        below < 2 * p || (below == 2 * p && bits % 2 == 0)
    }
    &&& bits < INFINITY ==> {
        let above = (units(bits) + units((bits + 1) as u64)) * q;
        2 * p < above || (2 * p == above && bits % 2 == 0)
    }
}

/// What digits and a shift make, where the digits fill their places or are not shifted.
pub proof fn lemma_units(digits: nat, places: nat, bits: u64)
    requires
        digits <= 2 * FRACTIONS,
        digits >= FRACTIONS || places == 0,
        bits == places * FRACTIONS + digits,
    ensures
        units(bits) == digits * pow2(places),
{
    lemma2_to64();
    if digits < FRACTIONS {
        assert(places * FRACTIONS == 0) by (nonlinear_arith)
            requires
                places == 0,
        ;
    } else if digits < 2 * FRACTIONS {
        assert(bits / FRACTIONS == places + 1 && bits % FRACTIONS == digits - FRACTIONS)
            by (nonlinear_arith)
            requires
                bits == places * FRACTIONS + digits,
                FRACTIONS <= digits < 2 * FRACTIONS,
        ;
    } else {
        assert(bits / FRACTIONS == places + 2 && bits % FRACTIONS == 0) by (nonlinear_arith)
            requires
                bits == places * FRACTIONS + digits,
                digits == 2 * FRACTIONS,
        ;
        lemma_pow2_unfold(places + 1);
        assert(FRACTIONS * (2 * pow2(places)) == digits * pow2(places)) by (nonlinear_arith)
            requires
                digits == 2 * FRACTIONS,
        ;
    }
}

/// The first two patterns stand for nothing and for the smallest double above zero.
pub proof fn lemma_smallest()
    ensures
        units(0) == 0,
        units(1) == 1,
{
    lemma2_to64();
    lemma_units(0, 0, 0);
    lemma_units(1, 0, 1);
    assert(0nat * pow2(0) == 0) by (nonlinear_arith);
    assert(1nat * pow2(0) == 1) by (nonlinear_arith)
        requires
            pow2(0) == 1,
    ;
}

/// A bit pattern is made of its digits and its shift.
pub proof fn lemma_parts(bits: u64)
    ensures
        bits == shift(bits) * FRACTIONS + significand(bits),
        significand(bits) < 2 * FRACTIONS,
        significand(bits) >= FRACTIONS || shift(bits) == 0,
{
    if bits >= FRACTIONS {
        assert(bits == (bits / FRACTIONS - 1) * FRACTIONS + (FRACTIONS + bits % FRACTIONS))
            by (nonlinear_arith)
            requires
                bits >= FRACTIONS,
        ;
        assert(bits / FRACTIONS >= 1) by (nonlinear_arith)
            requires
                bits >= FRACTIONS,
        ;
    }
}

/// From one double to the next it is one place of the last digit.
pub proof fn lemma_next(bits: u64)
    requires
        bits < u64::MAX,
    ensures
        units((bits + 1) as u64) == units(bits) + pow2(shift(bits)),
        units(bits) < units((bits + 1) as u64),
{
    lemma_parts(bits);
    let (digits, places) = (significand(bits), shift(bits));
    lemma_units(digits + 1, places, (bits + 1) as u64);
    lemma_pow2_pos(places);
    assert((digits + 1) * pow2(places) == digits * pow2(places) + pow2(places)) by (nonlinear_arith);
}

/// Larger patterns stand for larger numbers.
pub proof fn lemma_units_order(a: u64, b: u64)
    requires
        a <= b,
    ensures
        units(a) <= units(b),
        a < b ==> units(a) < units(b),
    decreases b - a,
{
    if a < b {
        lemma_units_order(a, (b - 1) as u64);
        lemma_next((b - 1) as u64);
    }
}

/// Numbers of the same order have nearest doubles of the same order.
pub proof fn lemma_nearest_order(p: nat, q: nat, a: u64, s: nat, t: nat, b: u64)
    requires
        q > 0,
        t > 0,
        p * t <= s * q,
        is_nearest(p, q, a),
        is_nearest(s, t, b),
    ensures
        a <= b,
{
    if a > b {
        let below = units((a - 1) as u64) + units(a);
        let above = units(b) + units((b + 1) as u64);
        lemma_units_order(b, (a - 1) as u64);
        lemma_units_order((b + 1) as u64, a);
        assert(below * q <= 2 * p && 2 * s <= above * t);
        assert(above <= below);
        assert(below * q == 2 * p && 2 * s == above * t && above == below) by (nonlinear_arith)
            requires
                q > 0,
                t > 0,
                p * t <= s * q,
                below * q <= 2 * p,
                2 * s <= above * t,
                above <= below,
        ;
        assert(a % 2 == 0 && b % 2 == 0);
        assert(b + 1 < a);
        lemma_units_order((b + 1) as u64, (a - 1) as u64);
        lemma_units_order(b, (b + 1) as u64);
    }
}

/// There is one nearest double.
pub proof fn lemma_one_nearest(p: nat, q: nat, a: u64, b: u64)
    requires
        q > 0,
        is_nearest(p, q, a),
        is_nearest(p, q, b),
    ensures
        a == b,
{
    lemma_nearest_order(p, q, a, p, q, b);
    lemma_nearest_order(p, q, b, p, q, a);
}

/// A double is the nearest to itself.
pub proof fn lemma_itself(bits: u64)
    requires
        bits <= INFINITY,
    ensures
        is_nearest(units(bits), 1, bits),
{
    if bits > 0 {
        lemma_units_order((bits - 1) as u64, bits);
    }
    if bits < INFINITY {
        lemma_next(bits);
    }
}

/// What is not above a double has a nearest double that is not above it either.
pub proof fn lemma_at_most(p: nat, q: nat, a: u64, bound: u64)
    requires
        q > 0,
        p <= units(bound) * q,
        bound <= INFINITY,
        is_nearest(p, q, a),
    ensures
        a <= bound,
{
    lemma_itself(bound);
    assert(p * 1 <= units(bound) * q);
    lemma_nearest_order(p, q, a, units(bound), 1, bound);
}

/// What is not below a double has a nearest double that is not below it either.
pub proof fn lemma_at_least(p: nat, q: nat, a: u64, bound: u64)
    requires
        q > 0,
        p >= units(bound) * q,
        bound <= INFINITY,
        is_nearest(p, q, a),
    ensures
        a >= bound,
{
    lemma_itself(bound);
    lemma_nearest_order(units(bound), 1, bound, p, q, a);
}

/// Digits of which the last counts `step` and which a scaled number lies on or above, by no more than
/// half of that, are the nearest.
pub proof fn lemma_rounded_down(
    p: nat,
    q: nat,
    scale: nat,
    digits: nat,
    places: nat,
    step: nat,
    bits: u64,
)
    requires
        q > 0,
        scale > 0,
        step == pow2(places) * (q * scale),
        digits < 2 * FRACTIONS,
        digits >= FRACTIONS || places == 0,
        bits == places * FRACTIONS + digits,
        bits < INFINITY,
        digits * step <= p * scale,
        2 * (p * scale) <= (2 * digits + 1) * step,
        2 * (p * scale) == (2 * digits + 1) * step ==> digits % 2 == 0,
    ensures
        is_nearest(p, q, bits),
{
    lemma_units(digits, places, bits);
    lemma_units(digits + 1, places, (bits + 1) as u64);
    let unit = pow2(places);
    assert(bits % 2 == digits % 2) by (nonlinear_arith)
        requires
            bits == places * FRACTIONS + digits,
    ;
    let above = (units(bits) + units((bits + 1) as u64)) * q;
    assert(above * scale == (2 * digits + 1) * step) by (nonlinear_arith)
        requires
            above == (digits * unit + (digits + 1) * unit) * q,
            step == unit * (q * scale),
    ;
    lemma_unscaled(2 * p, above, scale);
    assert(2 * p * scale == 2 * (p * scale)) by (nonlinear_arith);
    if bits > 0 {
        lemma_units_order((bits - 1) as u64, bits);
        let below = (units((bits - 1) as u64) + units(bits)) * q;
        let last = units((bits - 1) as u64);
        assert(below * scale < 2 * (digits * step)) by (nonlinear_arith)
            requires
                below == (last + digits * unit) * q,
                last < digits * unit,
                step == unit * (q * scale),
                q > 0,
                scale > 0,
        ;
        lemma_unscaled(2 * p, below, scale);
    }
}

/// Digits of which the last counts `step` and which a scaled number lies below, by no more than half
/// of that, are the nearest.
pub proof fn lemma_rounded_up(
    p: nat,
    q: nat,
    scale: nat,
    digits: nat,
    places: nat,
    step: nat,
    bits: u64,
)
    requires
        q > 0,
        scale > 0,
        step == pow2(places) * (q * scale),
        0 < digits <= 2 * FRACTIONS,
        digits > FRACTIONS || places == 0,
        bits == places * FRACTIONS + digits,
        bits <= INFINITY,
        p * scale < digits * step,
        2 * (p * scale) >= (2 * digits - 1) * step,
        2 * (p * scale) == (2 * digits - 1) * step ==> digits % 2 == 0,
    ensures
        is_nearest(p, q, bits),
{
    assert(bits > 0) by (nonlinear_arith)
        requires
            bits == places * FRACTIONS + digits,
            digits > 0,
    ;
    lemma_units(digits, places, bits);
    lemma_units((digits - 1) as nat, places, (bits - 1) as u64);
    let unit = pow2(places);
    assert(bits % 2 == digits % 2) by (nonlinear_arith)
        requires
            bits == places * FRACTIONS + digits,
    ;
    let below = (units((bits - 1) as u64) + units(bits)) * q;
    assert(below * scale == (2 * digits - 1) * step) by (nonlinear_arith)
        requires
            below == ((digits - 1) * unit + digits * unit) * q,
            step == unit * (q * scale),
    ;
    lemma_unscaled(2 * p, below, scale);
    assert(2 * p * scale == 2 * (p * scale)) by (nonlinear_arith);
    if bits < INFINITY {
        lemma_next(bits);
        let next = units((bits + 1) as u64);
        let above = (units(bits) + next) * q;
        assert(above * scale > 2 * (digits * step)) by (nonlinear_arith)
            requires
                above == (digits * unit + next) * q,
                next > digits * unit,
                step == unit * (q * scale),
                q > 0,
                scale > 0,
        ;
        lemma_unscaled(2 * p, above, scale);
    }
}

proof fn lemma_unscaled(a: nat, b: nat, scale: nat)
    requires
        scale > 0,
    ensures
        a * scale < b * scale <==> a < b,
        a * scale == b * scale <==> a == b,
{
    assert(a * scale < b * scale <==> a < b) by (nonlinear_arith)
        requires
            scale > 0,
    ;
    assert(a * scale == b * scale <==> a == b) by (nonlinear_arith)
        requires
            scale > 0,
    ;
}

/// What reaches the number after the largest double is infinite.
pub proof fn lemma_overflow(p: nat, q: nat)
    requires
        q > 0,
        p >= units(INFINITY) * q,
    ensures
        is_nearest(p, q, INFINITY),
{
    let last = units((INFINITY - 1) as u64);
    lemma_units_order((INFINITY - 1) as u64, INFINITY);
    let top = units(INFINITY);
    assert((last + top) * q < 2 * p) by (nonlinear_arith)
        requires
            last < top,
            p >= top * q,
            q > 0,
    ;
}

/// Nothing is zero.
pub proof fn lemma_nothing(q: nat, a: u64)
    requires
        q > 0,
        is_nearest(0, q, a),
    ensures
        a == 0,
{
    assert(units(0) * q >= 0) by (nonlinear_arith);
    lemma_at_most(0, q, a, 0);
}

/// One is so many times the smallest double above zero.
pub proof fn lemma_one()
    ensures
        units(ONE) == pow2(DEPTH as nat),
        pow2(DEPTH as nat) > 0,
{
    lemma2_to64();
    lemma2_to64_rest();
    lemma_units(FRACTIONS as nat, 1022, ONE);
    lemma_pow2_adds(52, 1022);
    lemma_pow2_pos(DEPTH as nat);
}

} // verus!
