//! That arithmetic in doubles has every property that the other laws ask of an arithmetic.

use vstd::arithmetic::power2::{
    lemma2_to64, lemma2_to64_rest, lemma_pow2_adds, lemma_pow2_pos, lemma_pow2_unfold, pow2,
};
use vstd::prelude::*;

use crate::doubles::{
    is_count, is_gap, is_number, is_product, is_quotient, is_sum, lemma_zero, rounded, Doubles,
};
use crate::formula::steady;
use crate::measure::{larger, Arithmetic, Measure, HALF, INFINITY, ONE, QUARTER, ZERO};
use crate::order::{
    counts_in_order, discerning, gaps_in_order, orderly, products_in_order, quotients_in_order,
    rounds_in_order, sums_in_order,
};
use crate::rounding::{
    is_nearest, lemma_at_least, lemma_at_most, lemma_itself, lemma_nearest_order, lemma_next,
    lemma_nothing, lemma_one, lemma_one_nearest, lemma_parts, lemma_smallest, lemma_units,
    lemma_units_order, shift, significand, units, DEPTH, FRACTIONS,
};

verus! {

/// Asked the same, arithmetic in doubles answers the same.
pub proof fn doubles_are_steady(kit: &Doubles)
    ensures
        steady(kit),
{
    lemma_one();
    assert forall|n: u64, v: Measure, w: Measure|
        #![trigger call_ensures(Doubles::count, (kit, n), v), call_ensures(Doubles::count, (kit, n), w)]
        call_ensures(Doubles::count, (kit, n), v) && call_ensures(
            Doubles::count,
            (kit, n),
            w,
        ) implies v == w by {
        assert(is_count(n, v) && is_count(n, w));
        lemma_one_nearest(n as nat * pow2(DEPTH as nat), 1, v.bits, w.bits);
    }
    assert forall|x: Measure, y: Measure, v: Measure, w: Measure|
        #![trigger call_ensures(Doubles::sum, (kit, x, y), v), call_ensures(Doubles::sum, (kit, x, y), w)]
        call_ensures(Doubles::sum, (kit, x, y), v) && call_ensures(
            Doubles::sum,
            (kit, x, y),
            w,
        ) implies v == w by {
        lemma_one_sum(x, y, v, w);
    }
    assert forall|x: Measure, y: Measure, v: Measure, w: Measure|
        #![trigger call_ensures(Doubles::gap, (kit, x, y), v), call_ensures(Doubles::gap, (kit, x, y), w)]
        call_ensures(Doubles::gap, (kit, x, y), v) && call_ensures(
            Doubles::gap,
            (kit, x, y),
            w,
        ) implies v == w by {
        lemma_one_gap(x, y, v, w);
    }
    assert forall|x: Measure, y: Measure, v: Measure, w: Measure|
        #![trigger call_ensures(Doubles::product, (kit, x, y), v), call_ensures(Doubles::product, (kit, x, y), w)]
        call_ensures(Doubles::product, (kit, x, y), v) && call_ensures(
            Doubles::product,
            (kit, x, y),
            w,
        ) implies v == w by {
        lemma_one_product(x, y, v, w);
    }
    assert forall|x: Measure, y: Measure, v: Measure, w: Measure|
        #![trigger call_ensures(Doubles::quotient, (kit, x, y), v), call_ensures(Doubles::quotient, (kit, x, y), w)]
        call_ensures(Doubles::quotient, (kit, x, y), v) && call_ensures(
            Doubles::quotient,
            (kit, x, y),
            w,
        ) implies v == w by {
        lemma_one_quotient(x, y, v, w);
    }
}

proof fn lemma_one_sum(x: Measure, y: Measure, v: Measure, w: Measure)
    requires
        is_sum(x, y, v),
        is_sum(x, y, w),
    ensures
        v == w,
{
    if is_number(x) && is_number(y) {
        lemma_one_nearest(units(x.bits) + units(y.bits), 1, v.bits, w.bits);
    }
}

proof fn lemma_one_gap(x: Measure, y: Measure, v: Measure, w: Measure)
    requires
        is_gap(x, y, v),
        is_gap(x, y, w),
    ensures
        v == w,
{
    if is_number(x) && is_number(y) {
        if x.bits <= y.bits {
            lemma_one_nearest((units(y.bits) - units(x.bits)) as nat, 1, v.bits, w.bits);
        } else {
            lemma_one_nearest((units(x.bits) - units(y.bits)) as nat, 1, v.bits, w.bits);
        }
    }
}

proof fn lemma_one_product(x: Measure, y: Measure, v: Measure, w: Measure)
    requires
        is_product(x, y, v),
        is_product(x, y, w),
    ensures
        v == w,
{
    if is_number(x) && is_number(y) {
        lemma_one();
        lemma_one_nearest(units(x.bits) * units(y.bits), pow2(DEPTH as nat), v.bits, w.bits);
    }
}

proof fn lemma_one_quotient(x: Measure, y: Measure, v: Measure, w: Measure)
    requires
        is_quotient(x, y, v),
        is_quotient(x, y, w),
    ensures
        v == w,
{
    if is_number(x) && is_number(y) && y.bits > ZERO {
        lemma_units_order(ZERO, y.bits);
        lemma_one_nearest(units(x.bits) * pow2(DEPTH as nat), units(y.bits), v.bits, w.bits);
    }
}

/// Arithmetic in doubles keeps the order of measures.
pub proof fn doubles_are_orderly(kit: &Doubles)
    ensures
        orderly(kit),
{
    lemma_counts(kit);
    lemma_sums(kit);
    lemma_products(kit);
    lemma_quotients(kit);
    lemma_gaps(kit);
}

proof fn lemma_counts(kit: &Doubles)
    ensures
        counts_in_order(kit),
{
    lemma_one();
    let one = pow2(DEPTH as nat);
    assert forall|m: u64, n: u64, v: Measure, w: Measure|
        #![trigger call_ensures(Doubles::count, (kit, m), v), call_ensures(Doubles::count, (kit, n), w)]
        call_ensures(Doubles::count, (kit, m), v) && call_ensures(Doubles::count, (kit, n), w) && m
            <= n implies v.bits <= w.bits <= INFINITY by {
        assert(is_count(m, v) && is_count(n, w));
        assert((m as nat * one) * 1 <= (n as nat * one) * 1) by (nonlinear_arith)
            requires
                m <= n,
                one > 0,
        ;
        lemma_nearest_order(m as nat * one, 1, v.bits, n as nat * one, 1, w.bits);
    }
    assert forall|n: u64, v: Measure| #[trigger]
        call_ensures(Doubles::count, (kit, n), v) implies if n == 0 {
        v.bits == ZERO
    } else {
        v.bits >= ONE
    } by {
        assert(is_count(n, v));
        if n == 0 {
            assert(n as nat * one == 0) by (nonlinear_arith)
                requires
                    n == 0,
            ;
            lemma_nothing(1, v.bits);
        } else {
            assert(n as nat * one >= one * 1) by (nonlinear_arith)
                requires
                    n >= 1,
            ;
            lemma_at_least(n as nat * one, 1, v.bits, ONE);
        }
    }
}

/// Nothing counts as zero, and something as one at least.
pub proof fn lemma_count_bounds(n: u64, v: Measure)
    requires
        is_count(n, v),
    ensures
        n == 0 ==> v.bits == ZERO,
        n >= 1 ==> v.bits >= ONE,
{
    lemma_one();
    let one = pow2(DEPTH as nat);
    if n == 0 {
        assert(n as nat * one == 0) by (nonlinear_arith)
            requires
                n == 0,
        ;
        lemma_nothing(1, v.bits);
    } else {
        assert(n as nat * one >= one * 1) by (nonlinear_arith)
            requires
                n >= 1,
        ;
        lemma_at_least(n as nat * one, 1, v.bits, ONE);
    }
}

/// A count that fits the digits of a double is that number.
pub proof fn lemma_small_count(n: u64, v: Measure)
    requires
        is_count(n, v),
        n <= 2 * FRACTIONS,
    ensures
        units(v.bits) == n as nat * pow2(DEPTH as nat),
{
    lemma_one();
    if n == 0 {
        lemma_count_bounds(n, v);
        lemma_zero();
        assert(n as nat * pow2(DEPTH as nat) == 0) by (nonlinear_arith)
            requires
                n == 0,
        ;
    } else {
        lemma2_to64();
        assert(n as nat * pow2(0) == n) by (nonlinear_arith)
            requires
                pow2(0) == 1,
        ;
        let bits = lemma_whole_double(n as nat, 0);
        lemma_itself(bits);
        lemma_one_nearest(n as nat * pow2(DEPTH as nat), 1, v.bits, bits);
    }
}

/// A whole number of some digits is a double.
proof fn lemma_whole_double(n: nat, up: nat) -> (bits: u64)
    requires
        1 <= n,
        n * pow2(up) <= 2 * FRACTIONS,
        up <= 53,
    ensures
        bits <= INFINITY,
        units(bits) == n * pow2(DEPTH as nat),
    decreases 53 - up,
{
    lemma_pow2_pos(up);
    if n * pow2(up) >= FRACTIONS {
        let digits = n * pow2(up);
        let places = (1074 - up) as nat;
        assert(places * FRACTIONS + digits <= 1076 * FRACTIONS) by (nonlinear_arith)
            requires
                places <= 1074,
                digits <= 2 * FRACTIONS,
        ;
        let bits = (places * FRACTIONS + digits) as u64;
        lemma_units(digits, places, bits);
        lemma_pow2_adds(up, places);
        assert(digits * pow2(places) == n * pow2(DEPTH as nat)) by (nonlinear_arith)
            requires
                digits == n * pow2(up),
                pow2(DEPTH as nat) == pow2(up) * pow2(places),
        ;
        bits
    } else {
        lemma_pow2_unfold(up + 1);
        assert(n * pow2(up + 1) == 2 * (n * pow2(up))) by (nonlinear_arith)
            requires
                pow2(up + 1) == 2 * pow2(up),
        ;
        if up == 53 {
            lemma2_to64_rest();
            assert(n * pow2(53) >= 2 * FRACTIONS) by (nonlinear_arith)
                requires
                    n >= 1,
                    pow2(53) == 2 * FRACTIONS,
            ;
        }
        lemma_whole_double(n, up + 1)
    }
}

proof fn lemma_sums(kit: &Doubles)
    ensures
        sums_in_order(kit),
{
    assert forall|x: Measure, y: Measure, s: Measure, t: Measure, v: Measure, w: Measure|
        #![trigger call_ensures(Doubles::sum, (kit, x, y), v), call_ensures(Doubles::sum, (kit, s, t), w)]
        call_ensures(Doubles::sum, (kit, x, y), v) && call_ensures(Doubles::sum, (kit, s, t), w)
            && x.bits <= s.bits <= INFINITY && y.bits <= t.bits <= INFINITY implies v.bits <= w.bits
        <= INFINITY by {
        lemma_sum_order(x, y, s, t, v, w);
    }
    assert forall|x: Measure, y: Measure, v: Measure| #[trigger]
        call_ensures(Doubles::sum, (kit, x, y), v) && x.bits <= INFINITY && y.bits
            <= INFINITY implies {
        &&& x.bits <= v.bits
        &&& y.bits <= v.bits
        &&& y.bits == ZERO ==> v == x
    } by {
        lemma_sum_parts(x, y, v);
    }
}

proof fn lemma_sum_order(x: Measure, y: Measure, s: Measure, t: Measure, v: Measure, w: Measure)
    requires
        is_sum(x, y, v),
        is_sum(s, t, w),
        x.bits <= s.bits <= INFINITY,
        y.bits <= t.bits <= INFINITY,
    ensures
        v.bits <= w.bits <= INFINITY,
{
    if is_number(s) && is_number(t) {
        lemma_units_order(x.bits, s.bits);
        lemma_units_order(y.bits, t.bits);
        lemma_nearest_order(
            units(x.bits) + units(y.bits),
            1,
            v.bits,
            units(s.bits) + units(t.bits),
            1,
            w.bits,
        );
    }
}

proof fn lemma_sum_parts(x: Measure, y: Measure, v: Measure)
    requires
        is_sum(x, y, v),
        x.bits <= INFINITY,
        y.bits <= INFINITY,
    ensures
        x.bits <= v.bits,
        y.bits <= v.bits,
        y.bits == ZERO ==> v == x,
{
    if is_number(x) && is_number(y) {
        let p = units(x.bits) + units(y.bits);
        lemma_at_least(p, 1, v.bits, x.bits);
        lemma_at_least(p, 1, v.bits, y.bits);
        if y.bits == ZERO {
            lemma_zero();
            lemma_at_most(p, 1, v.bits, x.bits);
        }
    }
}

proof fn lemma_products(kit: &Doubles)
    ensures
        products_in_order(kit),
{
    assert forall|x: Measure, y: Measure, s: Measure, t: Measure, v: Measure, w: Measure|
        #![trigger call_ensures(Doubles::product, (kit, x, y), v), call_ensures(Doubles::product, (kit, s, t), w)]
        call_ensures(Doubles::product, (kit, x, y), v) && call_ensures(
            Doubles::product,
            (kit, s, t),
            w,
        ) && x.bits <= s.bits <= INFINITY && y.bits <= t.bits <= INFINITY implies v.bits <= w.bits
        <= INFINITY by {
        lemma_product_order(x, y, s, t, v, w);
    }
    assert forall|x: Measure, y: Measure, v: Measure| #[trigger]
        call_ensures(Doubles::product, (kit, x, y), v) && x.bits <= INFINITY && y.bits
            <= INFINITY implies {
        &&& x.bits <= ONE ==> v.bits <= y.bits
        &&& y.bits <= ONE ==> v.bits <= x.bits
        &&& y.bits == ONE ==> v == x
    } by {
        lemma_product_parts(x, y, v);
    }
}

proof fn lemma_product_order(
    x: Measure,
    y: Measure,
    s: Measure,
    t: Measure,
    v: Measure,
    w: Measure,
)
    requires
        is_product(x, y, v),
        is_product(s, t, w),
        x.bits <= s.bits <= INFINITY,
        y.bits <= t.bits <= INFINITY,
    ensures
        v.bits <= w.bits <= INFINITY,
{
    lemma_one();
    lemma_zero();
    let one = pow2(DEPTH as nat);
    if is_number(s) && is_number(t) {
        lemma_units_order(x.bits, s.bits);
        lemma_units_order(y.bits, t.bits);
        let (p, q) = (units(x.bits) * units(y.bits), units(s.bits) * units(t.bits));
        assert(p * one <= q * one) by (nonlinear_arith)
            requires
                p == units(x.bits) * units(y.bits),
                q == units(s.bits) * units(t.bits),
                units(x.bits) <= units(s.bits),
                units(y.bits) <= units(t.bits),
        ;
        lemma_nearest_order(p, one, v.bits, q, one, w.bits);
    } else if is_number(x) && is_number(y) && (x.bits == ZERO || y.bits == ZERO) {
        assert(units(x.bits) * units(y.bits) == 0) by (nonlinear_arith)
            requires
                units(x.bits) == 0 || units(y.bits) == 0,
        ;
        lemma_nothing(one, v.bits);
    }
}

/// A factor of at most one adds nothing, and a factor of one changes nothing.
pub proof fn lemma_product_parts(x: Measure, y: Measure, v: Measure)
    requires
        is_product(x, y, v),
        x.bits <= INFINITY,
        y.bits <= INFINITY,
    ensures
        x.bits <= ONE ==> v.bits <= y.bits,
        y.bits <= ONE ==> v.bits <= x.bits,
        y.bits == ONE ==> v == x,
{
    lemma_one();
    let one = pow2(DEPTH as nat);
    if is_number(x) && is_number(y) {
        let (a, b) = (units(x.bits), units(y.bits));
        if x.bits <= ONE {
            lemma_units_order(x.bits, ONE);
            assert(a * b <= b * one) by (nonlinear_arith)
                requires
                    a <= one,
            ;
            lemma_at_most(a * b, one, v.bits, y.bits);
        }
        if y.bits <= ONE {
            lemma_units_order(y.bits, ONE);
            assert(a * b <= a * one) by (nonlinear_arith)
                requires
                    b <= one,
            ;
            lemma_at_most(a * b, one, v.bits, x.bits);
        }
        if y.bits == ONE {
            lemma_at_least(a * b, one, v.bits, x.bits);
        }
    }
}

proof fn lemma_quotients(kit: &Doubles)
    ensures
        quotients_in_order(kit),
{
    assert forall|x: Measure, y: Measure, s: Measure, t: Measure, v: Measure, w: Measure|
        #![trigger call_ensures(Doubles::quotient, (kit, x, y), v), call_ensures(Doubles::quotient, (kit, s, t), w)]
        call_ensures(Doubles::quotient, (kit, x, y), v) && call_ensures(
            Doubles::quotient,
            (kit, s, t),
            w,
        ) && x.bits <= s.bits <= INFINITY && t.bits <= y.bits <= INFINITY implies v.bits <= w.bits
        <= INFINITY by {
        lemma_quotient_order(x, y, s, t, v, w);
    }
    assert forall|x: Measure, y: Measure, v: Measure| #[trigger]
        call_ensures(Doubles::quotient, (kit, x, y), v) && x.bits <= INFINITY && ONE <= y.bits
            <= INFINITY implies v.bits <= x.bits by {
        lemma_quotient_parts(x, y, v);
    }
}

proof fn lemma_quotient_order(
    x: Measure,
    y: Measure,
    s: Measure,
    t: Measure,
    v: Measure,
    w: Measure,
)
    requires
        is_quotient(x, y, v),
        is_quotient(s, t, w),
        x.bits <= s.bits <= INFINITY,
        t.bits <= y.bits <= INFINITY,
    ensures
        v.bits <= w.bits <= INFINITY,
{
    lemma_one();
    lemma_zero();
    let one = pow2(DEPTH as nat);
    if is_number(x) && is_number(y) && y.bits > ZERO {
        lemma_units_order(ZERO, y.bits);
        let (a, b) = (units(x.bits), units(y.bits));
        if x.bits == ZERO {
            assert(a * one == 0) by (nonlinear_arith)
                requires
                    a == 0,
            ;
            lemma_nothing(b, v.bits);
        }
        if is_number(s) && t.bits > ZERO {
            lemma_units_order(x.bits, s.bits);
            lemma_units_order(t.bits, y.bits);
            lemma_units_order(ZERO, t.bits);
            let (c, d) = (units(s.bits), units(t.bits));
            assert((a * one) * d <= (c * one) * b) by (nonlinear_arith)
                requires
                    a <= c,
                    d <= b,
            ;
            lemma_nearest_order(a * one, b, v.bits, c * one, d, w.bits);
        }
    }
}

proof fn lemma_quotient_parts(x: Measure, y: Measure, v: Measure)
    requires
        is_quotient(x, y, v),
        x.bits <= INFINITY,
        ONE <= y.bits <= INFINITY,
    ensures
        v.bits <= x.bits,
{
    lemma_one();
    let one = pow2(DEPTH as nat);
    if is_number(x) && is_number(y) {
        lemma_units_order(ONE, y.bits);
        let (a, b) = (units(x.bits), units(y.bits));
        assert(a * one <= a * b) by (nonlinear_arith)
            requires
                one <= b,
        ;
        lemma_at_most(a * one, b, v.bits, x.bits);
    }
}

proof fn lemma_gaps(kit: &Doubles)
    ensures
        gaps_in_order(kit),
{
    assert forall|x: Measure, y: Measure, t: Measure, v: Measure, w: Measure|
        #![trigger call_ensures(Doubles::gap, (kit, x, y), v), call_ensures(Doubles::gap, (kit, x, t), w)]
        call_ensures(Doubles::gap, (kit, x, y), v) && call_ensures(Doubles::gap, (kit, x, t), w)
            && t.bits <= y.bits <= x.bits <= INFINITY implies v.bits <= w.bits by {
        lemma_gap_order(x, y, t, v, w);
    }
    assert forall|x: Measure, y: Measure, v: Measure| #[trigger]
        call_ensures(Doubles::gap, (kit, x, y), v) && x.bits <= INFINITY && y.bits
            <= INFINITY implies v.bits <= larger(x, y).bits by {
        lemma_gap_parts(x, y, v);
    }
}

/// What the gap between two numbers is, the first no smaller than the second.
pub proof fn lemma_gap_value(x: Measure, y: Measure, v: Measure)
    requires
        is_gap(x, y, v),
        y.bits <= x.bits < INFINITY,
    ensures
        units(y.bits) <= units(x.bits),
        is_nearest((units(x.bits) - units(y.bits)) as nat, 1, v.bits),
{
    lemma_units_order(y.bits, x.bits);
}

proof fn lemma_gap_order(x: Measure, y: Measure, t: Measure, v: Measure, w: Measure)
    requires
        is_gap(x, y, v),
        is_gap(x, t, w),
        t.bits <= y.bits <= x.bits <= INFINITY,
    ensures
        v.bits <= w.bits,
{
    if is_number(x) {
        lemma_gap_value(x, y, v);
        lemma_gap_value(x, t, w);
        lemma_units_order(t.bits, y.bits);
        lemma_nearest_order(
            (units(x.bits) - units(y.bits)) as nat,
            1,
            v.bits,
            (units(x.bits) - units(t.bits)) as nat,
            1,
            w.bits,
        );
    }
}

proof fn lemma_gap_parts(x: Measure, y: Measure, v: Measure)
    requires
        is_gap(x, y, v),
        x.bits <= INFINITY,
        y.bits <= INFINITY,
    ensures
        v.bits <= larger(x, y).bits,
{
    if is_number(x) && is_number(y) {
        if x.bits <= y.bits {
            lemma_units_order(x.bits, y.bits);
            lemma_at_most((units(y.bits) - units(x.bits)) as nat, 1, v.bits, y.bits);
        } else {
            lemma_units_order(y.bits, x.bits);
            lemma_at_most((units(x.bits) - units(y.bits)) as nat, 1, v.bits, x.bits);
        }
    }
}

/// Rounding doubles to whole numbers keeps the order.
pub proof fn doubles_round_in_order(kit: &Doubles)
    ensures
        rounds_in_order(kit),
{
    lemma_one();
    assert forall|x: Measure, y: Measure, v: u32, w: u32|
        #![trigger call_ensures(Doubles::nearest, (kit, x), v), call_ensures(Doubles::nearest, (kit, y), w)]
        call_ensures(Doubles::nearest, (kit, x), v) && call_ensures(Doubles::nearest, (kit, y), w)
            && x.bits <= y.bits <= INFINITY implies v <= w by {
        assert(v == rounded(x) && w == rounded(y));
        lemma_units_order(x.bits, y.bits);
        let (a, b, one) = (units(x.bits), units(y.bits), pow2(DEPTH as nat));
        assert((2 * a + one) / (2 * one) <= (2 * b + one) / (2 * one)) by (nonlinear_arith)
            requires
                a <= b,
                one > 0,
        ;
    }
}

/// Half of one, and a quarter of one.
proof fn lemma_shares()
    ensures
        2 * units(HALF) == pow2(DEPTH as nat),
        4 * units(QUARTER) == pow2(DEPTH as nat),
        pow2(DEPTH as nat) > 0,
{
    lemma_one();
    lemma_units(FRACTIONS as nat, 1022, ONE);
    lemma_units(FRACTIONS as nat, 1021, HALF);
    lemma_units(FRACTIONS as nat, 1020, QUARTER);
    lemma_pow2_unfold(1022);
    lemma_pow2_unfold(1021);
    lemma_pow2_pos(DEPTH as nat);
    let (one, half, quarter) = (pow2(1022), pow2(1021), pow2(1020));
    let f = FRACTIONS as nat;
    assert(f * one == 2 * (f * half) && f * half == 2 * (f * quarter)) by (nonlinear_arith)
        requires
            one == 2 * half,
            half == 2 * quarter,
    ;
}

/// Arithmetic in doubles tells a measure from half of it, and from what lies a quarter of the way from
/// a smaller measure to it.
pub proof fn doubles_are_discerning(kit: &Doubles)
    ensures
        discerning(kit),
{
    assert forall|x: Measure, v: Measure| #[trigger]
        call_ensures(Doubles::product, (kit, x, Measure { bits: HALF }), v) && ZERO < x.bits
            < INFINITY implies v.bits < x.bits by {
        lemma_half_is_less(x, v);
    }
    assert forall|x: Measure, y: Measure, gap: Measure, step: Measure, v: Measure|
        #![trigger
            call_ensures(Doubles::gap, (kit, y, x), gap),
            call_ensures(Doubles::product, (kit, Measure { bits: QUARTER }, gap), step),
            call_ensures(Doubles::sum, (kit, x, step), v)
        ]
        call_ensures(Doubles::gap, (kit, y, x), gap) && call_ensures(
            Doubles::product,
            (kit, Measure { bits: QUARTER }, gap),
            step,
        ) && call_ensures(Doubles::sum, (kit, x, step), v) && x.bits < y.bits < INFINITY implies v.bits
        < y.bits by {
        lemma_quarter_way(x, y, gap, step, v);
    }
}

proof fn lemma_half_is_less(x: Measure, v: Measure)
    requires
        is_product(x, Measure { bits: HALF }, v),
        ZERO < x.bits < INFINITY,
    ensures
        v.bits < x.bits,
{
    lemma_shares();
    lemma_zero();
    let (a, h, one) = (units(x.bits), units(HALF), pow2(DEPTH as nat));
    assert(a * h <= a * one) by (nonlinear_arith)
        requires
            2 * h == one,
    ;
    lemma_at_most(a * h, one, v.bits, x.bits);
    if v.bits == x.bits {
        let last = units((x.bits - 1) as u64);
        lemma_units_order(ZERO, (x.bits - 1) as u64);
        assert((last + a) * one <= a * one) by (nonlinear_arith)
            requires
                (last + a) * one <= 2 * (a * h),
                2 * h == one,
        ;
        assert(last == 0) by (nonlinear_arith)
            requires
                (last + a) * one <= a * one,
                one > 0,
                last >= 0,
        ;
        assert(x.bits == 1);
        assert((last + a) * one == 2 * (a * h)) by (nonlinear_arith)
            requires
                last == 0,
                2 * h == one,
        ;
    }
}

/// A double above the smallest is at most twice the one before it.
proof fn lemma_doubling(bits: u64)
    requires
        2 <= bits <= INFINITY,
    ensures
        units(bits) <= 2 * units((bits - 1) as u64),
{
    let last = (bits - 1) as u64;
    lemma_parts(last);
    lemma_next(last);
    let (digits, unit) = (significand(last), pow2(shift(last)));
    assert(unit <= digits * unit) by (nonlinear_arith)
        requires
            digits >= 1,
    ;
}

proof fn lemma_quarter_way(x: Measure, y: Measure, gap: Measure, step: Measure, v: Measure)
    requires
        is_gap(y, x, gap),
        is_product(Measure { bits: QUARTER }, gap, step),
        is_sum(x, step, v),
        x.bits < y.bits < INFINITY,
    ensures
        v.bits < y.bits,
{
    lemma_shares();
    lemma_zero();
    lemma_units_order(x.bits, y.bits);
    lemma_gap_parts(y, x, gap);
    lemma_product_parts(Measure { bits: QUARTER }, gap, step);
    let d = (units(y.bits) - units(x.bits)) as nat;
    lemma_gap_value(y, x, gap);
    lemma_small_step(d, gap, step);
    let p = units(x.bits) + units(step.bits);
    lemma_units_order(x.bits, (y.bits - 1) as u64);
    if v.bits >= y.bits {
        lemma_units_order((y.bits - 1) as u64, (v.bits - 1) as u64);
        lemma_units_order(y.bits, v.bits);
    }
}

/// A quarter of what lies between is less than half of it, rounded twice as it is.
proof fn lemma_small_step(d: nat, gap: Measure, step: Measure)
    requires
        d > 0,
        is_nearest(d, 1, gap.bits),
        is_product(Measure { bits: QUARTER }, gap, step),
        is_number(gap),
    ensures
        2 * units(step.bits) < d,
{
    lemma_shares();
    lemma_zero();
    let (b, quarter, one) = (units(gap.bits), units(QUARTER), pow2(DEPTH as nat));
    let c = units(step.bits);
    if step.bits > 0 {
        let last = units((step.bits - 1) as u64);
        assert(4 * (last + c) <= 2 * b && (4 * (last + c) == 2 * b ==> step.bits % 2 == 0)) by {
            let below = (last + c) * one;
            assert(below < 2 * (quarter * b) || (below == 2 * (quarter * b) && step.bits % 2 == 0));
            assert(4 * (last + c) <= 2 * b && (4 * (last + c) == 2 * b ==> below == 2 * (quarter
                * b))) by (nonlinear_arith)
                requires
                    below == (last + c) * one,
                    below <= 2 * (quarter * b),
                    4 * quarter == one,
                    one > 0,
            ;
        }
        lemma_units_order(1, step.bits);
        lemma_smallest();
        assert(gap.bits > 1) by {
            if gap.bits <= 1 {
                lemma_units_order(gap.bits, 1);
            }
        }
        let before = units((gap.bits - 1) as u64);
        lemma_doubling(gap.bits);
        assert((before + b) * 1 <= 2 * d);
        if step.bits == 1 {
            assert(units((step.bits - 1) as u64) == units(0));
            assert(last == 0 && c == 1);
        } else {
            lemma_doubling(step.bits);
        }
    }
}

} // verus!
