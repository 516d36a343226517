//! How close arithmetic in doubles comes to arithmetic with numbers.

use vstd::arithmetic::power2::{
    lemma2_to64, lemma2_to64_rest, lemma_pow2_adds, lemma_pow2_pos, lemma_pow2_strictly_increases,
    pow2,
};
use vstd::prelude::*;

use crate::double_laws::{lemma_count_bounds, lemma_gap_value, lemma_small_count};
use crate::doubles::{
    is_count, is_gap, is_number, is_product, is_quotient, is_sum, lemma_shift_order, lemma_zero,
    Doubles,
};
use crate::formula::{constant, Formula};
use crate::measure::{
    larger, smaller, Arithmetic, Measure, EPSILON, FOUR, HALF, INFINITY, ONE, QUARTER, SIXTY_FOUR,
    THOUSAND, THREE, TWO, ZERO,
};
use crate::quality::{STEADY_WEIGHT, VOLATILITY_LIFT};
use crate::registry::HOUR;
use crate::rounding::{
    is_nearest, lemma_at_least, lemma_at_most, lemma_next, lemma_one, lemma_parts, lemma_units,
    lemma_units_order, shift, significand, units, DEPTH, FRACTIONS,
};
use crate::scoring::{
    CLEARLY_WORSE, CONFIDENT_SHARE, DRIFT_FLOOR, MILD_PENALTY, PRESSURE_SHARE, UNSAMPLED_SHARE,
};

verus! {

/// The number that a measure stands for.
pub open spec fn number(m: Measure) -> real {
    (units(m.bits) as real) / (pow2(DEPTH as nat) as real)
}

/// By what share of itself a result is rounded at most.
pub open spec fn slip() -> real {
    1real / 4503599627370496real
}

/// The smallest double above zero.
pub open spec fn dust() -> real {
    1real / (pow2(DEPTH as nat) as real)
}

/// Whether `v` differs from `x` by no more than `n` slips of it.
pub open spec fn like(v: real, x: real, n: real) -> bool {
    &&& x >= 0real
    &&& x - n * (slip() * x) <= v <= x + n * (slip() * x)
}

/// Whether `v` differs from `x` by no more than `n` slips of it, and as many grains of dust.
pub open spec fn near(v: real, x: real, n: real) -> bool {
    &&& x >= 0real
    &&& x - n * (slip() * x + dust()) <= v <= x + n * (slip() * x + dust())
}

/// How small slips and dust are.
pub proof fn lemma_grains()
    ensures
        slip() * 4503599627370496real == 1real,
        0real < slip(),
        0real < dust() <= (slip() * slip()) * (slip() * slip()),
        dust() <= slip() * slip(),
        dust() <= slip(),
        (pow2(DEPTH as nat) as real) * dust() == 1real,
        pow2(DEPTH as nat) as real >= 1real,
{
    lemma_one();
    lemma2_to64_rest();
    lemma_pow2_adds(52, 52);
    lemma_pow2_adds(104, 104);
    lemma_pow2_adds(208, 866);
    lemma_pow2_pos(866);
    let one = pow2(DEPTH as nat) as real;
    let big = 4503599627370496real;
    let (wide, wider) = (pow2(104), pow2(208));
    assert(wide as real == big * big) by (nonlinear_arith)
        requires
            wide == pow2(52) * pow2(52),
            pow2(52) == 0x10_0000_0000_0000,
            big == 4503599627370496real,
    ;
    assert(wider as real == (big * big) * (big * big)) by (nonlinear_arith)
        requires
            wider == wide * wide,
            wide as real == big * big,
    ;
    assert(pow2(DEPTH as nat) >= wider) by (nonlinear_arith)
        requires
            pow2(DEPTH as nat) == wider * pow2(866),
            pow2(866) >= 1,
            wider >= 0,
    ;
    let w = big * big;
    assert(w >= 1real) by (nonlinear_arith)
        requires
            w == big * big,
            big == 4503599627370496real,
    ;
    assert(one >= w * w && w * w >= w) by (nonlinear_arith)
        requires
            one >= wider as real,
            wider as real == w * w,
            w >= 1real,
    ;
    assert(dust() * one == 1real) by (nonlinear_arith)
        requires
            dust() == 1real / one,
            one >= 1real,
    ;
    let s = slip() * slip();
    assert(s * w == 1real) by (nonlinear_arith)
        requires
            s == slip() * slip(),
            w == big * big,
            slip() * big == 1real,
    ;
    assert(0real < dust() <= s * s && s * s <= s) by (nonlinear_arith)
        requires
            dust() * one == 1real,
            one >= w * w,
            s * w == 1real,
            w >= 1real,
    ;
    assert(s <= slip()) by (nonlinear_arith)
        requires
            s == slip() * slip(),
            slip() * big == 1real,
            big == 4503599627370496real,
    ;
}

/// The nearest double is off by a slip of the number, or by one at most.
proof fn lemma_off(p: nat, q: nat, bits: u64)
    requires
        q > 0,
        is_nearest(p, q, bits),
        bits < INFINITY,
    ensures
        ({
            let (u, x) = (units(bits) as real, (p as real) / (q as real));
            x - (slip() * x + 1real) <= u <= x + (slip() * x + 1real)
        }),
{
    lemma_grains();
    let (u, x) = (units(bits) as real, (p as real) / (q as real));
    let (a, b) = (p as real, q as real);
    assert(x * b == a && x >= 0real) by (nonlinear_arith)
        requires
            x == a / b,
            b > 0real,
            a >= 0real,
    ;
    let g = pow2(shift(bits));
    let next = units((bits + 1) as u64);
    lemma_next(bits);
    lemma_pow2_pos(shift(bits));
    lemma_parts(bits);
    let w = units(bits);
    // On either side it is half a last place at most.
    assert(2 * p <= 2 * (w * q) + g * q) by (nonlinear_arith)
        requires
            2 * p <= (w + next) * q,
            next == w + g,
    ;
    assert(2 * (w * q) <= 2 * p + g * q) by {
        if bits > 0 {
            let last = (bits - 1) as u64;
            lemma_next(last);
            lemma_shift_order(last, bits);
            if shift(last) < shift(bits) {
                lemma_pow2_strictly_increases(shift(last), shift(bits));
            }
            let (l, h) = (units(last), pow2(shift(last)));
            assert(2 * (w * q) <= 2 * p + g * q) by (nonlinear_arith)
                requires
                    (l + w) * q <= 2 * p,
                    w == l + h,
                    h <= g,
            ;
        } else {
            lemma_zero();
            assert(w * q == 0 && g * q >= 0) by (nonlinear_arith)
                requires
                    w == 0,
                    g >= 0,
            ;
        }
    }
    let (gr, ur) = (g as real, w as real);
    assert((w * q) as real == ur * b) by (nonlinear_arith)
        requires
            ur == w as real,
            b == q as real,
    ;
    assert((g * q) as real == gr * b) by (nonlinear_arith)
        requires
            gr == g as real,
            b == q as real,
    ;
    assert(2real * a <= 2real * (ur * b) + gr * b);
    assert(2real * (ur * b) <= 2real * a + gr * b);
    assert(2real * x <= 2real * ur + gr && 2real * ur <= 2real * x + gr) by (nonlinear_arith)
        requires
            2real * a <= 2real * (ur * b) + gr * b,
            2real * (ur * b) <= 2real * a + gr * b,
            x * b == a,
            b > 0real,
    ;
    if shift(bits) == 0 {
        lemma2_to64();
        assert(gr == 1real);
        assert(slip() * x >= 0real) by (nonlinear_arith)
            requires
                slip() > 0real,
                x >= 0real,
        ;
    } else {
        let f = 4503599627370496real;
        assert(ur >= f * gr) by {
            assert(w >= FRACTIONS * g) by (nonlinear_arith)
                requires
                    w == significand(bits) * g,
                    significand(bits) >= FRACTIONS,
            ;
            assert((FRACTIONS * g) as real == f * gr) by (nonlinear_arith)
                requires
                    FRACTIONS == 4503599627370496u64,
                    f == 4503599627370496real,
                    gr == g as real,
            ;
        }
        // A last place is a slip of the double at most, and half of it a slip of the number.
        assert(gr <= 2real * (slip() * x)) by (nonlinear_arith)
            requires
                ur >= f * gr,
                2real * ur <= 2real * x + gr,
                slip() * f == 1real,
                slip() > 0real,
                f == 4503599627370496real,
                gr >= 0real,
        ;
    }
}

/// A number from units.
pub proof fn lemma_number(m: Measure)
    ensures
        number(m) >= 0real,
        number(m) * (pow2(DEPTH as nat) as real) == units(m.bits) as real,
        number(m) == (units(m.bits) as real) * dust(),
{
    lemma_grains();
    let (one, u) = (pow2(DEPTH as nat) as real, units(m.bits) as real);
    assert(u / one >= 0real && (u / one) * one == u && u / one == u * dust()) by (nonlinear_arith)
        requires
            one >= 1real,
            u >= 0real,
            one * dust() == 1real,
    ;
}

/// Measures order as their numbers do.
pub proof fn lemma_number_order(a: Measure, b: Measure)
    ensures
        number(a) >= 0real,
        number(b) >= 0real,
        a.bits <= b.bits <==> number(a) <= number(b),
        a.bits < b.bits <==> number(a) < number(b),
{
    lemma_grains();
    lemma_number(a);
    lemma_number(b);
    let (u, v, d) = (units(a.bits) as real, units(b.bits) as real, dust());
    if a.bits < b.bits {
        lemma_units_order(a.bits, b.bits);
        assert(u < v);
        assert(u * d < v * d) by (nonlinear_arith)
            requires
                u < v,
                d > 0real,
        ;
    } else if b.bits < a.bits {
        lemma_units_order(b.bits, a.bits);
        assert(v < u);
        assert(v * d < u * d) by (nonlinear_arith)
            requires
                v < u,
                d > 0real,
        ;
    }
}

/// The nearest double, as a number.
proof fn lemma_close(p: nat, q: nat, r: Measure, x: real)
    requires
        q > 0,
        is_nearest(p, q, r.bits),
        is_number(r),
        x * (pow2(DEPTH as nat) as real) == (p as real) / (q as real),
    ensures
        near(number(r), x, 1real),
{
    lemma_grains();
    lemma_off(p, q, r.bits);
    lemma_number(r);
    let (one, d, s) = (pow2(DEPTH as nat) as real, dust(), slip());
    let (u, y, v) = (units(r.bits) as real, (p as real) / (q as real), number(r));
    assert(y >= 0real) by (nonlinear_arith)
        requires
            y == (p as real) / (q as real),
            p as real >= 0real,
            q as real > 0real,
    ;
    assert(x >= 0real && x - 1real * (s * x + d) <= v <= x + 1real * (s * x + d)) by (nonlinear_arith)
        requires
            x * one == y,
            y >= 0real,
            one >= 1real,
            one * d == 1real,
            v * one == u,
            y - (s * y + 1real) <= u <= y + (s * y + 1real),
    ;
}

/// What is no more than a double is rounded to no more, and so to a number.
proof fn lemma_capped(p: nat, q: nat, r: Measure, bound: Measure, x: real)
    requires
        q > 0,
        is_nearest(p, q, r.bits),
        x * (pow2(DEPTH as nat) as real) == (p as real) / (q as real),
        x <= number(bound),
        is_number(bound),
    ensures
        r.bits <= bound.bits,
{
    lemma_grains();
    lemma_number(bound);
    let one = pow2(DEPTH as nat) as real;
    let (a, b, u) = (p as real, q as real, units(bound.bits) as real);
    assert(a <= u * b) by (nonlinear_arith)
        requires
            x * one == a / b,
            b > 0real,
            x <= number(bound),
            number(bound) * one == u,
            one >= 1real,
    ;
    assert((units(bound.bits) * q) as real == u * b) by (nonlinear_arith)
        requires
            u == units(bound.bits) as real,
            b == q as real,
    ;
    assert(p <= units(bound.bits) * q);
    lemma_at_most(p, q, r.bits, bound.bits);
}

/// What is no less than a double is rounded to no less.
proof fn lemma_raised(p: nat, q: nat, r: Measure, bound: Measure, x: real)
    requires
        q > 0,
        is_nearest(p, q, r.bits),
        x * (pow2(DEPTH as nat) as real) == (p as real) / (q as real),
        x >= number(bound),
        is_number(bound),
    ensures
        r.bits >= bound.bits,
{
    lemma_grains();
    lemma_number(bound);
    let one = pow2(DEPTH as nat) as real;
    let (a, b, u) = (p as real, q as real, units(bound.bits) as real);
    assert(a >= u * b) by (nonlinear_arith)
        requires
            x * one == a / b,
            b > 0real,
            x >= number(bound),
            number(bound) * one == u,
            one >= 1real,
    ;
    assert((units(bound.bits) * q) as real == u * b) by (nonlinear_arith)
        requires
            u == units(bound.bits) as real,
            b == q as real,
    ;
    assert(p >= units(bound.bits) * q);
    lemma_at_least(p, q, r.bits, bound.bits);
}

/// A sum is close to that of the numbers.
pub proof fn lemma_sum_number(a: Measure, b: Measure, r: Measure, bound: Measure)
    requires
        is_sum(a, b, r),
        is_number(a),
        is_number(b),
        is_number(bound),
        number(a) + number(b) <= number(bound),
    ensures
        r.bits <= bound.bits,
        r.bits >= a.bits,
        r.bits >= b.bits,
        near(number(r), number(a) + number(b), 1real),
{
    lemma_number(a);
    lemma_number(b);
    let one = pow2(DEPTH as nat) as real;
    let p = units(a.bits) + units(b.bits);
    let x = number(a) + number(b);
    assert(x * one == (p as real) / (1nat as real)) by {
        assert(x * one == number(a) * one + number(b) * one) by (nonlinear_arith)
            requires
                x == number(a) + number(b),
        ;
    }
    lemma_capped(p, 1, r, bound, x);
    lemma_raised(p, 1, r, a, x);
    lemma_raised(p, 1, r, b, x);
    lemma_close(p, 1, r, x);
}

/// A sum that is a number is close to that of the numbers.
pub proof fn lemma_sum_close(a: Measure, b: Measure, r: Measure)
    requires
        is_sum(a, b, r),
        is_number(a),
        is_number(b),
        is_number(r),
    ensures
        r.bits >= a.bits,
        r.bits >= b.bits,
        near(number(r), number(a) + number(b), 1real),
{
    lemma_number(a);
    lemma_number(b);
    let one = pow2(DEPTH as nat) as real;
    let p = units(a.bits) + units(b.bits);
    let x = number(a) + number(b);
    assert(x * one == (p as real) / (1nat as real)) by {
        assert(x * one == number(a) * one + number(b) * one) by (nonlinear_arith)
            requires
                x == number(a) + number(b),
        ;
    }
    lemma_raised(p, 1, r, a, x);
    lemma_raised(p, 1, r, b, x);
    lemma_close(p, 1, r, x);
}

/// A gap is close to that of the numbers.
pub proof fn lemma_gap_number(a: Measure, b: Measure, r: Measure)
    requires
        is_gap(a, b, r),
        b.bits <= a.bits < INFINITY,
    ensures
        r.bits <= a.bits,
        near(number(r), number(a) - number(b), 1real),
{
    lemma_gap_value(a, b, r);
    lemma_number(a);
    lemma_number(b);
    lemma_number_order(b, a);
    let one = pow2(DEPTH as nat) as real;
    let p = (units(a.bits) - units(b.bits)) as nat;
    let x = number(a) - number(b);
    assert(x * one == (p as real) / (1nat as real)) by {
        assert(x * one == number(a) * one - number(b) * one) by (nonlinear_arith)
            requires
                x == number(a) - number(b),
        ;
    }
    lemma_capped(p, 1, r, a, x);
    lemma_close(p, 1, r, x);
}

/// A product is close to that of the numbers.
pub proof fn lemma_product_number(a: Measure, b: Measure, r: Measure, bound: Measure)
    requires
        is_product(a, b, r),
        is_number(a),
        is_number(b),
        is_number(bound),
        number(a) * number(b) <= number(bound),
    ensures
        r.bits <= bound.bits,
        near(number(r), number(a) * number(b), 1real),
{
    lemma_one();
    lemma_grains();
    lemma_number(a);
    lemma_number(b);
    let one = pow2(DEPTH as nat) as real;
    let (u, v) = (units(a.bits) as real, units(b.bits) as real);
    let p = units(a.bits) * units(b.bits);
    let x = number(a) * number(b);
    assert(p as real == u * v) by (nonlinear_arith)
        requires
            p == units(a.bits) * units(b.bits),
            u == units(a.bits) as real,
            v == units(b.bits) as real,
    ;
    assert(x * one == (p as real) / one) by (nonlinear_arith)
        requires
            p as real == u * v,
            number(a) * one == u,
            number(b) * one == v,
            x == number(a) * number(b),
            one >= 1real,
    ;
    lemma_capped(p, pow2(DEPTH as nat), r, bound, x);
    lemma_close(p, pow2(DEPTH as nat), r, x);
}

/// A quotient is close to that of the numbers.
pub proof fn lemma_quotient_number(a: Measure, b: Measure, r: Measure, bound: Measure)
    requires
        is_quotient(a, b, r),
        is_number(a),
        is_number(b),
        b.bits > ZERO,
        is_number(bound),
    ensures
        number(b) > 0real,
        number(a) / number(b) <= number(bound) ==> {
            &&& r.bits <= bound.bits
            &&& near(number(r), number(a) / number(b), 1real)
        },
        number(a) / number(b) >= number(bound) ==> r.bits >= bound.bits,
{
    lemma_one();
    lemma_grains();
    lemma_number(a);
    lemma_number(b);
    lemma_units_order(ZERO, b.bits);
    let one = pow2(DEPTH as nat) as real;
    let (u, v) = (units(a.bits) as real, units(b.bits) as real);
    let p = units(a.bits) * pow2(DEPTH as nat);
    assert(v > 0real);
    assert(number(b) > 0real) by (nonlinear_arith)
        requires
            number(b) * one == v,
            v > 0real,
            number(b) >= 0real,
    ;
    assert(p as real == u * one) by (nonlinear_arith)
        requires
            p == units(a.bits) * pow2(DEPTH as nat),
            u == units(a.bits) as real,
            one == pow2(DEPTH as nat) as real,
    ;
    let x = number(a) / number(b);
    assert(x * number(b) == number(a)) by (nonlinear_arith)
        requires
            x == number(a) / number(b),
            number(b) > 0real,
    ;
    assert(x * one == (p as real) / v) by (nonlinear_arith)
        requires
            p as real == u * one,
            number(a) * one == u,
            number(b) * one == v,
            x * number(b) == number(a),
            v > 0real,
            one >= 1real,
    ;
    if x <= number(bound) {
        lemma_capped(p, units(b.bits), r, bound, x);
        lemma_close(p, units(b.bits), r, x);
    }
    if x >= number(bound) {
        lemma_raised(p, units(b.bits), r, bound, x);
    }
}

/// The bit pattern of two to the hundredth.
pub const VAST: u64 = 0x4630_0000_0000_0000;

/// There are large doubles.
pub proof fn lemma_vast()
    ensures
        number(Measure { bits: VAST }) == 1267650600228229401496703205376real,
{
    let vast = Measure { bits: VAST };
    lemma_grains();
    lemma2_to64_rest();
    lemma2_to64();
    lemma_units(FRACTIONS as nat, 1122, VAST);
    lemma_pow2_adds(52, 1122);
    lemma_pow2_adds(100, 1074);
    lemma_pow2_adds(50, 50);
    lemma_number(vast);
    let (one, n) = (pow2(DEPTH as nat) as real, number(vast));
    assert(pow2(100) == 1267650600228229401496703205376) by (nonlinear_arith)
        requires
            pow2(100) == pow2(50) * pow2(50),
            pow2(50) == 0x4_0000_0000_0000,
    ;
    assert(n == 1267650600228229401496703205376real) by (nonlinear_arith)
        requires
            n * one == units(VAST) as real,
            units(VAST) == pow2(100) * pow2(DEPTH as nat),
            pow2(100) == 1267650600228229401496703205376,
            one == pow2(DEPTH as nat) as real,
            one >= 1real,
    ;
}

/// The bit pattern of two to the hundred and fourth.
pub const VASTER: u64 = 0x4670_0000_0000_0000;

/// There are larger doubles yet.
pub proof fn lemma_vaster()
    ensures
        number(Measure { bits: VASTER }) == 20282409603651670423947251286016real,
{
    let vaster = Measure { bits: VASTER };
    lemma_grains();
    lemma2_to64_rest();
    lemma2_to64();
    lemma_units(FRACTIONS as nat, 1126, VASTER);
    lemma_pow2_adds(52, 1126);
    lemma_pow2_adds(104, 1074);
    lemma_pow2_adds(52, 52);
    lemma_number(vaster);
    let (one, n) = (pow2(DEPTH as nat) as real, number(vaster));
    assert(pow2(104) == 20282409603651670423947251286016) by (nonlinear_arith)
        requires
            pow2(104) == pow2(52) * pow2(52),
            pow2(52) == 0x10_0000_0000_0000,
    ;
    assert(n == 20282409603651670423947251286016real) by (nonlinear_arith)
        requires
            n * one == units(VASTER) as real,
            units(VASTER) == pow2(104) * pow2(DEPTH as nat),
            pow2(104) == 20282409603651670423947251286016,
            one == pow2(DEPTH as nat) as real,
            one >= 1real,
    ;
}

/// A count is close to the number.
pub proof fn lemma_count_number(n: u64, r: Measure)
    requires
        is_count(n, r),
    ensures
        is_number(r),
        like(number(r), n as real, 2real),
        n == 0 ==> r.bits == ZERO,
        n >= 1 ==> r.bits >= ONE,
        n <= 0x20_0000_0000_0000 ==> number(r) == n as real,
{
    lemma_one();
    lemma_grains();
    lemma2_to64();
    let one = pow2(DEPTH as nat) as real;
    let p = n as nat * pow2(DEPTH as nat);
    let x = n as real;
    assert(p as real == x * one) by (nonlinear_arith)
        requires
            p == n as nat * pow2(DEPTH as nat),
            x == n as real,
            one == pow2(DEPTH as nat) as real,
    ;
    // Two to the sixty-fourth is a double.
    let top = Measure { bits: 0x43F0_0000_0000_0000 };
    lemma_units(FRACTIONS as nat, 1086, top.bits);
    lemma2_to64_rest();
    lemma_pow2_adds(64, 1074);
    lemma_pow2_adds(52, 1086);
    lemma_number(top);
    assert(number(top) == 18446744073709551616real) by (nonlinear_arith)
        requires
            number(top) * one == units(top.bits) as real,
            units(top.bits) == pow2(64) * pow2(DEPTH as nat),
            pow2(64) == 0x1_0000_0000_0000_0000,
            one == pow2(DEPTH as nat) as real,
            one >= 1real,
    ;
    lemma_capped(p, 1, r, top, x);
    lemma_close(p, 1, r, x);
    lemma_count_bounds(n, r);
    if n > 0 {
        assert(x >= 1real);
        assert(dust() <= slip() * x) by (nonlinear_arith)
            requires
                dust() <= slip() * slip(),
                slip() * 4503599627370496real == 1real,
                slip() > 0real,
                x >= 1real,
        ;
    }
    if n <= 0x20_0000_0000_0000 {
        lemma_small_count(n, r);
        lemma_number(r);
        assert(number(r) == x) by (nonlinear_arith)
            requires
                number(r) * one == p as real,
                p as real == x * one,
                one >= 1real,
        ;
    }
}

/// Whether `v` is no further from `x` than a tolerance.
pub open spec fn around(v: real, x: real, tolerance: real) -> bool {
    x - tolerance <= v <= x + tolerance
}

/// The parts of a sum.
pub proof fn lemma_summands(kit: &Doubles, f: Formula, g: Formula, v: Measure) -> (parts: (
    Measure,
    Measure,
))
    requires
        f.plus(g).gives(kit, v),
    ensures
        f.gives(kit, parts.0),
        g.gives(kit, parts.1),
        is_sum(parts.0, parts.1, v),
{
    choose|x: Measure, y: Measure|
        f.gives(kit, x) && g.gives(kit, y) && #[trigger] call_ensures(Doubles::sum, (kit, x, y), v)
}

/// The parts of a gap.
pub proof fn lemma_ends(kit: &Doubles, f: Formula, g: Formula, v: Measure) -> (parts: (
    Measure,
    Measure,
))
    requires
        f.off(g).gives(kit, v),
    ensures
        f.gives(kit, parts.0),
        g.gives(kit, parts.1),
        is_gap(parts.0, parts.1, v),
{
    choose|x: Measure, y: Measure|
        f.gives(kit, x) && g.gives(kit, y) && #[trigger] call_ensures(Doubles::gap, (kit, x, y), v)
}

/// The parts of a product.
pub proof fn lemma_factors(kit: &Doubles, f: Formula, g: Formula, v: Measure) -> (parts: (
    Measure,
    Measure,
))
    requires
        f.times(g).gives(kit, v),
    ensures
        f.gives(kit, parts.0),
        g.gives(kit, parts.1),
        is_product(parts.0, parts.1, v),
{
    choose|x: Measure, y: Measure|
        f.gives(kit, x) && g.gives(kit, y) && #[trigger] call_ensures(
            Doubles::product,
            (kit, x, y),
            v,
        )
}

/// The parts of a quotient.
pub proof fn lemma_fraction(kit: &Doubles, f: Formula, g: Formula, v: Measure) -> (parts: (
    Measure,
    Measure,
))
    requires
        f.over(g).gives(kit, v),
    ensures
        f.gives(kit, parts.0),
        g.gives(kit, parts.1),
        is_quotient(parts.0, parts.1, v),
{
    choose|x: Measure, y: Measure|
        f.gives(kit, x) && g.gives(kit, y) && #[trigger] call_ensures(
            Doubles::quotient,
            (kit, x, y),
            v,
        )
}

/// What the larger of two is the larger of.
pub proof fn lemma_larger_of(kit: &Doubles, f: Formula, g: Formula, v: Measure) -> (parts: (
    Measure,
    Measure,
))
    requires
        f.at_least(g).gives(kit, v),
    ensures
        f.gives(kit, parts.0),
        g.gives(kit, parts.1),
        v == larger(parts.0, parts.1),
{
    choose|x: Measure, y: Measure|
        f.gives(kit, x) && g.gives(kit, y) && v == #[trigger] larger(x, y)
}

/// What the smaller of two is the smaller of.
pub proof fn lemma_smaller_of(kit: &Doubles, f: Formula, g: Formula, v: Measure) -> (parts: (
    Measure,
    Measure,
))
    requires
        f.at_most(g).gives(kit, v),
    ensures
        f.gives(kit, parts.0),
        g.gives(kit, parts.1),
        v == smaller(parts.0, parts.1),
{
    choose|x: Measure, y: Measure|
        f.gives(kit, x) && g.gives(kit, y) && v == #[trigger] smaller(x, y)
}

/// What is held between two constants.
pub proof fn lemma_held(kit: &Doubles, f: Formula, low: u64, high: u64, v: Measure) -> (held: Measure)
    requires
        f.between(low, high).gives(kit, v),
    ensures
        f.gives(kit, held),
        v == smaller(larger(held, Measure { bits: low }), Measure { bits: high }),
{
    let (x, _) = lemma_smaller_of(kit, f.at_least(constant(low)), constant(high), v);
    let (y, _) = lemma_larger_of(kit, f, constant(low), x);
    y
}

/// A double of some digits is those digits over a power of two.
proof fn lemma_digits(digits: nat, places: nat, bits: u64, scale: real)
    requires
        scale == pow2((DEPTH - places) as nat) as real,
        FRACTIONS <= digits < 2 * FRACTIONS,
        places * FRACTIONS + digits == bits,
        places <= DEPTH,
        bits <= INFINITY,
    ensures
        number(Measure { bits }) * scale == digits as real,
{
    let m = Measure { bits };
    lemma_number(m);
    lemma_grains();
    lemma_units(digits, places, bits);
    let rest = (DEPTH - places) as nat;
    lemma_pow2_adds(rest, places);
    lemma_pow2_pos(places);
    let (r, p, d) = (pow2(rest) as real, pow2(places) as real, digits as real);
    let one = pow2(DEPTH as nat) as real;
    assert(one == r * p) by (nonlinear_arith)
        requires
            pow2(DEPTH as nat) == pow2(rest) * pow2(places),
            one == pow2(DEPTH as nat) as real,
            r == pow2(rest) as real,
            p == pow2(places) as real,
    ;
    assert((digits * pow2(places)) as real == d * p) by (nonlinear_arith)
        requires
            d == digits as real,
            p == pow2(places) as real,
    ;
    let n = number(m);
    assert(n * r == d) by (nonlinear_arith)
        requires
            n * one == d * p,
            one == r * p,
            p >= 1real,
    ;
}

/// What the constants of the models stand for.
pub proof fn lemma_whole_constants()
    ensures
        number(Measure { bits: ZERO }) == 0real,
        number(Measure { bits: QUARTER }) * 4real == 1real,
        number(Measure { bits: HALF }) * 2real == 1real,
        number(Measure { bits: ONE }) == 1real,
        number(Measure { bits: TWO }) == 2real,
        number(Measure { bits: THREE }) == 3real,
        number(Measure { bits: FOUR }) == 4real,
        number(Measure { bits: SIXTY_FOUR }) == 64real,
        number(Measure { bits: THOUSAND }) == 1000real,
        number(Measure { bits: EPSILON }) == slip(),
{
    lemma2_to64();
    lemma2_to64_rest();
    lemma_zero();
    lemma_number(Measure { bits: ZERO });
    lemma_grains();
    assert(number(Measure { bits: ZERO }) == 0real) by (nonlinear_arith)
        requires
            number(Measure { bits: ZERO }) == 0real * dust(),
    ;
    let f = FRACTIONS as nat;
    lemma_digits(f, 1020, QUARTER, 18014398509481984real);
    lemma_digits(f, 1021, HALF, 9007199254740992real);
    lemma_digits(f, 1022, ONE, 4503599627370496real);
    lemma_digits(f, 1023, TWO, 2251799813685248real);
    lemma_digits(0x18_0000_0000_0000, 1023, THREE, 2251799813685248real);
    lemma_digits(f, 1024, FOUR, 1125899906842624real);
    lemma_digits(f, 1028, SIXTY_FOUR, 70368744177664real);
    lemma_digits(0x1F_4000_0000_0000, 1031, THOUSAND, 8796093022208real);
    lemma_pow2_adds(52, 52);
    let wide = pow2(104) as real;
    lemma_digits(f, 970, EPSILON, wide);
    assert(pow2(104) == 0x10_0000_0000_0000 * 0x10_0000_0000_0000) by (nonlinear_arith)
        requires
            pow2(104) == pow2(52) * pow2(52),
            pow2(52) == 0x10_0000_0000_0000,
    ;
    let big = 4503599627370496real;
    let e = number(Measure { bits: EPSILON });
    assert(e == slip()) by (nonlinear_arith)
        requires
            e * wide == big,
            wide == big * big,
            big == 4503599627370496real,
            slip() * big == 1real,
    ;
}

/// A double of some digits below one is close to what its digits come to.
pub proof fn lemma_decimals()
    ensures
        around(number(Measure { bits: DRIFT_FLOOR }), 1real / 10real, slip()),
        around(number(Measure { bits: CLEARLY_WORSE }), 4real / 5real, slip()),
        around(number(Measure { bits: MILD_PENALTY }), 17real / 20real, slip()),
        around(number(Measure { bits: UNSAMPLED_SHARE }), 3real / 10real, slip()),
        around(number(Measure { bits: CONFIDENT_SHARE }), 7real / 10real, slip()),
        number(Measure { bits: UNSAMPLED_SHARE }) + number(Measure { bits: CONFIDENT_SHARE }) <= 1real,
        around(number(Measure { bits: PRESSURE_SHARE }), 2real / 5real, slip()),
        around(number(Measure { bits: STEADY_WEIGHT }), 3real / 20real, slip()),
        around(number(Measure { bits: VOLATILITY_LIFT }), 9real / 20real, slip()),
{
    lemma_grains();
    lemma2_to64_rest();
    lemma_digits(0x19_9999_9999_999A, 1018, DRIFT_FLOOR, 72057594037927936real);
    lemma_digits(0x19_9999_9999_999A, 1021, CLEARLY_WORSE, 9007199254740992real);
    lemma_digits(0x1B_3333_3333_3333, 1021, MILD_PENALTY, 9007199254740992real);
    lemma_digits(0x13_3333_3333_3333, 1020, UNSAMPLED_SHARE, 18014398509481984real);
    lemma_digits(0x16_6666_6666_6666, 1021, CONFIDENT_SHARE, 9007199254740992real);
    lemma_digits(0x19_9999_9999_999A, 1020, PRESSURE_SHARE, 18014398509481984real);
    lemma_digits(0x13_3333_3333_3333, 1019, STEADY_WEIGHT, 36028797018963968real);
    lemma_digits(0x1C_CCCC_CCCC_CCCC, 1020, VOLATILITY_LIFT, 18014398509481984real);
}

/// What the seconds of an hour stand for.
pub proof fn lemma_hour()
    ensures
        number(Measure { bits: HOUR }) == 3600real,
{
    lemma2_to64_rest();
    lemma_digits(0x1C_2000_0000_0000, 1033, HOUR, 2199023255552real);
}

/// A product of two shares is close to that of what they are close to.
pub proof fn lemma_share_product(
    a: Measure,
    b: Measure,
    r: Measure,
    x: real,
    y: real,
    s: real,
    t: real,
)
    requires
        is_product(a, b, r),
        a.bits <= ONE,
        b.bits <= ONE,
        around(number(a), x, s),
        around(number(b), y, t),
        0real <= x <= 1real,
    ensures
        r.bits <= ONE,
        around(number(r), x * y, s + t + 2real * slip()),
{
    let one = Measure { bits: ONE };
    lemma_whole_constants();
    lemma_grains();
    lemma_number_order(a, one);
    lemma_number_order(b, one);
    let (u, v, d) = (number(a), number(b), slip());
    assert(0real <= u * v <= 1real) by (nonlinear_arith)
        requires
            0real <= u <= 1real,
            0real <= v <= 1real,
    ;
    lemma_product_number(a, b, r, one);
    assert(x * y - s - t <= u * v <= x * y + s + t) by (nonlinear_arith)
        requires
            0real <= v <= 1real,
            0real <= x <= 1real,
            x - s <= u <= x + s,
            y - t <= v <= y + t,
            s >= 0real,
            t >= 0real,
    ;
    assert(d * (u * v) <= d && 0real <= d * (u * v) && d * d <= d) by (nonlinear_arith)
        requires
            0real <= u * v <= 1real,
            0real < d <= 1real,
    ;
}

/// A sum of two shares is close to that of what they are close to.
pub proof fn lemma_share_sum(
    a: Measure,
    b: Measure,
    r: Measure,
    x: real,
    y: real,
    s: real,
    t: real,
)
    requires
        is_sum(a, b, r),
        a.bits <= ONE,
        b.bits <= ONE,
        around(number(a), x, s),
        around(number(b), y, t),
    ensures
        r.bits <= TWO,
        number(a) + number(b) <= 1real ==> r.bits <= ONE,
        around(number(r), x + y, s + t + 3real * slip()),
{
    let (one, two) = (Measure { bits: ONE }, Measure { bits: TWO });
    lemma_whole_constants();
    lemma_grains();
    lemma_number_order(a, one);
    lemma_number_order(b, one);
    lemma_sum_number(a, b, r, two);
    if number(a) + number(b) <= 1real {
        lemma_sum_number(a, b, r, one);
    }
    let (z, d) = (number(a) + number(b), slip());
    assert(d * z <= 2real * d && 0real <= d * z && d * d <= d) by (nonlinear_arith)
        requires
            0real <= z <= 2real,
            0real < d <= 1real,
    ;
}

/// What a share leaves of one is close to what that leaves which it is close to.
pub proof fn lemma_share_rest(a: Measure, r: Measure, x: real, s: real)
    requires
        is_gap(Measure { bits: ONE }, a, r),
        a.bits <= ONE,
        around(number(a), x, s),
    ensures
        r.bits <= ONE,
        around(number(r), 1real - x, s + 2real * slip()),
{
    let one = Measure { bits: ONE };
    lemma_whole_constants();
    lemma_grains();
    lemma_number_order(a, one);
    lemma_gap_number(one, a, r);
    let (z, d) = (1real - number(a), slip());
    assert(d * z <= d && 0real <= d * z && d * d <= d) by (nonlinear_arith)
        requires
            0real <= z <= 1real,
            0real < d <= 1real,
    ;
}

/// A number held between two others.
pub open spec fn held(x: real, low: real, high: real) -> real {
    if x > high {
        high
    } else if x < low {
        low
    } else {
        x
    }
}

/// A quotient held between two shares is close to that of the numbers, held between them.
pub proof fn lemma_held_quotient(a: Measure, b: Measure, r: Measure, low: Measure, v: Measure)
    requires
        is_quotient(a, b, r),
        is_number(a),
        is_number(b),
        b.bits > ZERO,
        low.bits <= ONE,
        v == smaller(larger(r, low), Measure { bits: ONE }),
    ensures
        number(b) > 0real,
        low.bits <= v.bits <= ONE,
        around(number(v), held(number(a) / number(b), number(low), 1real), 2real * slip()),
{
    let one = Measure { bits: ONE };
    lemma_whole_constants();
    lemma_grains();
    lemma_quotient_number(a, b, r, one);
    lemma_quotient_number(a, b, r, low);
    lemma_number_order(low, one);
    lemma_number_order(r, low);
    lemma_number_order(r, one);
    lemma_number_order(a, a);
    let (x, s) = (number(a) / number(b), slip());
    assert(x >= 0real) by (nonlinear_arith)
        requires
            x == number(a) / number(b),
            number(a) >= 0real,
            number(b) > 0real,
    ;
    assert(x <= 1real ==> s * x <= s) by (nonlinear_arith)
        requires
            0real < s,
    ;
    assert(s * s <= s) by (nonlinear_arith)
        requires
            0real < s <= 1real,
    ;
}

/// A worth times a share is close to the product of what they are close to, by as much of a larger
/// worth.
pub proof fn lemma_worth_share(
    a: Measure,
    b: Measure,
    r: Measure,
    x: real,
    y: real,
    whole: real,
    e: real,
    t: real,
)
    requires
        is_product(a, b, r),
        is_number(a),
        b.bits <= ONE,
        0real <= x <= whole,
        0real <= y <= 1real,
        0real <= e <= 100real,
        0real <= t <= 100real,
        around(number(a), x, e * (slip() * whole + dust())),
        around(number(b), y, t * slip()),
    ensures
        r.bits <= a.bits,
        around(number(r), x * y, (e + t + 3real) * (slip() * whole + dust())),
{
    let one = Measure { bits: ONE };
    lemma_whole_constants();
    lemma_grains();
    lemma_number_order(b, one);
    lemma_number_order(a, a);
    let (u, v, s, d) = (number(a), number(b), slip(), dust());
    let p = u * v;
    assert(0real <= p <= u) by (nonlinear_arith)
        requires
            p == u * v,
            0real <= u,
            0real <= v <= 1real,
    ;
    lemma_product_number(a, b, r, a);
    let g = s * whole + d;
    let w = s * whole;
    assert(0real <= w) by (nonlinear_arith)
        requires
            w == s * whole,
            0real < s,
            whole >= 0real,
    ;
    let f = e * g;
    let h = t * w;
    assert(x * y - f - h <= p <= x * y + f + h) by (nonlinear_arith)
        requires
            p == u * v,
            0real <= v <= 1real,
            0real <= x <= whole,
            x - f <= u <= x + f,
            y - t * s <= v <= y + t * s,
            h == t * w,
            w == s * whole,
            0real < s,
            0real <= t,
            f >= 0real,
    {
        assert((u - x) * v <= f && (u - x) * v >= -f);
        assert(x * (t * s) <= whole * (t * s));
        assert(whole * (t * s) == h);
        assert(x * (v - y) <= x * (t * s) && x * (v - y) >= -(x * (t * s)));
        assert(p == (u - x) * v + x * (v - y) + x * y);
    }
    // What is rounded off.
    assert(s * p <= 2real * w + d) by (nonlinear_arith)
        requires
            0real <= p <= u,
            u <= x + f,
            x <= whole,
            f == e * g,
            g == w + d,
            e <= 100real,
            w == s * whole,
            0real < s,
            s * 1000real <= 1real,
            0real <= w,
            0real < d,
    {
        assert(f <= 100real * g);
        assert(p <= whole + 100real * g);
        assert(s * p <= s * whole + s * (100real * g));
        assert(s * (100real * g) <= g);
    }
    assert(s * p >= 0real) by (nonlinear_arith)
        requires
            0real < s,
            0real <= p,
    ;
    assert((e + t + 3real) * g == e * g + t * g + 3real * g && t * g == t * w + t * d && t * d >= 0real)
        by (nonlinear_arith)
        requires
            g == w + d,
            t >= 0real,
            d > 0real,
    ;
}

} // verus!
