//! What arithmetic in doubles gives: the double nearest to the exact result.

use vstd::arithmetic::power2::pow2;
use vstd::prelude::*;

use crate::closeness::{lemma_grains, lemma_number, lemma_number_order, number};
use crate::doubles::{is_count, is_gap, is_number, is_product, is_quotient, is_sum, rounded};
use crate::measure::{Measure, ZERO};
use crate::rounding::{is_nearest, lemma_one, lemma_units_order, units, DEPTH};

verus! {

/// How far apart two numbers are.
pub open spec fn distance(a: real, b: real) -> real {
    if a < b {
        b - a
    } else {
        a - b
    }
}

/// Whether no double is nearer to a number than a given one, and where another is as near, the last
/// digit of that one is even.
pub open spec fn nearest_to(r: Measure, x: real) -> bool {
    forall|c: Measure| #[trigger]
        is_number(c) ==> {
            &&& distance(number(r), x) <= distance(number(c), x)
            &&& distance(number(r), x) == distance(number(c), x) && c != r ==> r.bits % 2 == 0
        }
}

/// The nearest by its definition is the nearest.
proof fn lemma_nearest(p: nat, q: nat, r: Measure, x: real)
    requires
        q > 0,
        is_nearest(p, q, r.bits),
        is_number(r),
        x * (pow2(DEPTH as nat) as real) == (p as real) / (q as real),
    ensures
        nearest_to(r, x),
{
    lemma_grains();
    let (one, a, b) = (pow2(DEPTH as nat) as real, p as real, q as real);
    let y = a / b;
    assert(y * b == a) by (nonlinear_arith)
        requires
            y == a / b,
            b > 0real,
    ;
    assert forall|c: Measure| #[trigger] is_number(c) implies distance(number(r), x) <= distance(
        number(c),
        x,
    ) && (distance(number(r), x) == distance(number(c), x) && c != r ==> r.bits % 2 == 0) by {
        lemma_number(r);
        lemma_number(c);
        let (u, w) = (units(r.bits) as real, units(c.bits) as real);
        if c.bits < r.bits {
            let last = (r.bits - 1) as u64;
            if c.bits < last {
                lemma_units_order(c.bits, last);
            }
            lemma_units_order(last, r.bits);
            let v = units(last) as real;
            let mid = (units(last) + units(r.bits)) * q;
            assert(mid as real == (v + u) * b) by (nonlinear_arith)
                requires
                    mid == (units(last) + units(r.bits)) * q,
                    v == units(last) as real,
                    u == units(r.bits) as real,
                    b == q as real,
            ;
            assert(v + u <= 2real * y && (v + u == 2real * y ==> r.bits % 2 == 0)) by {
                assert((v + u) * b <= 2real * (y * b));
                if v + u > 2real * y {
                    assert((v + u) * b > 2real * (y * b)) by (nonlinear_arith)
                        requires
                            v + u > 2real * y,
                            b > 0real,
                    ;
                }
                if v + u == 2real * y {
                    assert((v + u) * b == 2real * (y * b)) by (nonlinear_arith)
                        requires
                            v + u == 2real * y,
                    ;
                }
            }
            lemma_scaled(u, w, y, one, number(r), number(c), x);
        } else if c.bits > r.bits {
            let next = (r.bits + 1) as u64;
            if next < c.bits {
                lemma_units_order(next, c.bits);
            }
            lemma_units_order(r.bits, next);
            let v = units(next) as real;
            let mid = (units(r.bits) + units(next)) * q;
            assert(mid as real == (u + v) * b) by (nonlinear_arith)
                requires
                    mid == (units(r.bits) + units(next)) * q,
                    v == units(next) as real,
                    u == units(r.bits) as real,
                    b == q as real,
            ;
            assert(2real * y <= u + v && (u + v == 2real * y ==> r.bits % 2 == 0)) by {
                assert((u + v) * b >= 2real * (y * b));
                if u + v < 2real * y {
                    assert((u + v) * b < 2real * (y * b)) by (nonlinear_arith)
                        requires
                            u + v < 2real * y,
                            b > 0real,
                    ;
                }
                if u + v == 2real * y {
                    assert((u + v) * b == 2real * (y * b)) by (nonlinear_arith)
                        requires
                            u + v == 2real * y,
                    ;
                }
            }
            lemma_scaled(u, w, y, one, number(r), number(c), x);
        }
    }
}

/// Distances scale.
proof fn lemma_scaled(u: real, w: real, y: real, one: real, a: real, c: real, x: real)
    requires
        one >= 1real,
        a * one == u,
        c * one == w,
        x * one == y,
        distance(u, y) <= distance(w, y),
    ensures
        distance(a, x) <= distance(c, x),
        distance(a, x) == distance(c, x) ==> distance(u, y) == distance(w, y),
{
    let (d, e) = (distance(a, x), distance(c, x));
    assert(distance(u, y) == d * one) by (nonlinear_arith)
        requires
            a * one == u,
            x * one == y,
            one >= 1real,
            (a < x && d == x - a && (u < y ==> distance(u, y) == y - u) && (u >= y ==> distance(u, y)
                == u - y)) || (a >= x && d == a - x && (u < y ==> distance(u, y) == y - u) && (u >= y
                ==> distance(u, y) == u - y)),
    ;
    assert(distance(w, y) == e * one) by (nonlinear_arith)
        requires
            c * one == w,
            x * one == y,
            one >= 1real,
            (c < x && e == x - c && (w < y ==> distance(w, y) == y - w) && (w >= y ==> distance(w, y)
                == w - y)) || (c >= x && e == c - x && (w < y ==> distance(w, y) == y - w) && (w >= y
                ==> distance(w, y) == w - y)),
    ;
    assert(d <= e) by (nonlinear_arith)
        requires
            d * one <= e * one,
            one >= 1real,
    ;
}

/// A sum that is a number is the double nearest to the sum of the numbers.
pub proof fn sums_are_nearest(a: Measure, b: Measure, r: Measure)
    requires
        is_sum(a, b, r),
        is_number(a),
        is_number(b),
        is_number(r),
    ensures
        nearest_to(r, number(a) + number(b)),
{
    lemma_number(a);
    lemma_number(b);
    let one = pow2(DEPTH as nat) as real;
    let p = units(a.bits) + units(b.bits);
    let x = number(a) + number(b);
    assert(x * one == number(a) * one + number(b) * one) by (nonlinear_arith)
        requires
            x == number(a) + number(b),
    ;
    assert(x * one == (p as real) / (1nat as real));
    lemma_nearest(p, 1, r, x);
}

/// A gap is the double nearest to the distance of the numbers.
pub proof fn gaps_are_nearest(a: Measure, b: Measure, r: Measure)
    requires
        is_gap(a, b, r),
        is_number(a),
        is_number(b),
        is_number(r),
    ensures
        nearest_to(r, distance(number(a), number(b))),
{
    lemma_number(a);
    lemma_number(b);
    lemma_number_order(a, b);
    let one = pow2(DEPTH as nat) as real;
    let x = distance(number(a), number(b));
    if a.bits < b.bits {
        lemma_units_order(a.bits, b.bits);
    } else if b.bits < a.bits {
        lemma_units_order(b.bits, a.bits);
    }
    let p = (if a.bits <= b.bits {
        units(b.bits) - units(a.bits)
    } else {
        units(a.bits) - units(b.bits)
    }) as nat;
    if number(a) < number(b) {
        assert(x * one == number(b) * one - number(a) * one) by (nonlinear_arith)
            requires
                x == number(b) - number(a),
        ;
    } else {
        assert(x * one == number(a) * one - number(b) * one) by (nonlinear_arith)
            requires
                x == number(a) - number(b),
        ;
    }
    assert(x * one == (p as real) / (1nat as real));
    lemma_nearest(p, 1, r, x);
}

/// A product that is a number is the double nearest to the product of the numbers.
pub proof fn products_are_nearest(a: Measure, b: Measure, r: Measure)
    requires
        is_product(a, b, r),
        is_number(a),
        is_number(b),
        is_number(r),
    ensures
        nearest_to(r, number(a) * number(b)),
{
    lemma_one();
    lemma_grains();
    lemma_number(a);
    lemma_number(b);
    let one = pow2(DEPTH as nat) as real;
    let (u, v) = (units(a.bits) as real, units(b.bits) as real);
    let p = units(a.bits) * units(b.bits);
    let x = number(a) * number(b);
    assert(p as real == u * v) by (nonlinear_arith)
        requires
            p == units(a.bits) * units(b.bits),
            u == units(a.bits) as real,
            v == units(b.bits) as real,
    ;
    assert(x * one == (p as real) / one) by (nonlinear_arith)
        requires
            p as real == u * v,
            number(a) * one == u,
            number(b) * one == v,
            x == number(a) * number(b),
            one >= 1real,
    ;
    lemma_nearest(p, pow2(DEPTH as nat), r, x);
}

/// A quotient that is a number is the double nearest to the quotient of the numbers.
pub proof fn quotients_are_nearest(a: Measure, b: Measure, r: Measure)
    requires
        is_quotient(a, b, r),
        is_number(a),
        is_number(b),
        b.bits > ZERO,
        is_number(r),
    ensures
        number(b) > 0real,
        nearest_to(r, number(a) / number(b)),
{
    lemma_one();
    lemma_grains();
    lemma_number(a);
    lemma_number(b);
    lemma_units_order(ZERO, b.bits);
    let one = pow2(DEPTH as nat) as real;
    let (u, v) = (units(a.bits) as real, units(b.bits) as real);
    let p = units(a.bits) * pow2(DEPTH as nat);
    assert(v > 0real);
    assert(number(b) > 0real) by (nonlinear_arith)
        requires
            number(b) * one == v,
            v > 0real,
            number(b) >= 0real,
    ;
    assert(p as real == u * one) by (nonlinear_arith)
        requires
            p == units(a.bits) * pow2(DEPTH as nat),
            u == units(a.bits) as real,
            one == pow2(DEPTH as nat) as real,
    ;
    let x = number(a) / number(b);
    assert(x * number(b) == number(a)) by (nonlinear_arith)
        requires
            x == number(a) / number(b),
            number(b) > 0real,
    ;
    assert(x * one == (p as real) / v) by (nonlinear_arith)
        requires
            p as real == u * one,
            number(a) * one == u,
            number(b) * one == v,
            x * number(b) == number(a),
            v > 0real,
            one >= 1real,
    ;
    lemma_nearest(p, units(b.bits), r, x);
}

/// A count is the double nearest to it.
pub proof fn counts_are_nearest(n: u64, r: Measure)
    requires
        is_count(n, r),
        is_number(r),
    ensures
        nearest_to(r, n as real),
{
    lemma_grains();
    let one = pow2(DEPTH as nat) as real;
    let p = n as nat * pow2(DEPTH as nat);
    let x = n as real;
    assert(p as real == x * one) by (nonlinear_arith)
        requires
            p == n as nat * pow2(DEPTH as nat),
            x == n as real,
            one == pow2(DEPTH as nat) as real,
    ;
    lemma_nearest(p, 1, r, x);
}

/// A measure below the largest whole number there is room for is rounded to a whole number that is a
/// half away at most, and where two are, to the larger.
pub proof fn whole_numbers_are_nearest(a: Measure)
    requires
        is_number(a),
        number(a) < 4294967295real,
    ensures
        rounded(a) as real - 1real / 2real <= number(a),
        number(a) < rounded(a) as real + 1real / 2real,
{
    lemma_grains();
    lemma_number(a);
    let (u, one) = (units(a.bits) as int, pow2(DEPTH as nat) as int);
    let w = (2 * u + one) / (2 * one);
    assert(w * (2 * one) <= 2 * u + one < (w + 1) * (2 * one)) by (nonlinear_arith)
        requires
            w == (2 * u + one) / (2 * one),
            one > 0,
    ;
    let (x, o, v) = (number(a), one as real, w as real);
    assert((w * (2 * one)) as real == 2real * (v * o)) by (nonlinear_arith)
        requires
            v == w as real,
            o == one as real,
    ;
    assert(((w + 1) * (2 * one)) as real == 2real * (v * o) + 2real * o) by (nonlinear_arith)
        requires
            v == w as real,
            o == one as real,
    ;
    assert(x * o == u as real);
    assert(v <= x + 1real / 2real && x < v + 1real / 2real) by (nonlinear_arith)
        requires
            2real * (v * o) <= 2real * (x * o) + o,
            2real * (x * o) + o < 2real * (v * o) + 2real * o,
            o >= 1real,
    ;
    assert(w >= 0);
    assert(w <= 4294967295);
}

} // verus!
