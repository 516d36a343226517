//! Arithmetic in doubles, on their bit patterns.

use vstd::arithmetic::div_mod::lemma_div_multiples_vanish_quotient;
use vstd::arithmetic::power2::{
    lemma2_to64, lemma2_to64_rest, lemma_pow2_adds, lemma_pow2_pos, lemma_pow2_strictly_increases,
    lemma_pow2_unfold, pow2,
};
use vstd::prelude::*;

use crate::measure::{Arithmetic, Measure, INFINITY, ZERO};
use crate::rounding::{
    is_nearest, lemma_itself, lemma_one, lemma_overflow, lemma_parts, lemma_rounded_down,
    lemma_rounded_up, lemma_smallest, lemma_units, lemma_units_order, shift, significand, units,
    DEPTH, FRACTIONS,
};

verus! {

/// By how many binary places numbers are lifted while they are rounded, so that none is left below
/// the point.
pub const LIFT: u32 = 1200;

/// Two to a power.
fn two_to(power: u32) -> (r: u128)
    requires
        power <= 127,
    ensures
        r == pow2(power as nat),
        r >= 1,
{
    let mut r: u128 = 1;
    let mut i: u32 = 0;
    proof {
        lemma2_to64();
    }
    while i < power
        invariant
            i <= power <= 127,
            r == pow2(i as nat),
        decreases power - i,
    {
        proof {
            lemma_pow2_unfold((i + 1) as nat);
            lemma_small_power((i + 1) as nat);
        }
        r = r * 2;
        i = i + 1;
    }
    proof {
        lemma_pow2_pos(power as nat);
    }
    r
}

proof fn lemma_small_power(power: nat)
    requires
        power <= 127,
    ensures
        pow2(power) <= 0x8000_0000_0000_0000_0000_0000_0000_0000u128,
{
    lemma_top_power();
    if power < 127 {
        lemma_pow2_strictly_increases(power, 127);
    }
}

/// How many binary digits a number has.
fn length(number: u128) -> (r: u32)
    requires
        0 < number < 0x8000_0000_0000_0000_0000_0000_0000_0000u128,
    ensures
        1 <= r <= 127,
        pow2((r - 1) as nat) <= number < pow2(r as nat),
{
    let mut r: u32 = 1;
    let mut top: u128 = 2;
    proof {
        lemma2_to64();
        lemma_top_power();
    }
    while top <= number
        invariant
            1 <= r <= 127,
            top == pow2(r as nat),
            pow2((r - 1) as nat) <= number < 0x8000_0000_0000_0000_0000_0000_0000_0000u128,
            pow2(127) == 0x8000_0000_0000_0000_0000_0000_0000_0000u128,
        decreases 127 - r,
    {
        proof {
            lemma_pow2_unfold((r + 1) as nat);
            if r < 127 {
                lemma_small_power((r + 1) as nat);
            }
        }
        top = top * 2;
        r = r + 1;
    }
    r
}

proof fn lemma_top_power()
    ensures
        pow2(127) == 0x8000_0000_0000_0000_0000_0000_0000_0000u128,
{
    lemma2_to64();
    lemma2_to64_rest();
    lemma_pow2_adds(63, 64);
    assert(pow2(127) == 0x8000_0000_0000_0000_0000_0000_0000_0000u128) by (nonlinear_arith)
        requires
            pow2(127) == pow2(63) * pow2(64),
            pow2(63) == 0x8000_0000_0000_0000u64,
            pow2(64) == 0x1_0000_0000_0000_0000u128,
    ;
}

/// Whether `p / q`, lifted, is `number` shifted by so many binary places, or lies between that and the
/// next number so shifted where there is more.
pub open spec fn sits(number: nat, places: nat, more: bool, p: nat, q: nat) -> bool {
    let step = pow2(places) * q;
    let lifted = p * pow2(LIFT as nat);
    &&& q > 0
    &&& if more {
        number * step < lifted < (number + 1) * step
    } else {
        lifted == number * step
    }
}

/// A bit pattern of digits and places, infinite where the places run out.
fn packed(digits: u64, places: u64) -> (r: u64)
    requires
        digits <= 2 * FRACTIONS,
        places <= 0x10000,
    ensures
        r == (if places >= 2046 {
            INFINITY as int
        } else {
            places * FRACTIONS + digits
        }),
        r <= INFINITY,
{
    if places >= 2046 {
        INFINITY
    } else {
        assert(places * FRACTIONS <= 2045 * FRACTIONS) by (nonlinear_arith)
            requires
                places <= 2045,
        ;
        places * FRACTIONS + digits
    }
}

/// The double nearest to a number that is shifted, lifted, and not all of it where there is more.
fn round_off(number: u128, places: u32, more: bool) -> (r: u64)
    requires
        0 < number < 0x8000_0000_0000_0000_0000_0000_0000_0000u128,
        places <= 8000,
        more ==> number >= 0x40_0000_0000_0000u64,
    ensures
        forall|p: nat, q: nat| #[trigger]
            sits(number as nat, places as nat, more, p, q) ==> is_nearest(p, q, r),
{
    let len: u32 = length(number);
    proof {
        lemma2_to64();
        lemma2_to64_rest();
        if more && len < 55 {
            if len < 54 {
                lemma_pow2_strictly_increases(len as nat, 54);
            }
            assert(pow2(54) == 0x40_0000_0000_0000u64);
        }
    }
    // How many digits are to go.
    let mut spare: i64 = len as i64 - 53;
    if (LIFT as i64) - (places as i64) > spare {
        spare = LIFT as i64 - places as i64;
    }
    if spare > 127 {
        proof {
            lemma_vanishes(number as nat, places as nat, more, len as nat);
        }
        return 0;
    }
    let left: u64 = (places as i64 + spare - LIFT as i64) as u64;
    if spare <= 0 {
        let power: u32 = (-spare) as u32;
        let scale: u128 = two_to(power);
        proof {
            lemma_fits(number as nat, len as nat, power as nat);
        }
        let digits: u64 = (number * scale) as u64;
        let r: u64 = packed(digits, left);
        proof {
            lemma_exact(number as nat, places as nat, power as nat, len as nat, digits, left, r);
        }
        r
    } else {
        let cut: u128 = two_to(spare as u32);
        let half: u128 = two_to((spare - 1) as u32);
        let whole: u128 = number / cut;
        let rest: u128 = number % cut;
        proof {
            lemma_pow2_unfold(spare as nat);
            lemma_whole(number as nat, len as nat, spare as nat, whole as nat, left as nat);
        }
        let up = rest > half || (rest == half && (more || whole % 2 == 1));
        let digits: u64 = if up {
            whole as u64 + 1
        } else {
            whole as u64
        };
        let r: u64 = packed(digits, left);
        proof {
            assert forall|p: nat, q: nat| #[trigger]
                sits(number as nat, places as nat, more, p, q) implies is_nearest(p, q, r) by {
                lemma_cut(
                    number as nat,
                    places as nat,
                    more,
                    spare as nat,
                    whole as nat,
                    rest as nat,
                    up,
                    left as nat,
                    r,
                    p,
                    q,
                );
            }
        }
        r
    }
}

/// What is shifted out altogether is nearest to zero.
proof fn lemma_vanishes(number: nat, places: nat, more: bool, len: nat)
    requires
        1 <= len <= 127,
        number < pow2(len),
        LIFT > places + 127,
    ensures
        forall|p: nat, q: nat| #[trigger] sits(number, places, more, p, q) ==> is_nearest(p, q, 0),
{
    assert forall|p: nat, q: nat| #[trigger] sits(number, places, more, p, q) implies is_nearest(
        p,
        q,
        0,
    ) by {
        let step = pow2(places) * q;
        let scale = pow2(LIFT as nat);
        lemma_pow2_adds(places, (LIFT - places) as nat);
        lemma_pow2_pos(places);
        lemma_pow2_pos(LIFT as nat);
        let above = pow2((LIFT - places) as nat);
        lemma_pow2_strictly_increases(127, (LIFT - places) as nat);
        lemma_pow2_unfold((LIFT - places) as nat);
        if len < 127 {
            lemma_pow2_strictly_increases(len, 127);
        }
        lemma_pow2_strictly_increases(len, (LIFT - places) as nat);
        if LIFT - places > 128 {
            lemma_pow2_strictly_increases(127, (LIFT - places - 1) as nat);
        }
        assert(2 * (number + 1) <= above);
        lemma_smallest();
        assert((number + 1) * step == number * step + step) by (nonlinear_arith);
        assert(2 * p < q) by (nonlinear_arith)
            requires
                p * scale <= (number + 1) * step,
                p * scale < (number + 1) * step || number * step == p * scale,
                step == pow2(places) * q,
                scale == pow2(places) * above,
                2 * (number + 1) <= above,
                pow2(places) > 0,
                q > 0,
        ;
        assert((units(0) + units(1)) * q == q) by (nonlinear_arith)
            requires
                units(0) == 0,
                units(1) == 1,
        ;
    }
}

proof fn lemma_fits(number: nat, len: nat, power: nat)
    requires
        1 <= len,
        number < pow2(len),
        len + power <= 53,
    ensures
        number * pow2(power) < 2 * FRACTIONS,
{
    lemma2_to64_rest();
    lemma_pow2_adds(len, power);
    if len + power < 53 {
        lemma_pow2_strictly_increases(len + power, 53);
    }
    lemma_pow2_pos(power);
    assert(number * pow2(power) < pow2(len) * pow2(power)) by (nonlinear_arith)
        requires
            number < pow2(len),
            pow2(power) > 0,
    ;
}

/// What needs no rounding is itself.
proof fn lemma_exact(
    number: nat,
    places: nat,
    power: nat,
    len: nat,
    digits: u64,
    left: u64,
    r: u64,
)
    requires
        0 < number,
        1 <= len,
        pow2((len - 1) as nat) <= number < pow2(len),
        len + power <= 53,
        places == left + power + LIFT,
        len + power == 53 || left == 0,
        digits == number * pow2(power),
        digits < 2 * FRACTIONS,
        r == (if left >= 2046 {
            INFINITY as int
        } else {
            left * FRACTIONS + digits
        }),
    ensures
        forall|p: nat, q: nat| #[trigger] sits(number, places, false, p, q) ==> is_nearest(p, q, r),
{
    lemma2_to64();
    lemma2_to64_rest();
    if len + power == 53 {
        lemma_pow2_adds((len - 1) as nat, power);
        assert(digits >= FRACTIONS) by (nonlinear_arith)
            requires
                digits == number * pow2(power),
                number >= pow2((len - 1) as nat),
                pow2((len - 1) as nat) * pow2(power) == FRACTIONS,
        ;
    }
    assert forall|p: nat, q: nat| #[trigger] sits(number, places, false, p, q) implies is_nearest(
        p,
        q,
        r,
    ) by {
        let scale = pow2(LIFT as nat);
        lemma_pow2_pos(LIFT as nat);
        lemma_pow2_pos(left as nat);
        lemma_pow2_adds((left + power) as nat, LIFT as nat);
        lemma_pow2_adds(left as nat, power);
        let unit = pow2(left as nat);
        let step = unit * (q * scale);
        assert(p * scale == digits * step) by (nonlinear_arith)
            requires
                p * scale == number * (pow2(places) * q),
                pow2(places) == (unit * pow2(power)) * scale,
                digits == number * pow2(power),
                step == unit * (q * scale),
        ;
        assert(step > 0) by (nonlinear_arith)
            requires
                step == unit * (q * scale),
                unit > 0,
                q > 0,
                scale > 0,
        ;
        assert(2 * (digits * step) < (2 * digits + 1) * step) by (nonlinear_arith)
            requires
                step > 0,
        ;
        lemma_placed(p, q, digits as nat, left as nat, step, r);
    }
}

/// Digits that a number is made of exactly are its nearest double.
proof fn lemma_placed(p: nat, q: nat, digits: nat, left: nat, step: nat, r: u64)
    requires
        q > 0,
        step == pow2(left) * (q * pow2(LIFT as nat)),
        step > 0,
        digits < 2 * FRACTIONS,
        digits >= FRACTIONS || left == 0,
        r == (if left >= 2046 {
            INFINITY as int
        } else {
            left * FRACTIONS + digits
        }),
        digits * step <= p * pow2(LIFT as nat),
        2 * (p * pow2(LIFT as nat)) <= (2 * digits + 1) * step,
        2 * (p * pow2(LIFT as nat)) == (2 * digits + 1) * step ==> digits % 2 == 0,
    ensures
        is_nearest(p, q, r),
{
    lemma_pow2_pos(LIFT as nat);
    if left >= 2046 {
        lemma_far(p, q, digits, left, step);
    } else {
        assert(r < INFINITY) by (nonlinear_arith)
            requires
                r == left * FRACTIONS + digits,
                left <= 2045,
                digits < 2 * FRACTIONS,
                INFINITY == 2047 * FRACTIONS,
        ;
        lemma_rounded_down(p, q, pow2(LIFT as nat), digits, left, step, r);
    }
}

/// What is shifted too far is infinite.
proof fn lemma_far(p: nat, q: nat, digits: nat, left: nat, step: nat)
    requires
        q > 0,
        left >= 2046,
        digits >= FRACTIONS,
        step == pow2(left) * (q * pow2(LIFT as nat)),
        digits * step <= p * pow2(LIFT as nat),
    ensures
        is_nearest(p, q, INFINITY),
{
    let scale = pow2(LIFT as nat);
    lemma_pow2_pos(LIFT as nat);
    lemma_units(FRACTIONS as nat, 2046, INFINITY);
    if left > 2046 {
        lemma_pow2_strictly_increases(2046, left);
    }
    assert(p >= units(INFINITY) * q) by (nonlinear_arith)
        requires
            units(INFINITY) == FRACTIONS * pow2(2046),
            pow2(2046) <= pow2(left),
            digits >= FRACTIONS,
            step == pow2(left) * (q * scale),
            digits * step <= p * scale,
            scale > 0,
            q > 0,
    ;
    lemma_overflow(p, q);
}

/// What is kept of a number fills the digits, or nothing is left of the places.
proof fn lemma_whole(number: nat, len: nat, spare: nat, whole: nat, left: nat)
    requires
        1 <= len,
        pow2((len - 1) as nat) <= number < pow2(len),
        0 < spare,
        len <= spare + 53,
        len == spare + 53 || left == 0,
        whole == number / pow2(spare),
    ensures
        whole < 2 * FRACTIONS,
        whole >= FRACTIONS || left == 0,
{
    lemma2_to64_rest();
    lemma_pow2_pos(spare);
    lemma_pow2_adds(spare, 53);
    if len < spare + 53 {
        lemma_pow2_strictly_increases(len, spare + 53);
    }
    assert(whole < 2 * FRACTIONS) by (nonlinear_arith)
        requires
            whole == number / pow2(spare),
            number < pow2(spare) * pow2(53),
            pow2(53) == 2 * FRACTIONS,
            pow2(spare) > 0,
    ;
    if len == spare + 53 {
        lemma_pow2_adds(spare, 52);
        assert(whole >= FRACTIONS) by (nonlinear_arith)
            requires
                whole == number / pow2(spare),
                number >= pow2(spare) * pow2(52),
                pow2(52) == FRACTIONS,
                pow2(spare) > 0,
        ;
    }
}

/// A number of which digits are cut off is rounded by what was cut.
proof fn lemma_cut(
    number: nat,
    places: nat,
    more: bool,
    spare: nat,
    whole: nat,
    rest: nat,
    up: bool,
    left: nat,
    r: u64,
    p: nat,
    q: nat,
)
    requires
        sits(number, places, more, p, q),
        0 < spare,
        left + LIFT == places + spare,
        whole == number / pow2(spare),
        rest == number % pow2(spare),
        whole < 2 * FRACTIONS,
        whole >= FRACTIONS || left == 0,
        pow2(spare) == 2 * pow2((spare - 1) as nat),
        ({
            let half = pow2((spare - 1) as nat);
            up == (rest > half || (rest == half && (more || whole % 2 == 1)))
        }),
        ({
            let digits = if up {
                whole + 1
            } else {
                whole
            };
            r == (if left >= 2046 {
                INFINITY as int
            } else {
                left * FRACTIONS + digits
            })
        }),
    ensures
        is_nearest(p, q, r),
{
    let scale = pow2(LIFT as nat);
    let half = pow2((spare - 1) as nat);
    let cut = pow2(spare);
    let unit = pow2(left);
    let fine = pow2(places) * q;
    let step = unit * (q * scale);
    lemma_pow2_pos(LIFT as nat);
    lemma_pow2_pos(left);
    lemma_pow2_pos(places);
    lemma_pow2_pos((spare - 1) as nat);
    lemma_pow2_adds(left, LIFT as nat);
    lemma_pow2_adds(places, spare);
    assert(step == cut * fine) by (nonlinear_arith)
        requires
            step == unit * (q * scale),
            unit * scale == pow2(places) * cut,
            fine == pow2(places) * q,
    ;
    assert(fine > 0) by (nonlinear_arith)
        requires
            fine == pow2(places) * q,
            pow2(places) > 0,
            q > 0,
    ;
    assert(step > 0) by (nonlinear_arith)
        requires
            step == cut * fine,
            cut > 0,
            fine > 0,
    ;
    assert(number == whole * cut + rest && 0 <= rest < cut) by (nonlinear_arith)
        requires
            whole == number / cut,
            rest == number % cut,
            cut > 0,
    ;
    let lifted = p * scale;
    assert((number + 1) * fine == number * fine + fine) by (nonlinear_arith);
    assert(whole * step <= number * fine) by (nonlinear_arith)
        requires
            step == cut * fine,
            number == whole * cut + rest,
            rest >= 0,
            fine > 0,
    ;
    if up {
        assert(2 * lifted >= (2 * (whole + 1) - 1) * step && (2 * lifted == (2 * (whole + 1) - 1)
            * step ==> rest == half && !more)) by (nonlinear_arith)
            requires
                step == cut * fine,
                cut == 2 * half,
                number == whole * cut + rest,
                rest >= half,
                fine > 0,
                lifted >= number * fine,
                more ==> lifted > number * fine,
        ;
        assert(lifted < (whole + 1) * step) by (nonlinear_arith)
            requires
                step == cut * fine,
                number == whole * cut + rest,
                rest + 1 <= cut,
                fine > 0,
                lifted < (number + 1) * fine,
        ;
        if left >= 2046 {
            lemma_far(p, q, whole, left, step);
        } else {
            assert(r <= INFINITY) by (nonlinear_arith)
                requires
                    r == left * FRACTIONS + (whole + 1),
                    left <= 2045,
                    whole < 2 * FRACTIONS,
                    INFINITY == 2047 * FRACTIONS,
            ;
            lemma_rounded_up(p, q, scale, whole + 1, left, step, r);
        }
    } else {
        assert(2 * lifted <= (2 * whole + 1) * step && (2 * lifted == (2 * whole + 1) * step ==> rest
            == half && !more)) by (nonlinear_arith)
            requires
                step == cut * fine,
                cut == 2 * half,
                number == whole * cut + rest,
                rest <= half,
                rest == half ==> !more,
                fine > 0,
                more ==> lifted < (number + 1) * fine,
                !more ==> lifted == number * fine,
        ;
        lemma_placed(p, q, whole, left, step, r);
    }
}

/// The digits of a double and by how many places they are shifted.
fn split(bits: u64) -> (r: (u64, u32))
    requires
        bits < INFINITY,
    ensures
        r.0 == significand(bits),
        r.1 == shift(bits),
        r.0 < 2 * FRACTIONS,
        r.0 >= FRACTIONS || r.1 == 0,
        r.1 <= 2045,
        r.0 > 0 || bits == 0,
{
    proof {
        lemma_parts(bits);
    }
    if bits < FRACTIONS {
        (bits, 0)
    } else {
        assert(bits / FRACTIONS <= 2046) by (nonlinear_arith)
            requires
                bits < INFINITY,
                INFINITY == 2047 * FRACTIONS,
        ;
        (FRACTIONS + bits % FRACTIONS, (bits / FRACTIONS - 1) as u32)
    }
}

/// Larger patterns are shifted no less.
pub proof fn lemma_shift_order(low: u64, high: u64)
    requires
        low <= high,
    ensures
        shift(low) <= shift(high),
{
    if low >= FRACTIONS {
        assert(low / FRACTIONS <= high / FRACTIONS) by (nonlinear_arith)
            requires
                low <= high,
        ;
    } else if high >= FRACTIONS {
        assert(high / FRACTIONS >= 1) by (nonlinear_arith)
            requires
                high >= FRACTIONS,
        ;
    }
}

/// Zero stands for nothing, and is nearest to it.
pub proof fn lemma_zero()
    ensures
        units(0) == 0,
        forall|q: nat| q > 0 ==> #[trigger] is_nearest(0, q, 0),
{
    lemma_smallest();
    assert forall|q: nat| q > 0 implies #[trigger] is_nearest(0, q, 0) by {
        assert((units(0) + units(1)) * q == q) by (nonlinear_arith)
            requires
                units(0) == 0,
                units(1) == 1,
        ;
    }
}

/// Two doubles with digits near enough are made of the same places.
proof fn lemma_aligned(x: nat, high: nat, y: nat, low: nat)
    requires
        low <= high,
    ensures
        x * pow2(high) == (x * pow2((high - low) as nat)) * pow2(low),
        pow2((low + LIFT) as nat) == pow2(low) * pow2(LIFT as nat),
{
    lemma_pow2_adds((high - low) as nat, low);
    lemma_pow2_adds(low, LIFT as nat);
    assert(x * pow2(high) == (x * pow2((high - low) as nat)) * pow2(low)) by (nonlinear_arith)
        requires
            pow2(high) == pow2((high - low) as nat) * pow2(low),
    ;
}

/// A double with digits far enough below those of another is less than what is left of these.
proof fn lemma_far_below(x: nat, high: nat, y: nat, low: nat)
    requires
        low + 65 <= high,
        y < 2 * FRACTIONS,
    ensures
        x * pow2(high) == (x * 4096) * pow2((high - 12) as nat),
        y * pow2(low) < pow2((high - 12) as nat),
        pow2((high - 12 + LIFT) as nat) == pow2((high - 12) as nat) * pow2(LIFT as nat),
{
    lemma2_to64();
    lemma2_to64_rest();
    lemma_pow2_adds(12, (high - 12) as nat);
    lemma_pow2_adds((high - 12) as nat, LIFT as nat);
    lemma_pow2_adds(53, low);
    lemma_pow2_pos(low);
    if low + 53 < high - 12 {
        lemma_pow2_strictly_increases(low + 53, (high - 12) as nat);
    }
    assert(x * pow2(high) == (x * 4096) * pow2((high - 12) as nat)) by (nonlinear_arith)
        requires
            pow2(high) == 4096 * pow2((high - 12) as nat),
    ;
    assert(y * pow2(low) < (2 * FRACTIONS) * pow2(low)) by (nonlinear_arith)
        requires
            y < 2 * FRACTIONS,
            pow2(low) > 0,
    ;
}

proof fn lemma_small_product(x: nat, scale: nat)
    requires
        x < 2 * FRACTIONS,
        scale <= 0x1_0000_0000_0000_0000u128,
    ensures
        x * scale <= 0x20_0000_0000_0000_0000_0000_0000_0000u128,
{
    assert(x * scale <= 0x20_0000_0000_0000_0000_0000_0000_0000u128) by (nonlinear_arith)
        requires
            x <= 0x20_0000_0000_0000,
            scale <= 0x1_0000_0000_0000_0000u128,
    ;
}

proof fn lemma_bounded_power(power: nat)
    requires
        power <= 64,
    ensures
        pow2(power) <= 0x1_0000_0000_0000_0000u128,
{
    lemma2_to64();
    if power < 64 {
        lemma_pow2_strictly_increases(power, 64);
    }
}

/// The sum of two doubles, the first no smaller than the second.
fn add_to(high: u64, low: u64) -> (r: u64)
    requires
        low <= high < INFINITY,
    ensures
        is_nearest(units(high) + units(low), 1, r),
{
    proof {
        lemma_zero();
        lemma_itself(high);
        lemma_shift_order(low, high);
    }
    if low == 0 {
        return high;
    }
    let (x, up) = split(high);
    let (y, down) = split(low);
    let ghost p = units(high) + units(low);
    let ghost scale = pow2(LIFT as nat);
    if up - down <= 64 {
        let factor: u128 = two_to(up - down);
        proof {
            lemma_bounded_power((up - down) as nat);
            lemma_small_product(x as nat, factor as nat);
            lemma_aligned(x as nat, up as nat, y as nat, down as nat);
        }
        let number: u128 = x as u128 * factor + y as u128;
        proof {
            let unit = pow2(down as nat);
            assert(p * scale == number * (pow2((down + LIFT) as nat) * 1)) by (nonlinear_arith)
                requires
                    p == (x * factor) * unit + y * unit,
                    number == x * factor + y,
                    pow2((down + LIFT) as nat) == unit * scale,
            ;
            assert(sits(number as nat, (down + LIFT) as nat, false, p, 1));
        }
        round_off(number, down + LIFT, false)
    } else {
        let number: u128 = x as u128 * 4096;
        proof {
            lemma_far_below(x as nat, up as nat, y as nat, down as nat);
            lemma_pow2_pos(LIFT as nat);
            lemma_pow2_pos(down as nat);
            let unit = pow2((up - 12) as nat);
            let small = units(low);
            assert(small > 0) by (nonlinear_arith)
                requires
                    small == y * pow2(down as nat),
                    y > 0,
                    pow2(down as nat) > 0,
            ;
            let step = pow2((up - 12 + LIFT) as nat) * 1;
            assert(number * step < p * scale < (number + 1) * step) by (nonlinear_arith)
                requires
                    p == number * unit + small,
                    0 < small < unit,
                    step == unit * scale,
                    scale > 0,
            ;
            assert(sits(number as nat, (up - 12 + LIFT) as nat, true, p, 1));
        }
        round_off(number, up - 12 + LIFT, true)
    }
}

/// The difference of two doubles, the first larger than the second.
fn take_from(high: u64, low: u64) -> (r: u64)
    requires
        low < high < INFINITY,
    ensures
        is_nearest((units(high) - units(low)) as nat, 1, r),
{
    proof {
        lemma_zero();
        lemma_itself(high);
        lemma_shift_order(low, high);
        lemma_units_order(low, high);
    }
    if low == 0 {
        return high;
    }
    let (x, up) = split(high);
    let (y, down) = split(low);
    let ghost p = (units(high) - units(low)) as nat;
    let ghost scale = pow2(LIFT as nat);
    if up - down <= 64 {
        let factor: u128 = two_to(up - down);
        proof {
            lemma_bounded_power((up - down) as nat);
            lemma_small_product(x as nat, factor as nat);
            lemma_aligned(x as nat, up as nat, y as nat, down as nat);
            let unit = pow2(down as nat);
            assert(x * factor > y) by (nonlinear_arith)
                requires
                    (x * factor) * unit > y * unit,
                    unit >= 0,
            ;
        }
        let number: u128 = x as u128 * factor - y as u128;
        proof {
            let unit = pow2(down as nat);
            assert(p * scale == number * (pow2((down + LIFT) as nat) * 1)) by (nonlinear_arith)
                requires
                    p == (x * factor) * unit - y * unit,
                    number == x * factor - y,
                    pow2((down + LIFT) as nat) == unit * scale,
            ;
            assert(sits(number as nat, (down + LIFT) as nat, false, p, 1));
        }
        round_off(number, down + LIFT, false)
    } else {
        let number: u128 = x as u128 * 4096 - 1;
        proof {
            lemma_far_below(x as nat, up as nat, y as nat, down as nat);
            lemma_pow2_pos(LIFT as nat);
            lemma_pow2_pos(down as nat);
            let unit = pow2((up - 12) as nat);
            let small = units(low);
            assert(small > 0) by (nonlinear_arith)
                requires
                    small == y * pow2(down as nat),
                    y > 0,
                    pow2(down as nat) > 0,
            ;
            let step = pow2((up - 12 + LIFT) as nat) * 1;
            assert(number * step < p * scale < (number + 1) * step) by (nonlinear_arith)
                requires
                    p == (number + 1) * unit - small,
                    0 < small < unit,
                    step == unit * scale,
                    scale > 0,
            ;
            assert(sits(number as nat, (up - 12 + LIFT) as nat, true, p, 1));
        }
        round_off(number, up - 12 + LIFT, true)
    }
}

/// The product of two doubles.
fn multiply(a: u64, b: u64) -> (r: u64)
    requires
        a < INFINITY,
        b < INFINITY,
    ensures
        is_nearest(units(a) * units(b), pow2(DEPTH as nat), r),
{
    proof {
        lemma_zero();
        lemma_one();
        assert(units(0) * units(b) == 0 && units(a) * units(0) == 0) by (nonlinear_arith)
            requires
                units(0) == 0,
        ;
    }
    if a == 0 || b == 0 {
        return 0;
    }
    let (x, left) = split(a);
    let (y, right) = split(b);
    proof {
        assert(0 < x * y <= 0x400_0000_0000_0000_0000_0000_0000u128) by (nonlinear_arith)
            requires
                0 < x <= 0x20_0000_0000_0000,
                0 < y <= 0x20_0000_0000_0000,
        ;
    }
    let number: u128 = x as u128 * y as u128;
    proof {
        let (p, q) = (units(a) * units(b), pow2(DEPTH as nat));
        lemma_pow2_adds(left as nat, right as nat);
        lemma_pow2_adds((left + right + 126) as nat, DEPTH as nat);
        lemma_pow2_adds((left + right) as nat, LIFT as nat);
        let (u, v, scale) = (pow2(left as nat), pow2(right as nat), pow2(LIFT as nat));
        assert(p * scale == number * (pow2((left + right + 126) as nat) * q)) by (nonlinear_arith)
            requires
                p == (x * u) * (y * v),
                number == x * y,
                pow2((left + right + 126) as nat) * q == (u * v) * scale,
        ;
        assert(sits(number as nat, (left + right + 126) as nat, false, p, q));
    }
    round_off(number, left + right + 126, false)
}

/// The quotient of two doubles, the second above zero.
fn divide(a: u64, b: u64) -> (r: u64)
    requires
        a < INFINITY,
        0 < b < INFINITY,
    ensures
        is_nearest(units(a) * pow2(DEPTH as nat), units(b), r),
{
    proof {
        lemma_zero();
        lemma_units_order(0, b);
        assert(units(0) * pow2(DEPTH as nat) == 0) by (nonlinear_arith)
            requires
                units(0) == 0,
        ;
    }
    if a == 0 {
        return 0;
    }
    let (x, left) = split(a);
    let (y, right) = split(b);
    let len: u32 = length(x as u128);
    proof {
        lemma_digits_of(x as nat, len as nat);
    }
    let rise: u32 = 117 - len;
    let factor: u128 = two_to(rise);
    proof {
        lemma_raised(x as nat, len as nat);
    }
    let dividend: u128 = x as u128 * factor;
    let number: u128 = dividend / (y as u128);
    let rest: u128 = dividend % (y as u128);
    let more = rest != 0;
    let places: u32 = left + 2274 - right - rise;
    proof {
        let (p, q) = (units(a) * pow2(DEPTH as nat), units(b));
        lemma_quotient(dividend as nat, y as nat, number as nat);
        assert(dividend == number * y + rest && 0 <= rest < y) by (nonlinear_arith)
            requires
                number == dividend / (y as u128),
                rest == dividend % (y as u128),
                y > 0,
        ;
        lemma_pow2_adds((places + right) as nat, rise as nat);
        lemma_pow2_adds(places as nat, right as nat);
        lemma_pow2_adds(left as nat, 2274);
        lemma_pow2_adds(DEPTH as nat, LIFT as nat);
        lemma_pow2_pos(places as nat);
        lemma_pow2_pos(right as nat);
        let (u, v) = (pow2(left as nat), pow2(right as nat));
        let (unit, scale) = (pow2(places as nat), pow2(LIFT as nat));
        let depth = pow2(DEPTH as nat);
        let step = unit * q;
        assert(p * scale == dividend * (unit * v)) by (nonlinear_arith)
            requires
                p == (x * u) * depth,
                dividend == x * factor,
                (unit * v) * factor == u * (depth * scale),
        ;
        assert(p * scale == number * step + rest * (unit * v)) by (nonlinear_arith)
            requires
                p * scale == dividend * (unit * v),
                dividend == number * y + rest,
                step == unit * (y * v),
        ;
        assert(unit * v > 0) by (nonlinear_arith)
            requires
                unit > 0,
                v > 0,
        ;
        assert(rest * (unit * v) < step && (rest > 0 ==> rest * (unit * v) > 0) && (rest == 0
            ==> rest * (unit * v) == 0)) by (nonlinear_arith)
            requires
                rest < y,
                step == unit * (y * v),
                unit * v > 0,
        ;
        assert((number + 1) * step == number * step + step) by (nonlinear_arith);
        assert(sits(number as nat, places as nat, more, p, q));
    }
    round_off(number, places, more)
}

proof fn lemma_digits_of(x: nat, len: nat)
    requires
        0 < x < 2 * FRACTIONS,
        1 <= len,
        pow2((len - 1) as nat) <= x,
    ensures
        len <= 53,
{
    lemma2_to64_rest();
    if len > 54 {
        lemma_pow2_strictly_increases(53, (len - 1) as nat);
    }
}

proof fn lemma_raised(x: nat, len: nat)
    requires
        1 <= len <= 53,
        pow2((len - 1) as nat) <= x < pow2(len),
    ensures
        0x10_0000_0000_0000_0000_0000_0000_0000u128 <= x * pow2((117 - len) as nat)
            < 0x20_0000_0000_0000_0000_0000_0000_0000u128,
{
    lemma2_to64();
    lemma2_to64_rest();
    lemma_pow2_adds((len - 1) as nat, (117 - len) as nat);
    lemma_pow2_adds(len, (117 - len) as nat);
    lemma_pow2_adds(52, 64);
    lemma_pow2_adds(53, 64);
    lemma_pow2_pos((117 - len) as nat);
    let factor = pow2((117 - len) as nat);
    assert(pow2((len - 1) as nat) * factor <= x * factor < pow2(len) * factor) by (nonlinear_arith)
        requires
            pow2((len - 1) as nat) <= x < pow2(len),
            factor > 0,
    ;
    assert(pow2(52) * pow2(64) == 0x10_0000_0000_0000_0000_0000_0000_0000u128) by (nonlinear_arith)
        requires
            pow2(52) == 0x10_0000_0000_0000,
            pow2(64) == 0x1_0000_0000_0000_0000u128,
    ;
    assert(pow2(53) * pow2(64) == 0x20_0000_0000_0000_0000_0000_0000_0000u128) by (nonlinear_arith)
        requires
            pow2(53) == 0x20_0000_0000_0000,
            pow2(64) == 0x1_0000_0000_0000_0000u128,
    ;
}

proof fn lemma_quotient(dividend: nat, y: nat, number: nat)
    requires
        dividend >= 0x10_0000_0000_0000_0000_0000_0000_0000u128,
        dividend < 0x20_0000_0000_0000_0000_0000_0000_0000u128,
        0 < y < 2 * FRACTIONS,
        number == dividend / y,
    ensures
        0x40_0000_0000_0000 <= number <= dividend,
{
    assert(0x40_0000_0000_0000 <= number <= dividend) by (nonlinear_arith)
        requires
            number == dividend / y,
            dividend >= 0x10_0000_0000_0000_0000_0000_0000_0000u128,
            0 < y <= 0x20_0000_0000_0000,
    ;
}

/// Whether a measure is a number, neither infinite nor none.
pub open spec fn is_number(a: Measure) -> bool {
    a.bits < INFINITY
}

/// Whether a measure stands for none.
pub open spec fn is_none(a: Measure) -> bool {
    a.bits > INFINITY
}

/// Whether `r` is `a + b` in doubles. What is not a number counts as zero.
pub open spec fn is_sum(a: Measure, b: Measure, r: Measure) -> bool {
    if is_none(a) || is_none(b) {
        r.bits == ZERO
    } else if !is_number(a) || !is_number(b) {
        r.bits == INFINITY
    } else {
        is_nearest(units(a.bits) + units(b.bits), 1, r.bits)
    }
}

/// Whether `r` is the larger of `a - b` and `b - a` in doubles.
pub open spec fn is_gap(a: Measure, b: Measure, r: Measure) -> bool {
    if is_none(a) || is_none(b) || (!is_number(a) && !is_number(b)) {
        r.bits == ZERO
    } else if !is_number(a) || !is_number(b) {
        r.bits == INFINITY
    } else if a.bits <= b.bits {
        is_nearest((units(b.bits) - units(a.bits)) as nat, 1, r.bits)
    } else {
        is_nearest((units(a.bits) - units(b.bits)) as nat, 1, r.bits)
    }
}

/// Whether `r` is `a * b` in doubles.
pub open spec fn is_product(a: Measure, b: Measure, r: Measure) -> bool {
    if is_none(a) || is_none(b) {
        r.bits == ZERO
    } else if !is_number(a) || !is_number(b) {
        r.bits == if a.bits == ZERO || b.bits == ZERO {
            ZERO
        } else {
            INFINITY
        }
    } else {
        is_nearest(units(a.bits) * units(b.bits), pow2(DEPTH as nat), r.bits)
    }
}

/// Whether `r` is `a / b` in doubles.
pub open spec fn is_quotient(a: Measure, b: Measure, r: Measure) -> bool {
    if is_none(a) || is_none(b) {
        r.bits == ZERO
    } else if !is_number(b) {
        r.bits == ZERO
    } else if !is_number(a) {
        r.bits == INFINITY
    } else if b.bits == ZERO {
        r.bits == if a.bits == ZERO {
            ZERO
        } else {
            INFINITY
        }
    } else {
        is_nearest(units(a.bits) * pow2(DEPTH as nat), units(b.bits), r.bits)
    }
}

/// Whether `r` is the double of a count.
pub open spec fn is_count(count: u64, r: Measure) -> bool {
    is_nearest(count as nat * pow2(DEPTH as nat), 1, r.bits)
}

/// The whole number nearest to a measure, halves away from zero, and at most the largest there is.
pub open spec fn rounded(a: Measure) -> u32 {
    let whole = (2 * units(a.bits) + pow2(DEPTH as nat)) / (2 * pow2(DEPTH as nat));
    if is_none(a) {
        0
    } else if whole > u32::MAX {
        u32::MAX
    } else {
        whole as u32
    }
}

/// Arithmetic in doubles.
#[derive(Clone, Copy, Debug, Default)]
pub struct Doubles;

impl Arithmetic for Doubles {
    fn count(&self, count: u64) -> (r: Measure)
        ensures
            is_count(count, r),
    {
        if count == 0 {
            proof {
                lemma_zero();
                assert(count as nat * pow2(DEPTH as nat) == 0) by (nonlinear_arith)
                    requires
                        count == 0,
                ;
            }
            return Measure { bits: ZERO };
        }
        proof {
            let p = count as nat * pow2(DEPTH as nat);
            lemma_pow2_adds(DEPTH as nat, LIFT as nat);
            assert(p * pow2(LIFT as nat) == count * (pow2(2274) * 1)) by (nonlinear_arith)
                requires
                    p == count as nat * pow2(DEPTH as nat),
                    pow2(2274) == pow2(DEPTH as nat) * pow2(LIFT as nat),
            ;
            assert(sits(count as nat, 2274, false, p, 1));
        }
        Measure { bits: round_off(count as u128, DEPTH + LIFT, false) }
    }

    fn sum(&self, a: Measure, b: Measure) -> (r: Measure)
        ensures
            is_sum(a, b, r),
    {
        if a.bits > INFINITY || b.bits > INFINITY {
            Measure { bits: ZERO }
        } else if a.bits == INFINITY || b.bits == INFINITY {
            Measure { bits: INFINITY }
        } else if a.bits < b.bits {
            Measure { bits: add_to(b.bits, a.bits) }
        } else {
            Measure { bits: add_to(a.bits, b.bits) }
        }
    }

    fn gap(&self, a: Measure, b: Measure) -> (r: Measure)
        ensures
            is_gap(a, b, r),
    {
        if a.bits > INFINITY || b.bits > INFINITY || a.bits == b.bits {
            proof {
                lemma_zero();
            }
            Measure { bits: ZERO }
        } else if a.bits == INFINITY || b.bits == INFINITY {
            Measure { bits: INFINITY }
        } else if a.bits < b.bits {
            Measure { bits: take_from(b.bits, a.bits) }
        } else {
            Measure { bits: take_from(a.bits, b.bits) }
        }
    }

    fn product(&self, a: Measure, b: Measure) -> (r: Measure)
        ensures
            is_product(a, b, r),
    {
        if a.bits > INFINITY || b.bits > INFINITY {
            Measure { bits: ZERO }
        } else if a.bits == INFINITY || b.bits == INFINITY {
            if a.bits == ZERO || b.bits == ZERO {
                Measure { bits: ZERO }
            } else {
                Measure { bits: INFINITY }
            }
        } else {
            Measure { bits: multiply(a.bits, b.bits) }
        }
    }

    fn quotient(&self, a: Measure, b: Measure) -> (r: Measure)
        ensures
            is_quotient(a, b, r),
    {
        if a.bits > INFINITY || b.bits >= INFINITY {
            Measure { bits: ZERO }
        } else if a.bits == INFINITY {
            Measure { bits: INFINITY }
        } else if b.bits == ZERO {
            if a.bits == ZERO {
                Measure { bits: ZERO }
            } else {
                Measure { bits: INFINITY }
            }
        } else {
            Measure { bits: divide(a.bits, b.bits) }
        }
    }

    fn nearest(&self, a: Measure) -> (r: u32)
        ensures
            r == rounded(a),
    {
        if a.bits > INFINITY {
            return 0;
        }
        proof {
            lemma_one();
        }
        if a.bits == INFINITY {
            proof {
                lemma_units(FRACTIONS as nat, 2046, INFINITY);
                lemma_huge(FRACTIONS as nat, 2046);
            }
            return u32::MAX;
        }
        let (digits, places) = split(a.bits);
        if places >= DEPTH {
            proof {
                lemma_huge(digits as nat, places as nat);
            }
            return u32::MAX;
        }
        let down: u32 = DEPTH - places;
        if down > 60 {
            proof {
                lemma_tiny(digits as nat, places as nat);
            }
            return 0;
        }
        let one: u128 = two_to(down);
        proof {
            lemma_bounded_power(down as nat);
            lemma_whole_part(digits as nat, places as nat, one as nat);
        }
        let whole: u128 = (2 * digits as u128 + one) / (2 * one);
        if whole > u32::MAX as u128 {
            u32::MAX
        } else {
            whole as u32
        }
    }
}

proof fn lemma_huge(digits: nat, places: nat)
    requires
        digits >= FRACTIONS,
        places >= DEPTH,
    ensures
        (2 * (digits * pow2(places)) + pow2(DEPTH as nat)) / (2 * pow2(DEPTH as nat)) > u32::MAX,
{
    lemma_pow2_pos(DEPTH as nat);
    if places > DEPTH {
        lemma_pow2_strictly_increases(DEPTH as nat, places);
    }
    let (one, unit) = (pow2(DEPTH as nat), pow2(places));
    assert((2 * (digits * unit) + one) / (2 * one) >= FRACTIONS) by (nonlinear_arith)
        requires
            digits >= FRACTIONS,
            unit >= one,
            one > 0,
    ;
}

proof fn lemma_tiny(digits: nat, places: nat)
    requires
        digits < 2 * FRACTIONS,
        places + 60 < DEPTH,
    ensures
        (2 * (digits * pow2(places)) + pow2(DEPTH as nat)) / (2 * pow2(DEPTH as nat)) == 0,
{
    lemma2_to64_rest();
    lemma_pow2_adds(54, places);
    lemma_pow2_pos(places);
    lemma_pow2_strictly_increases(54 + places, DEPTH as nat);
    let (one, unit) = (pow2(DEPTH as nat), pow2(places));
    assert((2 * (digits * unit) + one) / (2 * one) == 0) by (nonlinear_arith)
        requires
            2 * digits <= pow2(54),
            pow2(54) * unit < one,
            unit > 0,
    ;
}

proof fn lemma_whole_part(digits: nat, places: nat, one: nat)
    requires
        places <= DEPTH,
        one == pow2((DEPTH - places) as nat),
    ensures
        (2 * (digits * pow2(places)) + pow2(DEPTH as nat)) / (2 * pow2(DEPTH as nat)) == (2 * digits
            + one) / (2 * one),
{
    lemma_pow2_adds((DEPTH - places) as nat, places);
    lemma_pow2_pos(places);
    lemma_pow2_pos((DEPTH - places) as nat);
    let unit = pow2(places);
    let (x, d) = ((2 * digits + one) as int, (2 * one) as int);
    assert(2 * (digits * unit) + pow2(DEPTH as nat) == unit * x && 2 * pow2(DEPTH as nat) == unit
        * d) by (nonlinear_arith)
        requires
            pow2(DEPTH as nat) == one * unit,
            x == 2 * digits + one,
            d == 2 * one,
    ;
    lemma_div_multiples_vanish_quotient(unit as int, x, d);
}

} // verus!
