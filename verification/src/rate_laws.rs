//! What a measured throughput says of the transfer: bytes over time, up to rounding.

use vstd::prelude::*;

use crate::closeness::{
    around, dust, lemma_count_number, lemma_factors, lemma_fraction, lemma_grains,
    lemma_number_order, lemma_product_number, lemma_quotient_number, lemma_vast,
    lemma_whole_constants, number, slip, VAST,
};
use crate::double_laws::{doubles_are_orderly, doubles_are_steady};
use crate::doubles::{is_number, Doubles};
use crate::formula::{constant, Formula};
use crate::measure::{Arithmetic, Measure, THOUSAND, ZERO};
use crate::order::{below, lemma_below_itself, lemma_below_over, lemma_below_times, proper};
use crate::types::TransferOutcome;

verus! {

/// What is close to a number by a share and by dust is close to it by a share alone, where the number
/// is not tiny.
proof fn lemma_no_dust(v: real, x: real, dust: real)
    requires
        x - (slip() * x + dust) <= v <= x + (slip() * x + dust),
        0real < dust <= (slip() * slip()) * (slip() * slip()),
        x >= slip() * slip(),
    ensures
        x - 2real * (slip() * x) <= v <= x + 2real * (slip() * x),
{
    lemma_grains();
    let s = slip();
    assert((s * s) * (s * s) <= s * x) by (nonlinear_arith)
        requires
            x >= s * s,
            0real < s <= 1real,
    ;
}

/// The measured throughput times the duration in milliseconds is the bytes times a thousand, up to
/// rounding. There is one wherever bytes were moved and time passed, and nowhere else.
pub proof fn rates_are_bytes_over_time(
    kit: &Doubles,
    outcome: TransferOutcome,
    rate: Option<Measure>,
)
    requires
        outcome.is_rate(kit, rate),
    ensures
        rate is Some <==> outcome.bytes > 0 && outcome.duration_ms > 0,
        rate is Some ==> {
            let moved = 1000real * (outcome.bytes as real);
            &&& is_number(rate->0)
            &&& rate->0.bits > ZERO
            &&& around(
                number(rate->0) * (outcome.duration_ms as real),
                moved,
                (12real * slip()) * moved,
            )
        },
{
    if rate is Some {
        lemma_rate(kit, outcome.bytes, outcome.duration_ms, rate->0);
    }
}

proof fn lemma_rate(kit: &Doubles, bytes: u64, duration: u64, rate: Measure)
    requires
        bytes > 0,
        duration > 0,
        Formula::Count(bytes).times(constant(THOUSAND)).over(Formula::Count(duration)).gives(
            kit,
            rate,
        ),
    ensures
        is_number(rate),
        rate.bits > ZERO,
        around(
            number(rate) * (duration as real),
            1000real * (bytes as real),
            (12real * slip()) * (1000real * (bytes as real)),
        ),
{
    lemma_grains();
    lemma_vast();
    lemma_whole_constants();
    let scaled = Formula::Count(bytes).times(constant(THOUSAND));
    let (p, d) = lemma_fraction(kit, scaled, Formula::Count(duration), rate);
    let (c, t) = lemma_factors(kit, Formula::Count(bytes), constant(THOUSAND), p);
    lemma_count_number(bytes, c);
    lemma_count_number(duration, d);
    let vast = Measure { bits: VAST };
    let (b, ms) = (bytes as real, duration as real);
    let (cn, pn, dn, q, s) = (number(c), number(p), number(d), number(rate), slip());
    assert(b - 2real * (s * b) <= cn <= b + 2real * (s * b));
    assert(ms - 2real * (s * ms) <= dn <= ms + 2real * (s * ms));
    lemma_small(s, b, cn);
    lemma_small(s, ms, dn);
    lemma_product_number(c, t, p, vast);
    assert(cn * 1000real == 1000real * cn) by (nonlinear_arith);
    assert(s * s <= 1real) by (nonlinear_arith)
        requires
            0real < s <= 1real,
    ;
    let w = 1000real * cn;
    assert(1real * (s * w + dust()) == s * w + dust());
    lemma_no_dust(pn, w, dust());
    assert(s * w <= w / 4real) by (nonlinear_arith)
        requires
            4real * s <= 1real,
            w >= 0real,
    ;
    assert(pn >= 1real);
    let x = pn / dn;
    assert(x * dn == pn && x <= pn && x >= s * s) by (nonlinear_arith)
        requires
            x == pn / dn,
            dn >= 1real,
            pn >= 1real,
            (s * s) * dn <= 1real,
            s > 0real,
    ;
    lemma_quotient_number(p, d, rate, vast);
    assert(1real * (s * x + dust()) == s * x + dust());
    lemma_no_dust(q, x, dust());
    lemma_combined(b, ms, cn, pn, dn, x, q, s);
    assert(q > 0real) by (nonlinear_arith)
        requires
            q >= x - 2real * (s * x),
            4real * s <= 1real,
            x * dn >= 1real,
            dn >= 1real,
    ;
    lemma_number_order(Measure { bits: ZERO }, rate);
}

/// A counted number is at least one and far from overflowing.
proof fn lemma_small(s: real, n: real, v: real)
    requires
        1real <= n <= 18446744073709551616real,
        s * 4503599627370496real == 1real,
        n - 2real * (s * n) <= v <= n + 2real * (s * n),
    ensures
        1real <= 2real * v,
        v <= 36893488147419103232real,
        (s * s) * v <= 1real,
{
    assert(4real * (s * n) <= n) by (nonlinear_arith)
        requires
            s * 4503599627370496real == 1real,
            n >= 1real,
    ;
    assert((s * s) * v <= 1real) by (nonlinear_arith)
        requires
            s * 4503599627370496real == 1real,
            0real <= v <= 36893488147419103232real,
    ;
}

proof fn lemma_combined(
    b: real,
    ms: real,
    cn: real,
    pn: real,
    dn: real,
    x: real,
    q: real,
    s: real,
)
    requires
        0real < s,
        s * 1000real <= 1real,
        b >= 1real,
        ms >= 1real,
        b - 2real * (s * b) <= cn <= b + 2real * (s * b),
        ms - 2real * (s * ms) <= dn <= ms + 2real * (s * ms),
        1000real * cn - 2real * (s * (1000real * cn)) <= pn <= 1000real * cn + 2real * (s * (1000real
            * cn)),
        x * dn == pn,
        x >= 0real,
        x - 2real * (s * x) <= q <= x + 2real * (s * x),
    ensures
        around(q * ms, 1000real * b, (12real * s) * (1000real * b)),
{
    let m = 1000real * b;
    assert(pn <= m + 5real * (s * m) && pn >= m - 4real * (s * m)) by (nonlinear_arith)
        requires
            0real < s,
            s * 1000real <= 1real,
            b >= 1real,
            m == 1000real * b,
            b - 2real * (s * b) <= cn <= b + 2real * (s * b),
            1000real * cn - 2real * (s * (1000real * cn)) <= pn <= 1000real * cn + 2real * (s * (
            1000real * cn)),
    ;
    let y = x * ms;
    assert(y <= pn + 3real * (s * pn)) by (nonlinear_arith)
        requires
            y == x * ms,
            x >= 0real,
            x * dn == pn,
            ms - 2real * (s * ms) <= dn,
            0real < s,
            s * 1000real <= 1real,
            ms >= 1real,
    {
        assert(x * (ms - 2real * (s * ms)) <= x * dn);
        assert(x * (ms - 2real * (s * ms)) == y - 2real * (s * y));
        assert(y - 2real * (s * y) <= pn);
        assert(y >= 0real);
        // Multiply both sides.
        assert((y - 2real * (s * y)) * (1real + 3real * s) <= pn * (1real + 3real * s));
        assert((y - 2real * (s * y)) * (1real + 3real * s) == y + s * y - 6real * (s * (s * y)));
        assert(s * y >= 6real * (s * (s * y)));
    }
    assert(y >= pn - 2real * (s * pn)) by (nonlinear_arith)
        requires
            y == x * ms,
            x >= 0real,
            x * dn == pn,
            dn <= ms + 2real * (s * ms),
            0real < s,
            s * 1000real <= 1real,
            ms >= 1real,
    {
        assert(x * dn <= x * (ms + 2real * (s * ms)));
        assert(x * (ms + 2real * (s * ms)) == y + 2real * (s * y));
        assert(pn <= y + 2real * (s * y));
        assert(y >= 0real);
        assert(pn * (1real - 2real * s) <= (y + 2real * (s * y)) * (1real - 2real * s));
        assert((y + 2real * (s * y)) * (1real - 2real * s) == y - 4real * (s * (s * y)));
    }
    let z = q * ms;
    assert(y - 2real * (s * y) <= z <= y + 2real * (s * y)) by (nonlinear_arith)
        requires
            y == x * ms,
            z == q * ms,
            ms >= 1real,
            x - 2real * (s * x) <= q <= x + 2real * (s * x),
    ;
    assert(m - 12real * (s * m) <= z <= m + 12real * (s * m)) by (nonlinear_arith)
        requires
            0real < s,
            s * 1000real <= 1real,
            m >= 1000real,
            pn <= m + 5real * (s * m),
            pn >= m - 4real * (s * m),
            y <= pn + 3real * (s * pn),
            y >= pn - 2real * (s * pn),
            y - 2real * (s * y) <= z <= y + 2real * (s * y),
    ;
    assert((12real * s) * m == 12real * (s * m)) by (nonlinear_arith);
}

/// Of two transfers of as many bytes, the one that took longer never measures faster.
pub proof fn longer_transfers_measure_no_faster(
    kit: &Doubles,
    quick: TransferOutcome,
    slow: TransferOutcome,
    quick_rate: Measure,
    slow_rate: Measure,
)
    requires
        quick.is_rate(kit, Some(quick_rate)),
        slow.is_rate(kit, Some(slow_rate)),
        quick.bytes == slow.bytes,
        quick.duration_ms <= slow.duration_ms,
    ensures
        slow_rate.bits <= quick_rate.bits,
        number(slow_rate) <= number(quick_rate),
{
    doubles_are_steady(kit);
    doubles_are_orderly(kit);
    let scaled = Formula::Count(quick.bytes).times(constant(THOUSAND));
    let (short, long) = (Formula::Count(quick.duration_ms), Formula::Count(slow.duration_ms));
    reveal_with_fuel(proper, 3);
    lemma_below_itself(kit, scaled);
    assert(below(kit, short, long));
    lemma_below_over(kit, scaled, long, scaled, short);
    lemma_number_order(slow_rate, quick_rate);
}

/// Of two transfers in as much time, the one that moved more bytes never measures slower.
pub proof fn larger_transfers_measure_no_slower(
    kit: &Doubles,
    small: TransferOutcome,
    large: TransferOutcome,
    small_rate: Measure,
    large_rate: Measure,
)
    requires
        small.is_rate(kit, Some(small_rate)),
        large.is_rate(kit, Some(large_rate)),
        small.duration_ms == large.duration_ms,
        small.bytes <= large.bytes,
    ensures
        small_rate.bits <= large_rate.bits,
        number(small_rate) <= number(large_rate),
{
    doubles_are_steady(kit);
    doubles_are_orderly(kit);
    let (few, many) = (Formula::Count(small.bytes), Formula::Count(large.bytes));
    let time = Formula::Count(small.duration_ms);
    lemma_below_itself(kit, constant(THOUSAND));
    assert(below(kit, few, many));
    lemma_below_times(kit, few, constant(THOUSAND), many, constant(THOUSAND));
    lemma_below_itself(kit, time);
    lemma_below_over(
        kit,
        few.times(constant(THOUSAND)),
        time,
        many.times(constant(THOUSAND)),
        time,
    );
    lemma_number_order(small_rate, large_rate);
}

/// Of two transfers of as many bytes, the one that took half the time measures twice as fast, up to
/// rounding.
pub proof fn half_the_time_is_twice_as_fast(
    kit: &Doubles,
    quick: TransferOutcome,
    slow: TransferOutcome,
    quick_rate: Measure,
    slow_rate: Measure,
)
    requires
        quick.is_rate(kit, Some(quick_rate)),
        slow.is_rate(kit, Some(slow_rate)),
        quick.bytes == slow.bytes,
        slow.duration_ms == 2 * quick.duration_ms,
    ensures
        around(
            number(quick_rate),
            2real * number(slow_rate),
            (100real * slip()) * number(slow_rate),
        ),
{
    lemma_grains();
    rates_are_bytes_over_time(kit, quick, Some(quick_rate));
    rates_are_bytes_over_time(kit, slow, Some(slow_rate));
    let (q, w, t, m, s) = (
        number(quick_rate),
        number(slow_rate),
        quick.duration_ms as real,
        1000real * (quick.bytes as real),
        slip(),
    );
    assert(slow.duration_ms as real == 2real * t);
    let e = (12real * s) * m;
    assert(around(q * t, m, e));
    assert(around(w * (2real * t), m, e));
    assert(around(q, 2real * w, (100real * s) * w)) by {
        assert(w * (2real * t) == 2real * (w * t)) by (nonlinear_arith);
        let z = w * t;
        // The rounding is a small share of what was moved, so of the slower rate too.
        assert(m <= 3real * z) by (nonlinear_arith)
            requires
                m - (12real * s) * m <= 2real * z,
                m >= 0real,
                s * 1000real <= 1real,
                s > 0real,
        ;
        let g = (100real * s) * w;
        assert(g * t == (100real * s) * z && 2real * e <= (72real * s) * z) by (nonlinear_arith)
            requires
                g == (100real * s) * w,
                z == w * t,
                e == (12real * s) * m,
                m <= 3real * z,
                s > 0real,
        ;
        assert((72real * s) * z <= (100real * s) * z) by (nonlinear_arith)
            requires
                s > 0real,
                z >= 0real,
        {
        }
        assert(2real * z - g * t <= q * t <= 2real * z + g * t);
        assert(2real * w - g <= q <= 2real * w + g) by (nonlinear_arith)
            requires
                2real * z - g * t <= q * t <= 2real * z + g * t,
                z == w * t,
                t >= 1real,
        ;
    }
}

} // verus!
