//! What a score is worth, in numbers: the throughput times the success rate, trusted as far as it was
//! sampled, less what swings, failures, load and relays cost.

use vstd::prelude::*;

use crate::address::TraversalKind;
use crate::closeness::{
    around, dust, held, lemma_count_number, lemma_decimals, lemma_ends, lemma_factors,
    lemma_fraction, lemma_grains, lemma_held, lemma_held_quotient, lemma_number_order,
    lemma_product_number, lemma_quotient_number, lemma_share_product, lemma_share_rest,
    lemma_share_sum, lemma_sum_number, lemma_summands, lemma_vast, lemma_whole_constants,
    lemma_worth_share, number, slip, VAST,
};
use crate::double_laws::doubles_are_steady;
use crate::doubles::{is_number, Doubles};
use crate::formula::{constant, Formula};
use crate::measure::{Arithmetic, Measure, EPSILON, FOUR, HALF, INFINITY, ONE, QUARTER, ZERO};
use crate::quality::{confidence_in, volatility, Estimate, PeerQuality, Reliability};
use crate::registry::Peer;
use crate::scoring::{
    confident_value, is_judgement, merit, or_constant, path_factor, pressure, tail_discount,
    PeerClass, RelayModel, SaturationModel, ScoredPeer, CONFIDENT_SHARE, PRESSURE_SHARE,
    UNSAMPLED_SHARE,
};

verus! {

/// The number of a measure, or another for want of one.
pub open spec fn number_or(m: Option<Measure>, other: real) -> real {
    match m {
        Some(m) => number(m),
        None => other,
    }
}

/// Whether a measure, if there is one, is a number.
pub open spec fn finite(m: Option<Measure>) -> bool {
    m matches Some(m) ==> is_number(m)
}

/// Whether what a score is made of are numbers, and the success rate is at most one.
pub open spec fn measured_in_numbers(quality: PeerQuality) -> bool {
    &&& finite(quality.throughput.mean)
    &&& is_number(quality.throughput.mad)
    &&& quality.reliability.rate matches Some(rate) ==> rate.bits <= ONE
}

/// How many ranges at once the path of a peer is good for.
pub open spec fn ranges_over(path: Option<TraversalKind>, saturation: SaturationModel) -> u32 {
    match path {
        Some(TraversalKind::Relayed) => saturation.relayed.ranges,
        Some(_) => saturation.direct.ranges,
        None => saturation.unknown.ranges,
    }
}

/// How far a throughput swings about its mean: between not at all and by all of it.
pub open spec fn swing(throughput: Estimate) -> real {
    match throughput.mean {
        Some(mean) => if number(mean) > slip() {
            held(number(throughput.mad) / number(mean), 0real, 1real)
        } else {
            0real
        },
        None => 0real,
    }
}

/// How close a load is to saturation.
pub open spec fn load(in_flight: u32, ranges: u32) -> real {
    held((in_flight as real) / (ranges as real), 0real, 1real)
}

/// What a path leaves of a score: over a relay the ratio of the means, between a quarter and all of
/// it, or seventeen twentieths while there is nothing to compare; over any other path all of it.
pub open spec fn left_by(path: Option<TraversalKind>, relay: RelayModel) -> real {
    if path == Some(TraversalKind::Relayed) {
        match (relay.relayed_mean, relay.direct_mean) {
            (Some(relayed), Some(direct)) if number(direct) > 0real => held(
                number(relayed) / number(direct),
                1real / 4real,
                1real,
            ),
            _ => 17real / 20real,
        }
    } else {
        1real
    }
}

/// What trust in a number of outcomes leaves of a score: three tenths without any, and all of it in
/// the long run.
pub open spec fn trusted(samples: u64) -> real {
    3real / 10real + (7real / 10real) * ((samples as real) / (samples as real + 4real))
}

/// What swings, failures and load leave of a score.
pub open spec fn left_of(swing: real, rate: real, load: real) -> real {
    ((1real - swing / 2real) * (1real / 2real + rate / 2real)) * (1real - (2real / 5real) * load)
}

/// The value of a constant.
pub proof fn lemma_constant(kit: &Doubles, bits: u64, v: Measure)
    requires
        constant(bits).gives(kit, v),
    ensures
        v == (Measure { bits }),
{
}

/// A quotient of two numbers that are close to two others is close to that of those.
pub proof fn lemma_ratio(a: real, b: real, x: real, y: real, q: real, z: real)
    requires
        x - 2real * (slip() * x) <= a <= x + 2real * (slip() * x),
        y - 4real * (slip() * y) <= b <= y + 4real * (slip() * y),
        0real <= x <= y,
        y >= 1real,
        q == a / b,
        z == x / y,
    ensures
        0real <= z <= 1real,
        around(q, z, 7real * slip()),
{
    lemma_grains();
    let s = slip();
    assert(b >= y / 2real && b > 0real) by (nonlinear_arith)
        requires
            y - 4real * (s * y) <= b,
            y >= 1real,
            8real * s <= 1real,
    ;
    assert(a >= 0real) by (nonlinear_arith)
        requires
            x - 2real * (s * x) <= a,
            x >= 0real,
            8real * s <= 1real,
    ;
    assert(q * b == a && q >= 0real) by (nonlinear_arith)
        requires
            q == a / b,
            b > 0real,
            a >= 0real,
    ;
    assert(z * y == x && 0real <= z <= 1real) by (nonlinear_arith)
        requires
            z == x / y,
            0real <= x <= y,
            y >= 1real,
    ;
    let w = q * y;
    assert(w - 4real * (s * w) <= a <= w + 4real * (s * w) && w >= 0real) by (nonlinear_arith)
        requires
            w == q * y,
            q * b == a,
            q >= 0real,
            y >= 1real,
            y - 4real * (s * y) <= b <= y + 4real * (s * y),
    {
        assert(q * (y - 4real * (s * y)) <= q * b);
        assert(q * b <= q * (y + 4real * (s * y)));
        assert(q * (4real * (s * y)) == 4real * (s * w));
    }
    assert(x - 7real * (s * x) <= w <= x + 7real * (s * x)) by (nonlinear_arith)
        requires
            w - 4real * (s * w) <= a <= w + 4real * (s * w),
            x - 2real * (s * x) <= a <= x + 2real * (s * x),
            0real < s,
            1000real * s <= 1real,
            w >= 0real,
            x >= 0real,
    ;
    assert(z - 7real * s <= q <= z + 7real * s) by (nonlinear_arith)
        requires
            w == q * y,
            z * y == x,
            y >= 1real,
            0real <= z <= 1real,
            0real < s,
            x - 7real * (s * x) <= w <= x + 7real * (s * x),
    {
        assert(s * x == (s * z) * y);
        assert((q - z) * y <= (7real * (s * z)) * y);
        assert((q - z) * y >= -(7real * (s * z)) * y);
        assert(q - z <= 7real * (s * z));
        assert(q - z >= -(7real * (s * z)));
        assert(s * z <= s);
    }
}

/// The trust that a number of outcomes gives is their share of four more, up to rounding.
pub proof fn trust_is_a_share_of_four_more(kit: &Doubles, samples: u64, trust: Measure)
    requires
        confidence_in(samples).gives(kit, trust),
    ensures
        trust.bits <= ONE,
        around(number(trust), (samples as real) / (samples as real + 4real), 9real * slip()),
        samples == 0 ==> trust.bits == ZERO,
{
    lemma_grains();
    lemma_vast();
    lemma_whole_constants();
    let (count, four) = (Formula::Count(samples), constant(FOUR));
    let (n, total) = lemma_fraction(kit, count, count.plus(four), trust);
    let (m, f) = lemma_summands(kit, count, four, total);
    lemma_constant(kit, FOUR, f);
    lemma_count_number(samples, n);
    lemma_count_number(samples, m);
    let (one, vast) = (Measure { bits: ONE }, Measure { bits: VAST });
    let (x, s, d) = (samples as real, slip(), dust());
    let (nn, mn, tn) = (number(n), number(m), number(total));
    lemma_number_order(n, n);
    lemma_number_order(m, m);
    assert(s * x <= x) by (nonlinear_arith)
        requires
            0real < s <= 1real,
            x >= 0real,
    ;
    lemma_sum_number(m, f, total, vast);
    let y = x + 4real;
    assert(s * s <= s) by (nonlinear_arith)
        requires
            0real < s <= 1real,
    ;
    assert(y - 4real * (s * y) <= tn <= y + 4real * (s * y)) by (nonlinear_arith)
        requires
            y == x + 4real,
            x >= 0real,
            x - 2real * (s * x) <= mn <= x + 2real * (s * x),
            0real < s,
            1000real * s <= 1real,
            d <= s,
            0real < d,
            (mn + 4real) - 1real * (s * (mn + 4real) + d) <= tn <= (mn + 4real) + 1real * (s * (mn
                + 4real) + d),
    ;
    assert(m == n) by {
        doubles_are_steady(kit);
    }
    assert(total.bits >= m.bits && total.bits >= f.bits);
    lemma_number_order(m, total);
    lemma_number_order(f, total);
    assert(nn / tn <= 1real && nn / tn >= 0real) by (nonlinear_arith)
        requires
            0real <= nn <= tn,
            tn >= 4real,
    ;
    lemma_quotient_number(n, total, trust, one);
    lemma_ratio(nn, tn, x, y, nn / tn, x / y);
    let q = nn / tn;
    assert(s * q <= s) by (nonlinear_arith)
        requires
            0real <= q <= 1real,
            0real < s,
    ;
    assert(s * q >= 0real) by (nonlinear_arith)
        requires
            0real <= q,
            0real < s,
    ;
    if samples == 0 {
        assert(nn == 0real);
        assert(q == 0real) by (nonlinear_arith)
            requires
                q == nn / tn,
                nn == 0real,
                tn >= 4real,
        ;
        let zero = Measure { bits: ZERO };
        lemma_quotient_number(n, total, trust, zero);
    }
}

/// The relative volatility is the deviation over the mean, held between zero and one, up to rounding;
/// zero without a mean that can be told from zero.
pub proof fn volatility_is_the_relative_swing(kit: &Doubles, throughput: Estimate, v: Measure)
    requires
        volatility(throughput.mean, throughput.mad).gives(kit, v),
        finite(throughput.mean),
        is_number(throughput.mad),
    ensures
        v.bits <= ONE,
        around(number(v), swing(throughput), 2real * slip()),
        0real <= swing(throughput) <= 1real,
{
    lemma_grains();
    lemma_whole_constants();
    match throughput.mean {
        Some(mean) => {
            lemma_number_order(Measure { bits: EPSILON }, mean);
            if mean.bits > EPSILON {
                let (over, under) = (Formula::Known(throughput.mad), Formula::Known(mean));
                let q = lemma_held(kit, over.over(under), ZERO, ONE, v);
                let (a, b) = lemma_fraction(kit, over, under, q);
                lemma_held_quotient(a, b, q, Measure { bits: ZERO }, v);
            }
        },
        None => {},
    }
}

/// The load of a peer is the share that its ranges in flight are of its saturation point.
proof fn lemma_load(kit: &Doubles, in_flight: u32, ranges: u32, v: Measure)
    requires
        pressure(in_flight, ranges).gives(kit, v),
        ranges >= 1,
    ensures
        v.bits <= ONE,
        around(number(v), load(in_flight, ranges), 2real * slip()),
        0real <= load(in_flight, ranges) <= 1real,
{
    lemma_grains();
    lemma_whole_constants();
    let (over, under) = (Formula::Count(in_flight as u64), Formula::Count(ranges as u64));
    let q = lemma_held(kit, over.over(under), ZERO, ONE, v);
    let (a, b) = lemma_fraction(kit, over, under, q);
    lemma_count_number(in_flight as u64, a);
    lemma_count_number(ranges as u64, b);
    lemma_held_quotient(a, b, q, Measure { bits: ZERO }, v);
}

/// The factor on the score of a relayed peer is the ratio of the two means, held between a quarter
/// and one, up to rounding; seventeen twentieths while there is nothing to compare.
pub proof fn the_handicap_is_the_ratio_of_the_means(kit: &Doubles, relay: RelayModel, v: Measure)
    requires
        relay.handicap().gives(kit, v),
        finite(relay.relayed_mean),
        finite(relay.direct_mean),
    ensures
        QUARTER <= v.bits <= ONE,
        around(number(v), left_by(Some(TraversalKind::Relayed), relay), 2real * slip()),
        1real / 4real <= left_by(Some(TraversalKind::Relayed), relay) <= 1real,
{
    lemma_grains();
    lemma_whole_constants();
    lemma_decimals();
    match (relay.relayed_mean, relay.direct_mean) {
        (Some(relayed), Some(direct)) => {
            lemma_number_order(Measure { bits: ZERO }, direct);
            if direct.bits > ZERO {
                let (over, under) = (Formula::Known(relayed), Formula::Known(direct));
                let q = lemma_held(kit, over.over(under), QUARTER, ONE, v);
                let (a, b) = lemma_fraction(kit, over, under, q);
                lemma_held_quotient(a, b, q, Measure { bits: QUARTER }, v);
            }
        },
        _ => {},
    }
}

/// The discount in numbers.
proof fn lemma_discount(kit: &Doubles, quality: PeerQuality, ranges: u32, v: Measure)
    requires
        tail_discount(quality, ranges).gives(kit, v),
        measured_in_numbers(quality),
        ranges >= 1,
    ensures
        v.bits <= ONE,
        ({
            let left = left_of(
                swing(quality.throughput),
                number_or(quality.reliability.rate, 1real / 2real),
                load(quality.in_flight, ranges),
            );
            0real <= left <= 1real && around(number(v), left, 22real * slip())
        }),
{
    lemma_grains();
    lemma_whole_constants();
    lemma_decimals();
    let (one, half) = (Measure { bits: ONE }, Measure { bits: HALF });
    let swings = volatility(quality.throughput.mean, quality.throughput.mad);
    let reliability = or_constant(quality.reliability.rate, HALF);
    let steadiness = constant(ONE).off(constant(HALF).times(swings));
    let dependability = constant(HALF).plus(constant(HALF).times(reliability));
    let queueing = constant(PRESSURE_SHARE).times(pressure(quality.in_flight, ranges));
    let calm = constant(ONE).off(queueing);
    let rate = number_or(quality.reliability.rate, 1real / 2real);
    let (sw, ld) = (swing(quality.throughput), load(quality.in_flight, ranges));
    let s = slip();
    let (pair, c) = lemma_factors(kit, steadiness.times(dependability), calm, v);
    let (a, b) = lemma_factors(kit, steadiness, dependability, pair);
    // The swings.
    let (a1, a2) = lemma_ends(kit, constant(ONE), constant(HALF).times(swings), a);
    lemma_constant(kit, ONE, a1);
    let (h, x) = lemma_factors(kit, constant(HALF), swings, a2);
    lemma_constant(kit, HALF, h);
    volatility_is_the_relative_swing(kit, quality.throughput, x);
    lemma_share_product(h, x, a2, 1real / 2real, sw, 0real, 2real * s);
    lemma_share_rest(a2, a, (1real / 2real) * sw, 4real * s);
    // The failures.
    let (b1, b2) = lemma_summands(kit, constant(HALF), constant(HALF).times(reliability), b);
    lemma_constant(kit, HALF, b1);
    let (k, y) = lemma_factors(kit, constant(HALF), reliability, b2);
    lemma_constant(kit, HALF, k);
    assert(y.bits <= ONE && number(y) == rate);
    lemma_number_order(y, one);
    let (yn, hn) = (number(y), number(half));
    assert(hn * yn <= hn) by (nonlinear_arith)
        requires
            hn >= 0real,
            yn <= 1real,
    ;
    lemma_product_number(k, y, b2, half);
    lemma_number_order(b2, half);
    lemma_share_product(k, y, b2, 1real / 2real, rate, 0real, 0real);
    lemma_share_sum(b1, b2, b, 1real / 2real, (1real / 2real) * rate, 0real, 2real * s);
    let (p, q) = (1real - sw / 2real, 1real / 2real + rate / 2real);
    lemma_share_product(a, b, pair, p, q, 6real * s, 5real * s);
    // The load.
    let (c1, c2) = lemma_ends(kit, constant(ONE), queueing, c);
    lemma_constant(kit, ONE, c1);
    let (g, z) = lemma_factors(
        kit,
        constant(PRESSURE_SHARE),
        pressure(quality.in_flight, ranges),
        c2,
    );
    lemma_constant(kit, PRESSURE_SHARE, g);
    lemma_load(kit, quality.in_flight, ranges, z);
    lemma_share_product(g, z, c2, 2real / 5real, ld, s, 2real * s);
    lemma_share_rest(c2, c, (2real / 5real) * ld, 5real * s);
    let (pq, r) = (p * q, 1real - (2real / 5real) * ld);
    assert(0real <= pq <= 1real) by (nonlinear_arith)
        requires
            pq == p * q,
            0real <= p <= 1real,
            0real <= q <= 1real,
    ;
    assert(0real <= pq * r <= 1real) by (nonlinear_arith)
        requires
            0real <= pq <= 1real,
            0real <= r <= 1real,
    ;
    lemma_share_product(pair, c, v, pq, r, 13real * s, 7real * s);
}

/// The trusted value in numbers.
proof fn lemma_trusted_value(kit: &Doubles, quality: PeerQuality, v: Measure)
    requires
        confident_value(quality).gives(kit, v),
        measured_in_numbers(quality),
    ensures
        is_number(v),
        ({
            let t = number_or(quality.throughput.mean, 0real);
            let rate = number_or(quality.reliability.rate, 1real / 2real);
            let whole = t * rate;
            &&& 0real <= whole
            &&& 0real <= trusted(quality.samples) <= 1real
            &&& around(
                number(v),
                whole * trusted(quality.samples),
                20real * (slip() * whole + dust()),
            )
            &&& t == 0real || rate == 0real ==> v.bits == ZERO
        }),
{
    lemma_grains();
    lemma_whole_constants();
    lemma_decimals();
    let (zero, one) = (Measure { bits: ZERO }, Measure { bits: ONE });
    let throughput = or_constant(quality.throughput.mean, ZERO);
    let reliability = or_constant(quality.reliability.rate, HALF);
    let trust = constant(CONFIDENT_SHARE).times(confidence_in(quality.samples));
    let share = constant(UNSAMPLED_SHARE).plus(trust);
    let t = number_or(quality.throughput.mean, 0real);
    let rate = number_or(quality.reliability.rate, 1real / 2real);
    let s = slip();
    let whole = t * rate;
    let (p, k) = lemma_factors(kit, throughput.times(reliability), share, v);
    let (a, b) = lemma_factors(kit, throughput, reliability, p);
    assert(number(a) == t && number(b) == rate && is_number(a) && b.bits <= ONE);
    lemma_number_order(a, a);
    lemma_number_order(b, one);
    assert(0real <= whole <= t) by (nonlinear_arith)
        requires
            whole == t * rate,
            0real <= t,
            0real <= rate <= 1real,
    ;
    lemma_product_number(a, b, p, a);
    // The share that is trusted.
    let (k1, k2) = lemma_summands(kit, constant(UNSAMPLED_SHARE), trust, k);
    lemma_constant(kit, UNSAMPLED_SHARE, k1);
    let (c1, c2) = lemma_factors(kit, constant(CONFIDENT_SHARE), confidence_in(quality.samples), k2);
    lemma_constant(kit, CONFIDENT_SHARE, c1);
    trust_is_a_share_of_four_more(kit, quality.samples, c2);
    let n = quality.samples as real;
    let c = n / (n + 4real);
    assert(0real <= c <= 1real) by (nonlinear_arith)
        requires
            c == n / (n + 4real),
            n >= 0real,
    ;
    lemma_number_order(c2, one);
    let (u, w) = (number(c1), number(c2));
    assert(u * w <= u) by (nonlinear_arith)
        requires
            u >= 0real,
            w <= 1real,
    ;
    lemma_product_number(c1, c2, k2, c1);
    lemma_number_order(k2, c1);
    lemma_share_product(c1, c2, k2, 7real / 10real, c, s, 9real * s);
    lemma_share_sum(k1, k2, k, 3real / 10real, (7real / 10real) * c, s, 12real * s);
    assert(1real * (s * whole + dust()) == s * whole + dust());
    lemma_worth_share(p, k, v, whole, trusted(quality.samples), whole, 1real, 16real);
    if t == 0real || rate == 0real {
        assert(whole == 0real) by (nonlinear_arith)
            requires
                whole == t * rate,
                t == 0real || rate == 0real,
        ;
        lemma_product_number(a, b, p, zero);
    }
}

/// What a measured peer scores that is no bad source: its throughput times its success rate, trusted
/// as far as it was sampled, times what swings, failures and load leave, times what its path leaves;
/// up to rounding. Nothing where it moves nothing or never succeeds.
pub proof fn scores_are_trusted_throughput_less_costs(
    kit: &Doubles,
    peer: Peer,
    saturation: SaturationModel,
    relay: RelayModel,
    bonus: Measure,
    r: ScoredPeer,
)
    requires
        is_judgement(kit, peer, saturation, relay, bonus, r),
        peer.quality.samples > 0,
        peer.quality.reliability.hard_failures == 0 || number_or(
            peer.quality.reliability.rate,
            1real / 2real,
        ) >= 1real / 2real,
        measured_in_numbers(peer.quality),
        finite(relay.relayed_mean),
        finite(relay.direct_mean),
        saturation.wf(),
    ensures
        0 <= r.effective_score < INFINITY,
        ({
            let t = number_or(peer.quality.throughput.mean, 0real);
            let rate = number_or(peer.quality.reliability.rate, 1real / 2real);
            let left = left_of(
                swing(peer.quality.throughput),
                rate,
                load(peer.quality.in_flight, ranges_over(peer.connection_class, saturation)),
            );
            &&& around(
                number(Measure { bits: r.effective_score as u64 }),
                (((t * rate) * trusted(peer.quality.samples)) * left) * left_by(
                    peer.connection_class,
                    relay,
                ),
                50real * (slip() * (t * rate) + dust()),
            )
            &&& t == 0real || rate == 0real ==> r.effective_score == 0
        }),
{
    lemma_grains();
    lemma_whole_constants();
    let half = Measure { bits: HALF };
    if let Some(rate) = peer.quality.reliability.rate {
        lemma_number_order(rate, half);
    }
    let score = choose|value: Measure| #[trigger]
        merit(peer, saturation, relay).gives(kit, value) && r.effective_score == value.bits;
    let quality = peer.quality;
    let ranges = saturation.of(PeerClass::class_of(peer.connection_class)).ranges;
    assert(ranges == ranges_over(peer.connection_class, saturation));
    let (value, tail) = (confident_value(quality), tail_discount(quality, ranges));
    let factor = path_factor(peer, relay);
    let (p, f) = lemma_factors(kit, value.times(tail), factor, score);
    let (a, b) = lemma_factors(kit, value, tail, p);
    lemma_trusted_value(kit, quality, a);
    lemma_discount(kit, quality, ranges, b);
    if peer.connection_class == Some(TraversalKind::Relayed) {
        the_handicap_is_the_ratio_of_the_means(kit, relay, f);
    }
    let t = number_or(quality.throughput.mean, 0real);
    let rate = number_or(quality.reliability.rate, 1real / 2real);
    let whole = t * rate;
    let share = trusted(quality.samples);
    let left = left_of(
        swing(quality.throughput),
        rate,
        load(quality.in_flight, ranges_over(peer.connection_class, saturation)),
    );
    let x = whole * share;
    assert(0real <= x <= whole) by (nonlinear_arith)
        requires
            x == whole * share,
            0real <= share <= 1real,
            0real <= whole,
    ;
    lemma_worth_share(a, b, p, x, left, whole, 20real, 22real);
    let y = x * left;
    assert(0real <= y <= whole) by (nonlinear_arith)
        requires
            y == x * left,
            0real <= x <= whole,
            0real <= left <= 1real,
    ;
    lemma_worth_share(
        p,
        f,
        score,
        y,
        left_by(peer.connection_class, relay),
        whole,
        45real,
        2real,
    );
    assert(Measure { bits: r.effective_score as u64 } == score);
}

/// A peer that never fails, otherwise equal to another.
pub open spec fn never_failing(peer: Peer) -> Peer {
    Peer {
        quality: PeerQuality {
            reliability: Reliability {
                rate: Some(Measure { bits: ONE }),
                ..peer.quality.reliability
            },
            ..peer.quality
        },
        ..peer
    }
}

/// A score is proportional to the success rate: a measured peer scores no more than its success rate
/// times what an otherwise equal peer scores that never fails, up to rounding, and nothing where its
/// success rate is zero.
pub proof fn scores_are_proportional_to_the_success_rate(
    kit: &Doubles,
    peer: Peer,
    saturation: SaturationModel,
    relay: RelayModel,
    bonus: Measure,
    r: ScoredPeer,
    perfect: ScoredPeer,
    rate: Measure,
)
    requires
        is_judgement(kit, peer, saturation, relay, bonus, r),
        is_judgement(kit, never_failing(peer), saturation, relay, bonus, perfect),
        peer.quality.samples > 0,
        peer.quality.reliability.rate == Some(rate),
        measured_in_numbers(peer.quality),
        finite(relay.relayed_mean),
        finite(relay.direct_mean),
        saturation.wf(),
    ensures
        perfect.effective_score >= 0,
        r.effective_score >= 0 ==> {
            let best = number(Measure { bits: perfect.effective_score as u64 });
            let t = number_or(peer.quality.throughput.mean, 0real);
            number(Measure { bits: r.effective_score as u64 }) <= number(rate) * best + 100real * (
            slip() * (t * number(rate)) + dust())
        },
        number(rate) == 0real ==> r.effective_score <= 0,
        number(rate) == 0real && peer.quality.reliability.hard_failures == 0 ==> r.effective_score
            == 0,
{
    lemma_grains();
    lemma_whole_constants();
    lemma_number_order(rate, Measure { bits: ONE });
    lemma_number_order(rate, Measure { bits: HALF });
    scores_are_trusted_throughput_less_costs(
        kit,
        never_failing(peer),
        saturation,
        relay,
        bonus,
        perfect,
    );
    if peer.quality.reliability.hard_failures == 0 || number(rate) >= 1real / 2real {
        scores_are_trusted_throughput_less_costs(kit, peer, saturation, relay, bonus, r);
        let t = number_or(peer.quality.throughput.mean, 0real);
        let x = number(rate);
        let share = trusted(peer.quality.samples);
        let (sw, ld) = (
            swing(peer.quality.throughput),
            load(peer.quality.in_flight, ranges_over(peer.connection_class, saturation)),
        );
        let path = left_by(peer.connection_class, relay);
        let score = number(Measure { bits: r.effective_score as u64 });
        let best = number(Measure { bits: perfect.effective_score as u64 });
        if let Some(mean) = peer.quality.throughput.mean {
            lemma_number_order(mean, mean);
        }
        lemma_bounds(peer, saturation, relay);
        lemma_proportion(t, x, share, sw, ld, path, score, best, slip(), dust());
    }
}

/// The shares that a score is made of.
proof fn lemma_bounds(peer: Peer, saturation: SaturationModel, relay: RelayModel)
    ensures
        0real <= trusted(peer.quality.samples),
        0real <= swing(peer.quality.throughput) <= 1real,
        0real <= load(peer.quality.in_flight, ranges_over(peer.connection_class, saturation))
            <= 1real,
        0real <= left_by(peer.connection_class, relay),
{
    let n = peer.quality.samples as real;
    let c = n / (n + 4real);
    assert(c >= 0real) by (nonlinear_arith)
        requires
            c == n / (n + 4real),
            n >= 0real,
    ;
}

proof fn lemma_proportion(
    t: real,
    x: real,
    share: real,
    sw: real,
    ld: real,
    path: real,
    score: real,
    best: real,
    s: real,
    d: real,
)
    requires
        0real <= t,
        0real <= x <= 1real,
        0real <= share,
        0real <= sw <= 1real,
        0real <= ld <= 1real,
        0real <= path,
        0real < s,
        0real < d,
        score <= (((t * x) * share) * left_of(sw, x, ld)) * path + 50real * (s * (t * x) + d),
        best >= (((t * 1real) * share) * left_of(sw, 1real, ld)) * path - 50real * (s * (t * 1real)
            + d),
    ensures
        score <= x * best + 100real * (s * (t * x) + d),
{
    lemma_positive(1real - sw / 2real, 1real / 2real + x / 2real);
    let (p, q, o) = (1real - sw / 2real, 1real / 2real + x / 2real, 1real - (2real / 5real) * ld);
    let one = 1real / 2real + 1real / 2real;
    lemma_grows(q, one, p);
    lemma_grows(p * q, p * one, o);
    let (low, high) = (left_of(sw, x, ld), left_of(sw, 1real, ld));
    assert(low <= high);
    let part = t * share;
    let base = (t * x) * share;
    assert(base == x * part) by (nonlinear_arith)
        requires
            base == (t * x) * share,
            part == t * share,
    ;
    lemma_positive(t, x);
    lemma_positive(t * x, share);
    lemma_grows(low, high, base);
    lemma_grows(base * low, base * high, path);
    lemma_regroup(x, part, high);
    lemma_regroup(x, part * high, path);
    let full = (part * high) * path;
    assert(score <= x * full + 50real * (s * (t * x) + d));
    let e = 50real * (s * t + d);
    assert(best >= full - e);
    lemma_grows(full - e, best, x);
    assert(x * (full - e) == x * full - x * e) by (nonlinear_arith);
    let w = s * (t * x);
    assert(x * (s * t) == w) by (nonlinear_arith)
        requires
            w == s * (t * x),
    ;
    assert(x * e == 50real * (x * (s * t)) + 50real * (x * d)) by (nonlinear_arith)
        requires
            e == 50real * (s * t + d),
    ;
    assert(x * d <= d) by (nonlinear_arith)
        requires
            x <= 1real,
            d > 0real,
    ;
}

proof fn lemma_grows(a: real, b: real, c: real)
    by (nonlinear_arith)
    requires
        a <= b,
        c >= 0real,
    ensures
        a * c <= b * c,
        c * a <= c * b,
{
}

proof fn lemma_positive(a: real, b: real)
    by (nonlinear_arith)
    requires
        a >= 0real,
        b >= 0real,
    ensures
        a * b >= 0real,
{
}

proof fn lemma_regroup(a: real, b: real, c: real)
    by (nonlinear_arith)
    ensures
        (a * b) * c == a * (b * c),
{
}

/// A measured peer that served bytes which did not verify and whose success rate is below a half
/// scores below zero, the lower the smaller its tie-break is; any other peer scores zero or more.
pub proof fn only_bad_sources_score_below_zero(
    kit: &Doubles,
    peer: Peer,
    saturation: SaturationModel,
    relay: RelayModel,
    bonus: Measure,
    r: ScoredPeer,
)
    requires
        is_judgement(kit, peer, saturation, relay, bonus, r),
    ensures
        r.effective_score < 0 <==> peer.quality.samples > 0
            && peer.quality.reliability.hard_failures > 0 && number_or(
            peer.quality.reliability.rate,
            1real,
        ) < 1real / 2real,
        r.exploratory <==> peer.quality.samples == 0,
        peer.quality.samples == 0 ==> r.effective_score == bonus.bits,
        r.effective_score < 0 ==> r.effective_score == r.tie_break - 0x1_0000_0000_0000_0000,
{
    lemma_whole_constants();
    if let Some(rate) = peer.quality.reliability.rate {
        lemma_number_order(rate, Measure { bits: HALF });
    }
}

/// A peer is good for as many more ranges as its path is, less those that it is busy with.
pub proof fn headroom_is_what_saturation_leaves(
    kit: &Doubles,
    peer: Peer,
    saturation: SaturationModel,
    relay: RelayModel,
    bonus: Measure,
    r: ScoredPeer,
)
    requires
        is_judgement(kit, peer, saturation, relay, bonus, r),
    ensures
        peer.quality.in_flight <= ranges_over(peer.connection_class, saturation) ==> r.headroom
            + peer.quality.in_flight == ranges_over(peer.connection_class, saturation),
        peer.quality.in_flight > ranges_over(peer.connection_class, saturation) ==> r.headroom == 0,
{
}

} // verus!
