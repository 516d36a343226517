//! How a measured transfer moves a saturation point, in numbers.

use vstd::arithmetic::power2::pow2;
use vstd::prelude::*;

use crate::closeness::{
    around, dust, held, lemma_count_number, lemma_decimals, lemma_factors, lemma_grains, lemma_held,
    lemma_larger_of, lemma_number, lemma_number_order, lemma_smaller_of, lemma_vast,
    lemma_whole_constants, lemma_worth_share, number, slip, VAST,
};
use crate::doubles::{is_number, rounded, Doubles};
use crate::formula::{constant, Formula};
use crate::measure::{Arithmetic, Measure, ONE, SIXTY_FOUR, ZERO};
use crate::moving_laws::{
    lemma_drift_bounds, lemma_moved, lemma_swapped, moderate, most, moved,
    observations_weigh_their_share,
};
use crate::quality::{moved_by, one_more};
use crate::rounding::{units, DEPTH};
use crate::scoring::{
    at_least_one, drift, pulled_point, raised_point, PeerClass, SaturationEstimate, SaturationModel,
    CLEARLY_WORSE,
};
use crate::worth_laws::lemma_constant;

verus! {

/// The concurrency that a transfer counts for: the ranges in flight, and one at least.
pub open spec fn concurrency(in_flight: u32) -> u32 {
    if in_flight == 0 {
        1
    } else {
        in_flight
    }
}

/// What share of the way the `samples`-th observation moves a point.
pub open spec fn share_of_observation(samples: u64) -> real {
    most(1real / (samples as real), 1real / 10real)
}

/// Whether the whole ranges of an estimate are its point, rounded, and one at least.
pub open spec fn in_whole_ranges(estimate: SaturationEstimate) -> bool {
    &&& estimate.ranges >= 1
    &&& estimate.ranges as real <= number(estimate.point) + 1real / 2real
    &&& estimate.ranges as real + 1real / 2real >= number(estimate.point)
}

/// A point set in range is its number, held between one and sixty-four, and rounded to whole ranges.
proof fn lemma_set(
    kit: &Doubles,
    before: SaturationEstimate,
    point: Formula,
    after: SaturationEstimate,
) -> (set: Measure)
    requires
        before.moved(kit, point, after),
    ensures
        point.gives(kit, set),
        number(after.point) == held(number(set), 1real, 64real),
        ONE <= after.point.bits <= SIXTY_FOUR,
        ONE <= set.bits <= SIXTY_FOUR ==> after.point == set,
        in_whole_ranges(after),
        after == (SaturationEstimate { point: after.point, ranges: after.ranges, ..before }),
{
    lemma_whole_constants();
    let set = lemma_held(kit, point, ONE, SIXTY_FOUR, after.point);
    let (one, top) = (Measure { bits: ONE }, Measure { bits: SIXTY_FOUR });
    lemma_number_order(set, one);
    lemma_number_order(set, top);
    let whole = choose|whole: u32|
        call_ensures(Doubles::nearest, (kit, after.point), whole) && after.ranges
            == #[trigger] at_least_one(whole);
    lemma_rounds(after.point);
    set
}

/// Rounding a point in range moves it by a half at most.
proof fn lemma_rounds(a: Measure)
    requires
        ONE <= a.bits <= SIXTY_FOUR,
    ensures
        rounded(a) >= 1,
        rounded(a) as real <= number(a) + 1real / 2real,
        rounded(a) as real + 1real / 2real >= number(a),
{
    lemma_grains();
    lemma_whole_constants();
    lemma_number(a);
    lemma_number_order(a, Measure { bits: SIXTY_FOUR });
    lemma_number_order(Measure { bits: ONE }, a);
    let (u, one) = (units(a.bits) as int, pow2(DEPTH as nat) as int);
    let w = (2 * u + one) / (2 * one);
    assert(w * (2 * one) <= 2 * u + one < (w + 1) * (2 * one)) by (nonlinear_arith)
        requires
            w == (2 * u + one) / (2 * one),
            one > 0,
    ;
    let (x, o, v) = (number(a), one as real, w as real);
    assert((w * (2 * one)) as real == 2real * (v * o)) by (nonlinear_arith)
        requires
            v == w as real,
            o == one as real,
    ;
    assert(((w + 1) * (2 * one)) as real == 2real * (v * o) + 2real * o) by (nonlinear_arith)
        requires
            v == w as real,
            o == one as real,
    ;
    assert(x * o == u as real);
    assert(v <= x + 1real / 2real && x < v + 1real / 2real) by (nonlinear_arith)
        requires
            2real * (v * o) <= 2real * (x * o) + o,
            2real * (x * o) + o < 2real * (v * o) + 2real * o,
            o >= 1real,
    ;
    assert(w >= 1);
    assert(w <= 65);
}

/// A transfer that moved nothing is counted, and changes nothing else.
pub proof fn empty_transfers_move_no_point(
    kit: &Doubles,
    before: SaturationEstimate,
    in_flight: u32,
    throughput: Measure,
    after: SaturationEstimate,
)
    requires
        before.learns(kit, in_flight, throughput, after),
        throughput.bits == ZERO,
        before.samples < u64::MAX,
    ensures
        after.samples == before.samples + 1,
        after == (SaturationEstimate { samples: after.samples, ..before }),
{
}

/// A throughput as good as the best becomes the best, with the concurrency it was seen at. The point
/// moves towards that concurrency where it is higher, by its share of the way and a tenth at least,
/// held between one and sixty-four; where it is no higher the point stays. Both hold up to rounding.
pub proof fn good_throughput_raises_the_point(
    kit: &Doubles,
    before: SaturationEstimate,
    in_flight: u32,
    throughput: Measure,
    after: SaturationEstimate,
)
    requires
        before.wf(),
        before.learns(kit, in_flight, throughput, after),
        throughput.bits > ZERO,
        throughput.bits >= before.best_throughput.bits,
        before.samples < u64::MAX,
    ensures
        after.samples == before.samples + 1,
        after.best_throughput == throughput,
        after.best_concurrency == concurrency(in_flight),
        in_whole_ranges(after),
        ({
            let (p, c) = (number(before.point), concurrency(in_flight) as real);
            &&& c > p ==> around(
                number(after.point),
                held(moved(p, c, share_of_observation(after.samples)), 1real, 64real),
                21real * (slip() * (p + c) + 2real * dust()),
            )
            &&& c <= p ==> around(
                number(after.point),
                p,
                42real * (slip() * p + dust()),
            )
        }),
{
    lemma_grains();
    lemma_whole_constants();
    lemma_vast();
    let c = concurrency(in_flight);
    let counted = SaturationEstimate { samples: one_more(before.samples), ..before };
    let best = SaturationEstimate {
        best_throughput: throughput,
        best_concurrency: c,
        ..counted
    };
    assert(c == at_least_one(in_flight));
    let set = lemma_set(kit, best, raised_point(counted, c), after);
    let (old, count) = (Formula::Known(before.point), Formula::Count(c as u64));
    let target = count.at_least(old);
    let share = share_of_observation(counted.samples);
    let vast = Measure { bits: VAST };
    let (one, top) = (Measure { bits: ONE }, Measure { bits: SIXTY_FOUR });
    lemma_number_order(one, before.point);
    lemma_number_order(before.point, top);
    lemma_number_order(before.point, vast);
    assert forall|x: Measure| #[trigger] target.gives(kit, x) implies moderate(x) && number(x)
        == most(c as real, number(before.point)) by {
        let (a, b) = lemma_larger_of(kit, count, old, x);
        lemma_count_number(c as u64, a);
        lemma_number_order(a, b);
        lemma_number_order(a, vast);
    }
    let (x, y) = lemma_point(kit, counted.samples, old, target, set);
    let p = number(before.point);
    lemma_drift_bounds(counted.samples);
    if c as real <= p {
        assert(moved(p, p, share) == p) by (nonlinear_arith)
            requires
                moved(p, p, share) == (1real - share) * p + share * p,
        ;
        let s = slip();
        assert(s * (p + p) == 2real * (s * p)) by (nonlinear_arith);
    }
}

/// A point moved by the share of an observation.
proof fn lemma_point(kit: &Doubles, samples: u64, old: Formula, new: Formula, v: Measure) -> (parts: (
    Measure,
    Measure,
))
    requires
        moved_by(drift(samples), old, new).gives(kit, v),
        forall|x: Measure| #[trigger] old.gives(kit, x) ==> moderate(x),
        forall|x: Measure| #[trigger] new.gives(kit, x) ==> moderate(x),
        samples >= 1,
    ensures
        old.gives(kit, parts.0),
        new.gives(kit, parts.1),
        is_number(v),
        around(
            number(v),
            moved(number(parts.0), number(parts.1), share_of_observation(samples)),
            21real * (slip() * (number(parts.0) + number(parts.1)) + 2real * dust()),
        ),
{
    let weight = drift(samples);
    let share = share_of_observation(samples);
    assert forall|w: Measure| #[trigger] weight.gives(kit, w) implies w.bits <= ONE && around(
        number(w),
        share,
        9real * slip(),
    ) by {
        observations_weigh_their_share(kit, samples, w);
    }
    lemma_drift_bounds(samples);
    lemma_moved(kit, weight, old, new, v, share, 9real)
}

/// Four fifths of the best, up to rounding.
proof fn lemma_limit(kit: &Doubles, best: Measure, limit: Measure)
    requires
        constant(CLEARLY_WORSE).times(Formula::Known(best)).gives(kit, limit),
        is_number(best),
    ensures
        is_number(limit),
        around(
            number(limit),
            (4real / 5real) * number(best),
            4real * (slip() * number(best) + dust()),
        ),
{
    lemma_grains();
    lemma_decimals();
    lemma_whole_constants();
    let (c, b) = lemma_factors(kit, constant(CLEARLY_WORSE), Formula::Known(best), limit);
    lemma_constant(kit, CLEARLY_WORSE, c);
    lemma_swapped(c, b, limit);
    lemma_number_order(b, b);
    let x = number(b);
    assert(0real * (slip() * x + dust()) == 0real);
    assert(1real * slip() == slip());
    lemma_worth_share(b, c, limit, x, 4real / 5real, x, 0real, 1real);
    assert(x * (4real / 5real) == (4real / 5real) * x) by (nonlinear_arith);
}

/// Where a throughput below four fifths of the best is seen at a concurrency above that of the best,
/// and the point is above the concurrency of the best, the point falls towards it: by the share of the
/// observation and so by a tenth of the distance at least, but not past it, up to rounding. Where the
/// distance is not lost in rounding it falls strictly. Where the point is not above that concurrency
/// it stays, up to rounding.
pub proof fn clearly_worse_throughput_pulls_the_point_down(
    kit: &Doubles,
    before: SaturationEstimate,
    in_flight: u32,
    throughput: Measure,
    after: SaturationEstimate,
)
    requires
        before.wf(),
        before.best_concurrency >= 1,
        before.learns(kit, in_flight, throughput, after),
        is_number(before.best_throughput),
        throughput.bits > ZERO,
        number(throughput) < (4real / 5real) * number(before.best_throughput) - 4real * (slip()
            * number(before.best_throughput) + dust()),
        concurrency(in_flight) > before.best_concurrency,
        before.samples < u64::MAX,
    ensures
        after.samples == before.samples + 1,
        after.best_throughput == before.best_throughput,
        after.best_concurrency == before.best_concurrency,
        in_whole_ranges(after),
        number(after.point) <= number(before.point),
        ({
            let (p, b) = (number(before.point), before.best_concurrency as real);
            &&& b < p ==> {
                &&& around(
                    number(after.point),
                    moved(p, b, share_of_observation(after.samples)),
                    2800real * slip(),
                )
                &&& number(after.point) <= p - (p - b) / 10real + 2800real * slip()
                &&& number(after.point) >= b - 2800real * slip()
                &&& p - b > 28000real * slip() ==> number(after.point) < p
            }
            &&& b >= p ==> around(number(after.point), p, 2800real * slip())
        }),
{
    lemma_grains();
    lemma_whole_constants();
    lemma_vast();
    let counted = SaturationEstimate { samples: one_more(before.samples), ..before };
    assert(concurrency(in_flight) == at_least_one(in_flight));
    let (t, best, s) = (number(throughput), number(before.best_throughput), slip());
    lemma_number_order(throughput, before.best_throughput);
    assert(s * best >= 0real) by (nonlinear_arith)
        requires
            s > 0real,
            best >= 0real,
    ;
    let limit = choose|limit: Measure|
        constant(CLEARLY_WORSE).times(Formula::Known(before.best_throughput)).gives(kit, limit)
            && #[trigger] counted.reacts(kit, throughput, limit, after);
    lemma_limit(kit, before.best_throughput, limit);
    lemma_number_order(throughput, limit);
    let set = lemma_set(kit, counted, pulled_point(counted), after);
    let (old, count) = (
        Formula::Known(before.point),
        Formula::Count(before.best_concurrency as u64),
    );
    let target = count.at_most(old);
    let vast = Measure { bits: VAST };
    let (one, top) = (Measure { bits: ONE }, Measure { bits: SIXTY_FOUR });
    lemma_number_order(one, before.point);
    lemma_number_order(before.point, top);
    lemma_number_order(before.point, vast);
    let (p, b) = (number(before.point), before.best_concurrency as real);
    let aim = if b < p {
        b
    } else {
        p
    };
    assert forall|x: Measure| #[trigger] target.gives(kit, x) implies moderate(x) && number(x)
        == aim by {
        let (a, c) = lemma_smaller_of(kit, count, old, x);
        lemma_count_number(before.best_concurrency as u64, a);
        lemma_number_order(a, c);
        lemma_number_order(c, a);
        lemma_number_order(a, vast);
    }
    let step = moved_by(drift(counted.samples), old, target);
    let (m, o) = lemma_smaller_of(kit, step, old, set);
    let (x, y) = lemma_point(kit, counted.samples, old, target, m);
    lemma_number_order(m, o);
    lemma_number_order(o, m);
    let share = share_of_observation(counted.samples);
    lemma_drift_bounds(counted.samples);
    let to = moved(p, aim, share);
    assert(to == p - share * (p - aim)) by (nonlinear_arith)
        requires
            to == (1real - share) * p + share * aim,
    ;
    assert((p - aim) / 10real <= share * (p - aim) <= p - aim) by (nonlinear_arith)
        requires
            1real / 10real <= share <= 1real,
            p - aim >= 0real,
    ;
    assert(21real * (s * (p + aim) + 2real * dust()) <= 2800real * s) by (nonlinear_arith)
        requires
            0real <= p + aim <= 128real,
            0real < s,
            dust() <= s,
    ;
    assert(aim >= 1real);
}

/// Where a throughput is below the best but not clearly so, or was seen at no higher concurrency, the
/// point and the best stay.
pub proof fn other_throughput_leaves_the_point(
    kit: &Doubles,
    before: SaturationEstimate,
    in_flight: u32,
    throughput: Measure,
    after: SaturationEstimate,
)
    requires
        before.wf(),
        before.learns(kit, in_flight, throughput, after),
        ZERO < throughput.bits < before.best_throughput.bits,
        is_number(before.best_throughput),
        before.samples < u64::MAX,
        concurrency(in_flight) <= before.best_concurrency || number(throughput) >= (4real / 5real)
            * number(before.best_throughput) + 4real * (slip() * number(before.best_throughput)
            + dust()),
    ensures
        after.samples == before.samples + 1,
        after.best_throughput == before.best_throughput,
        after.best_concurrency == before.best_concurrency,
        after.point == before.point,
        in_whole_ranges(after),
{
    lemma_grains();
    let counted = SaturationEstimate { samples: one_more(before.samples), ..before };
    assert(concurrency(in_flight) == at_least_one(in_flight));
    if concurrency(in_flight) > before.best_concurrency {
        let limit = choose|limit: Measure|
            constant(CLEARLY_WORSE).times(Formula::Known(before.best_throughput)).gives(kit, limit)
                && #[trigger] counted.reacts(kit, throughput, limit, after);
        lemma_limit(kit, before.best_throughput, limit);
        lemma_number_order(throughput, limit);
        let _ = lemma_set(kit, counted, Formula::Known(before.point), after);
    } else {
        let _ = lemma_set(kit, counted, Formula::Known(before.point), after);
    }
}

/// A transfer moves the saturation point of the class it was seen on, and no other.
pub proof fn transfers_move_their_own_class(
    kit: &Doubles,
    before: SaturationModel,
    class: PeerClass,
    in_flight: u32,
    throughput: Measure,
    after: SaturationModel,
)
    requires
        before.learns(kit, class, in_flight, throughput, after),
    ensures
        match class {
            PeerClass::DirectPath => before.direct.learns(kit, in_flight, throughput, after.direct)
                && after.relayed == before.relayed && after.unknown == before.unknown,
            PeerClass::RelayedPath => before.relayed.learns(
                kit,
                in_flight,
                throughput,
                after.relayed,
            ) && after.direct == before.direct && after.unknown == before.unknown,
            PeerClass::Unknown => before.unknown.learns(kit, in_flight, throughput, after.unknown)
                && after.direct == before.direct && after.relayed == before.relayed,
        },
{
    let (d, r, u) = (PeerClass::DirectPath, PeerClass::RelayedPath, PeerClass::Unknown);
    assert(d != class ==> after.of(d) == before.of(d));
    assert(r != class ==> after.of(r) == before.of(r));
    assert(u != class ==> after.of(u) == before.of(u));
}

} // verus!
