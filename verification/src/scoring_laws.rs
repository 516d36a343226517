//! What holds of every judgement.

use vstd::prelude::*;

use crate::formula::{constant, formulas_have_one_value, lemma_between, steady, Formula};
use crate::judging::{
    are_bounds, bonus_between, explored, half_of, highest_proven, is_bonus, is_final, some_proven,
};
use crate::measure::{
    larger, smaller, Arithmetic, Measure, EPSILON, HALF, INFINITY, ONE, QUARTER, SIXTY_FOUR, ZERO,
};
use crate::order::{
    agree, at_most_one, below, discerning, lemma_agree_itself, lemma_agree_rest, lemma_agree_times,
    lemma_below_between, lemma_below_itself, lemma_below_over, lemma_below_plus, lemma_below_rest,
    lemma_below_times, lemma_proper, lemma_share_at_most_one, orderly, proper, rounds_in_order,
};
use crate::quality::{confidence_in, moved_by, one_more, volatility, PeerQuality};
use crate::registry::Peer;
use crate::scoring::{
    at_least_one, bad_source, confident_value, drift, is_judgement, merit, or_constant, path_factor,
    pressure, pulled_point, raised_point, tail_discount, PeerClass, RelayModel, SaturationEstimate,
    SaturationModel, ScoredPeer, CLEARLY_WORSE, CONFIDENT_SHARE, PRESSURE_SHARE, UNSAMPLED_SHARE,
};

verus! {

/// A measured peer that served bytes which did not verify and fails more often than not is below
/// every other peer, measured or not, whatever the bonus is and whoever is active.
pub proof fn bad_sources_score_below_everyone<A: Arithmetic>(
    kit: &A,
    saturation: SaturationModel,
    relay: RelayModel,
    none: Measure,
    bonus: Measure,
    bad: Peer,
    bad_mark: ScoredPeer,
    bad_active: bool,
    bad_score: ScoredPeer,
    other: Peer,
    other_mark: ScoredPeer,
    other_active: bool,
    other_score: ScoredPeer,
)
    requires
        is_judgement(kit, bad, saturation, relay, none, bad_mark),
        is_final(kit, bad_mark, bonus, bad_active, bad_score),
        bad.quality.samples > 0,
        bad_source(bad.quality),
        is_judgement(kit, other, saturation, relay, none, other_mark),
        is_final(kit, other_mark, bonus, other_active, other_score),
        other.quality.samples == 0 || !bad_source(other.quality),
    ensures
        bad_score.bad(),
        !other_score.bad(),
        bad_score.effective_score < other_score.effective_score,
{
    assert(explored(bad_mark, bonus) == bad_mark);
    assert(explored(other_mark, bonus).effective_score >= 0);
}

/// The headroom of a peer never reaches past the saturation point of its class, and is none from
/// there on. An active peer has one range less, if it has any.
pub proof fn headroom_ends_at_saturation<A: Arithmetic>(
    kit: &A,
    peer: Peer,
    saturation: SaturationModel,
    relay: RelayModel,
    none: Measure,
    mark: ScoredPeer,
    bonus: Measure,
    active: bool,
    score: ScoredPeer,
)
    requires
        is_judgement(kit, peer, saturation, relay, none, mark),
        is_final(kit, mark, bonus, active, score),
    ensures
        ({
            let ranges = saturation.of(PeerClass::class_of(peer.connection_class)).ranges;
            &&& score.headroom > 0 ==> peer.quality.in_flight + score.headroom <= ranges
            &&& active && score.headroom > 0 ==> peer.quality.in_flight + score.headroom < ranges
            &&& peer.quality.in_flight >= ranges ==> score.headroom == 0
            &&& !active && peer.quality.in_flight < ranges ==> score.headroom > 0
        }),
{
}

/// Whether the saturation point in whole ranges is the point rounded, as `kit` computes.
pub open spec fn rounded<A: Arithmetic>(kit: &A, estimate: SaturationEstimate) -> bool {
    exists|whole: u32|
        call_ensures(A::nearest, (kit, estimate.point), whole) && estimate.ranges
            == #[trigger] at_least_one(whole)
}

/// A throughput below the best one seen, at whatever concurrency, never raises the saturation point,
/// nor, where rounding keeps the order, the point in whole ranges.
pub proof fn worse_throughput_never_raises_the_point<A: Arithmetic>(
    kit: &A,
    before: SaturationModel,
    class: PeerClass,
    in_flight: u32,
    throughput: Measure,
    after: SaturationModel,
)
    requires
        before.wf(),
        before.learns(kit, class, in_flight, throughput, after),
        throughput.bits < before.of(class).best_throughput.bits,
    ensures
        after.of(class).point.bits <= before.of(class).point.bits,
        rounds_in_order(kit) && rounded(kit, before.of(class)) ==> after.of(class).ranges
            <= before.of(class).ranges,
{
    let (old, new) = (before.of(class), after.of(class));
    let counted = SaturationEstimate { samples: one_more(old.samples), ..old };
    let point = Formula::Known(old.point);
    assert(old.wf());
    if throughput.bits != ZERO {
        if at_least_one(in_flight) > old.best_concurrency {
            let limit = choose|limit: Measure|
                constant(CLEARLY_WORSE).times(Formula::Known(old.best_throughput)).gives(kit, limit)
                    && #[trigger] counted.reacts(kit, throughput, limit, new);
            if throughput.bits < limit.bits {
                let target = Formula::Count(old.best_concurrency as u64).at_most(point);
                let moved = moved_by(drift(counted.samples), point, target);
                assert(pulled_point(counted) == moved.at_most(point));
                lemma_held_down(kit, moved, old.point, new.point);
            } else {
                lemma_held(kit, old.point, new.point);
            }
        } else {
            lemma_held(kit, old.point, new.point);
        }
        if rounds_in_order(kit) && rounded(kit, old) {
            let w = choose|whole: u32|
                call_ensures(A::nearest, (kit, new.point), whole) && new.ranges
                    == #[trigger] at_least_one(whole);
            let v = choose|whole: u32|
                call_ensures(A::nearest, (kit, old.point), whole) && old.ranges
                    == #[trigger] at_least_one(whole);
            assert(w <= v);
        }
    }
}

proof fn lemma_held<A: Arithmetic>(kit: &A, point: Measure, value: Measure)
    requires
        ONE <= point.bits <= SIXTY_FOUR,
        Formula::Known(point).between(ONE, SIXTY_FOUR).gives(kit, value),
    ensures
        value == point,
{
    let raised = Formula::Known(point).at_least(constant(ONE));
    let (x, y) = choose|x: Measure, y: Measure|
        raised.gives(kit, x) && constant(SIXTY_FOUR).gives(kit, y) && value == #[trigger] smaller(
            x,
            y,
        );
    let (s, t) = choose|s: Measure, t: Measure|
        Formula::Known(point).gives(kit, s) && constant(ONE).gives(kit, t) && x
            == #[trigger] larger(s, t);
    assert(s == point && t.bits == ONE && y.bits == SIXTY_FOUR);
}

proof fn lemma_held_down<A: Arithmetic>(kit: &A, moved: Formula, point: Measure, value: Measure)
    requires
        ONE <= point.bits <= SIXTY_FOUR,
        moved.at_most(Formula::Known(point)).between(ONE, SIXTY_FOUR).gives(kit, value),
    ensures
        value.bits <= point.bits,
{
    let held = moved.at_most(Formula::Known(point));
    let raised = held.at_least(constant(ONE));
    let (x, y) = choose|x: Measure, y: Measure|
        raised.gives(kit, x) && constant(SIXTY_FOUR).gives(kit, y) && value == #[trigger] smaller(
            x,
            y,
        );
    let (s, t) = choose|s: Measure, t: Measure|
        held.gives(kit, s) && constant(ONE).gives(kit, t) && x == #[trigger] larger(s, t);
    let (a, b) = choose|a: Measure, b: Measure|
        moved.gives(kit, a) && Formula::Known(point).gives(kit, b) && s == #[trigger] smaller(a, b);
    assert(b == point && t.bits == ONE && y.bits == SIXTY_FOUR);
}

/// The saturation point of a class stays between one and sixty-four whatever is observed of it, and
/// the points of the other classes do not move.
pub proof fn saturation_points_stay_in_range<A: Arithmetic>(
    kit: &A,
    before: SaturationModel,
    class: PeerClass,
    in_flight: u32,
    throughput: Measure,
    after: SaturationModel,
)
    requires
        before.wf(),
        before.learns(kit, class, in_flight, throughput, after),
    ensures
        after.wf(),
        forall|other: PeerClass| other != class ==> #[trigger] after.of(other) == before.of(other),
{
    lemma_learns_wf(kit, before.of(class), in_flight, throughput, after.of(class));
    assert(after.of(PeerClass::DirectPath).wf()) by {
        assert(class == PeerClass::DirectPath || after.of(PeerClass::DirectPath) == before.of(
            PeerClass::DirectPath,
        ));
    }
    assert(after.of(PeerClass::RelayedPath).wf()) by {
        assert(class == PeerClass::RelayedPath || after.of(PeerClass::RelayedPath) == before.of(
            PeerClass::RelayedPath,
        ));
    }
    assert(after.of(PeerClass::Unknown).wf()) by {
        assert(class == PeerClass::Unknown || after.of(PeerClass::Unknown) == before.of(
            PeerClass::Unknown,
        ));
    }
}

proof fn lemma_learns_wf<A: Arithmetic>(
    kit: &A,
    before: SaturationEstimate,
    in_flight: u32,
    throughput: Measure,
    after: SaturationEstimate,
)
    requires
        before.wf(),
        before.learns(kit, in_flight, throughput, after),
    ensures
        after.wf(),
{
    let concurrency = at_least_one(in_flight);
    let counted = SaturationEstimate { samples: one_more(before.samples), ..before };
    if throughput.bits == ZERO {
    } else if throughput.bits >= before.best_throughput.bits {
        let best = SaturationEstimate {
            best_throughput: throughput,
            best_concurrency: concurrency,
            ..counted
        };
        lemma_moved_wf(kit, best, raised_point(counted, concurrency), after);
    } else if concurrency > before.best_concurrency {
        let limit = choose|limit: Measure|
            constant(CLEARLY_WORSE).times(Formula::Known(before.best_throughput)).gives(kit, limit)
                && #[trigger] counted.reacts(kit, throughput, limit, after);
        if throughput.bits < limit.bits {
            lemma_moved_wf(kit, counted, pulled_point(counted), after);
        } else {
            lemma_moved_wf(kit, counted, Formula::Known(before.point), after);
        }
    } else {
        lemma_moved_wf(kit, counted, Formula::Known(before.point), after);
    }
}

proof fn lemma_moved_wf<A: Arithmetic>(
    kit: &A,
    before: SaturationEstimate,
    point: Formula,
    after: SaturationEstimate,
)
    requires
        before.moved(kit, point, after),
    ensures
        after.wf(),
{
    lemma_between(kit, point, ONE, SIXTY_FOUR, after.point);
}

/// Whether one peer measured at least as well as another, from as many outcomes: at least its
/// throughput and reliability, at most its deviation and its load.
pub open spec fn measured_as_well(better: PeerQuality, worse: PeerQuality) -> bool {
    &&& better.throughput.mean is Some
    &&& worse.throughput.mean is Some
    &&& EPSILON < worse.throughput.mean->0.bits <= better.throughput.mean->0.bits <= INFINITY
    &&& better.throughput.mad.bits <= worse.throughput.mad.bits <= INFINITY
    &&& better.reliability.rate is Some
    &&& worse.reliability.rate is Some
    &&& worse.reliability.rate->0.bits <= better.reliability.rate->0.bits <= INFINITY
    &&& better.in_flight <= worse.in_flight
    &&& better.samples == worse.samples > 0
}

/// Whether the path of one peer is no worse than that of another: both are of one class, or only the
/// other's is relayed, and relayed paths saturate no later.
pub open spec fn path_as_good(
    better: Peer,
    worse: Peer,
    saturation: SaturationModel,
    relay: RelayModel,
) -> bool {
    let (b, w) = (
        PeerClass::class_of(better.connection_class),
        PeerClass::class_of(worse.connection_class),
    );
    &&& proper(relay.handicap())
    &&& b == w || (b != PeerClass::RelayedPath && w == PeerClass::RelayedPath && saturation.of(
        w,
    ).ranges <= saturation.of(b).ranges)
}

/// A peer that measured at least as well as another, over a path no worse, scores no lower, unless it
/// is a bad source. So lower throughput or reliability, wider swings, a load nearer to saturation and
/// a relay never help. The arithmetic is to be steady and orderly.
pub proof fn better_measurements_score_no_lower<A: Arithmetic>(
    kit: &A,
    saturation: SaturationModel,
    relay: RelayModel,
    bonus: Measure,
    better: Peer,
    better_mark: ScoredPeer,
    worse: Peer,
    worse_mark: ScoredPeer,
)
    requires
        steady(kit),
        orderly(kit),
        saturation.wf(),
        path_as_good(better, worse, saturation, relay),
        measured_as_well(better.quality, worse.quality),
        !bad_source(better.quality),
        is_judgement(kit, better, saturation, relay, bonus, better_mark),
        is_judgement(kit, worse, saturation, relay, bonus, worse_mark),
    ensures
        worse_mark.effective_score <= better_mark.effective_score,
{
    if !bad_source(worse.quality) {
        let (b, w) = (better.quality, worse.quality);
        let b_ranges = saturation.of(PeerClass::class_of(better.connection_class)).ranges;
        let w_ranges = saturation.of(PeerClass::class_of(worse.connection_class)).ranges;
        let (b_value, w_value) = (confident_value(b), confident_value(w));
        let (b_tail, w_tail) = (tail_discount(b, b_ranges), tail_discount(w, w_ranges));
        let (b_path, w_path) = (path_factor(better, relay), path_factor(worse, relay));
        lemma_value_order(kit, b, w);
        lemma_discount_order(kit, b, b_ranges, w, w_ranges);
        lemma_path_order(kit, better, worse, relay);
        lemma_below_times(kit, w_value, w_tail, b_value, b_tail);
        lemma_below_times(kit, w_value.times(w_tail), w_path, b_value.times(b_tail), b_path);
        assert(below(kit, merit(worse, saturation, relay), merit(better, saturation, relay)));
        let x = choose|value: Measure| #[trigger]
            merit(better, saturation, relay).gives(kit, value) && better_mark.effective_score
                == value.bits;
        let y = choose|value: Measure| #[trigger]
            merit(worse, saturation, relay).gives(kit, value) && worse_mark.effective_score
                == value.bits;
        assert(y.bits <= x.bits);
    }
}

proof fn lemma_path_order<A: Arithmetic>(kit: &A, better: Peer, worse: Peer, relay: RelayModel)
    requires
        steady(kit),
        orderly(kit),
        proper(relay.handicap()),
        PeerClass::class_of(better.connection_class) == PeerClass::class_of(worse.connection_class)
            || (PeerClass::class_of(better.connection_class) != PeerClass::RelayedPath
            && PeerClass::class_of(worse.connection_class) == PeerClass::RelayedPath),
    ensures
        below(kit, path_factor(worse, relay), path_factor(better, relay)),
{
    let (f, g) = (path_factor(worse, relay), path_factor(better, relay));
    if f == g {
        lemma_below_itself(kit, f);
    } else {
        assert forall|v: Measure, w: Measure|
            #![trigger f.gives(kit, v), g.gives(kit, w)]
            f.gives(kit, v) && g.gives(kit, w) implies v.bits <= w.bits <= INFINITY by {
            lemma_handicap_bounds(kit, relay, v);
        }
    }
}

proof fn lemma_handicap_bounds<A: Arithmetic>(kit: &A, relay: RelayModel, v: Measure)
    requires
        relay.handicap().gives(kit, v),
    ensures
        v.bits <= ONE,
{
    if let (Some(relayed), Some(direct)) = (relay.relayed_mean, relay.direct_mean) {
        if direct.bits > ZERO {
            lemma_between(
                kit,
                Formula::Known(relayed).over(Formula::Known(direct)),
                QUARTER,
                ONE,
                v,
            );
        }
    }
}

proof fn lemma_value_order<A: Arithmetic>(kit: &A, better: PeerQuality, worse: PeerQuality)
    requires
        steady(kit),
        orderly(kit),
        measured_as_well(better, worse),
    ensures
        below(kit, confident_value(worse), confident_value(better)),
{
    let (bt, wt) = (
        or_constant(better.throughput.mean, ZERO),
        or_constant(worse.throughput.mean, ZERO),
    );
    let (br, wr) = (
        or_constant(better.reliability.rate, HALF),
        or_constant(worse.reliability.rate, HALF),
    );
    let share = constant(UNSAMPLED_SHARE).plus(
        constant(CONFIDENT_SHARE).times(confidence_in(better.samples)),
    );
    assert(proper(share)) by {
        reveal_with_fuel(proper, 5);
    }
    lemma_below_itself(kit, share);
    lemma_below_times(kit, wt, wr, bt, br);
    lemma_below_times(kit, wt.times(wr), share, bt.times(br), share);
}

proof fn lemma_pressure_order<A: Arithmetic>(
    kit: &A,
    in_flight: u32,
    ranges: u32,
    more: u32,
    fewer: u32,
)
    requires
        orderly(kit),
        in_flight <= more,
        1 <= fewer <= ranges,
    ensures
        below(kit, pressure(in_flight, ranges), pressure(more, fewer)),
        at_most_one(kit, pressure(more, fewer)),
{
    let (light, heavy) = (Formula::Count(in_flight as u64), Formula::Count(more as u64));
    let (wide, narrow) = (Formula::Count(ranges as u64), Formula::Count(fewer as u64));
    lemma_below_over(kit, light, wide, heavy, narrow);
    lemma_below_between(kit, light.over(wide), heavy.over(narrow), ZERO, ONE);
    assert forall|v: Measure| #[trigger] pressure(more, fewer).gives(kit, v) implies v.bits
        <= ONE by {
        lemma_between(kit, heavy.over(narrow), ZERO, ONE, v);
    }
}

proof fn lemma_swings_order<A: Arithmetic>(kit: &A, better: PeerQuality, worse: PeerQuality)
    requires
        orderly(kit),
        measured_as_well(better, worse),
    ensures
        below(
            kit,
            volatility(better.throughput.mean, better.throughput.mad),
            volatility(worse.throughput.mean, worse.throughput.mad),
        ),
        at_most_one(kit, volatility(worse.throughput.mean, worse.throughput.mad)),
{
    let (b_mean, w_mean) = (
        Formula::Known(better.throughput.mean->0),
        Formula::Known(worse.throughput.mean->0),
    );
    let (b_mad, w_mad) = (
        Formula::Known(better.throughput.mad),
        Formula::Known(worse.throughput.mad),
    );
    lemma_below_over(kit, b_mad, b_mean, w_mad, w_mean);
    lemma_below_between(kit, b_mad.over(b_mean), w_mad.over(w_mean), ZERO, ONE);
    let swings = volatility(worse.throughput.mean, worse.throughput.mad);
    assert forall|v: Measure| #[trigger] swings.gives(kit, v) implies v.bits <= ONE by {
        lemma_between(kit, w_mad.over(w_mean), ZERO, ONE, v);
    }
}

proof fn lemma_discount_order<A: Arithmetic>(
    kit: &A,
    better: PeerQuality,
    b_ranges: u32,
    worse: PeerQuality,
    w_ranges: u32,
)
    requires
        steady(kit),
        orderly(kit),
        measured_as_well(better, worse),
        1 <= w_ranges <= b_ranges,
    ensures
        below(kit, tail_discount(worse, w_ranges), tail_discount(better, b_ranges)),
{
    let (one, half, share) = (constant(ONE), constant(HALF), constant(PRESSURE_SHARE));
    let b_swings = volatility(better.throughput.mean, better.throughput.mad);
    let w_swings = volatility(worse.throughput.mean, worse.throughput.mad);
    lemma_swings_order(kit, better, worse);
    lemma_below_times(kit, half, b_swings, half, w_swings);
    lemma_share_at_most_one(kit, HALF, w_swings);
    lemma_below_rest(kit, half.times(b_swings), half.times(w_swings));

    let (b_rate, w_rate) = (
        or_constant(better.reliability.rate, HALF),
        or_constant(worse.reliability.rate, HALF),
    );
    lemma_below_times(kit, half, w_rate, half, b_rate);
    lemma_below_plus(kit, half, half.times(w_rate), half, half.times(b_rate));

    let b_load = pressure(better.in_flight, b_ranges);
    let w_load = pressure(worse.in_flight, w_ranges);
    lemma_pressure_order(kit, better.in_flight, b_ranges, worse.in_flight, w_ranges);
    lemma_below_times(kit, share, b_load, share, w_load);
    lemma_share_at_most_one(kit, PRESSURE_SHARE, w_load);
    lemma_below_rest(kit, share.times(b_load), share.times(w_load));

    let (b_steady, w_steady) = (
        one.off(half.times(b_swings)),
        one.off(half.times(w_swings)),
    );
    let (b_reliable, w_reliable) = (
        half.plus(half.times(b_rate)),
        half.plus(half.times(w_rate)),
    );
    lemma_below_times(kit, w_steady, w_reliable, b_steady, b_reliable);
    lemma_below_times(
        kit,
        w_steady.times(w_reliable),
        one.off(share.times(w_load)),
        b_steady.times(b_reliable),
        one.off(share.times(b_load)),
    );
}

/// What a peer scores depends on its measured quality and the class of its path alone: neither on
/// how it was heard of, nor on its addresses, its link, its age or, unless it is a bad source, its
/// identity. The arithmetic is to be steady.
pub proof fn only_measurements_and_path_count<A: Arithmetic>(
    kit: &A,
    saturation: SaturationModel,
    relay: RelayModel,
    bonus: Measure,
    one: Peer,
    one_mark: ScoredPeer,
    other: Peer,
    other_mark: ScoredPeer,
)
    requires
        steady(kit),
        one.quality == other.quality,
        PeerClass::class_of(one.connection_class) == PeerClass::class_of(other.connection_class),
        is_judgement(kit, one, saturation, relay, bonus, one_mark),
        is_judgement(kit, other, saturation, relay, bonus, other_mark),
    ensures
        one_mark.headroom == other_mark.headroom,
        one_mark.exploratory == other_mark.exploratory,
        one.quality.samples == 0 || !bad_source(one.quality) ==> one_mark.effective_score
            == other_mark.effective_score,
        one.peer_id == other.peer_id ==> one_mark == other_mark,
{
    if one.quality.samples > 0 && !bad_source(one.quality) {
        let formula = merit(one, saturation, relay);
        assert(formula == merit(other, saturation, relay));
        let x = choose|value: Measure| #[trigger]
            formula.gives(kit, value) && one_mark.effective_score == value.bits;
        let y = choose|value: Measure| #[trigger]
            formula.gives(kit, value) && other_mark.effective_score == value.bits;
        formulas_have_one_value(kit, formula, x, y);
    }
}

/// What is entered of a peer besides its identity, its measured quality and the class of its path
/// has no part in its judgement, whatever the arithmetic: two entries that agree in these are judged
/// by the same formula.
pub proof fn nothing_else_is_judged<A: Arithmetic>(
    kit: &A,
    saturation: SaturationModel,
    relay: RelayModel,
    bonus: Measure,
    one: Peer,
    other: Peer,
    mark: ScoredPeer,
)
    requires
        one.peer_id == other.peer_id,
        one.quality == other.quality,
        PeerClass::class_of(one.connection_class) == PeerClass::class_of(other.connection_class),
    ensures
        merit(one, saturation, relay) == merit(other, saturation, relay),
        is_judgement(kit, one, saturation, relay, bonus, mark) <==> is_judgement(
            kit,
            other,
            saturation,
            relay,
            bonus,
            mark,
        ),
{
}

/// A peer that is idle is not held up, wherever its path saturates.
proof fn lemma_idle<A: Arithmetic>(kit: &A, ranges: u32, value: Measure)
    requires
        orderly(kit),
        ranges >= 1,
        pressure(0, ranges).gives(kit, value),
    ensures
        value.bits == ZERO,
{
    let (none, all) = (Formula::Count(0), Formula::Count(ranges as u64));
    let raised = none.over(all).at_least(constant(ZERO));
    let (a, b) = choose|a: Measure, b: Measure|
        raised.gives(kit, a) && constant(ONE).gives(kit, b) && value == #[trigger] smaller(a, b);
    let (c, d) = choose|c: Measure, d: Measure|
        none.over(all).gives(kit, c) && constant(ZERO).gives(kit, d) && a == #[trigger] larger(
            c,
            d,
        );
    let (x, y) = choose|x: Measure, y: Measure|
        none.gives(kit, x) && all.gives(kit, y) && #[trigger] call_ensures(
            A::quotient,
            (kit, x, y),
            c,
        );
    assert(x.bits == ZERO);
    assert(y.bits >= ONE);
    lemma_proper(kit, all, y);
}

/// The tail of an idle peer is discounted alike wherever its path saturates.
proof fn lemma_idle_discount<A: Arithmetic>(kit: &A, quality: PeerQuality, m: u32, n: u32)
    requires
        steady(kit),
        orderly(kit),
        m == n || (quality.in_flight == 0 && m >= 1 && n >= 1),
    ensures
        agree(kit, tail_discount(quality, m), tail_discount(quality, n)),
{
    if m == n {
        lemma_agree_itself(kit, tail_discount(quality, m));
    } else {
        let (p, q) = (pressure(0, m), pressure(0, n));
        assert forall|v: Measure, w: Measure|
            #![trigger p.gives(kit, v), q.gives(kit, w)]
            p.gives(kit, v) && q.gives(kit, w) implies v == w by {
            lemma_idle(kit, m, v);
            lemma_idle(kit, n, w);
        }
        let share = constant(PRESSURE_SHARE);
        lemma_agree_itself(kit, share);
        lemma_agree_times(kit, share, p, share, q);
        lemma_agree_rest(kit, share.times(p), share.times(q));
        let swings = volatility(quality.throughput.mean, quality.throughput.mad);
        let head = constant(ONE).off(constant(HALF).times(swings)).times(
            constant(HALF).plus(
                constant(HALF).times(or_constant(quality.reliability.rate, HALF)),
            ),
        );
        let (rest, other) = (constant(ONE).off(share.times(p)), constant(ONE).off(share.times(q)));
        lemma_agree_itself(kit, head);
        lemma_agree_times(kit, head, rest, head, other);
        assert(tail_discount(quality, m) == head.times(rest));
        assert(tail_discount(quality, n) == head.times(other));
    }
}

/// A measured peer over a relay scores the handicap times what it would score over another path, and
/// so no more, unless it is a bad source: while it is idle, and where relayed paths saturate as that
/// path does. The arithmetic is to be steady and orderly.
pub proof fn relays_cost_the_handicap<A: Arithmetic>(
    kit: &A,
    saturation: SaturationModel,
    relay: RelayModel,
    bonus: Measure,
    direct: Peer,
    direct_mark: ScoredPeer,
    relayed: Peer,
    relayed_mark: ScoredPeer,
    handicap: Measure,
)
    requires
        steady(kit),
        orderly(kit),
        saturation.wf(),
        direct.quality == relayed.quality,
        direct.quality.samples > 0,
        !bad_source(direct.quality),
        proper(merit(direct, saturation, relay)),
        PeerClass::class_of(direct.connection_class) != PeerClass::RelayedPath,
        PeerClass::class_of(relayed.connection_class) == PeerClass::RelayedPath,
        direct.quality.in_flight == 0 || saturation.of(
            PeerClass::class_of(direct.connection_class),
        ).ranges == saturation.relayed.ranges,
        relay.handicap().gives(kit, handicap),
        is_judgement(kit, direct, saturation, relay, bonus, direct_mark),
        is_judgement(kit, relayed, saturation, relay, bonus, relayed_mark),
    ensures
        0 <= relayed_mark.effective_score <= direct_mark.effective_score <= u64::MAX,
        call_ensures(
            A::product,
            (kit, Measure { bits: direct_mark.effective_score as u64 }, handicap),
            Measure { bits: relayed_mark.effective_score as u64 },
        ),
{
    let direct_ranges = saturation.of(PeerClass::class_of(direct.connection_class)).ranges;
    let relayed_ranges = saturation.relayed.ranges;
    let value = confident_value(direct.quality);
    let base = value.times(tail_discount(direct.quality, direct_ranges));
    let relayed_base = value.times(tail_discount(direct.quality, relayed_ranges));
    let one = constant(ONE);
    assert(merit(direct, saturation, relay) == base.times(one));
    assert(merit(relayed, saturation, relay) == relayed_base.times(relay.handicap()));
    lemma_idle_discount(kit, direct.quality, direct_ranges, relayed_ranges);
    lemma_agree_itself(kit, value);
    lemma_agree_times(
        kit,
        value,
        tail_discount(direct.quality, direct_ranges),
        value,
        tail_discount(direct.quality, relayed_ranges),
    );
    let x = choose|value: Measure| #[trigger]
        merit(direct, saturation, relay).gives(kit, value) && direct_mark.effective_score
            == value.bits;
    let y = choose|value: Measure| #[trigger]
        merit(relayed, saturation, relay).gives(kit, value) && relayed_mark.effective_score
            == value.bits;
    let (a, b) = choose|a: Measure, b: Measure|
        base.gives(kit, a) && one.gives(kit, b) && #[trigger] call_ensures(
            A::product,
            (kit, a, b),
            x,
        );
    let (c, d) = choose|c: Measure, d: Measure|
        relayed_base.gives(kit, c) && relay.handicap().gives(kit, d) && #[trigger] call_ensures(
            A::product,
            (kit, c, d),
            y,
        );
    assert(a == c);
    formulas_have_one_value(kit, relay.handicap(), d, handicap);
    lemma_proper(kit, base, a);
    assert(b.bits == ONE);
    assert(x == a);
    lemma_handicap_within_one(kit, relay, handicap);
    assert(Measure { bits: direct_mark.effective_score as u64 } == x);
    assert(Measure { bits: relayed_mark.effective_score as u64 } == y);
}

proof fn lemma_handicap_within_one<A: Arithmetic>(kit: &A, relay: RelayModel, handicap: Measure)
    requires
        relay.handicap().gives(kit, handicap),
    ensures
        handicap.bits <= ONE,
{
    if relay.relayed_mean is Some && relay.direct_mean is Some {
        let ratio = Formula::Known(relay.relayed_mean->0).over(
            Formula::Known(relay.direct_mean->0),
        );
        if relay.direct_mean->0.bits > ZERO {
            lemma_between(kit, ratio, QUARTER, ONE, handicap);
        }
    }
}

/// The factor of relayed paths is between a quarter and one, falls no further where relayed transfers
/// measure better, and rises no higher where the others do. The arithmetic is to be orderly.
pub proof fn the_handicap_follows_the_measurements<A: Arithmetic>(
    kit: &A,
    kinder: RelayModel,
    kinder_factor: Measure,
    harsher: RelayModel,
    harsher_factor: Measure,
)
    requires
        orderly(kit),
        kinder.relayed_mean is Some,
        kinder.direct_mean is Some,
        harsher.relayed_mean is Some,
        harsher.direct_mean is Some,
        harsher.relayed_mean->0.bits <= kinder.relayed_mean->0.bits <= INFINITY,
        ZERO < kinder.direct_mean->0.bits <= harsher.direct_mean->0.bits <= INFINITY,
        kinder.handicap().gives(kit, kinder_factor),
        harsher.handicap().gives(kit, harsher_factor),
    ensures
        QUARTER <= harsher_factor.bits <= kinder_factor.bits <= ONE,
{
    let (k_relayed, k_direct) = (
        Formula::Known(kinder.relayed_mean->0),
        Formula::Known(kinder.direct_mean->0),
    );
    let (h_relayed, h_direct) = (
        Formula::Known(harsher.relayed_mean->0),
        Formula::Known(harsher.direct_mean->0),
    );
    lemma_below_over(kit, h_relayed, h_direct, k_relayed, k_direct);
    lemma_below_between(kit, h_relayed.over(h_direct), k_relayed.over(k_direct), QUARTER, ONE);
    lemma_between(kit, k_relayed.over(k_direct), QUARTER, ONE, kinder_factor);
    lemma_between(kit, h_relayed.over(h_direct), QUARTER, ONE, harsher_factor);
    assert(below(kit, harsher.handicap(), kinder.handicap()));
}

/// Being active already never raises a score, and lowers every one above zero that is finite if the
/// arithmetic is discerning too. The arithmetic is to be orderly.
pub proof fn the_active_score_lower<A: Arithmetic>(
    kit: &A,
    mark: ScoredPeer,
    bonus: Measure,
    idle: ScoredPeer,
    active: ScoredPeer,
)
    requires
        orderly(kit),
        is_final(kit, mark, bonus, false, idle),
        is_final(kit, mark, bonus, true, active),
        idle.effective_score <= INFINITY,
    ensures
        active.effective_score <= idle.effective_score,
        discerning(kit) && idle.effective_score != ZERO && idle.effective_score < INFINITY
            ==> active.effective_score < idle.effective_score,
        active.headroom <= idle.headroom,
{
    if idle.effective_score >= 0 {
        let score = Measure { bits: idle.effective_score as u64 };
        let half = choose|half: Measure| #[trigger]
            half_of(score).gives(kit, half) && active.effective_score == half.bits;
        let (x, y) = choose|x: Measure, y: Measure|
            Formula::Known(score).gives(kit, x) && constant(HALF).gives(kit, y)
                && #[trigger] call_ensures(A::product, (kit, x, y), half);
        assert(x == score && y == Measure { bits: HALF });
    }
}

/// Exploring an unmeasured peer is worth less than the best proven peer, wherever one has a score
/// above zero that is finite. The arithmetic is to be discerning.
pub proof fn exploring_is_worth_less_than_the_best<A: Arithmetic>(
    kit: &A,
    marks: Seq<ScoredPeer>,
    bonus: Measure,
    best: i128,
)
    requires
        discerning(kit),
        is_bonus(kit, marks, bonus),
        highest_proven(marks, best),
        ZERO < best < INFINITY,
    ensures
        bonus.bits < best,
{
    let (worst, top) = choose|worst: Measure, top: Measure|
        are_bounds(marks, worst, top) && #[trigger] bonus_between(worst, top).gives(kit, bonus);
    let i = choose|i: int|
        0 <= i < marks.len() && (#[trigger] marks[i]).proven() && marks[i].effective_score == best;
    assert(some_proven(marks));
    let k = choose|k: int|
        0 <= k < marks.len() && (#[trigger] marks[k]).proven() && marks[k].effective_score
            == top.bits as i128;
    assert(top.bits == best);
    let (low, high) = (Formula::Known(worst), Formula::Known(top));
    if top.bits > worst.bits {
        let step = constant(QUARTER).times(high.off(low));
        let (x, s) = choose|x: Measure, s: Measure|
            low.gives(kit, x) && step.gives(kit, s) && #[trigger] call_ensures(
                A::sum,
                (kit, x, s),
                bonus,
            );
        let (q, g) = choose|q: Measure, g: Measure|
            constant(QUARTER).gives(kit, q) && high.off(low).gives(kit, g)
                && #[trigger] call_ensures(A::product, (kit, q, g), s);
        let (c, d) = choose|c: Measure, d: Measure|
            high.gives(kit, c) && low.gives(kit, d) && #[trigger] call_ensures(
                A::gap,
                (kit, c, d),
                g,
            );
        assert(x == worst && q == Measure { bits: QUARTER } && c == top && d == worst);
    } else {
        let (x, y) = choose|x: Measure, y: Measure|
            high.gives(kit, x) && constant(HALF).gives(kit, y) && #[trigger] call_ensures(
                A::product,
                (kit, x, y),
                bonus,
            );
        assert(x == top && y == Measure { bits: HALF });
    }
}

} // verus!
