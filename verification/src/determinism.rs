//! That a selector does the same whenever it is told the same.

use vstd::prelude::*;

use crate::formula::{constant, formulas_have_one_value, steady, Formula};
use crate::identity::PeerId;
use crate::judging::{
    are_bounds, bonus_between, explored, half_of, highest_proven, is_bonus, is_final, lowest_proven,
    some_proven,
};
use crate::measure::{Arithmetic, Measure, ONE, SIXTY_FOUR, ZERO};
use crate::quality::{
    moved_by, one_more, sample_weight, stepped, Estimate, PeerQuality, Reliability,
};
use crate::ranking::{lineup, Contender};
use crate::registry::{bounded, kept, replaced, retention, settled, shed, weighed, Peer};
use crate::scoring::{
    at_least_one, averaged, bad_source, drift, is_judgement, is_merit, merit, pulled_point,
    raised_point, PeerClass, RelayModel, SaturationEstimate, SaturationModel, ScoredPeer,
    CLEARLY_WORSE,
};
use crate::state::{absorbs, without, SelectorState};
use crate::types::{
    throughput, Candidate, FailureReason, OutcomeResult, Provenance, SelectedPeer, TransferOutcome,
};

verus! {

proof fn lemma_one_bound<A: Arithmetic>(
    kit: &A,
    before: Seq<Peer>,
    capacity: nat,
    now: u64,
    after: Seq<Peer>,
    gone: Seq<PeerId>,
    other_after: Seq<Peer>,
    other_gone: Seq<PeerId>,
)
    requires
        steady(kit),
        bounded(kit, before, capacity, now, after, gone),
        bounded(kit, before, capacity, now, other_after, other_gone),
    ensures
        after == other_after,
        gone == other_gone,
{
    let peers = settled(before, now);
    if peers.len() > capacity {
        let a = choose|worth: Seq<Measure>| #[trigger]
            weighed(kit, peers, now, worth) && after == kept(peers, worth, capacity) && gone
                == shed(peers, worth, capacity);
        let b = choose|worth: Seq<Measure>| #[trigger]
            weighed(kit, peers, now, worth) && other_after == kept(peers, worth, capacity)
                && other_gone == shed(peers, worth, capacity);
        assert forall|i: int| 0 <= i < a.len() implies a[i] == b[i] by {
            let formula = retention(peers[i].quality, peers[i].age(now));
            formulas_have_one_value(kit, formula, a[i], b[i]);
        }
        assert(a =~= b);
    }
}

proof fn lemma_one_upsert<A: Arithmetic>(
    kit: &A,
    before: SelectorState,
    candidate: Candidate,
    provenance: Provenance,
    now: u64,
    after: SelectorState,
    other: SelectorState,
)
    requires
        steady(kit),
        before.upserts(kit, candidate, provenance, now, after),
        before.upserts(kit, candidate, provenance, now, other),
    ensures
        after == other,
{
    if !before.knows(candidate.peer_id) {
        let newcomer = Peer::introduced(candidate, provenance, now);
        newcomers_are_determined(kit, before, newcomer, now, after, other);
    }
}

proof fn lemma_one_upsert_all<A: Arithmetic>(
    kit: &A,
    before: SelectorState,
    candidates: Seq<Candidate>,
    now: u64,
    after: SelectorState,
    other: SelectorState,
)
    requires
        steady(kit),
        before.upserts_all(kit, candidates, now, after),
        before.upserts_all(kit, candidates, now, other),
    ensures
        after == other,
    decreases candidates.len(),
{
    if candidates.len() > 0 {
        let a = choose|mid: SelectorState|
            before.upserts_all(kit, candidates.drop_last(), now, mid) && #[trigger] mid.upserts(
                kit,
                candidates.last(),
                Provenance::Dht,
                now,
                after,
            );
        let b = choose|mid: SelectorState|
            before.upserts_all(kit, candidates.drop_last(), now, mid) && #[trigger] mid.upserts(
                kit,
                candidates.last(),
                Provenance::Dht,
                now,
                other,
            );
        lemma_one_upsert_all(kit, before, candidates.drop_last(), now, a, b);
        lemma_one_upsert(kit, a, candidates.last(), Provenance::Dht, now, after, other);
    }
}

proof fn lemma_one_judgement<A: Arithmetic>(
    kit: &A,
    peer: Peer,
    saturation: SaturationModel,
    relay: RelayModel,
    bonus: Measure,
    x: ScoredPeer,
    y: ScoredPeer,
)
    requires
        steady(kit),
        is_judgement(kit, peer, saturation, relay, bonus, x),
        is_judgement(kit, peer, saturation, relay, bonus, y),
    ensures
        x == y,
{
    if peer.quality.samples > 0 && !bad_source(peer.quality) {
        assert(is_merit(kit, peer, saturation, relay, x.effective_score));
        assert(is_merit(kit, peer, saturation, relay, y.effective_score));
        let formula = merit(peer, saturation, relay);
        let a = choose|value: Measure| #[trigger]
            formula.gives(kit, value) && x.effective_score == value.bits;
        let b = choose|value: Measure| #[trigger]
            formula.gives(kit, value) && y.effective_score == value.bits;
        formulas_have_one_value(kit, formula, a, b);
    }
}

proof fn lemma_one_bonus<A: Arithmetic>(kit: &A, marks: Seq<ScoredPeer>, x: Measure, y: Measure)
    requires
        steady(kit),
        is_bonus(kit, marks, x),
        is_bonus(kit, marks, y),
    ensures
        x == y,
{
    let (worst, best) = choose|worst: Measure, best: Measure|
        are_bounds(marks, worst, best) && #[trigger] bonus_between(worst, best).gives(kit, x);
    let (other_worst, other_best) = choose|worst: Measure, best: Measure|
        are_bounds(marks, worst, best) && #[trigger] bonus_between(worst, best).gives(kit, y);
    if some_proven(marks) {
        assert(lowest_proven(marks, worst.bits as i128));
        assert(lowest_proven(marks, other_worst.bits as i128));
        assert(highest_proven(marks, best.bits as i128));
        assert(highest_proven(marks, other_best.bits as i128));
    }
    assert(worst == other_worst && best == other_best);
    formulas_have_one_value(kit, bonus_between(worst, best), x, y);
}

/// With steady arithmetic there is one judgement that counts.
pub proof fn lemma_one_final<A: Arithmetic>(
    kit: &A,
    mark: ScoredPeer,
    bonus: Measure,
    active: bool,
    x: ScoredPeer,
    y: ScoredPeer,
)
    requires
        steady(kit),
        is_final(kit, mark, bonus, active, x),
        is_final(kit, mark, bonus, active, y),
    ensures
        x == y,
{
    if active {
        let judged = explored(mark, bonus);
        if judged.effective_score >= 0 {
            let whole = Measure { bits: judged.effective_score as u64 };
            let a = choose|half: Measure| #[trigger]
                half_of(whole).gives(kit, half) && x.effective_score == half.bits;
            let b = choose|half: Measure| #[trigger]
                half_of(whole).gives(kit, half) && y.effective_score == half.bits;
            formulas_have_one_value(kit, half_of(whole), a, b);
        }
    }
}

/// With steady arithmetic there is one basis for a round: the judgements and the bonus.
pub proof fn lemma_one_basis<A: Arithmetic>(
    kit: &A,
    state: SelectorState,
    ids: Seq<PeerId>,
    marks: Seq<ScoredPeer>,
    bonus: Measure,
    other_marks: Seq<ScoredPeer>,
    other_bonus: Measure,
)
    requires
        steady(kit),
        state.judged(kit, ids, marks),
        is_bonus(kit, marks, bonus),
        state.judged(kit, ids, other_marks),
        is_bonus(kit, other_marks, other_bonus),
    ensures
        marks == other_marks,
        bonus == other_bonus,
{
    assert forall|i: int| 0 <= i < ids.len() implies marks[i] == other_marks[i] by {
        lemma_one_judgement(
            kit,
            state.peer(ids[i]),
            state.saturation,
            state.relay,
            Measure { bits: ZERO },
            marks[i],
            other_marks[i],
        );
    }
    assert(marks =~= other_marks);
    lemma_one_bonus(kit, marks, bonus, other_bonus);
}

proof fn lemma_one_field<A: Arithmetic>(
    kit: &A,
    state: SelectorState,
    ids: Seq<PeerId>,
    active: Seq<PeerId>,
    x: Seq<Contender>,
    y: Seq<Contender>,
)
    requires
        steady(kit),
        state.is_field(kit, ids, active, x),
        state.is_field(kit, ids, active, y),
    ensures
        x == y,
{
    let (marks, bonus) = choose|marks: Seq<ScoredPeer>, bonus: Measure|
        state.judged(kit, ids, marks) && is_bonus(kit, marks, bonus) && #[trigger] state.makes_field(
            kit,
            ids,
            active,
            marks,
            bonus,
            x,
        );
    let (other_marks, other_bonus) = choose|marks: Seq<ScoredPeer>, bonus: Measure|
        state.judged(kit, ids, marks) && is_bonus(kit, marks, bonus) && #[trigger] state.makes_field(
            kit,
            ids,
            active,
            marks,
            bonus,
            y,
        );
    lemma_one_basis(kit, state, ids, marks, bonus, other_marks, other_bonus);
    assert forall|i: int| 0 <= i < ids.len() implies x[i] == y[i] by {
        assert(state.enters(
            kit,
            ids[i],
            i as nat,
            marks[i],
            bonus,
            active.contains(ids[i]),
            x[i],
        ));
        assert(state.enters(
            kit,
            ids[i],
            i as nat,
            marks[i],
            bonus,
            active.contains(ids[i]),
            y[i],
        ));
        lemma_one_final(
            kit,
            marks[i],
            bonus,
            active.contains(ids[i]),
            x[i].score,
            y[i].score,
        );
    }
    assert(x =~= y);
}

/// From the same state and the same pool the same peers are chosen and the same state is left, if the
/// arithmetic is steady.
pub proof fn choices_are_determined<A: Arithmetic>(
    kit: &A,
    before: SelectorState,
    pool: Seq<PeerId>,
    active: Seq<PeerId>,
    want: usize,
    now: u64,
    selected: Seq<SelectedPeer>,
    after: SelectorState,
    other_selected: Seq<SelectedPeer>,
    other_after: SelectorState,
)
    requires
        steady(kit),
        before.chooses(kit, pool, active, want, now, selected, after),
        before.chooses(kit, pool, active, want, now, other_selected, other_after),
    ensures
        selected == other_selected,
        after == other_after,
{
    let calm = before.calmed(now);
    let ids = calm.contestants(pool);
    if ids.len() > 0 {
        let round = calm.next_round(ids.len());
        let a = choose|field: Seq<Contender>| #[trigger]
            calm.is_field(kit, ids, active, field) && selected == lineup(field, want, round.epoch)
                && after == round.dispatched_all(selected, now);
        let b = choose|field: Seq<Contender>| #[trigger]
            calm.is_field(kit, ids, active, field) && other_selected == lineup(
                field,
                want,
                round.epoch,
            ) && other_after == round.dispatched_all(other_selected, now);
        lemma_one_field(kit, calm, ids, active, a, b);
    }
}

/// From the same state, candidates, request and time the same peers are selected and the same state
/// is left, if the arithmetic is steady.
pub proof fn selections_are_determined<A: Arithmetic>(
    kit: &A,
    before: SelectorState,
    candidates: Seq<Candidate>,
    want: usize,
    now: u64,
    selected: Seq<SelectedPeer>,
    after: SelectorState,
    other_selected: Seq<SelectedPeer>,
    other_after: SelectorState,
)
    requires
        steady(kit),
        before.selects(kit, candidates, want, now, selected, after),
        before.selects(kit, candidates, want, now, other_selected, other_after),
    ensures
        selected == other_selected,
        after == other_after,
{
    let pool = candidates.map_values(|c: Candidate| c.peer_id);
    let a = choose|mid: SelectorState| #[trigger]
        before.upserts_all(kit, candidates, now, mid) && mid.chooses(
            kit,
            pool,
            Seq::empty(),
            want,
            now,
            selected,
            after,
        );
    let b = choose|mid: SelectorState| #[trigger]
        before.upserts_all(kit, candidates, now, mid) && mid.chooses(
            kit,
            pool,
            Seq::empty(),
            want,
            now,
            other_selected,
            other_after,
        );
    lemma_one_upsert_all(kit, before, candidates, now, a, b);
    choices_are_determined(
        kit,
        a,
        pool,
        Seq::empty(),
        want,
        now,
        selected,
        after,
        other_selected,
        other_after,
    );
}

proof fn lemma_one_fold<A: Arithmetic>(
    kit: &A,
    before: Estimate,
    sample: Measure,
    x: Estimate,
    y: Estimate,
)
    requires
        steady(kit),
        before.folds(kit, sample, x),
        before.folds(kit, sample, y),
    ensures
        x == y,
{
    if before.mean is Some {
        let mean = before.mean->0;
        let weight = sample_weight(mean, before.mad, before.samples);
        let (old_mean, new) = (Formula::Known(mean), Formula::Known(sample));
        formulas_have_one_value(kit, moved_by(weight, old_mean, new), x.mean->0, y.mean->0);
        formulas_have_one_value(
            kit,
            moved_by(weight, Formula::Known(before.mad), new.off(old_mean)),
            x.mad,
            y.mad,
        );
    }
}

proof fn lemma_one_step<A: Arithmetic>(
    kit: &A,
    before: Reliability,
    ok: bool,
    x: Reliability,
    y: Reliability,
)
    requires
        steady(kit),
        before.steps(kit, ok, x),
        before.steps(kit, ok, y),
    ensures
        x == y,
{
    if before.rate is Some {
        let formula = stepped(before.rate->0, before.samples, ok);
        formulas_have_one_value(kit, formula, x.rate->0, y.rate->0);
    }
}

proof fn lemma_one_result<A: Arithmetic>(
    kit: &A,
    before: Reliability,
    ok: bool,
    hard: bool,
    x: Reliability,
    y: Reliability,
)
    requires
        steady(kit),
        before.hears(kit, ok, hard, x),
        before.hears(kit, ok, hard, y),
    ensures
        x == y,
{
    if !ok && hard {
        let (a1, a2, a3) = choose|first: Reliability, second: Reliability, third: Reliability|
            #![trigger before.steps(kit, ok, first), first.steps(kit, ok, second), second.steps(kit, ok, third)]
            before.steps(kit, ok, first) && first.steps(kit, ok, second) && second.steps(
                kit,
                ok,
                third,
            ) && x == (Reliability { hard_failures: one_more(before.hard_failures), ..third });
        let (b1, b2, b3) = choose|first: Reliability, second: Reliability, third: Reliability|
            #![trigger before.steps(kit, ok, first), first.steps(kit, ok, second), second.steps(kit, ok, third)]
            before.steps(kit, ok, first) && first.steps(kit, ok, second) && second.steps(
                kit,
                ok,
                third,
            ) && y == (Reliability { hard_failures: one_more(before.hard_failures), ..third });
        lemma_one_step(kit, before, ok, a1, b1);
        lemma_one_step(kit, a1, ok, a2, b2);
        lemma_one_step(kit, a2, ok, a3, b3);
    } else {
        lemma_one_step(kit, before, ok, x, y);
    }
}

proof fn lemma_one_quality<A: Arithmetic>(
    kit: &A,
    before: PeerQuality,
    outcome: TransferOutcome,
    rate: Option<Measure>,
    x: PeerQuality,
    y: PeerQuality,
)
    requires
        steady(kit),
        absorbs(kit, before, outcome, rate, x),
        absorbs(kit, before, outcome, rate, y),
    ensures
        x == y,
{
    match outcome.result {
        OutcomeResult::Success => {
            if rate is Some {
                lemma_one_fold(kit, before.throughput, rate->0, x.throughput, y.throughput);
            }
            if outcome.rtt_ms is Some {
                let ms = outcome.rtt_ms->0;
                let a = choose|latency: Measure|
                    Formula::Count(ms).gives(kit, latency) && #[trigger] before.rtt.folds(
                        kit,
                        latency,
                        x.rtt,
                    );
                let b = choose|latency: Measure|
                    Formula::Count(ms).gives(kit, latency) && #[trigger] before.rtt.folds(
                        kit,
                        latency,
                        y.rtt,
                    );
                formulas_have_one_value(kit, Formula::Count(ms), a, b);
                lemma_one_fold(kit, before.rtt, a, x.rtt, y.rtt);
            }
            lemma_one_result(kit, before.reliability, true, false, x.reliability, y.reliability);
        },
        OutcomeResult::Failure { reason } => {
            if reason != FailureReason::Cancelled {
                lemma_one_result(
                    kit,
                    before.reliability,
                    false,
                    reason == FailureReason::VerificationFailed,
                    x.reliability,
                    y.reliability,
                );
            }
        },
        OutcomeResult::Interrupted { .. } => {
            lemma_one_result(kit, before.reliability, false, false, x.reliability, y.reliability);
        },
    }
}

proof fn lemma_one_move<A: Arithmetic>(
    kit: &A,
    before: SaturationEstimate,
    point: Formula,
    x: SaturationEstimate,
    y: SaturationEstimate,
)
    requires
        steady(kit),
        before.moved(kit, point, x),
        before.moved(kit, point, y),
    ensures
        x == y,
{
    formulas_have_one_value(kit, point.between(ONE, SIXTY_FOUR), x.point, y.point);
    let a = choose|whole: u32|
        call_ensures(A::nearest, (kit, x.point), whole) && x.ranges == #[trigger] at_least_one(
            whole,
        );
    let b = choose|whole: u32|
        call_ensures(A::nearest, (kit, y.point), whole) && y.ranges == #[trigger] at_least_one(
            whole,
        );
    assert(a == b);
}

proof fn lemma_one_saturation<A: Arithmetic>(
    kit: &A,
    before: SaturationEstimate,
    in_flight: u32,
    throughput: Measure,
    x: SaturationEstimate,
    y: SaturationEstimate,
)
    requires
        steady(kit),
        before.learns(kit, in_flight, throughput, x),
        before.learns(kit, in_flight, throughput, y),
    ensures
        x == y,
{
    let concurrency = at_least_one(in_flight);
    let counted = SaturationEstimate { samples: one_more(before.samples), ..before };
    let here = Formula::Known(before.point);
    if throughput.bits == ZERO {
    } else if throughput.bits >= before.best_throughput.bits {
        let best = SaturationEstimate {
            best_throughput: throughput,
            best_concurrency: concurrency,
            ..counted
        };
        lemma_one_move(kit, best, raised_point(counted, concurrency), x, y);
    } else if concurrency > before.best_concurrency {
        let formula = constant(CLEARLY_WORSE).times(Formula::Known(before.best_throughput));
        let a = choose|limit: Measure|
            formula.gives(kit, limit) && #[trigger] counted.reacts(kit, throughput, limit, x);
        let b = choose|limit: Measure|
            formula.gives(kit, limit) && #[trigger] counted.reacts(kit, throughput, limit, y);
        formulas_have_one_value(kit, formula, a, b);
        if throughput.bits < a.bits {
            lemma_one_move(kit, counted, pulled_point(counted), x, y);
        } else {
            lemma_one_move(kit, counted, here, x, y);
        }
    } else {
        lemma_one_move(kit, counted, here, x, y);
    }
}

proof fn lemma_one_model<A: Arithmetic>(
    kit: &A,
    before: SaturationModel,
    class: PeerClass,
    in_flight: u32,
    throughput: Measure,
    x: SaturationModel,
    y: SaturationModel,
)
    requires
        steady(kit),
        before.learns(kit, class, in_flight, throughput, x),
        before.learns(kit, class, in_flight, throughput, y),
    ensures
        x == y,
{
    lemma_one_saturation(kit, before.of(class), in_flight, throughput, x.of(class), y.of(class));
    assert(x.of(PeerClass::DirectPath) == y.of(PeerClass::DirectPath));
    assert(x.of(PeerClass::RelayedPath) == y.of(PeerClass::RelayedPath));
    assert(x.of(PeerClass::Unknown) == y.of(PeerClass::Unknown));
}

proof fn lemma_one_average<A: Arithmetic>(
    kit: &A,
    mean: Option<Measure>,
    samples: u64,
    sample: Measure,
    x: Option<Measure>,
    y: Option<Measure>,
)
    requires
        steady(kit),
        averaged(kit, mean, samples, sample, x),
        averaged(kit, mean, samples, sample, y),
    ensures
        x == y,
{
    if mean is Some {
        let formula = moved_by(
            drift(samples),
            Formula::Known(mean->0),
            Formula::Known(sample),
        );
        formulas_have_one_value(kit, formula, x->0, y->0);
    }
}

proof fn lemma_one_relay<A: Arithmetic>(
    kit: &A,
    before: RelayModel,
    relayed: bool,
    throughput: Measure,
    x: RelayModel,
    y: RelayModel,
)
    requires
        steady(kit),
        before.learns(kit, relayed, throughput, x),
        before.learns(kit, relayed, throughput, y),
    ensures
        x == y,
{
    if throughput.bits != ZERO {
        if relayed {
            lemma_one_average(
                kit,
                before.relayed_mean,
                one_more(before.relayed_samples),
                throughput,
                x.relayed_mean,
                y.relayed_mean,
            );
        } else {
            lemma_one_average(
                kit,
                before.direct_mean,
                one_more(before.direct_samples),
                throughput,
                x.direct_mean,
                y.direct_mean,
            );
        }
    }
}

proof fn lemma_one_record<A: Arithmetic>(
    kit: &A,
    before: SelectorState,
    outcome: TransferOutcome,
    rate: Option<Measure>,
    now: u64,
    x: SelectorState,
    y: SelectorState,
)
    requires
        steady(kit),
        before.folds(kit, outcome, rate, now, x),
        before.folds(kit, outcome, rate, now, y),
    ensures
        x == y,
{
    let id = outcome.peer_id;
    let record = before.attribution(id);
    if rate is Some && outcome.result is Success {
        lemma_one_model(
            kit,
            before.saturation,
            record.class,
            record.in_flight_at_dispatch,
            rate->0,
            x.saturation,
            y.saturation,
        );
        lemma_one_relay(
            kit,
            before.relay,
            record.class == PeerClass::RelayedPath,
            rate->0,
            x.relay,
            y.relay,
        );
    }
    if before.knows(id) {
        let at = Some(
            if outcome.at < now {
                now
            } else {
                outcome.at
            },
        );
        let a = choose|quality: PeerQuality| #[trigger]
            absorbs(kit, before.peer(id).quality, outcome, rate, quality) && x.peers == replaced(
                before.peers,
                before.peer(id).taught(quality, at).relieved(1),
            );
        let b = choose|quality: PeerQuality| #[trigger]
            absorbs(kit, before.peer(id).quality, outcome, rate, quality) && y.peers == replaced(
                before.peers,
                before.peer(id).taught(quality, at).relieved(1),
            );
        lemma_one_quality(kit, before.peer(id).quality, outcome, rate, a, b);
    }
}

/// From the same state, outcome and time the same state is left, if the arithmetic is steady.
pub proof fn learning_is_determined<A: Arithmetic>(
    kit: &A,
    before: SelectorState,
    outcome: TransferOutcome,
    now: u64,
    after: SelectorState,
    other_after: SelectorState,
)
    requires
        steady(kit),
        before.records(kit, outcome, now, after),
        before.records(kit, outcome, now, other_after),
    ensures
        after == other_after,
{
    let newcomer = Peer::fresh(outcome.peer_id, Provenance::Nat, now).with_even_odds();
    let (a, rate) = choose|mid: SelectorState, rate: Option<Measure>|
        (if before.knows(outcome.peer_id) {
            mid == before
        } else {
            before.takes_in(
                kit,
                Peer::fresh(outcome.peer_id, Provenance::Nat, now).with_even_odds(),
                now,
                mid,
            )
        }) && outcome.is_rate(kit, rate) && #[trigger] mid.folds(kit, outcome, rate, now, after);
    let (b, other_rate) = choose|mid: SelectorState, rate: Option<Measure>|
        (if before.knows(outcome.peer_id) {
            mid == before
        } else {
            before.takes_in(
                kit,
                Peer::fresh(outcome.peer_id, Provenance::Nat, now).with_even_odds(),
                now,
                mid,
            )
        }) && outcome.is_rate(kit, rate) && #[trigger] mid.folds(
            kit,
            outcome,
            rate,
            now,
            other_after,
        );
    if !before.knows(outcome.peer_id) {
        newcomers_are_determined(kit, before, newcomer, now, a, b);
    }
    if rate is Some {
        let formula = throughput(outcome.bytes, outcome.duration_ms);
        formulas_have_one_value(kit, formula, rate->0, other_rate->0);
    }
    assert(rate == other_rate);
    lemma_one_record(kit, a, outcome, rate, now, after, other_after);
}

/// From the same state, newcomer and time the same state is left, if the arithmetic is steady.
pub proof fn newcomers_are_determined<A: Arithmetic>(
    kit: &A,
    before: SelectorState,
    newcomer: Peer,
    now: u64,
    after: SelectorState,
    other: SelectorState,
)
    requires
        steady(kit),
        before.takes_in(kit, newcomer, now, after),
        before.takes_in(kit, newcomer, now, other),
    ensures
        after == other,
{
    let all = before.peers.push(newcomer);
    let a = choose|gone: Seq<PeerId>| #[trigger]
        bounded(kit, all, before.bound, now, after.peers, gone) && after == (SelectorState {
            peers: after.peers,
            last_selected: without(before.last_selected, gone),
            dispatched: without(before.dispatched, gone),
            ..before
        });
    let b = choose|gone: Seq<PeerId>| #[trigger]
        bounded(kit, all, before.bound, now, other.peers, gone) && other == (SelectorState {
            peers: other.peers,
            last_selected: without(before.last_selected, gone),
            dispatched: without(before.dispatched, gone),
            ..before
        });
    lemma_one_bound(kit, all, before.bound, now, after.peers, a, other.peers, b);
}

} // verus!
