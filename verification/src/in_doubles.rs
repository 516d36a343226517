//! Laws that ask something of the arithmetic, where it is in doubles: there nothing is left to ask.

use vstd::prelude::*;

use crate::active_laws::being_active_never_helps;
use crate::double_laws::{
    doubles_are_discerning, doubles_are_orderly, doubles_are_steady, doubles_round_in_order,
};
use crate::doubles::{is_product, Doubles};
use crate::engine_laws::lemma_calmed;
use crate::formula::steady;
use crate::history::{equal_histories_give_equal_answers, on_manual_clocks, runs, Call};
use crate::identity::PeerId;
use crate::learning_laws::{
    ceiling, failures_wear_the_rate_down, footing, larger_samples_leave_no_lower_mean,
    proper_estimate, samples_pull_the_mean, three_quarters,
};
use crate::life::{
    genuine, genuine_quality, genuine_relay, is_life, lemma_genuine_merit, lives_keep_faith,
};
use crate::measure::{Arithmetic, Measure, INFINITY};
use crate::order::{discerning, orderly, rounds_in_order};
use crate::quality::{Estimate, Reliability};
use crate::registry::Peer;
use crate::scoring::{bad_source, is_judgement, PeerClass, RelayModel, SaturationModel, ScoredPeer};
use crate::scoring_laws::{only_measurements_and_path_count, relays_cost_the_handicap};
use crate::state::{picked, SelectorState};
use crate::types::SelectedPeer;

verus! {

/// Arithmetic in doubles is all that a law asks of an arithmetic.
pub proof fn doubles_are_all_that_is_asked(kit: &Doubles)
    ensures
        steady(kit),
        orderly(kit),
        discerning(kit),
        rounds_in_order(kit),
{
    doubles_are_steady(kit);
    doubles_are_orderly(kit);
    doubles_are_discerning(kit);
    doubles_round_in_order(kit);
}

/// From its creation on, whatever it is told, everything that a selector learned is made of measures
/// and every success rate is at most one.
pub proof fn what_is_learned_stays_genuine(
    kit: &Doubles,
    calls: Seq<Call>,
    states: Seq<SelectorState>,
    answers: Seq<Seq<SelectedPeer>>,
    k: int,
)
    requires
        is_life(kit, calls, states, answers),
        0 <= k <= calls.len(),
    ensures
        states[k].coherent(),
        genuine(states[k]),
{
    doubles_are_orderly(kit);
    lives_keep_faith(kit, calls, states, answers, k);
}

/// Two selectors that start from the same state, run on manual clocks and receive the same calls
/// answer each of them alike, be it a selection or a rebalancing, and go through the same states.
pub proof fn histories_repeat(
    kit: &Doubles,
    calls: Seq<Call>,
    states: Seq<SelectorState>,
    answers: Seq<Seq<SelectedPeer>>,
    other_states: Seq<SelectorState>,
    other_answers: Seq<Seq<SelectedPeer>>,
)
    requires
        runs(kit, calls, states, answers),
        runs(kit, calls, other_states, other_answers),
        states[0] == other_states[0],
        on_manual_clocks(calls, states),
    ensures
        answers == other_answers,
        states == other_states,
{
    doubles_are_steady(kit);
    equal_histories_give_equal_answers(
        kit,
        calls,
        states,
        answers,
        other_states,
        other_answers,
    );
}

/// Of two rebalancings from one state, for no fewer sources than may be chosen, the one for which a
/// measured peer is active too chooses that peer if the other does, ranks it no earlier, and asks no
/// more ranges of it.
pub proof fn being_active_gains_nothing(
    kit: &Doubles,
    before: SelectorState,
    active: Seq<PeerId>,
    id: PeerId,
    want: usize,
    need: nat,
    now: u64,
    selected: Seq<SelectedPeer>,
    after: SelectorState,
    busy_selected: Seq<SelectedPeer>,
    busy_after: SelectorState,
    rank: int,
    busy_rank: int,
)
    requires
        before.coherent(),
        before.eligible(id),
        before.peer(id).quality.samples > 0,
        genuine(before),
        !active.contains(id),
        before.calmed(now).contestants(before.everyone()).len() <= want,
        before.calmed(now).contestants(before.everyone()).len() <= need,
        before.rebalances(kit, active, want, need, now, selected, after),
        before.rebalances(kit, active.push(id), want, need, now, busy_selected, busy_after),
    ensures
        picked(selected, id) <==> picked(busy_selected, id),
        0 <= rank < selected.len() && 0 <= busy_rank < busy_selected.len()
            && selected[rank].peer_id == id && busy_selected[busy_rank].peer_id == id ==> {
            &&& rank <= busy_rank
            &&& busy_rank <= u32::MAX ==> selected[rank].rank <= busy_selected[busy_rank].rank
            &&& busy_selected[busy_rank].max_concurrency <= selected[rank].max_concurrency
        },
{
    doubles_are_all_that_is_asked(kit);
    lemma_calmed(before, now);
    assert(before.calmed(now).knows(id));
    assert(genuine_quality(before.peer(id).quality));
    lemma_genuine_merit(before.calmed(now).peer(id), before.saturation, before.relay);
    being_active_never_helps(
        kit,
        before,
        active,
        id,
        want,
        need,
        now,
        selected,
        after,
        busy_selected,
        busy_after,
        rank,
        busy_rank,
    );
}

/// Two entries of a peer that agree in its measured quality and the class of its path are judged
/// alike, whatever else differs between them.
pub proof fn alike_is_judged_alike(
    kit: &Doubles,
    saturation: SaturationModel,
    relay: RelayModel,
    bonus: Measure,
    one: Peer,
    one_mark: ScoredPeer,
    other: Peer,
    other_mark: ScoredPeer,
)
    requires
        one.peer_id == other.peer_id,
        one.quality == other.quality,
        PeerClass::class_of(one.connection_class) == PeerClass::class_of(other.connection_class),
        is_judgement(kit, one, saturation, relay, bonus, one_mark),
        is_judgement(kit, other, saturation, relay, bonus, other_mark),
    ensures
        one_mark == other_mark,
{
    doubles_are_steady(kit);
    only_measurements_and_path_count(
        kit,
        saturation,
        relay,
        bonus,
        one,
        one_mark,
        other,
        other_mark,
    );
}

/// A measured peer over a relay scores the handicap times what it would score over another path, and
/// so no more, unless it is a bad source: while it is idle, and where relayed paths saturate as that
/// path does.
pub proof fn relayed_scores_carry_the_handicap(
    kit: &Doubles,
    saturation: SaturationModel,
    relay: RelayModel,
    bonus: Measure,
    direct: Peer,
    direct_mark: ScoredPeer,
    relayed: Peer,
    relayed_mark: ScoredPeer,
    handicap: Measure,
)
    requires
        saturation.wf(),
        direct.quality == relayed.quality,
        direct.quality.samples > 0,
        !bad_source(direct.quality),
        genuine_quality(direct.quality),
        genuine_relay(relay),
        PeerClass::class_of(direct.connection_class) != PeerClass::RelayedPath,
        PeerClass::class_of(relayed.connection_class) == PeerClass::RelayedPath,
        direct.quality.in_flight == 0 || saturation.of(
            PeerClass::class_of(direct.connection_class),
        ).ranges == saturation.relayed.ranges,
        relay.handicap().gives(kit, handicap),
        is_judgement(kit, direct, saturation, relay, bonus, direct_mark),
        is_judgement(kit, relayed, saturation, relay, bonus, relayed_mark),
    ensures
        0 <= relayed_mark.effective_score <= direct_mark.effective_score <= u64::MAX,
        is_product(
            Measure { bits: direct_mark.effective_score as u64 },
            handicap,
            Measure { bits: relayed_mark.effective_score as u64 },
        ),
{
    doubles_are_all_that_is_asked(kit);
    lemma_genuine_merit(direct, saturation, relay);
    relays_cost_the_handicap(
        kit,
        saturation,
        relay,
        bonus,
        direct,
        direct_mark,
        relayed,
        relayed_mark,
        handicap,
    );
}

/// A failure, whatever its reason, takes at least a quarter off the success rate.
pub proof fn failures_tell(
    kit: &Doubles,
    before: Reliability,
    hard: bool,
    after: Reliability,
    bound: Measure,
)
    requires
        before.rate is Some,
        before.rate->0.bits <= INFINITY,
        before.hears(kit, false, hard, after),
        three_quarters(kit, before.rate->0, bound),
    ensures
        after.rate is Some,
        after.rate->0.bits <= bound.bits,
{
    doubles_are_orderly(kit);
    failures_wear_the_rate_down(kit, before, hard, after, bound);
}

/// A sample pulls a mean to no more than what a sample in a steady stream leaves of it with the sample
/// on top, and to no less than the weight in a steady stream gives the sample; and a larger sample
/// leaves no lower a mean.
pub proof fn samples_tell(
    kit: &Doubles,
    before: Estimate,
    sample: Measure,
    after: Estimate,
    most: Measure,
    least: Measure,
    larger_sample: Measure,
    larger_after: Estimate,
)
    requires
        proper_estimate(before),
        before.mean is Some,
        sample.bits <= larger_sample.bits <= INFINITY,
        before.folds(kit, sample, after),
        before.folds(kit, larger_sample, larger_after),
        ceiling(before.mean->0, sample).gives(kit, most),
        footing(sample).gives(kit, least),
    ensures
        after.mean is Some,
        larger_after.mean is Some,
        least.bits <= after.mean->0.bits <= most.bits,
        after.mean->0.bits <= larger_after.mean->0.bits,
{
    doubles_are_all_that_is_asked(kit);
    samples_pull_the_mean(kit, before, sample, after, most, least);
    larger_samples_leave_no_lower_mean(
        kit,
        before,
        sample,
        after,
        larger_sample,
        larger_after,
    );
}

} // verus!
