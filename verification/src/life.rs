//! What holds of a selector from its creation on, through whatever calls.

use vstd::prelude::*;

use crate::engine::{lemma_known_stamped, lemma_removed_coherent, lemma_replaced_coherent};
use crate::engine_laws::{choices_are_eligible_and_teach_nothing, newcomers_respect_the_bound};
use crate::formula::Formula;
use crate::history::{runs, Call};
use crate::identity::PeerId;
use crate::learning_laws::{proper_estimate, rates_follow_the_results, within_one};
use crate::measure::{Arithmetic, Measure, INFINITY};
use crate::order::{lemma_proper, orderly, proper};
use crate::pool_event::{PoolEvent, PoolRemovalReason};
use crate::quality::{moved_by, sample_weight, Estimate, PeerQuality};
use crate::registry::{lemma_place, place, registered, replaced, Peer};
use crate::scoring::{drift, merit, PeerClass, RelayModel, SaturationModel};
use crate::scoring_laws::saturation_points_stay_in_range;
use crate::state::{absorbs, SelectorState};
use crate::types::{
    throughput, Candidate, FailureReason, OutcomeResult, Provenance, SelectedPeer, TransferOutcome,
};

verus! {

/// Whether what was learned of a peer is made of measures, and its success rate is at most one.
pub open spec fn genuine_quality(quality: PeerQuality) -> bool {
    &&& proper_estimate(quality.throughput)
    &&& proper_estimate(quality.rtt)
    &&& within_one(quality.reliability)
}

/// Whether the means of a model of relays are measures.
pub open spec fn genuine_relay(relay: RelayModel) -> bool {
    &&& relay.relayed_mean matches Some(mean) ==> mean.bits <= INFINITY
    &&& relay.direct_mean matches Some(mean) ==> mean.bits <= INFINITY
}

/// Whether everything that was learned is made of measures.
pub open spec fn genuine(state: SelectorState) -> bool {
    &&& genuine_relay(state.relay)
    &&& forall|id: PeerId| #[trigger] state.knows(id) ==> genuine_quality(state.peer(id).quality)
}

/// Whether a selector was just created.
pub open spec fn just_created(state: SelectorState) -> bool {
    &&& state.bound >= 1
    &&& state == SelectorState::initial(state.clock, state.seed, state.bound)
}

/// Whether a run is one of a selector from its creation on, through calls that it takes and no more of
/// them than rounds can be counted.
pub open spec fn is_life<A: Arithmetic>(
    kit: &A,
    calls: Seq<Call>,
    states: Seq<SelectorState>,
    answers: Seq<Seq<SelectedPeer>>,
) -> bool {
    &&& runs(kit, calls, states, answers)
    &&& just_created(states[0])
    &&& calls.len() <= u64::MAX
    &&& forall|k: int| 0 <= k < calls.len() ==> (#[trigger] calls[k]).fits(states[k])
}

/// What a measured peer merits is made of measures.
pub proof fn lemma_genuine_merit(peer: Peer, saturation: SaturationModel, relay: RelayModel)
    requires
        genuine_quality(peer.quality),
        genuine_relay(relay),
    ensures
        proper(merit(peer, saturation, relay)),
{
    reveal_with_fuel(proper, 12);
}

/// A measure folded into an estimate made of measures leaves one made of measures.
pub proof fn lemma_folded_genuine<A: Arithmetic>(
    kit: &A,
    before: Estimate,
    sample: Measure,
    after: Estimate,
)
    requires
        orderly(kit),
        proper_estimate(before),
        sample.bits <= INFINITY,
        before.folds(kit, sample, after),
    ensures
        proper_estimate(after),
{
    if let Some(mean) = before.mean {
        let weight = sample_weight(mean, before.mad, before.samples);
        let (old, new) = (Formula::Known(mean), Formula::Known(sample));
        let moved = moved_by(weight, old, new);
        let swings = moved_by(weight, Formula::Known(before.mad), new.off(old));
        assert(proper(moved) && proper(swings)) by {
            reveal_with_fuel(proper, 14);
        }
        lemma_proper(kit, moved, after.mean->0);
        lemma_proper(kit, swings, after.mad);
    }
}

proof fn lemma_absorbed_genuine<A: Arithmetic>(
    kit: &A,
    before: PeerQuality,
    outcome: TransferOutcome,
    rate: Option<Measure>,
    after: PeerQuality,
)
    requires
        orderly(kit),
        genuine_quality(before),
        rate matches Some(value) ==> value.bits <= INFINITY,
        absorbs(kit, before, outcome, rate, after),
    ensures
        genuine_quality(after),
{
    let none = Measure { bits: 0 };
    match outcome.result {
        OutcomeResult::Success => {
            if let Some(value) = rate {
                lemma_folded_genuine(kit, before.throughput, value, after.throughput);
            }
            if let Some(ms) = outcome.rtt_ms {
                let latency = choose|latency: Measure|
                    Formula::Count(ms).gives(kit, latency) && #[trigger] before.rtt.folds(
                        kit,
                        latency,
                        after.rtt,
                    );
                lemma_proper(kit, Formula::Count(ms), latency);
                lemma_folded_genuine(kit, before.rtt, latency, after.rtt);
            }
            rates_follow_the_results(
                kit,
                before.reliability,
                true,
                false,
                after.reliability,
                none,
            );
        },
        OutcomeResult::Failure { reason } => {
            if reason != FailureReason::Cancelled {
                rates_follow_the_results(
                    kit,
                    before.reliability,
                    false,
                    reason == FailureReason::VerificationFailed,
                    after.reliability,
                    none,
                );
            }
        },
        OutcomeResult::Interrupted { .. } => {
            rates_follow_the_results(
                kit,
                before.reliability,
                false,
                false,
                after.reliability,
                none,
            );
        },
    }
}

proof fn lemma_relay_genuine<A: Arithmetic>(
    kit: &A,
    before: RelayModel,
    relayed: bool,
    value: Measure,
    after: RelayModel,
)
    requires
        orderly(kit),
        genuine_relay(before),
        value.bits <= INFINITY,
        before.learns(kit, relayed, value, after),
    ensures
        genuine_relay(after),
{
    if value.bits != 0 {
        let (mean, samples) = if relayed {
            (before.relayed_mean, after.relayed_samples)
        } else {
            (before.direct_mean, after.direct_samples)
        };
        if let Some(old) = mean {
            let moved = moved_by(drift(samples), Formula::Known(old), Formula::Known(value));
            assert(proper(moved)) by {
                reveal_with_fuel(proper, 8);
            }
            if relayed {
                lemma_proper(kit, moved, after.relayed_mean->0);
            } else {
                lemma_proper(kit, moved, after.direct_mean->0);
            }
        }
    }
}

/// Another record of a registered peer keeps a state coherent, and genuine if it is genuine itself.
proof fn lemma_retold(before: SelectorState, peer: Peer)
    requires
        before.coherent(),
        before.knows(peer.peer_id),
        peer.stamped(),
    ensures
        before.with_peer(peer).coherent(),
        genuine(before) && genuine_quality(peer.quality) ==> genuine(before.with_peer(peer)),
{
    lemma_replaced_coherent(before, peer);
    let after = before.with_peer(peer);
    if genuine(before) && genuine_quality(peer.quality) {
        assert forall|id: PeerId| #[trigger] after.knows(id) implies genuine_quality(
            after.peer(id).quality,
        ) by {
            assert(before.knows(id));
            if id != peer.peer_id {
                assert(after.peer(id) == before.peer(id));
            }
        }
    }
}

proof fn lemma_taken_in<A: Arithmetic>(
    kit: &A,
    before: SelectorState,
    newcomer: Peer,
    now: u64,
    after: SelectorState,
)
    requires
        before.coherent(),
        newcomer.stamped(),
        genuine_quality(newcomer.quality),
        !before.knows(newcomer.peer_id),
        before.takes_in(kit, newcomer, now, after),
    ensures
        after.coherent(),
        genuine(before) ==> genuine(after),
{
    newcomers_respect_the_bound(kit, before, newcomer, now, after);
    if genuine(before) {
        assert forall|id: PeerId| #[trigger] after.knows(id) implies genuine_quality(
            after.peer(id).quality,
        ) by {
            if id != newcomer.peer_id {
                assert(before.knows(id));
            }
        }
    }
}

proof fn lemma_upserted<A: Arithmetic>(
    kit: &A,
    before: SelectorState,
    candidate: Candidate,
    provenance: Provenance,
    now: u64,
    after: SelectorState,
)
    requires
        before.coherent(),
        before.upserts(kit, candidate, provenance, now, after),
    ensures
        after.coherent(),
        genuine(before) ==> genuine(after),
{
    let id = candidate.peer_id;
    if before.knows(id) {
        lemma_known_stamped(before, id);
        lemma_retold(before, before.peer(id).refreshed(candidate, provenance));
    } else {
        lemma_taken_in(kit, before, Peer::introduced(candidate, provenance, now), now, after);
    }
}

proof fn lemma_upserted_all<A: Arithmetic>(
    kit: &A,
    before: SelectorState,
    candidates: Seq<Candidate>,
    now: u64,
    after: SelectorState,
)
    requires
        before.coherent(),
        before.upserts_all(kit, candidates, now, after),
    ensures
        after.coherent(),
        genuine(before) ==> genuine(after),
    decreases candidates.len(),
{
    if candidates.len() > 0 {
        let last = candidates.last();
        let mid = choose|mid: SelectorState|
            before.upserts_all(kit, candidates.drop_last(), now, mid) && #[trigger] mid.upserts(
                kit,
                last,
                Provenance::Dht,
                now,
                after,
            );
        lemma_upserted_all(kit, before, candidates.drop_last(), now, mid);
        lemma_upserted(kit, mid, last, Provenance::Dht, now, after);
    }
}

proof fn lemma_chosen<A: Arithmetic>(
    kit: &A,
    before: SelectorState,
    pool: Seq<PeerId>,
    active: Seq<PeerId>,
    want: usize,
    now: u64,
    answer: Seq<SelectedPeer>,
    after: SelectorState,
)
    requires
        before.coherent(),
        want >= 1,
        pool.len() <= usize::MAX,
        before.chooses(kit, pool, active, want, now, answer, after),
    ensures
        after.coherent(),
        genuine(before) ==> genuine(after),
{
    choices_are_eligible_and_teach_nothing(kit, before, pool, active, want, now, answer, after);
    if genuine(before) {
        assert forall|id: PeerId| #[trigger] after.knows(id) implies genuine_quality(
            after.peer(id).quality,
        ) by {
            assert(before.knows(id));
        }
    }
}

proof fn lemma_folded<A: Arithmetic>(
    kit: &A,
    before: SelectorState,
    outcome: TransferOutcome,
    rate: Option<Measure>,
    now: u64,
    after: SelectorState,
)
    requires
        before.coherent(),
        outcome.is_rate(kit, rate),
        before.folds(kit, outcome, rate, now, after),
    ensures
        after.coherent(),
        orderly(kit) && genuine(before) ==> genuine(after),
{
    let id = outcome.peer_id;
    let record = before.attribution(id);
    if let Some(value) = rate {
        if outcome.result is Success {
            saturation_points_stay_in_range(
                kit,
                before.saturation,
                record.class,
                record.in_flight_at_dispatch,
                value,
                after.saturation,
            );
        }
        if orderly(kit) {
            let formula = throughput(outcome.bytes, outcome.duration_ms);
            assert(proper(formula)) by {
                reveal_with_fuel(proper, 4);
            }
            lemma_proper(kit, formula, value);
        }
    }
    if before.knows(id) {
        let at = if outcome.at < now {
            now
        } else {
            outcome.at
        };
        let quality = choose|quality: PeerQuality| #[trigger]
            absorbs(kit, before.peer(id).quality, outcome, rate, quality) && after.peers
                == replaced(
                before.peers,
                before.peer(id).taught(quality, Some(at)).relieved(1),
            );
        let told = before.peer(id).taught(quality, Some(at)).relieved(1);
        lemma_known_stamped(before, id);
        lemma_retold(before, told);
        lemma_replaced_coherent(before, told);
        assert(after.peers == before.with_peer(told).peers);
        lemma_noted(before, told, after);
        if orderly(kit) && genuine(before) {
            lemma_absorbed_genuine(kit, before.peer(id).quality, outcome, rate, quality);
            lemma_relay_of(kit, before, outcome, rate, now, after);
            assert forall|other: PeerId| #[trigger] after.knows(other) implies genuine_quality(
                after.peer(other).quality,
            ) by {
                assert(before.with_peer(told).knows(other));
            }
        }
    } else {
        lemma_unmoved(before, after);
        if orderly(kit) && genuine(before) {
            lemma_relay_of(kit, before, outcome, rate, now, after);
            assert forall|other: PeerId| #[trigger] after.knows(other) implies genuine_quality(
                after.peer(other).quality,
            ) by {
                assert(before.knows(other));
            }
        }
    }
}

proof fn lemma_relay_of<A: Arithmetic>(
    kit: &A,
    before: SelectorState,
    outcome: TransferOutcome,
    rate: Option<Measure>,
    now: u64,
    after: SelectorState,
)
    requires
        orderly(kit),
        genuine_relay(before.relay),
        rate matches Some(value) ==> value.bits <= INFINITY,
        before.folds(kit, outcome, rate, now, after),
    ensures
        genuine_relay(after.relay),
{
    if let Some(value) = rate {
        if outcome.result is Success {
            let relayed = before.attribution(outcome.peer_id).class
                == PeerClass::RelayedPath;
            lemma_relay_genuine(kit, before.relay, relayed, value, after.relay);
        }
    }
}

/// What is noted stays noted of registered peers when a peer is told of anew.
proof fn lemma_noted(before: SelectorState, told: Peer, after: SelectorState)
    requires
        before.coherent(),
        before.knows(told.peer_id),
        told.stamped(),
        after.peers == before.with_peer(told).peers,
        after.bound == before.bound,
        after.saturation.wf(),
        after.last_selected == before.last_selected,
        after.dispatched == before.dispatched.remove(told.peer_id),
    ensures
        after.coherent(),
{
    lemma_replaced_coherent(before, told);
    let mid = before.with_peer(told);
    assert forall|id: PeerId| #[trigger] after.last_selected.contains_key(id) implies registered(
        after.peers,
        id,
    ) by {
        assert(mid.last_selected.contains_key(id));
    }
    assert forall|id: PeerId| #[trigger] after.dispatched.contains_key(id) implies registered(
        after.peers,
        id,
    ) by {
        assert(mid.dispatched.contains_key(id));
    }
}

proof fn lemma_unmoved(before: SelectorState, after: SelectorState)
    requires
        before.coherent(),
        after.peers == before.peers,
        after.bound == before.bound,
        after.saturation.wf(),
        after.last_selected == before.last_selected,
        exists|id: PeerId| after.dispatched == #[trigger] before.dispatched.remove(id),
    ensures
        after.coherent(),
{
    assert forall|id: PeerId| #[trigger] after.dispatched.contains_key(id) implies registered(
        after.peers,
        id,
    ) by {
        assert(before.dispatched.contains_key(id));
    }
}

proof fn lemma_recorded<A: Arithmetic>(
    kit: &A,
    before: SelectorState,
    outcome: TransferOutcome,
    now: u64,
    after: SelectorState,
)
    requires
        before.coherent(),
        before.records(kit, outcome, now, after),
    ensures
        after.coherent(),
        orderly(kit) && genuine(before) ==> genuine(after),
{
    let newcomer = Peer::fresh(outcome.peer_id, Provenance::Nat, now).with_even_odds();
    let (mid, rate) = choose|mid: SelectorState, rate: Option<Measure>|
        (if before.knows(outcome.peer_id) {
            mid == before
        } else {
            before.takes_in(
                kit,
                Peer::fresh(outcome.peer_id, Provenance::Nat, now).with_even_odds(),
                now,
                mid,
            )
        }) && outcome.is_rate(kit, rate) && #[trigger] mid.folds(kit, outcome, rate, now, after);
    if !before.knows(outcome.peer_id) {
        lemma_taken_in(kit, before, newcomer, now, mid);
    }
    lemma_folded(kit, mid, outcome, rate, now, after);
}

proof fn lemma_heard<A: Arithmetic>(
    kit: &A,
    before: SelectorState,
    event: PoolEvent,
    now: u64,
    after: SelectorState,
)
    requires
        before.coherent(),
        before.hears(kit, event, now, after),
    ensures
        after.coherent(),
        genuine(before) ==> genuine(after),
{
    match event {
        PoolEvent::PeerAdded { peer_id, .. } => {
            if before.knows(peer_id) {
                lemma_known_stamped(before, peer_id);
                lemma_retold(before, before.peer(peer_id).joined(Provenance::Gossip));
            } else {
                lemma_taken_in(
                    kit,
                    before,
                    Peer::linked(peer_id, Provenance::Gossip, now),
                    now,
                    after,
                );
            }
        },
        PoolEvent::PeerRemoved { peer_id, reason } => {
            if before.knows(peer_id) {
                lemma_known_stamped(before, peer_id);
                lemma_retold(
                    before,
                    before.peer(peer_id).left(
                        reason == PoolRemovalReason::Banned,
                    ),
                );
            }
        },
    }
}

proof fn lemma_removed(before: SelectorState, id: PeerId)
    requires
        before.coherent(),
    ensures
        before.removed(id).coherent(),
        genuine(before) ==> genuine(before.removed(id)),
{
    lemma_removed_coherent(before, id);
    let after = before.removed(id);
    if genuine(before) && before.knows(id) && before.peer(id).quality.in_flight == 0 {
        let p = place(before.peers, id);
        assert forall|other: PeerId| #[trigger] after.knows(other) implies genuine_quality(
            after.peer(other).quality,
        ) by {
            let j = place(after.peers, other);
            assert(0 <= j < after.peers.len() && after.peers[j].peer_id == other);
            let old = if j < p {
                j
            } else {
                j + 1
            };
            assert(before.peers[old] == after.peers[j]);
            lemma_place(before.peers, old);
            assert(before.knows(other));
        }
    }
}

/// A call that a selector takes leaves it coherent; and, with orderly arithmetic, what is made of
/// measures stays made of measures.
pub proof fn calls_keep_faith<A: Arithmetic>(
    kit: &A,
    call: Call,
    before: SelectorState,
    answer: Seq<SelectedPeer>,
    after: SelectorState,
)
    requires
        before.coherent(),
        call.fits(before),
        call.leads(kit, before, answer, after),
    ensures
        after.coherent(),
        orderly(kit) && genuine(before) ==> genuine(after),
{
    match call {
        Call::Select { candidates, want } => {
            let now = choose|now: u64| #[trigger]
                before.clock.reads(now) && before.selects(
                    kit,
                    candidates,
                    want,
                    now,
                    answer,
                    after,
                );
            let pool = candidates.map_values(|c: Candidate| c.peer_id);
            let mid = choose|mid: SelectorState| #[trigger]
                before.upserts_all(kit, candidates, now, mid) && mid.chooses(
                    kit,
                    pool,
                    Seq::empty(),
                    want,
                    now,
                    answer,
                    after,
                );
            lemma_upserted_all(kit, before, candidates, now, mid);
            lemma_chosen(kit, mid, pool, Seq::empty(), want, now, answer, after);
        },
        Call::Rebalance { active, want, need } => {
            let now = choose|now: u64| #[trigger]
                before.clock.reads(now) && before.rebalances(
                    kit,
                    active,
                    want,
                    need,
                    now,
                    answer,
                    after,
                );
            let slots: usize = if need == 0 {
                1
            } else if need < want {
                need as usize
            } else {
                want
            };
            lemma_chosen(kit, before, before.everyone(), active, slots, now, answer, after);
        },
        Call::Record { outcome } => {
            let now = choose|now: u64| #[trigger]
                before.clock.reads(now) && before.records(kit, outcome, now, after);
            lemma_recorded(kit, before, outcome, now, after);
        },
        Call::Hear { event } => {
            let now = choose|now: u64| #[trigger]
                before.clock.reads(now) && before.hears(kit, event, now, after);
            lemma_heard(kit, before, event, now, after);
        },
        Call::Classify { peer_id, class } => {
            let now = choose|now: u64| #[trigger]
                before.clock.reads(now) && before.classes(kit, peer_id, class, now, after);
            if before.knows(peer_id) {
                lemma_known_stamped(before, peer_id);
                lemma_retold(before, before.peer(peer_id).routed(class));
            } else {
                lemma_taken_in(kit, before, Peer::reported(peer_id, class, now), now, after);
            }
        },
        Call::Remove { peer_id } => {
            lemma_removed(before, peer_id);
        },
        Call::Dispatch { peer_id, count } => {
            let now = choose|now: u64| #[trigger]
                before.clock.reads(now) && after == before.loaded(peer_id, count, now);
            if before.knows(peer_id) {
                lemma_known_stamped(before, peer_id);
                lemma_retold(before, before.peer(peer_id).busier(count, now));
            }
        },
        Call::Upsert { candidate } => {
            let now = choose|now: u64| #[trigger]
                before.clock.reads(now) && before.upserts(
                    kit,
                    candidate,
                    Provenance::Manual,
                    now,
                    after,
                );
            lemma_upserted(kit, before, candidate, Provenance::Manual, now, after);
        },
        Call::SetClock { clock } => {
            assert(after.peers == before.peers);
            if genuine(before) {
                assert forall|id: PeerId| #[trigger] after.knows(id) implies genuine_quality(
                    after.peer(id).quality,
                ) by {
                    assert(before.knows(id));
                }
            }
        },
    }
}

/// From its creation on a selector is coherent; and, with orderly arithmetic, everything that it
/// learned is made of measures, and every success rate is at most one.
pub proof fn lives_keep_faith<A: Arithmetic>(
    kit: &A,
    calls: Seq<Call>,
    states: Seq<SelectorState>,
    answers: Seq<Seq<SelectedPeer>>,
    k: int,
)
    requires
        is_life(kit, calls, states, answers),
        0 <= k <= calls.len(),
    ensures
        states[k].coherent(),
        orderly(kit) ==> genuine(states[k]),
    decreases k,
{
    if k == 0 {
        assert(SaturationModel::initial().wf());
    } else {
        lives_keep_faith(kit, calls, states, answers, k - 1);
        assert(calls[k - 1].fits(states[k - 1]));
        assert(calls[k - 1].leads(kit, states[k - 1], answers[k - 1], states[(k - 1) + 1]));
        calls_keep_faith(kit, calls[k - 1], states[k - 1], answers[k - 1], states[k]);
    }
}

} // verus!
