//! What a recorded outcome changes, and what it leaves.

use vstd::prelude::*;

use crate::address::TraversalKind;
use crate::closeness::{around, lemma_count_number, like, number, slip};
use crate::doubles::Doubles;
use crate::engine::{lemma_known_stamped, lemma_replaced_coherent};
use crate::event_laws::{left_alone, lemma_newcomer};
use crate::formula::Formula;
use crate::identity::PeerId;
use crate::measure::{Arithmetic, Measure};
use crate::quality::PeerQuality;
use crate::rate_laws::rates_are_bytes_over_time;
use crate::registry::{replaced, Peer};
use crate::scoring::PeerClass;
use crate::scoring_laws::saturation_points_stay_in_range;
use crate::state::{absorbs, SelectorState};
use crate::types::{FailureReason, OutcomeResult, Provenance, TransferOutcome};

verus! {

/// The class of a path: every one but a relayed path is direct.
pub open spec fn class_over(path: Option<TraversalKind>) -> PeerClass {
    match path {
        Some(TraversalKind::Relayed) => PeerClass::RelayedPath,
        Some(_) => PeerClass::DirectPath,
        None => PeerClass::Unknown,
    }
}

/// Whether a rate is that of a transfer: bytes over time, up to rounding.
pub open spec fn measured_at(outcome: TransferOutcome, rate: Measure) -> bool {
    let moved = 1000real * (outcome.bytes as real);
    around(number(rate) * (outcome.duration_ms as real), moved, (12real * slip()) * moved)
}

/// Whether models learned of a transfer at a rate: on the path and at the load that were noted when it
/// was dispatched, or on those of the peer where nothing was noted.
pub open spec fn models_learn(
    kit: &Doubles,
    before: SelectorState,
    id: PeerId,
    rate: Measure,
    after: SelectorState,
) -> bool {
    let peer = before.peer(id);
    let (load, class) = if before.dispatched.contains_key(id) {
        (before.dispatched[id].in_flight_at_dispatch, before.dispatched[id].class)
    } else {
        (peer.quality.in_flight, class_over(peer.connection_class))
    };
    &&& before.saturation.learns(kit, class, load, rate, after.saturation)
    &&& before.relay.learns(kit, class == PeerClass::RelayedPath, rate, after.relay)
}

/// Whether the latency of a peer learned of a time to first byte.
pub open spec fn latency_learns(
    kit: &Doubles,
    before: PeerQuality,
    ms: u64,
    after: PeerQuality,
) -> bool {
    exists|latency: Measure|
        like(number(latency), ms as real, 2real) && #[trigger] before.rtt.folds(
            kit,
            latency,
            after.rtt,
        )
}

/// Whether the throughput of a peer, and the models, learned of a transfer.
pub open spec fn throughput_learns(
    kit: &Doubles,
    before: SelectorState,
    outcome: TransferOutcome,
    after: SelectorState,
) -> bool {
    exists|rate: Measure|
        measured_at(outcome, rate) && #[trigger] before.peer(
            outcome.peer_id,
        ).quality.throughput.folds(
            kit,
            rate,
            after.peer(outcome.peer_id).quality.throughput,
        ) && models_learn(kit, before, outcome.peer_id, rate, after)
}

/// An outcome of a registered peer counts once, settles one range, and is dated now, or when it ended
/// where that is later. A success teaches throughput, saturation and relays where bytes were moved and
/// time passed, latency where one was measured, and one success; a verification failure is a failure
/// that is counted apart and weighs three times; a cancellation by the host teaches nothing; every
/// other end is one failure. The dispatch it settles is forgotten. Nothing else changes.
pub proof fn outcomes_teach_what_was_measured(
    kit: &Doubles,
    before: SelectorState,
    outcome: TransferOutcome,
    now: u64,
    after: SelectorState,
)
    requires
        before.coherent(),
        before.knows(outcome.peer_id),
        before.records(kit, outcome, now, after),
    ensures
        after.knows(outcome.peer_id),
        ({
            let (a, b) = (after.peer(outcome.peer_id), before.peer(outcome.peer_id));
            &&& a == (Peer {
                quality: a.quality,
                last_outcome_at: a.last_outcome_at,
                in_flight_since: a.in_flight_since,
                ..b
            })
            &&& outcome.at >= now ==> a.last_outcome_at == Some(outcome.at)
            &&& outcome.at < now ==> a.last_outcome_at == Some(now)
            &&& b.quality.samples < u64::MAX ==> a.quality.samples == b.quality.samples + 1
            &&& b.quality.in_flight > 1 ==> a.quality.in_flight == b.quality.in_flight - 1
                && a.in_flight_since == b.in_flight_since
            &&& b.quality.in_flight <= 1 ==> a.quality.in_flight == 0 && a.in_flight_since is None
            &&& !(outcome.result is Success) || outcome.bytes == 0 || outcome.duration_ms == 0 ==> {
                &&& a.quality.throughput == b.quality.throughput
                &&& after.saturation == before.saturation
                &&& after.relay == before.relay
            }
            &&& outcome.result is Success && outcome.bytes > 0 && outcome.duration_ms > 0
                ==> throughput_learns(kit, before, outcome, after)
            &&& !(outcome.result is Success) || outcome.rtt_ms is None ==> a.quality.rtt
                == b.quality.rtt
            &&& outcome.result is Success && outcome.rtt_ms is Some ==> latency_learns(
                kit,
                b.quality,
                outcome.rtt_ms->0,
                a.quality,
            )
            &&& match outcome.result {
                OutcomeResult::Success => b.quality.reliability.steps(
                    kit,
                    true,
                    a.quality.reliability,
                ),
                OutcomeResult::Failure { reason: FailureReason::Cancelled } => a.quality.reliability
                    == b.quality.reliability,
                OutcomeResult::Failure { reason: FailureReason::VerificationFailed } =>
                    b.quality.reliability.hears(kit, false, true, a.quality.reliability) && (
                b.quality.reliability.hard_failures < u64::MAX
                    ==> a.quality.reliability.hard_failures == b.quality.reliability.hard_failures
                    + 1),
                _ => b.quality.reliability.steps(kit, false, a.quality.reliability),
            }
            &&& after == (SelectorState {
                peers: after.peers,
                saturation: after.saturation,
                relay: after.relay,
                dispatched: after.dispatched,
                ..before
            })
            &&& after.dispatched == before.dispatched.remove(outcome.peer_id)
        }),
        forall|id: PeerId|
            id != outcome.peer_id && before.knows(id) ==> after.knows(id) && #[trigger] after.peer(
                id,
            ) == before.peer(id),
        forall|id: PeerId| #[trigger] after.knows(id) ==> before.knows(id),
{
    let id = outcome.peer_id;
    let rate = choose|rate: Option<Measure>|
        outcome.is_rate(kit, rate) && #[trigger] before.folds(kit, outcome, rate, now, after);
    lemma_folded(kit, before, outcome, rate, now, after);
}

proof fn lemma_folded(
    kit: &Doubles,
    before: SelectorState,
    outcome: TransferOutcome,
    rate: Option<Measure>,
    now: u64,
    after: SelectorState,
)
    requires
        before.coherent(),
        before.knows(outcome.peer_id),
        outcome.is_rate(kit, rate),
        before.folds(kit, outcome, rate, now, after),
    ensures
        after.knows(outcome.peer_id),
        after.coherent(),
        ({
            let (a, b) = (after.peer(outcome.peer_id), before.peer(outcome.peer_id));
            &&& absorbs(
                kit,
                b.quality,
                outcome,
                rate,
                (PeerQuality { in_flight: b.quality.in_flight, ..a.quality }),
            )
            &&& a == (Peer {
                quality: a.quality,
                last_outcome_at: a.last_outcome_at,
                in_flight_since: a.in_flight_since,
                ..b
            })
            &&& outcome.at >= now ==> a.last_outcome_at == Some(outcome.at)
            &&& outcome.at < now ==> a.last_outcome_at == Some(now)
            &&& b.quality.in_flight > 1 ==> a.quality.in_flight == b.quality.in_flight - 1
                && a.in_flight_since == b.in_flight_since
            &&& b.quality.in_flight <= 1 ==> a.quality.in_flight == 0 && a.in_flight_since is None
            &&& outcome.result is Success && outcome.bytes > 0 && outcome.duration_ms > 0
                ==> throughput_learns(kit, before, outcome, after)
            &&& outcome.result is Success && outcome.rtt_ms is Some ==> latency_learns(
                kit,
                b.quality,
                outcome.rtt_ms->0,
                a.quality,
            )
        }),
        forall|id: PeerId|
            id != outcome.peer_id && before.knows(id) ==> after.knows(id) && #[trigger] after.peer(
                id,
            ) == before.peer(id),
        forall|id: PeerId| #[trigger] after.knows(id) ==> before.knows(id),
{
    let id = outcome.peer_id;
    let at = if outcome.at < now {
        now
    } else {
        outcome.at
    };
    let b = before.peer(id);
    let quality = choose|quality: PeerQuality| #[trigger]
        absorbs(kit, b.quality, outcome, rate, quality) && after.peers == replaced(
            before.peers,
            b.taught(quality, Some(at)).relieved(1),
        );
    lemma_known_stamped(before, id);
    let told = b.taught(quality, Some(at)).relieved(1);
    lemma_replaced_coherent(before, told);
    let with = before.with_peer(told);
    assert(with.peers == after.peers);
    assert forall|other: PeerId| #[trigger] after.knows(other) <==> before.knows(other) by {
        assert(with.knows(other) <==> before.knows(other));
    }
    assert forall|other: PeerId| other != id && before.knows(other) implies after.knows(other)
        && #[trigger] after.peer(other) == before.peer(other) by {
        assert(with.peer(other) == before.peer(other));
        assert(after.knows(other) <==> before.knows(other));
    }
    assert(after.peer(id) == told) by {
        assert(with.peer(id) == told);
    }
    assert(PeerQuality { in_flight: b.quality.in_flight, ..after.peer(id).quality } == quality);
    assert(after.saturation.wf() ==> after.coherent()) by {
        assert(with.coherent());
        assert forall|other: PeerId| #[trigger] after.dispatched.contains_key(other) implies after.knows(
            other,
        ) by {
            assert(before.dispatched.contains_key(other));
            assert(before.knows(other));
        }
        assert forall|other: PeerId| #[trigger] after.last_selected.contains_key(
            other,
        ) implies after.knows(other) by {
            assert(before.last_selected.contains_key(other));
            assert(before.knows(other));
        }
    }
    if outcome.result is Success {
        if rate is Some {
            rates_are_bytes_over_time(kit, outcome, rate);
            assert(before.attribution(id).class == if before.dispatched.contains_key(id) {
                before.dispatched[id].class
            } else {
                class_over(b.connection_class)
            });
            assert(measured_at(outcome, rate->0));
            assert(b.quality.throughput.folds(kit, rate->0, after.peer(id).quality.throughput));
        }
        if let Some(ms) = outcome.rtt_ms {
            let latency = choose|latency: Measure|
                Formula::Count(ms).gives(kit, latency) && #[trigger] b.quality.rtt.folds(
                    kit,
                    latency,
                    quality.rtt,
                );
            lemma_count_number(ms, latency);
            assert(b.quality.rtt.folds(kit, latency, after.peer(id).quality.rtt));
        }
    }
    assert(after.saturation.wf()) by {
        lemma_models_wf(kit, before, outcome, rate, now, after);
    }
}

proof fn lemma_models_wf(
    kit: &Doubles,
    before: SelectorState,
    outcome: TransferOutcome,
    rate: Option<Measure>,
    now: u64,
    after: SelectorState,
)
    requires
        before.coherent(),
        before.folds(kit, outcome, rate, now, after),
    ensures
        after.saturation.wf(),
{
    if outcome.result is Success && rate is Some {
        saturation_points_stay_in_range(
            kit,
            before.saturation,
            before.attribution(outcome.peer_id).class,
            before.attribution(outcome.peer_id).in_flight_at_dispatch,
            rate->0,
            after.saturation,
        );
    }
}

/// Nothing is noted of a newcomer.
proof fn lemma_nothing_noted(
    kit: &Doubles,
    before: SelectorState,
    newcomer: Peer,
    now: u64,
    after: SelectorState,
)
    requires
        before.coherent(),
        !before.knows(newcomer.peer_id),
        before.takes_in(kit, newcomer, now, after),
    ensures
        !after.dispatched.contains_key(newcomer.peer_id),
{
    if after.dispatched.contains_key(newcomer.peer_id) {
        assert(before.dispatched.contains_key(newcomer.peer_id));
    }
}

/// Whether models learned of a transfer of a peer that nobody told of: on a path not known, with one
/// range at most in flight.
pub open spec fn strangers_teach(
    kit: &Doubles,
    before: SelectorState,
    outcome: TransferOutcome,
    after: SelectorState,
) -> bool {
    exists|rate: Measure, load: u32|
        measured_at(outcome, rate) && load <= 1 && #[trigger] before.saturation.learns(
            kit,
            PeerClass::Unknown,
            load,
            rate,
            after.saturation,
        ) && before.relay.learns(kit, false, rate, after.relay)
}

/// An outcome of a peer that nobody told of registers it, by the strongest evidence, not connected and
/// not banned; its first measured throughput is what was measured.
pub proof fn outcomes_register_strangers(
    kit: &Doubles,
    before: SelectorState,
    outcome: TransferOutcome,
    now: u64,
    after: SelectorState,
)
    requires
        before.coherent(),
        !before.knows(outcome.peer_id),
        before.records(kit, outcome, now, after),
    ensures
        before.peers.len() < before.bound ==> after.knows(outcome.peer_id),
        after.knows(outcome.peer_id) ==> {
            let a = after.peer(outcome.peer_id);
            &&& a.quality.samples == 1
            &&& a.quality.in_flight == 0
            &&& a.in_flight_since is None
            &&& !a.connected
            &&& !a.banned
            &&& a.provenance == Provenance::Nat
            &&& a.addresses.len() == 0
            &&& a.connection_class is None
            &&& a.first_seen == now
            &&& a.last_outcome_at == Some(
                if outcome.at < now {
                    now
                } else {
                    outcome.at
                },
            )
            &&& outcome.result is Success && outcome.bytes > 0 && outcome.duration_ms > 0
                ==> a.quality.throughput.samples == 1 && a.quality.throughput.mean is Some
                && measured_at(outcome, a.quality.throughput.mean->0)
            &&& !(outcome.result is Success) ==> a.quality.throughput.mean is None
                && a.quality.rtt.mean is None
        },
        outcome.result is Success && outcome.bytes > 0 && outcome.duration_ms > 0
            ==> strangers_teach(kit, before, outcome, after),
        !(outcome.result is Success) || outcome.bytes == 0 || outcome.duration_ms == 0
            ==> after.saturation == before.saturation && after.relay == before.relay,
        forall|id: PeerId|
            id != outcome.peer_id ==> #[trigger] left_alone(before, after, id, now),
{
    let id = outcome.peer_id;
    let newcomer = Peer::fresh(id, Provenance::Nat, now).with_even_odds();
    let (mid, rate) = choose|mid: SelectorState, rate: Option<Measure>|
        (if before.knows(outcome.peer_id) {
            mid == before
        } else {
            before.takes_in(
                kit,
                Peer::fresh(outcome.peer_id, Provenance::Nat, now).with_even_odds(),
                now,
                mid,
            )
        }) && outcome.is_rate(kit, rate) && #[trigger] mid.folds(kit, outcome, rate, now, after);
    lemma_newcomer(kit, before, newcomer, now, mid);
    rates_are_bytes_over_time(kit, outcome, rate);
    assert(!mid.dispatched.contains_key(id)) by {
        lemma_nothing_noted(kit, before, newcomer, now, mid);
    }
    if mid.knows(id) {
        lemma_folded(kit, mid, outcome, rate, now, after);
    } else {
        assert(after.peers == mid.peers);
    }
    if outcome.result is Success && rate is Some {
        let load = mid.attribution(id).in_flight_at_dispatch;
        assert(before.saturation.learns(kit, PeerClass::Unknown, load, rate->0, after.saturation));
    }
    assert forall|other: PeerId| other != id implies #[trigger] left_alone(
        before,
        after,
        other,
        now,
    ) by {
        assert(left_alone(before, mid, other, now));
        if mid.knows(id) {
            assert(after.knows(other) ==> mid.knows(other));
            if mid.knows(other) {
                assert(after.peer(other) == mid.peer(other));
            }
        }
    }
}

} // verus!
