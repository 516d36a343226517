//! What the calls of a host do, in terms of what it hands in and gets back.

use dig_dht::ContentId;
use vstd::prelude::*;

use crate::address::TraversalKind;
use crate::choice_laws::{
    rebalancing_asks_no_more_than_needed, rebalancing_asks_one_less_of_the_active,
};
use crate::closeness::{around, dust, number, slip};
use crate::doubles::{is_number, Doubles};
use crate::engine::PeerSelector;
use crate::engine_laws::selecting_teaches_nothing;
use crate::event_laws::{
    candidates_bring_their_addresses, dispatches_add_up, joining_connects, last_word,
    leaving_disconnects, only_idle_peers_are_removed, reported_paths_are_kept,
    selections_keep_the_addresses_told,
};
use crate::identity::PeerId;
use crate::measure::{Arithmetic, Measure, ZERO};
use crate::outcome_laws::{latency_learns, outcomes_teach_what_was_measured, throughput_learns};
use crate::pool_event::PoolEvent;
use crate::rate_laws::rates_are_bytes_over_time;
use crate::registry::PeerEntry;
use crate::saturation_laws::{
    clearly_worse_throughput_pulls_the_point_down, concurrency, transfers_move_their_own_class,
};
use crate::scoring::{score_peer, PeerClass, RelayModel, SaturationModel, ScoredPeer};
use crate::types::{
    Candidate, ContentRequest, FailureReason, OutcomeResult, Provenance, RangePlanDelta, Selection,
    TransferOutcome,
};
use crate::worth_laws::{
    finite, measured_in_numbers, never_failing, number_or,
    scores_are_proportional_to_the_success_rate,
};

verus! {

/// A new request asks for as many sources as it is told, and for one where it is told none.
pub proof fn new_requests_ask_for_a_source(content: ContentId, parallelism: usize, r: ContentRequest)
    requires
        call_ensures(ContentRequest::new, (content, parallelism), r),
    ensures
        r.content == content,
        parallelism >= 1 ==> r.parallelism == parallelism,
        parallelism == 0 ==> r.parallelism == 1,
        r.total_length is None,
        r.range_count is None,
{
}

/// A call for the throughput of a transfer gives one where bytes were moved and time passed, and that
/// times the milliseconds is the bytes times a thousand, up to rounding.
pub proof fn measuring_a_transfer_divides_bytes_by_time(
    kit: &Doubles,
    outcome: &TransferOutcome,
    r: Option<Measure>,
)
    requires
        call_ensures(TransferOutcome::throughput_bps::<Doubles>, (outcome, kit), r),
    ensures
        r is Some <==> outcome.bytes > 0 && outcome.duration_ms > 0,
        r matches Some(rate) ==> around(
            number(rate) * (outcome.duration_ms as real),
            1000real * (outcome.bytes as real),
            (12real * slip()) * (1000real * (outcome.bytes as real)),
        ),
{
    rates_are_bytes_over_time(kit, *outcome, r);
}

/// Of two calls that judge measured peers, alike but that one never fails, the other gives no more
/// than the success rate of its peer times what the one gives, up to rounding, and nothing where the
/// rate is zero.
pub proof fn judging_is_proportional_to_the_success_rate(
    kit: &Doubles,
    entry: &PeerEntry,
    perfect: &PeerEntry,
    saturation: &SaturationModel,
    relay: &RelayModel,
    bonus: Measure,
    rate: Measure,
    r: ScoredPeer,
    best: ScoredPeer,
)
    requires
        call_ensures(score_peer::<Doubles>, (entry, saturation, relay, bonus, kit), r),
        call_ensures(score_peer::<Doubles>, (perfect, saturation, relay, bonus, kit), best),
        perfect@ == never_failing(entry@),
        entry.quality.samples > 0,
        entry.quality.reliability.rate == Some(rate),
        measured_in_numbers(entry.quality),
        finite(relay.relayed_mean),
        finite(relay.direct_mean),
        saturation.wf(),
    ensures
        best.effective_score >= 0,
        r.effective_score >= 0 ==> number(Measure { bits: r.effective_score as u64 }) <= number(rate)
            * number(Measure { bits: best.effective_score as u64 }) + 100real * (slip() * (number_or(
            entry.quality.throughput.mean,
            0real,
        ) * number(rate)) + dust()),
        number(rate) == 0real ==> r.effective_score <= 0,
{
    scores_are_proportional_to_the_success_rate(
        kit,
        entry@,
        *saturation,
        *relay,
        bonus,
        r,
        best,
        rate,
    );
}

/// A call that rebalances chooses no more peers than ranges need a source, or one where none does, and
/// no more than the request asks for; each is registered and not banned, and asked for no more ranges
/// than its path has to spare, but one at least.
pub proof fn rebalancing_answers_the_need(
    selector: &mut PeerSelector<Doubles>,
    req: &ContentRequest,
    active: &[PeerId],
    need: &RangePlanDelta,
    r: Selection,
)
    requires
        old(selector).wf(),
        old(selector)@.peers.len() <= usize::MAX,
        call_ensures(PeerSelector::<Doubles>::rebalance, (selector, req, active, need), r),
    ensures
        need.needed_ranges@.len() >= 1 ==> r.peers@.len() <= need.needed_ranges@.len(),
        need.needed_ranges@.len() == 0 ==> r.peers@.len() <= 1,
        req.parallelism >= 1 ==> r.peers@.len() <= req.parallelism,
        req.parallelism == 0 ==> r.peers@.len() <= 1,
        r.peers@.len() == 0 <==> forall|id: PeerId| #[trigger]
            old(selector)@.knows(id) ==> old(selector)@.peer(id).banned,
        forall|k: int|
            0 <= k < r.peers@.len() ==> old(selector)@.knows((#[trigger] r.peers@[k]).peer_id)
                && !old(selector)@.peer(r.peers@[k].peer_id).banned && r.peers@[k].max_concurrency
                >= 1,
{
    let before = old(selector)@;
    let after = final(selector)@;
    let kit = old(selector).kit();
    let needed = need.needed_ranges@.len();
    let now = choose|now: u64| #[trigger]
        before.clock.reads(now) && before.rebalances(
            kit,
            active@,
            req.wanted(),
            needed,
            now,
            r.peers@,
            after,
        );
    rebalancing_asks_no_more_than_needed(
        kit,
        before,
        active@,
        req.wanted(),
        needed,
        now,
        r.peers@,
        after,
    );
    assert forall|k: int| 0 <= k < r.peers@.len() implies before.knows((#[trigger] r.peers@[k]).peer_id)
        && !before.peer(r.peers@[k].peer_id).banned && r.peers@[k].max_concurrency >= 1 by {
        rebalancing_asks_one_less_of_the_active(
            kit,
            before,
            active@,
            req.wanted(),
            needed,
            now,
            r.peers@,
            after,
            k,
        );
    }
}

/// A call that selects chooses no more peers than the request asks for, each of them a candidate that
/// is registered and not banned. Afterwards the addresses of a registered peer are those of the last
/// candidate that told of it, if it told of any.
pub proof fn selecting_answers_the_request(
    selector: &mut PeerSelector<Doubles>,
    req: &ContentRequest,
    candidates: &[Candidate],
    r: Selection,
    j: int,
)
    requires
        old(selector).wf(),
        candidates@.len() <= usize::MAX,
        call_ensures(PeerSelector::<Doubles>::select, (selector, req, candidates), r),
        last_word(candidates@, j),
    ensures
        req.parallelism >= 1 ==> r.peers@.len() <= req.parallelism,
        req.parallelism == 0 ==> r.peers@.len() <= 1,
        forall|k: int|
            0 <= k < r.peers@.len() ==> final(selector)@.knows((#[trigger] r.peers@[k]).peer_id)
                && !final(selector)@.peer(r.peers@[k].peer_id).banned && exists|i: int|
                0 <= i < candidates@.len() && (#[trigger] candidates@[i]).peer_id
                    == r.peers@[k].peer_id,
        final(selector)@.knows(candidates@[j].peer_id) && candidates@[j].addresses@.len() > 0
            ==> final(selector)@.peer(candidates@[j].peer_id).addresses == candidates@[j].addresses@,
{
    let before = old(selector)@;
    let after = final(selector)@;
    let kit = old(selector).kit();
    let now = choose|now: u64| #[trigger]
        before.clock.reads(now) && before.selects(
            kit,
            candidates@,
            req.wanted(),
            now,
            r.peers@,
            after,
        );
    selecting_teaches_nothing(kit, before, candidates@, req.wanted(), now, r.peers@, after);
    assert forall|k: int| 0 <= k < r.peers@.len() implies after.knows((#[trigger] r.peers@[k]).peer_id)
        && !after.peer(r.peers@[k].peer_id).banned && exists|i: int|
        0 <= i < candidates@.len() && (#[trigger] candidates@[i]).peer_id == r.peers@[k].peer_id by {}
    if after.knows(candidates@[j].peer_id) {
        selections_keep_the_addresses_told(
            kit,
            before,
            candidates@,
            req.wanted(),
            now,
            r.peers@,
            after,
            j,
        );
    }
}

/// A call that takes a candidate in leaves its peer, while it is registered, with exactly the addresses
/// of the candidate, if it has any, and else with those it had.
pub proof fn upserting_takes_the_addresses(
    selector: &mut PeerSelector<Doubles>,
    candidate: &Candidate,
)
    requires
        old(selector).wf(),
        call_ensures(PeerSelector::<Doubles>::upsert_candidate, (selector, candidate), ()),
    ensures
        old(selector)@.knows(candidate.peer_id) ==> final(selector)@.knows(candidate.peer_id),
        final(selector)@.knows(candidate.peer_id) ==> {
            let peer = final(selector)@.peer(candidate.peer_id);
            &&& candidate.addresses@.len() > 0 ==> peer.addresses == candidate.addresses@
            &&& candidate.addresses@.len() == 0 ==> peer.addresses == (if old(selector)@.knows(
                candidate.peer_id,
            ) {
                old(selector)@.peer(candidate.peer_id).addresses
            } else {
                Seq::empty()
            })
            &&& candidate.class is Some ==> peer.connection_class == candidate.class
        },
{
    let before = old(selector)@;
    let after = final(selector)@;
    let kit = old(selector).kit();
    let now = choose|now: u64| #[trigger]
        before.clock.reads(now) && before.upserts(kit, *candidate, Provenance::Manual, now, after);
    candidates_bring_their_addresses(kit, before, *candidate, Provenance::Manual, now, after);
}

/// A call that records an outcome of a registered peer counts it once and settles one range. What was
/// measured is learned on a success, and nothing on a cancellation by the host.
pub proof fn recording_teaches_what_was_measured(
    selector: &mut PeerSelector<Doubles>,
    outcome: &TransferOutcome,
)
    requires
        old(selector).wf(),
        old(selector)@.knows(outcome.peer_id),
        call_ensures(PeerSelector::<Doubles>::record_outcome, (selector, outcome), ()),
    ensures
        final(selector)@.knows(outcome.peer_id),
        ({
            let (before, after) = (old(selector)@, final(selector)@);
            let (b, a) = (
                before.peer(outcome.peer_id).quality,
                after.peer(outcome.peer_id).quality,
            );
            &&& b.samples < u64::MAX ==> a.samples == b.samples + 1
            &&& b.in_flight > 0 ==> a.in_flight == b.in_flight - 1
            &&& b.in_flight == 0 ==> a.in_flight == 0
            &&& outcome.result is Success && outcome.bytes > 0 && outcome.duration_ms > 0
                ==> throughput_learns(old(selector).kit(), before, *outcome, after)
            &&& outcome.result is Success && outcome.rtt_ms is Some ==> latency_learns(
                old(selector).kit(),
                b,
                outcome.rtt_ms->0,
                a,
            )
            &&& !(outcome.result is Success) ==> a.throughput == b.throughput && a.rtt == b.rtt
                && after.saturation == before.saturation && after.relay == before.relay
            &&& outcome.result == (OutcomeResult::Failure { reason: FailureReason::Cancelled })
                ==> a.reliability == b.reliability
            &&& outcome.result == (OutcomeResult::Failure {
                reason: FailureReason::VerificationFailed,
            }) && b.reliability.hard_failures < u64::MAX ==> a.reliability.hard_failures
                == b.reliability.hard_failures + 1
            &&& outcome.result is Success ==> a.reliability.hard_failures
                == b.reliability.hard_failures
        }),
{
    let before = old(selector)@;
    let after = final(selector)@;
    let kit = old(selector).kit();
    let now = choose|now: u64| #[trigger]
        before.clock.reads(now) && before.records(kit, *outcome, now, after);
    outcomes_teach_what_was_measured(kit, before, *outcome, now, after);
}

/// A call that tells of the pool connects whoever joined and lifts its ban; it disconnects whoever left
/// and bans it where it left for that.
pub proof fn the_pool_decides_who_is_connected(
    selector: &mut PeerSelector<Doubles>,
    event: &PoolEvent,
)
    requires
        old(selector).wf(),
        call_ensures(PeerSelector::<Doubles>::on_pool_event, (selector, event), ()),
    ensures
        event matches PoolEvent::PeerAdded { peer_id, .. } ==> final(selector)@.knows(*peer_id)
            && final(selector)@.peer(*peer_id).connected && !final(selector)@.peer(*peer_id).banned,
        event matches PoolEvent::PeerRemoved { peer_id, reason } ==> (old(selector)@.knows(*peer_id)
            ==> final(selector)@.knows(*peer_id) && !final(selector)@.peer(*peer_id).connected && (
        final(selector)@.peer(*peer_id).banned <==> old(selector)@.peer(*peer_id).banned
            || *reason is Banned)),
{
    let before = old(selector)@;
    let after = final(selector)@;
    let kit = old(selector).kit();
    let now = choose|now: u64| #[trigger]
        before.clock.reads(now) && before.hears(kit, *event, now, after);
    if *event is PeerAdded {
        joining_connects(kit, before, *event, now, after);
    } else {
        leaving_disconnects(kit, before, *event, now, after);
        let id = (*event)->PeerRemoved_peer_id;
        assert(after.knows(id) <==> before.knows(id));
    }
}

/// A call that reports the path of a link leaves the peer, while it is registered, on that path.
pub proof fn the_reported_path_is_taken(
    selector: &mut PeerSelector<Doubles>,
    peer: &PeerId,
    class: TraversalKind,
)
    requires
        old(selector).wf(),
        call_ensures(PeerSelector::<Doubles>::on_connection_class, (selector, peer, class), ()),
    ensures
        old(selector)@.knows(*peer) ==> final(selector)@.knows(*peer),
        final(selector)@.knows(*peer) ==> final(selector)@.peer(*peer).connection_class == Some(class)
            && final(selector)@.peer(*peer).provenance == Provenance::Nat,
{
    let before = old(selector)@;
    let after = final(selector)@;
    let kit = old(selector).kit();
    let now = choose|now: u64| #[trigger]
        before.clock.reads(now) && before.classes(kit, *peer, class, now, after);
    reported_paths_are_kept(kit, before, *peer, class, now, after);
}

/// A call that removes a peer forgets it unless it has ranges in flight.
pub proof fn removing_spares_the_busy(selector: &mut PeerSelector<Doubles>, peer: &PeerId)
    requires
        old(selector).wf(),
        call_ensures(PeerSelector::<Doubles>::remove_peer, (selector, peer), ()),
    ensures
        final(selector)@.knows(*peer) <==> old(selector)@.knows(*peer) && old(selector)@.peer(
            *peer,
        ).quality.in_flight > 0,
        forall|other: PeerId|
            other != *peer ==> (#[trigger] final(selector)@.knows(other) <==> old(selector)@.knows(
                other,
            )),
{
    let before = old(selector)@;
    only_idle_peers_are_removed(before, *peer);
    assert forall|other: PeerId| other != *peer implies (#[trigger] final(selector)@.knows(other)
        <==> old(selector)@.knows(other)) by {
        assert(before.removed(*peer).knows(other) <==> before.knows(other));
    }
}

/// A call that notes a dispatch adds its ranges to those in flight, as far as they can be counted.
pub proof fn dispatching_adds_to_the_load(
    selector: &mut PeerSelector<Doubles>,
    peer: &PeerId,
    count: u32,
)
    requires
        old(selector).wf(),
        old(selector)@.knows(*peer),
        old(selector)@.peer(*peer).quality.in_flight + count <= u32::MAX,
        call_ensures(PeerSelector::<Doubles>::on_dispatch, (selector, peer, count), ()),
    ensures
        final(selector)@.knows(*peer),
        final(selector)@.peer(*peer).quality.in_flight == old(selector)@.peer(
            *peer,
        ).quality.in_flight + count,
{
    let before = old(selector)@;
    let now = choose|now: u64| #[trigger]
        before.clock.reads(now) && final(selector)@ == before.loaded(*peer, count, now);
    dispatches_add_up(before, *peer, count, now);
    assert(before.loaded(*peer, count, now).knows(*peer) <==> before.knows(*peer));
}

/// A call that folds a transfer in which was clearly slower than the best, at a concurrency above that
/// of the best, pulls the point of its class down towards that concurrency: by a tenth of the distance
/// at least, up to rounding.
pub proof fn observing_a_worse_transfer_pulls_the_point_down(
    kit: &Doubles,
    model: &mut SaturationModel,
    in_flight: u32,
    throughput: Measure,
)
    requires
        old(model).wf(),
        call_ensures(
            SaturationModel::observe::<Doubles>,
            (model, PeerClass::DirectPath, in_flight, throughput, kit),
            (),
        ),
        old(model).direct.best_concurrency >= 1,
        is_number(old(model).direct.best_throughput),
        throughput.bits > ZERO,
        number(throughput) < (4real / 5real) * number(old(model).direct.best_throughput) - 4real * (
        slip() * number(old(model).direct.best_throughput) + dust()),
        concurrency(in_flight) > old(model).direct.best_concurrency,
        number(old(model).direct.point) > old(model).direct.best_concurrency as real,
        old(model).direct.samples < u64::MAX,
    ensures
        ({
            let (p, b) = (
                number(old(model).direct.point),
                old(model).direct.best_concurrency as real,
            );
            &&& number(final(model).direct.point) <= p - (p - b) / 10real + 2800real * slip()
            &&& number(final(model).direct.point) >= b - 2800real * slip()
            &&& p - b > 28000real * slip() ==> number(final(model).direct.point) < p
        }),
        final(model).relayed == old(model).relayed,
        final(model).unknown == old(model).unknown,
{
    transfers_move_their_own_class(
        kit,
        *old(model),
        PeerClass::DirectPath,
        in_flight,
        throughput,
        *final(model),
    );
    clearly_worse_throughput_pulls_the_point_down(
        kit,
        old(model).direct,
        in_flight,
        throughput,
        final(model).direct,
    );
}

} // verus!
