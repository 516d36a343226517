//! What the smaller calls answer, in terms of what they are asked.

use vstd::prelude::*;

use crate::address::TraversalKind;
use crate::closeness::{around, dust, number, slip};
use crate::config::{ClockSource, SelectorConfig};
use crate::doubles::Doubles;
use crate::identity::PeerId;
use crate::measure::{Arithmetic, Measure, ONE};
use crate::moving_laws::{
    moderate, moved, results_move_rates_by_their_share, samples_move_estimates_by_their_share,
    share_of_result, share_of_sample,
};
use crate::quality::{Estimate, PeerQuality, Reliability};
use crate::registry::{known, place, registered, FeedResult, Registry};
use crate::scoring::PeerClass;
use crate::types::{
    Candidate, FailureReason, OutcomeResult, Provenance, RangePlanDelta, SelectedPeer, Selection,
    TransferOutcome,
};
use crate::worth_laws::trust_is_a_share_of_four_more;

verus! {

/// Taking a candidate in tells whether its peer was registered already.
pub proof fn taking_in_tells_newcomers_apart(
    registry: &mut Registry,
    candidate: &Candidate,
    provenance: Provenance,
    now: u64,
    kit: &Doubles,
    r: FeedResult,
)
    requires
        old(registry).wf(),
        call_ensures(
            Registry::upsert_candidate::<Doubles>,
            (registry, candidate, provenance, now, kit),
            r,
        ),
    ensures
        r is Updated <==> registered(old(registry).peers(), candidate.peer_id),
        r is Inserted <==> !registered(old(registry).peers(), candidate.peer_id),
{
}

/// Marking a peer as connected tells whether it was registered already.
pub proof fn connecting_tells_newcomers_apart(
    registry: &mut Registry,
    peer: PeerId,
    provenance: Provenance,
    now: u64,
    kit: &Doubles,
    r: FeedResult,
)
    requires
        old(registry).wf(),
        call_ensures(
            Registry::mark_connected::<Doubles>,
            (registry, peer, provenance, now, kit),
            r,
        ),
    ensures
        r is Updated <==> registered(old(registry).peers(), peer),
        r is Inserted <==> !registered(old(registry).peers(), peer),
{
}

/// Setting the path of a link tells whether the peer was registered already.
pub proof fn routing_tells_newcomers_apart(
    registry: &mut Registry,
    peer: PeerId,
    class: TraversalKind,
    now: u64,
    kit: &Doubles,
    r: FeedResult,
)
    requires
        old(registry).wf(),
        call_ensures(
            Registry::set_connection_class::<Doubles>,
            (registry, peer, class, now, kit),
            r,
        ),
    ensures
        r is Updated <==> registered(old(registry).peers(), peer),
        r is Inserted <==> !registered(old(registry).peers(), peer),
{
}

/// Marking a peer as disconnected tells whether there is such a peer.
pub proof fn disconnecting_tells_strangers_apart(
    registry: &mut Registry,
    peer: &PeerId,
    banned: bool,
    r: FeedResult,
)
    requires
        old(registry).wf(),
        call_ensures(Registry::mark_disconnected, (registry, peer, banned), r),
    ensures
        r is MarkedDisconnected <==> registered(old(registry).peers(), *peer),
        r is Absent <==> !registered(old(registry).peers(), *peer),
{
}

/// Removing a peer tells whether there is such a peer, and whether it is busy and so stays.
pub proof fn removing_tells_the_busy_apart(registry: &mut Registry, peer: &PeerId, r: FeedResult)
    requires
        old(registry).wf(),
        call_ensures(Registry::remove, (registry, peer), r),
    ensures
        r is Absent <==> !registered(old(registry).peers(), *peer),
        registered(old(registry).peers(), *peer) ==> (r is Updated <==> known(
            old(registry).peers(),
            *peer,
        ).quality.in_flight > 0),
        r is Updated ==> final(registry).peers() == old(registry).peers(),
        r is MarkedDisconnected ==> final(registry).peers().len() + 1 == old(
            registry,
        ).peers().len(),
{
    if registered(old(registry).peers(), *peer) {
        let p = place(old(registry).peers(), *peer);
        assert(0 <= p < old(registry).peers().len());
    }
}

/// A registry holds at least one peer, and as many as it is told otherwise; it starts empty.
pub proof fn registries_start_empty(capacity: usize, r: Registry)
    requires
        call_ensures(Registry::new, (capacity,), r),
    ensures
        r.peers().len() == 0,
        capacity >= 1 ==> r.bound() == capacity,
        capacity == 0 ==> r.bound() == 1,
        r.departed().len() == 0,
{
}

/// The best of a selection is the first of it, if there is any.
pub proof fn the_best_is_the_first(selection: &Selection, r: Option<&SelectedPeer>)
    requires
        call_ensures(Selection::best, (selection,), r),
    ensures
        r is None <==> selection.peers@.len() == 0,
        r matches Some(best) ==> *best == selection.peers@[0],
{
}

/// Only bytes that did not verify are a hard failure, and only a cancellation by the host is not the
/// fault of the peer.
pub proof fn failures_are_told_apart(reason: FailureReason, hard: bool, blames: bool)
    requires
        call_ensures(FailureReason::is_hard, (reason,), hard),
        call_ensures(FailureReason::blames_peer, (reason,), blames),
    ensures
        hard <==> reason is VerificationFailed,
        !blames <==> reason is Cancelled,
        hard ==> blames,
{
}

/// A transfer is a success where it ended as one, and a hard failure where its bytes did not verify;
/// never both.
pub proof fn ends_are_told_apart(outcome: &TransferOutcome, success: bool, hard: bool)
    requires
        call_ensures(TransferOutcome::is_success, (outcome,), success),
        call_ensures(TransferOutcome::is_hard_failure, (outcome,), hard),
    ensures
        success <==> outcome.result is Success,
        hard <==> (outcome.result matches OutcomeResult::Failure { reason } && reason
            is VerificationFailed),
        !(success && hard),
{
}

/// Only a relayed path is of the class of relayed paths; every other known path is direct.
pub proof fn paths_are_classed(path: Option<TraversalKind>, r: PeerClass, relayed: bool)
    requires
        call_ensures(PeerClass::of, (path,), r),
        call_ensures(PeerClass::is_relayed, (r,), relayed),
    ensures
        relayed <==> path == Some(TraversalKind::Relayed),
        r is Unknown <==> path is None,
        r is DirectPath <==> path is Some && !relayed,
{
}

/// A plan of so many ranges needs a source for each of them, in order.
pub proof fn plans_need_every_range(count: usize, r: RangePlanDelta, needed: usize)
    requires
        call_ensures(RangePlanDelta::of_count, (count,), r),
        call_ensures(RangePlanDelta::len, (&r,), needed),
    ensures
        needed == count,
        forall|i: int| 0 <= i < count ==> #[trigger] r.needed_ranges@[i] == i,
{
}

/// A manual clock that is moved forward is later by so much, unless it comes around the end of its
/// range; the machine's clock does not heed it.
pub proof fn manual_clocks_obey(clock: &mut ClockSource, secs: u64)
    requires
        call_ensures(ClockSource::advance, (clock, secs), ()),
    ensures
        *old(clock) is System ==> *final(clock) is System,
        *old(clock) matches ClockSource::Manual(time) ==> {
            &&& *final(clock) is Manual
            &&& time + secs <= u64::MAX ==> *final(clock) == ClockSource::Manual((time + secs) as u64)
        },
{
}

/// A manual clock that is set shows what it was set to; the machine's clock does not.
pub proof fn manual_clocks_can_be_set(clock: &mut ClockSource, secs: u64)
    requires
        call_ensures(ClockSource::set, (clock, secs), ()),
    ensures
        *old(clock) is System ==> *final(clock) is System,
        *old(clock) is Manual ==> *final(clock) == ClockSource::Manual(secs),
{
}

/// A manual clock shows the time it was given.
pub proof fn manual_clocks_stand_still(start: u64, clock: ClockSource, now: u64)
    requires
        call_ensures(ClockSource::manual, (start,), clock),
        call_ensures(ClockSource::now, (&clock,), now),
    ensures
        now == start,
{
}

/// A deterministic wiring has a manual clock and the seed it was given.
pub proof fn deterministic_wirings_repeat(start: u64, seed: u64, r: SelectorConfig, used: u64)
    requires
        call_ensures(SelectorConfig::deterministic, (start, seed), r),
        call_ensures(SelectorConfig::effective_seed, (&r,), used),
    ensures
        r.clock == ClockSource::Manual(start),
        used == seed,
{
}

/// The success rate is told once a result was measured, and never before.
pub proof fn rates_are_told_once_measured(reliability: &Reliability, r: Option<Measure>)
    requires
        call_ensures(Reliability::rate, (reliability,), r),
    ensures
        reliability.samples == 0 ==> r is None,
        reliability.samples > 0 ==> r == reliability.rate,
{
}

/// The confidence in a peer is the share that its outcomes are of four more, up to rounding.
pub proof fn confidence_grows_with_outcomes(quality: &PeerQuality, kit: &Doubles, r: Measure)
    requires
        call_ensures(PeerQuality::confidence::<Doubles>, (quality, kit), r),
    ensures
        around(
            number(r),
            (quality.samples as real) / (quality.samples as real + 4real),
            9real * slip(),
        ),
{
    trust_is_a_share_of_four_more(kit, quality.samples, r);
}

/// Observing a sample moves the mean by the share of the sample towards it, up to rounding; the first
/// one is the mean.
pub proof fn observing_moves_the_mean(estimate: &mut Estimate, sample: Measure, kit: &Doubles)
    requires
        call_ensures(Estimate::observe::<Doubles>, (estimate, sample, kit), ()),
        old(estimate).mean matches Some(mean) ==> moderate(mean),
        moderate(old(estimate).mad),
        moderate(sample),
    ensures
        old(estimate).mean is None ==> final(estimate).mean == Some(sample),
        old(estimate).mean matches Some(mean) ==> final(estimate).mean is Some && around(
            number(final(estimate).mean->0),
            moved(number(mean), number(sample), share_of_sample(*old(estimate))),
            21real * (slip() * (number(mean) + number(sample)) + 2real * dust()),
        ),
        old(estimate).samples < u64::MAX ==> final(estimate).samples == old(estimate).samples + 1,
{
    samples_move_estimates_by_their_share(kit, *old(estimate), sample, *final(estimate));
}

/// Observing a success raises the rate by the share of the result of what it lacks of one, up to
/// rounding; the first result is the rate.
pub proof fn observing_a_success_raises_the_rate(reliability: &mut Reliability, kit: &Doubles)
    requires
        call_ensures(Reliability::observe::<Doubles>, (reliability, true, false, kit), ()),
        old(reliability).rate matches Some(rate) ==> rate.bits <= ONE,
    ensures
        final(reliability).rate is Some,
        old(reliability).rate is None ==> number(final(reliability).rate->0) == 1real,
        old(reliability).rate matches Some(rate) ==> around(
            number(final(reliability).rate->0),
            moved(number(rate), 1real, share_of_result(old(reliability).samples)),
            90real * slip(),
        ),
        final(reliability).hard_failures == old(reliability).hard_failures,
{
    results_move_rates_by_their_share(kit, *old(reliability), true, *final(reliability));
}

} // verus!
