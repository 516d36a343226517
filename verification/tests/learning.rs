//! Learning, judging, registering and selecting, with the arithmetic done in doubles.

use std::collections::HashMap;

use rand::{Rng, SeedableRng};

use dig_peer_selector::address::copy_addresses;
use dig_peer_selector::judging::{exploration_bonus, finish, proven_score_bounds};
use dig_peer_selector::ranking::{choose_peers, explore_slots, Contender};
use dig_peer_selector::registry::{next_to_leave, Registry, DISPATCH_TTL_SECS};
use dig_peer_selector::scoring::{score_peer, ScoredPeer, BAD_SOURCE_DROP};
use dig_peer_selector::{
    AddressKind, Arithmetic, Candidate, CandidateAddr, ClockSource, ContentId, ContentRequest,
    Doubles, Estimate, FailureReason, FeedResult, IpAddress, Measure, OutcomeKind, OutcomeResult, PeerClass,
    PeerEntry, PeerId, PeerQuality, PeerSelector, PeerSnapshot, PoolEvent, PoolRemovalReason,
    Provenance, RangePlanDelta, RelayModel, Reliability, SaturationModel, SelectorConfig,
    SelectorSnapshot, SocketAddress, TransferOutcome, TraversalKind,
};

// ---- the arithmetic ------------------------------------------------------------------------------

fn m(x: f64) -> Measure {
    Measure {
        bits: if x > 0.0 { x.to_bits() } else { 0 },
    }
}

fn f(x: Measure) -> f64 {
    f64::from_bits(x.bits)
}

/// The arithmetic of the machine.
struct Machine;

impl Arithmetic for Machine {
    fn count(&self, count: u64) -> Measure {
        m(count as f64)
    }

    fn sum(&self, a: Measure, b: Measure) -> Measure {
        m(f(a) + f(b))
    }

    fn gap(&self, a: Measure, b: Measure) -> Measure {
        m((f(a) - f(b)).abs())
    }

    fn product(&self, a: Measure, b: Measure) -> Measure {
        m(f(a) * f(b))
    }

    fn quotient(&self, a: Measure, b: Measure) -> Measure {
        m(f(a) / f(b))
    }

    fn nearest(&self, a: Measure) -> u32 {
        f(a).round() as u32
    }
}

const KIT: Doubles = Doubles;

type Selector = PeerSelector;

fn selector(config: SelectorConfig) -> Selector {
    PeerSelector::new(config)
}

fn pid(b: u8) -> PeerId {
    PeerId::from_bytes([b; 32])
}

fn address() -> CandidateAddr {
    CandidateAddr::direct(
        String::from("10.0.0.1"),
        9444,
        Some(IpAddress::V4([10, 0, 0, 1])),
    )
}

fn socket(a: u8, b: u8, c: u8, d: u8, port: u16) -> SocketAddress {
    SocketAddress {
        ip: IpAddress::V4([a, b, c, d]),
        port,
    }
}

fn cand(b: u8) -> Candidate {
    Candidate::new(pid(b), vec![address()])
}

fn candidate_classed(b: u8, class: TraversalKind) -> Candidate {
    let mut c = cand(b);
    c.class = Some(class);
    c
}

fn entry(b: u8) -> PeerEntry {
    PeerEntry::cold(pid(b), Provenance::Dht, 0)
}

/// Folds one throughput into what a registry knows of a peer.
fn teach(r: &mut Registry, b: u8, bps: f64, at: Option<u64>) {
    let e = r.get(&pid(b)).unwrap();
    let mut quality = e.quality;
    let at = at.or(e.last_outcome_at);
    quality.observe_throughput(m(bps), &KIT);
    quality.bump_samples();
    r.learn(&pid(b), quality, at);
}

// ---- quality ---------------------------------------------------------------------------------------

#[test]
fn estimate_converges_under_stationary_stream() {
    let mut e = Estimate::new();
    for _ in 0..50 {
        e.observe(m(1000.0), &KIT);
    }
    let v = f(e.value().unwrap());
    assert!((v - 1000.0).abs() < 1.0, "converged to ~1000, got {v}");
    assert!(
        f(e.relative_volatility(&KIT)) < 0.01,
        "steady stream => low volatility"
    );
}

#[test]
fn estimate_responds_to_degradation_within_bounded_samples() {
    let mut e = Estimate::new();
    for _ in 0..30 {
        e.observe(m(1000.0), &KIT);
    }
    for _ in 0..15 {
        e.observe(m(100.0), &KIT);
    }
    let v = f(e.value().unwrap());
    assert!(
        v < 300.0,
        "estimate must follow the drop toward 100 within a bounded window, got {v}"
    );
}

#[test]
fn volatile_peer_decays_faster_than_steady_peer() {
    let mut steady = Estimate::new();
    for _ in 0..30 {
        steady.observe(m(500.0), &KIT);
    }
    let mut volatile = Estimate::new();
    for i in 0..30 {
        volatile.observe(m(if i % 2 == 0 { 100.0 } else { 900.0 }), &KIT);
    }
    assert!(
        f(volatile.relative_volatility(&KIT)) > f(steady.relative_volatility(&KIT)),
        "swinging stream must register higher volatility"
    );
    let steady_before = f(steady.value().unwrap());
    let volatile_before = f(volatile.value().unwrap());
    steady.observe(m(2000.0), &KIT);
    volatile.observe(m(2000.0), &KIT);
    let steady_move = f(steady.value().unwrap()) - steady_before;
    let volatile_move = f(volatile.value().unwrap()) - volatile_before;
    assert!(
        volatile_move > steady_move,
        "volatile peer must react more to a new reading (adaptive decay): steady {steady_move}, volatile {volatile_move}"
    );
}

#[test]
fn prior_is_overridden_by_first_measurement() {
    let mut e = Estimate::new();
    e.seed_prior(m(50.0));
    assert_eq!(e.value(), Some(m(50.0)));
    assert_eq!(e.samples(), 0, "a prior is not a measured sample");
    e.observe(m(1000.0), &KIT);
    assert_eq!(
        e.value(),
        Some(m(1000.0)),
        "first measurement overrides the prior"
    );
    assert_eq!(e.samples(), 1);
    e.seed_prior(m(7.0));
    assert_eq!(e.value(), Some(m(1000.0)));
}

#[test]
fn reliability_falls_on_failure_and_rises_on_recovery() {
    let mut r = Reliability::new();
    for _ in 0..10 {
        r.observe(true, false, &KIT);
    }
    assert!(f(r.rate().unwrap()) > 0.9);
    for _ in 0..10 {
        r.observe(false, false, &KIT);
    }
    assert!(
        f(r.rate().unwrap()) < 0.3,
        "reliability must fall on a failure run"
    );
    for _ in 0..10 {
        r.observe(true, false, &KIT);
    }
    assert!(f(r.rate().unwrap()) > 0.7, "reliability must recover");
}

#[test]
fn hard_failure_penalizes_more_than_soft_failure() {
    let mut soft = Reliability::new();
    let mut hard = Reliability::new();
    for _ in 0..5 {
        soft.observe(true, false, &KIT);
        hard.observe(true, false, &KIT);
    }
    soft.observe(false, false, &KIT);
    hard.observe(false, true, &KIT);
    assert!(
        f(hard.rate().unwrap()) < f(soft.rate().unwrap()),
        "a hard (verification) failure must drop reliability more than a soft one"
    );
    assert_eq!(hard.hard_failures(), 1);
    assert_eq!(soft.samples(), 6);
    assert_eq!(hard.samples(), 8);
}

#[test]
fn cold_quality_is_uncertain_and_confidence_grows() {
    let mut q = PeerQuality::cold();
    assert!(q.is_cold());
    assert_eq!(f(q.confidence(&KIT)), 0.0);
    for _ in 0..4 {
        q.observe_throughput(m(500.0), &KIT);
        q.bump_samples();
    }
    assert!(!q.is_cold());
    assert!(
        (f(q.confidence(&KIT)) - 0.5).abs() < 1e-9,
        "4 samples => 4/(4+4)=0.5"
    );
}

#[test]
fn estimates_blend_by_exact_weights() {
    let mut e = Estimate::new();
    assert_eq!(e.value(), None);
    assert_eq!(f(e.relative_volatility(&KIT)), 0.0);
    e.observe(m(100.0), &KIT);
    assert_eq!(e.value(), Some(m(100.0)));
    e.observe(m(200.0), &KIT);
    assert_eq!(e.value(), Some(m(150.0)));
    assert_eq!(f(e.mad), 50.0);
    assert_eq!(e.samples(), 2);
    let mut r = Reliability::default();
    r.observe(true, false, &KIT);
    r.observe(false, false, &KIT);
    assert_eq!(r.rate(), Some(m(0.5)));
    let mut prior = Reliability::default();
    prior.seed_prior(m(3.0));
    assert_eq!(prior.rate, Some(m(1.0)));
    assert_eq!(prior.rate(), None);
    assert_eq!(PeerQuality::default(), PeerQuality::cold());
    assert_eq!(Estimate::default(), Estimate::new());
}

// ---- registry ----------------------------------------------------------------------------------------

#[test]
fn upsert_candidate_inserts_cold_then_updates_preserving_quality() {
    let mut r = Registry::new(100);
    assert_eq!(
        r.upsert_candidate(&cand(1), Provenance::Dht, 100, &KIT),
        FeedResult::Inserted
    );
    assert!(r.get(&pid(1)).unwrap().quality.is_cold());
    teach(&mut r, 1, 500.0, None);
    assert_eq!(
        r.upsert_candidate(&cand(1), Provenance::Dht, 200, &KIT),
        FeedResult::Updated
    );
    assert!(!r.get(&pid(1)).unwrap().quality.is_cold());
}

#[test]
fn disconnect_retains_entry_and_quality() {
    let mut r = Registry::new(100);
    r.mark_connected(pid(1), Provenance::Gossip, 100, &KIT);
    teach(&mut r, 1, 700.0, None);
    assert_eq!(
        r.mark_disconnected(&pid(1), false),
        FeedResult::MarkedDisconnected
    );
    let e = r.get(&pid(1)).unwrap();
    assert!(!e.connected);
    assert!(!e.quality.is_cold(), "quality retained across disconnect");
    assert!(e.is_eligible(), "a plain disconnect stays eligible");
}

#[test]
fn banned_peer_is_ineligible_until_reconnect() {
    let mut r = Registry::new(100);
    r.mark_connected(pid(1), Provenance::Gossip, 100, &KIT);
    r.mark_disconnected(&pid(1), true);
    assert!(!r.get(&pid(1)).unwrap().is_eligible());
    r.mark_connected(pid(1), Provenance::Gossip, 200, &KIT);
    assert!(r.get(&pid(1)).unwrap().is_eligible());
}

#[test]
fn stronger_provenance_wins_weaker_ignored() {
    let mut r = Registry::new(100);
    r.upsert_candidate(&cand(1), Provenance::Pex, 100, &KIT);
    r.upsert_candidate(&cand(1), Provenance::Dht, 100, &KIT);
    assert_eq!(r.get(&pid(1)).unwrap().provenance, Provenance::Dht);
    r.upsert_candidate(&cand(1), Provenance::Pex, 100, &KIT);
    assert_eq!(r.get(&pid(1)).unwrap().provenance, Provenance::Dht);
}

#[test]
fn eviction_sheds_lowest_value_never_connected_or_in_flight() {
    let mut r = Registry::new(2);
    r.mark_connected(pid(1), Provenance::Gossip, 100, &KIT);
    r.mark_connected(pid(2), Provenance::Gossip, 100, &KIT);
    r.upsert_candidate(&cand(3), Provenance::Dht, 100, &KIT);
    assert!(r.get(&pid(1)).is_some());
    assert!(r.get(&pid(2)).is_some());
    assert!(
        r.get(&pid(3)).is_none(),
        "connected peers protected; cold candidate evicted"
    );
}

#[test]
fn eviction_prefers_shedding_stale_unmeasured_over_fresh_measured() {
    let mut r = Registry::new(1);
    r.upsert_candidate(&cand(1), Provenance::Dht, 100, &KIT);
    teach(&mut r, 1, 900.0, Some(1000));
    r.upsert_candidate(&cand(2), Provenance::Dht, 5000, &KIT);
    assert!(
        r.get(&pid(1)).is_some(),
        "the valuable measured peer survives"
    );
    assert!(r.get(&pid(2)).is_none(), "the stale cold peer is evicted");
}

#[test]
fn in_flight_peer_is_not_removed() {
    let mut r = Registry::new(100);
    r.upsert_candidate(&cand(1), Provenance::Dht, 100, &KIT);
    r.add_in_flight(&pid(1), 2, 100);
    assert_eq!(r.remove(&pid(1)), FeedResult::Updated);
    assert!(r.get(&pid(1)).is_some());
    r.release_in_flight(&pid(1), 2);
    assert_eq!(r.remove(&pid(1)), FeedResult::MarkedDisconnected);
    assert!(r.get(&pid(1)).is_none());
    assert_eq!(r.remove(&pid(1)), FeedResult::Absent);
}

#[test]
fn set_connection_class_upserts_and_attaches() {
    let mut r = Registry::new(100);
    assert_eq!(
        r.set_connection_class(pid(1), TraversalKind::Relayed, 100, &KIT),
        FeedResult::Inserted
    );
    assert_eq!(
        r.get(&pid(1)).unwrap().connection_class,
        Some(TraversalKind::Relayed)
    );
}

#[test]
fn capacity_bound_holds_even_when_every_entry_is_pinned_by_stale_in_flight() {
    let capacity = 4;
    let mut r = Registry::new(capacity);
    for b in 0..(capacity as u8 * 3) {
        r.upsert_candidate(&cand(b), Provenance::Dht, 100, &KIT);
        r.add_in_flight(&pid(b), 3, 100);
    }
    assert!(
        r.len() <= capacity,
        "registry must stay bounded at {capacity} even when every entry has stuck in_flight; got {}",
        r.len()
    );
}

#[test]
fn stale_in_flight_is_reclaimed_after_ttl_making_the_entry_evictable_again() {
    let mut r = Registry::new(100);
    r.upsert_candidate(&cand(1), Provenance::Dht, 100, &KIT);
    r.add_in_flight(&pid(1), 5, 100);
    assert!(
        !r.get(&pid(1)).unwrap().is_evictable(),
        "pinned while in flight"
    );
    r.reclaim_stale_in_flight(100 + DISPATCH_TTL_SECS + 1);
    assert_eq!(
        r.get(&pid(1)).unwrap().quality.in_flight,
        0,
        "a dispatch that never settled must be reclaimed after its TTL"
    );
    assert!(
        r.get(&pid(1)).unwrap().is_evictable(),
        "reclaiming stale in_flight must make the entry evictable again"
    );
}

#[test]
fn drain_evicted_reports_peers_shed_by_capacity_enforcement() {
    let mut r = Registry::new(1);
    r.upsert_candidate(&cand(1), Provenance::Dht, 100, &KIT);
    assert!(r.drain_evicted().is_empty(), "no eviction yet");
    r.upsert_candidate(&cand(2), Provenance::Dht, 200, &KIT);
    let evicted = r.drain_evicted();
    assert_eq!(evicted, vec![pid(1)], "capacity eviction must be reported");
    assert!(r.drain_evicted().is_empty());
}

#[test]
fn drain_evicted_reports_peers_shed_by_explicit_remove() {
    let mut r = Registry::new(100);
    r.upsert_candidate(&cand(1), Provenance::Dht, 100, &KIT);
    r.remove(&pid(1));
    assert_eq!(r.drain_evicted(), vec![pid(1)]);
}

#[test]
fn preferred_address_is_most_direct() {
    let mut r = Registry::new(100);
    let c = Candidate::new(
        pid(1),
        vec![
            CandidateAddr {
                host: "r".into(),
                port: 1,
                kind: AddressKind::Reflexive,
                ip: None,
            },
            CandidateAddr::direct(String::from("d"), 2, None),
        ],
    );
    r.upsert_candidate(&c, Provenance::Dht, 100, &KIT);
    assert_eq!(
        r.get(&pid(1)).unwrap().preferred_address().unwrap().kind,
        AddressKind::Direct
    );
}

#[test]
fn relay_markers_and_later_equals_are_not_preferred() {
    let mut e = entry(1);
    e.addresses.push(CandidateAddr {
        host: "relay".into(),
        port: 1,
        kind: AddressKind::Relay,
        ip: None,
    });
    assert!(e.preferred_address().is_none());
    for port in [2, 3] {
        e.addresses.push(CandidateAddr {
            host: "mapped".into(),
            port,
            kind: AddressKind::Mapped,
            ip: None,
        });
    }
    assert_eq!(e.preferred_address().unwrap().port, 2);
}

#[test]
fn a_dispatch_is_kept_until_its_whole_time_has_passed() {
    let mut r = Registry::new(100);
    r.upsert_candidate(&cand(1), Provenance::Dht, 100, &KIT);
    r.add_in_flight(&pid(1), 5, 100);
    r.add_in_flight(&pid(1), 1, 350);
    r.reclaim_stale_in_flight(100 + DISPATCH_TTL_SECS - 1);
    assert_eq!(r.get(&pid(1)).unwrap().quality.in_flight, 6);
    r.reclaim_stale_in_flight(50);
    assert_eq!(r.get(&pid(1)).unwrap().quality.in_flight, 6);
    r.reclaim_stale_in_flight(100 + DISPATCH_TTL_SECS);
    assert_eq!(r.get(&pid(1)).unwrap().quality.in_flight, 0);
    assert_eq!(r.get(&pid(1)).unwrap().in_flight_since, None);
}

#[test]
fn counters_of_ranges_in_flight_saturate() {
    let mut r = Registry::new(100);
    r.upsert_candidate(&cand(1), Provenance::Dht, 100, &KIT);
    r.add_in_flight(&pid(1), u32::MAX, 100);
    r.add_in_flight(&pid(1), 5, 101);
    assert_eq!(r.get(&pid(1)).unwrap().quality.in_flight, u32::MAX);
    assert_eq!(r.get(&pid(1)).unwrap().in_flight_since, Some(100));
    r.release_in_flight(&pid(1), u32::MAX);
    r.release_in_flight(&pid(1), 1);
    assert_eq!(r.get(&pid(1)).unwrap().quality.in_flight, 0);
    r.add_in_flight(&pid(9), 1, 100);
    assert!(r.get(&pid(9)).is_none());
}

#[test]
fn idle_peers_leave_before_busy_ones_and_the_least_worth_first() {
    let mut r = Registry::new(3);
    for (b, bps) in [(1u8, 50.0), (2u8, 10.0), (3u8, 90.0)] {
        r.upsert_candidate(&cand(b), Provenance::Dht, 100, &KIT);
        teach(&mut r, b, bps, Some(100));
    }
    r.add_in_flight(&pid(2), 1, 100);
    r.mark_connected(pid(4), Provenance::Gossip, 100, &KIT);
    assert_eq!(r.drain_evicted(), vec![pid(1)], "the busy peer is kept");
    r.mark_connected(pid(5), Provenance::Gossip, 100, &KIT);
    assert_eq!(r.drain_evicted(), vec![pid(3)], "idle before busy");
    r.mark_connected(pid(6), Provenance::Gossip, 100, &KIT);
    assert_eq!(r.drain_evicted(), vec![pid(2)], "the bound is hard");
    r.mark_connected(pid(7), Provenance::Gossip, 100, &KIT);
    assert!(r.drain_evicted().is_empty(), "connected peers stay");
    assert_eq!(r.len(), 4);
    assert!(!r.is_empty());
}

#[test]
fn the_next_to_leave_is_decided_by_worth_alone() {
    let mut entries: Vec<PeerEntry> = (1u8..=4).map(entry).collect();
    let worth = vec![m(3.0), m(1.0), m(1.0), m(2.0)];
    assert_eq!(next_to_leave(&entries, &worth), Some(1));
    entries[1].connected = true;
    assert_eq!(next_to_leave(&entries, &worth), Some(2));
    entries[2].quality.in_flight = 1;
    assert_eq!(next_to_leave(&entries, &worth), Some(3));
    entries[0].connected = true;
    entries[3].connected = true;
    assert_eq!(next_to_leave(&entries, &worth), Some(2));
    entries[2].connected = true;
    assert_eq!(next_to_leave(&entries, &worth), None);
}

#[test]
fn a_registry_holds_at_least_one_peer() {
    let mut r = Registry::new(0);
    assert!(r.is_empty());
    r.upsert_candidate(&cand(1), Provenance::Dht, 100, &KIT);
    assert_eq!(r.len(), 1);
    assert_eq!(r.mark_disconnected(&pid(2), true), FeedResult::Absent);
}

#[test]
fn an_empty_candidate_keeps_addresses_and_class() {
    let mut r = Registry::new(10);
    r.upsert_candidate(
        &candidate_classed(1, TraversalKind::Upnp),
        Provenance::Dht,
        100,
        &KIT,
    );
    r.upsert_candidate(
        &Candidate::new(pid(1), Vec::new()),
        Provenance::Manual,
        200,
        &KIT,
    );
    let e = r.get(&pid(1)).unwrap();
    assert_eq!(e.addresses, copy_addresses(&vec![address()]));
    assert_eq!(e.connection_class, Some(TraversalKind::Upnp));
    assert_eq!(e.first_seen, 100);
    assert_eq!(e.quality.reliability.rate, Some(m(0.5)));
    assert_eq!(e.quality.reliability.rate(), None);
}

// ---- scoring ---------------------------------------------------------------------------------------------

#[test]
fn peer_class_maps_relayed_vs_direct() {
    assert_eq!(
        PeerClass::of(Some(TraversalKind::Relayed)),
        PeerClass::RelayedPath
    );
    assert_eq!(
        PeerClass::of(Some(TraversalKind::Direct)),
        PeerClass::DirectPath
    );
    assert_eq!(
        PeerClass::of(Some(TraversalKind::HolePunch)),
        PeerClass::DirectPath
    );
    assert_eq!(PeerClass::of(None), PeerClass::Unknown);
    assert!(PeerClass::RelayedPath.is_relayed());
    assert!(!PeerClass::DirectPath.is_relayed());
}

#[test]
fn faster_reliable_peer_scores_higher() {
    let sat = SaturationModel::default();
    let relay = RelayModel::default();

    let mut fast = entry(1);
    for _ in 0..10 {
        fast.quality.observe_throughput(m(1000.0), &KIT);
        fast.quality.observe_result(true, false, &KIT);
        fast.quality.bump_samples();
    }
    let mut slow = entry(2);
    for _ in 0..10 {
        slow.quality.observe_throughput(m(100.0), &KIT);
        slow.quality.observe_result(true, false, &KIT);
        slow.quality.bump_samples();
    }
    let sf = score_peer(&fast, &sat, &relay, m(0.0), &KIT);
    let ss = score_peer(&slow, &sat, &relay, m(0.0), &KIT);
    assert!(sf.effective_score > ss.effective_score);
}

#[test]
fn cold_peer_is_exploratory_and_bounded() {
    let sat = SaturationModel::default();
    let relay = RelayModel::default();
    let cold = entry(1);
    let s = score_peer(&cold, &sat, &relay, m(50.0), &KIT);
    assert!(s.exploratory);
    assert_eq!(s.effective_score, m(50.0).bits as i128);
    assert!(s.headroom >= 1);
}

#[test]
fn bad_source_sinks_below_cold_peers() {
    let sat = SaturationModel::default();
    let relay = RelayModel::default();
    let mut bad = entry(1);
    for _ in 0..5 {
        bad.quality.observe_throughput(m(1000.0), &KIT);
        bad.quality.observe_result(true, false, &KIT);
        bad.quality.bump_samples();
    }
    for _ in 0..8 {
        bad.quality.observe_result(false, true, &KIT);
        bad.quality.bump_samples();
    }
    let sbad = score_peer(&bad, &sat, &relay, m(0.0), &KIT);
    let cold = entry(2);
    let scold = score_peer(&cold, &sat, &relay, m(10.0), &KIT);
    assert!(
        sbad.effective_score < scold.effective_score,
        "a verification-failing source must rank below a cold peer"
    );
}

#[test]
fn a_bad_source_stays_below_cold_peers_whatever_its_identity() {
    let sat = SaturationModel::default();
    let relay = RelayModel::default();
    for b in [0u8, 1, 0x7f, 0xff] {
        let mut bad = entry(b);
        bad.quality.observe_result(false, true, &KIT);
        bad.quality.bump_samples();
        let score = score_peer(&bad, &sat, &relay, m(0.0), &KIT);
        assert!(score.effective_score < 0);
        let active = finish(score, m(0.0), true, &KIT);
        assert!(active.effective_score < score.effective_score);
    }
}

#[test]
fn saturation_model_lowers_point_on_oversubscription_degradation() {
    let mut model = SaturationModel::default();
    for _ in 0..5 {
        model.observe(PeerClass::DirectPath, 2, m(1000.0), &KIT);
    }
    let p_before = model.saturation_point(PeerClass::DirectPath);
    for _ in 0..8 {
        model.observe(PeerClass::DirectPath, 8, m(200.0), &KIT);
    }
    let p_after = model.saturation_point(PeerClass::DirectPath);
    assert!(
        p_after <= p_before,
        "oversubscription with degraded throughput must not raise the saturation point (before {p_before}, after {p_after})"
    );
    assert!(p_after >= 1);
}

#[test]
fn relay_penalty_shrinks_when_relayed_measures_as_well_as_direct() {
    let mut near = RelayModel::default();
    for _ in 0..10 {
        near.observe(false, m(1000.0), &KIT);
        near.observe(true, m(950.0), &KIT);
    }
    assert!(
        f(near.penalty(&KIT)) > 0.9,
        "near-parity relayed links => small penalty"
    );

    let mut far = RelayModel::default();
    for _ in 0..10 {
        far.observe(false, m(1000.0), &KIT);
        far.observe(true, m(300.0), &KIT);
    }
    assert!(
        f(far.penalty(&KIT)) < 0.5,
        "much-worse relayed links => large penalty"
    );
}

#[test]
fn models_start_from_their_seeds_and_move_by_exact_weights() {
    let mut model = SaturationModel::default();
    assert_eq!(model.saturation_point(PeerClass::DirectPath), 4);
    assert_eq!(model.saturation_point(PeerClass::RelayedPath), 2);
    assert_eq!(model.saturation_point(PeerClass::Unknown), 3);
    model.observe(PeerClass::RelayedPath, 9, m(100.0), &KIT);
    assert_eq!(model.saturation_point(PeerClass::RelayedPath), 9);
    assert_eq!(model.saturation_point(PeerClass::DirectPath), 4);
    model.observe(PeerClass::RelayedPath, 200, m(100.0), &KIT);
    assert_eq!(model.saturation_point(PeerClass::RelayedPath), 64);
    model.observe(PeerClass::Unknown, 0, m(0.0), &KIT);
    assert_eq!(model.unknown.samples, 1);
    assert_eq!(model.saturation_point(PeerClass::Unknown), 3);
    let mut relay = RelayModel::default();
    assert_eq!(f(relay.penalty(&KIT)), 0.85);
    relay.observe(true, m(0.0), &KIT);
    relay.observe(false, m(200.0), &KIT);
    assert_eq!(f(relay.penalty(&KIT)), 0.85);
    relay.observe(true, m(100.0), &KIT);
    assert_eq!(f(relay.penalty(&KIT)), 0.5);
    relay.observe(true, m(1.0), &KIT);
    assert_eq!(f(relay.penalty(&KIT)), 0.2525);
    for _ in 0..20 {
        relay.observe(true, m(1.0), &KIT);
    }
    assert_eq!(f(relay.penalty(&KIT)), 0.25);
}

#[test]
fn the_salt_spells_the_first_eight_bytes() {
    let mut bytes = [0u8; 32];
    bytes[0] = 1;
    bytes[6] = 2;
    bytes[7] = 3;
    bytes[8] = 9;
    let e = PeerEntry::cold(PeerId::from_bytes(bytes), Provenance::Dht, 0);
    let s = score_peer(
        &e,
        &SaturationModel::default(),
        &RelayModel::default(),
        m(0.0),
        &KIT,
    );
    assert_eq!(s.tie_break, 0x0100_0000_0000_0203);
    assert_eq!(s.headroom, 3);
}

#[test]
fn exploring_is_worth_a_quarter_of_the_proven_gap() {
    let mark = |score: f64, exploratory: bool| ScoredPeer {
        effective_score: m(score).bits as i128,
        headroom: 1,
        exploratory,
        tie_break: 0,
    };
    let bad = ScoredPeer {
        effective_score: 5 - BAD_SOURCE_DROP,
        headroom: 1,
        exploratory: false,
        tie_break: 5,
    };
    let marks = vec![mark(900.0, true), mark(100.0, false), bad, mark(300.0, false)];
    assert_eq!(proven_score_bounds(&marks), (m(100.0), m(300.0)));
    assert_eq!(exploration_bonus(&marks, &KIT), m(150.0));
    assert_eq!(exploration_bonus(&vec![mark(80.0, false)], &KIT), m(40.0));
    assert_eq!(exploration_bonus(&vec![bad], &KIT), m(0.0));
    assert_eq!(exploration_bonus(&Vec::new(), &KIT), m(0.0));
    let explored = finish(mark(0.0, true), m(150.0), false, &KIT);
    assert_eq!(explored, mark(150.0, true));
    let active = finish(mark(0.0, true), m(150.0), true, &KIT);
    assert_eq!(active.effective_score, m(75.0).bits as i128);
    assert_eq!(active.headroom, 0);
}

/// A peer measured twice, with so many ranges in flight.
fn measured(b: u8, first: f64, second: f64, in_flight: u32, class: TraversalKind) -> PeerEntry {
    let mut e = entry(b);
    e.connection_class = Some(class);
    for bps in [first, second] {
        e.quality.observe_throughput(m(bps), &KIT);
        e.quality.observe_result(true, false, &KIT);
        e.quality.bump_samples();
    }
    e.quality.in_flight = in_flight;
    e
}

fn score_of(e: &PeerEntry) -> f64 {
    let s = score_peer(
        e,
        &SaturationModel::default(),
        &RelayModel::default(),
        m(0.0),
        &KIT,
    );
    f(Measure {
        bits: s.effective_score as u64,
    })
}

#[test]
fn scores_are_made_of_value_tail_and_path() {
    let direct = measured(1, 100.0, 200.0, 1, TraversalKind::Direct);
    assert_eq!(f(direct.quality.throughput.relative_volatility(&KIT)), 50.0 / 150.0);
    let volatility: f64 = 50.0 / 150.0;
    let confidence: f64 = 2.0 / 6.0;
    let value = 150.0 * 1.0 * (0.3 + 0.7 * confidence);
    let tail = (1.0 - 0.5 * volatility) * (0.5 + 0.5 * 1.0) * (1.0 - 0.4 * 0.25);
    assert_eq!(score_of(&direct), value * tail * 1.0);

    let relayed = measured(1, 100.0, 200.0, 1, TraversalKind::Relayed);
    let tail = (1.0 - 0.5 * volatility) * (0.5 + 0.5 * 1.0) * (1.0 - 0.4 * 0.5);
    assert_eq!(score_of(&relayed), value * tail * 0.85);
}

#[test]
fn the_worth_of_a_peer_fades_by_the_hour() {
    let mut e = measured(1, 100.0, 200.0, 0, TraversalKind::Direct);
    e.last_outcome_at = Some(1000);
    let quality = 150.0 * (2.0 / 6.0) * (0.5 + 0.5 * 1.0);
    assert_eq!(f(e.eviction_value(1000, &KIT)), quality + 1.0);
    assert_eq!(f(e.eviction_value(4600, &KIT)), quality * 0.5 + 0.5);
    assert_eq!(f(e.eviction_value(0, &KIT)), quality + 1.0);
    let cold = entry(2);
    assert_eq!(f(cold.eviction_value(3 * 3600, &KIT)), 0.25);
    let mut slower = measured(3, 90.0, 200.0, 0, TraversalKind::Direct);
    slower.last_outcome_at = Some(900);
    assert!(f(slower.eviction_value(5000, &KIT)) < f(e.eviction_value(5000, &KIT)));
}

#[test]
fn a_sample_weighs_more_after_a_swing() {
    let mut steady = Estimate::new();
    let mut swinging = Estimate::new();
    for i in 0..20 {
        steady.observe(m(150.0), &KIT);
        swinging.observe(m(if i % 2 == 0 { 100.0 } else { 200.0 }), &KIT);
    }
    let (s, w) = (f(steady.value().unwrap()), f(swinging.value().unwrap()));
    let volatility = f(swinging.relative_volatility(&KIT));
    steady.observe(m(50.0), &KIT);
    swinging.observe(m(50.0), &KIT);
    assert_eq!(
        f(steady.value().unwrap()),
        (1.0 - 0.15) * s + 0.15 * 50.0
    );
    let weight = 0.15 + (0.60 - 0.15) * volatility;
    assert!(weight > 0.25);
    assert_eq!(
        f(swinging.value().unwrap()),
        (1.0 - weight) * w + weight * 50.0
    );
}

#[test]
fn worse_measurements_never_score_higher() {
    let best = score_of(&measured(1, 200.0, 200.0, 0, TraversalKind::Direct));
    let slower = score_of(&measured(1, 150.0, 150.0, 0, TraversalKind::Direct));
    let swinging = score_of(&measured(1, 100.0, 300.0, 0, TraversalKind::Direct));
    let busier = score_of(&measured(1, 200.0, 200.0, 3, TraversalKind::Direct));
    let relayed = score_of(&measured(1, 200.0, 200.0, 0, TraversalKind::Relayed));
    let mut failing = measured(1, 200.0, 200.0, 0, TraversalKind::Direct);
    failing.quality.observe_result(false, false, &KIT);
    for worse in [slower, swinging, busier, relayed, score_of(&failing)] {
        assert!(worse < best);
        assert!(worse > 0.0);
    }
}

#[test]
fn failures_take_a_quarter_off_and_larger_samples_leave_larger_means() {
    let mut r = Reliability::new();
    for _ in 0..9 {
        r.observe(true, false, &KIT);
    }
    let mut soft = r;
    soft.observe(false, false, &KIT);
    assert_eq!(soft.rate(), Some(m(0.75)));
    let mut hard = r;
    hard.observe(false, true, &KIT);
    assert_eq!(hard.rate(), Some(m(0.75 * 0.75 * 0.75)));
    let mut e = Estimate::new();
    e.observe(m(100.0), &KIT);
    e.observe(m(140.0), &KIT);
    let (mut low, mut high) = (e, e);
    low.observe(m(60.0), &KIT);
    high.observe(m(61.0), &KIT);
    assert!(f(low.value().unwrap()) < f(high.value().unwrap()));
}

// ---- the order of measures ----------------------------------------------------------------------------------

fn grid() -> Vec<f64> {
    vec![
        0.0,
        f64::from_bits(1),
        f64::from_bits(3),
        1e-300,
        f64::EPSILON,
        0.1,
        0.25,
        0.5,
        1.0,
        1.0 + f64::EPSILON,
        1.5,
        3.0,
        1000.0,
        1e300,
        f64::MAX,
        f64::INFINITY,
    ]
}

#[test]
fn doubles_keep_the_order_of_measures() {
    let values: Vec<Measure> = grid().into_iter().map(m).collect();
    let at_most = |a: Measure, b: Measure| a.bits <= b.bits && f(b) <= f64::INFINITY;
    for (i, &x) in values.iter().enumerate() {
        for (j, &y) in values.iter().enumerate() {
            let (sum, product) = (KIT.sum(x, y), KIT.product(x, y));
            let (quotient, gap) = (KIT.quotient(x, y), KIT.gap(x, y));
            assert!(at_most(x, sum) && at_most(y, sum));
            assert!(f(y) > 0.0 || sum == x);
            assert!(f(x) > 1.0 || at_most(product, y));
            assert!(f(y) > 1.0 || at_most(product, x));
            assert!(f(y) < 1.0 || at_most(quotient, x));
            assert!(at_most(gap, if f(x) < f(y) { y } else { x }));
            for &s in &values[i..] {
                for &t in &values[j..] {
                    assert!(at_most(sum, KIT.sum(s, t)));
                    assert!(at_most(product, KIT.product(s, t)));
                }
                for &t in &values[..=j] {
                    assert!(at_most(quotient, KIT.quotient(s, t)));
                }
            }
            if j <= i {
                for &t in &values[..=j] {
                    assert!(at_most(gap, KIT.gap(x, t)));
                }
            }
        }
    }
    for (n, more) in [(0, 1), (1, 2), (1 << 53, (1 << 53) + 1), (7, u64::MAX)] {
        assert!(at_most(KIT.count(n), KIT.count(more)));
    }
}

#[test]
fn doubles_tell_measures_from_their_parts() {
    let mut values = grid();
    values.pop();
    for &y in &values {
        if y > 0.0 {
            assert!(f(KIT.product(m(y), m(0.5))) < y);
        }
        for &x in values.iter().filter(|x| **x < y) {
            let step = KIT.product(m(0.25), KIT.gap(m(y), m(x)));
            assert!(f(KIT.sum(m(x), step)) < y);
        }
    }
}

// ---- choosing -----------------------------------------------------------------------------------------------

fn contender(b: u8, score: f64, exploratory: bool, last_selected: u64, jitter: u64) -> Contender {
    Contender {
        peer_id: pid(b),
        score: ScoredPeer {
            effective_score: m(score).bits as i128,
            headroom: b as u32,
            exploratory,
            tie_break: b as u64,
        },
        full: false,
        last_selected,
        jitter,
    }
}

fn names(field: &Vec<Contender>, want: usize, epoch: u64) -> Vec<u8> {
    choose_peers(field, want, epoch)
        .peers
        .iter()
        .map(|p| p.peer_id.as_bytes()[0])
        .collect()
}

#[test]
fn better_scores_lead_and_ties_go_to_the_smaller_salt() {
    let field = vec![
        contender(4, 10.0, false, 7, 0),
        contender(2, 10.0, false, 7, 0),
        contender(3, 90.0, false, 7, 0),
    ];
    assert_eq!(names(&field, 3, 8), vec![3, 2, 4]);
    let selection = choose_peers(&field, 3, 8);
    let ranks: Vec<u32> = selection.peers.iter().map(|p| p.rank).collect();
    assert_eq!(ranks, vec![0, 1, 2]);
    let asked: Vec<u32> = selection.peers.iter().map(|p| p.max_concurrency).collect();
    assert_eq!(asked, vec![3, 2, 4]);
}

#[test]
fn unmeasured_ties_go_to_the_longer_wait_and_then_to_the_draw() {
    let field = vec![
        contender(1, 0.0, true, 5, 1),
        contender(2, 0.0, true, 4, 9),
        contender(3, 0.0, true, 4, 8),
    ];
    assert_eq!(names(&field, 9, 6), vec![3, 2, 1]);
}

#[test]
fn unmeasured_peers_take_a_third_of_the_slots_at_most() {
    assert_eq!(explore_slots(0), 1);
    assert_eq!(explore_slots(1), 1);
    assert_eq!(explore_slots(3), 1);
    assert_eq!(explore_slots(4), 2);
    assert_eq!(explore_slots(6), 2);
    assert_eq!(explore_slots(7), 3);
    assert_eq!(explore_slots(usize::MAX), usize::MAX / 3);
    let field: Vec<Contender> = (1u8..=6)
        .map(|b| contender(b, if b == 1 { 9.0 } else { 1.0 }, b != 1, 10, b as u64))
        .collect();
    assert_eq!(names(&field, 6, 10), vec![1, 2, 3]);
}

#[test]
fn whoever_waited_a_round_gets_the_last_slot_and_is_flagged() {
    let field = vec![
        contender(1, 90.0, false, 9, 0),
        contender(2, 80.0, false, 9, 0),
        contender(3, 1.0, false, 4, 0),
        contender(4, 2.0, false, 5, 0),
    ];
    let selection = choose_peers(&field, 2, 10);
    let chosen: Vec<(u8, bool)> = selection
        .peers
        .iter()
        .map(|p| (p.peer_id.as_bytes()[0], p.exploratory))
        .collect();
    assert_eq!(chosen, vec![(1, false), (3, true)]);
    assert_eq!(names(&field, 1, 10), vec![3]);
    assert_eq!(names(&field, 4, 10), vec![1, 2, 4, 3]);
}

#[test]
fn a_bad_source_is_never_owed_a_slot() {
    let mut field = vec![
        contender(1, 90.0, false, 9, 0),
        contender(2, 80.0, false, 9, 0),
        contender(3, 0.0, false, 0, 0),
    ];
    field[2].score.effective_score = 3 - BAD_SOURCE_DROP;
    assert_eq!(names(&field, 1, 10), vec![1]);
    assert_eq!(names(&field, 3, 10), vec![1, 2, 3]);
    assert!(names(&Vec::new(), 3, 10).is_empty());
}

#[test]
fn everybody_is_chosen_within_two_rounds_of_the_field() {
    for want in 1..5usize {
        let n = 6u8;
        let mut field: Vec<Contender> = (1..=n)
            .map(|b| contender(b, b as f64, false, 0, 0))
            .collect();
        let mut seen: HashMap<u8, usize> = HashMap::new();
        let mut epoch = 0u64;
        for round in 0..(2 * n as usize - 1) {
            epoch += 1;
            for b in names(&field, want, epoch) {
                seen.entry(b).or_insert(round);
                field[b as usize - 1].last_selected = epoch;
            }
        }
        assert_eq!(seen.len(), n as usize, "{want} slots");
    }
}

#[test]
fn a_saturated_peer_is_passed_over_while_another_is_not() {
    let mut field = vec![
        contender(1, 90.0, false, 9, 0),
        contender(2, 80.0, false, 9, 0),
        contender(3, 1.0, false, 0, 0),
    ];
    field[0].full = true;
    field[0].score.headroom = 0;
    assert_eq!(names(&field, 1, 10), vec![3]);
    assert_eq!(names(&field, 3, 10), vec![2, 3]);
    field[2].full = true;
    field[2].score.headroom = 0;
    assert_eq!(names(&field, 1, 10), vec![2]);
    field[1].score.headroom = 0;
    assert_eq!(
        names(&field, 3, 10),
        vec![2],
        "headroom that is set aside is no saturation"
    );
    assert_eq!(choose_peers(&field, 3, 10).peers[0].max_concurrency, 1);
    field[1].full = true;
    assert_eq!(names(&field, 3, 10), vec![1, 2, 3]);
    for peer in choose_peers(&field, 3, 10).peers {
        assert_eq!(peer.max_concurrency, 1);
    }
}

#[test]
fn rebalancing_keeps_active_peers_that_have_a_free_range() {
    let mut s = selector(SelectorConfig::deterministic(1000, 37));
    let request = ContentRequest::new(content(), 2);
    for _ in 0..30 {
        for picked in s.select(&request, &[cand(1), cand(2)]).peers {
            let b = picked.peer_id.as_bytes()[0];
            let bytes = if b == 1 { 1_000_000 } else { 900_000 };
            s.record_outcome(&success(b, bytes, 1000));
        }
    }
    s.upsert_candidate(&cand(3));
    for _ in 0..10 {
        s.record_outcome(&success(3, 950_000, 1000));
    }
    assert_eq!(s.peer_snapshot(&pid(1)).unwrap().in_flight, 2);
    assert_eq!(s.peer_snapshot(&pid(2)).unwrap().in_flight, 2);
    let r = s.rebalance(
        &ContentRequest::new(content(), 3),
        &[pid(1), pid(2)],
        &RangePlanDelta::of_count(3),
    );
    assert_eq!(r.len(), 3);
    assert_eq!(r.best().unwrap().peer_id, pid(3));
    assert_eq!(r.peers[1].max_concurrency, 1);
    assert_eq!(r.peers[2].max_concurrency, 1);
    assert_eq!(s.peer_snapshot(&pid(1)).unwrap().in_flight, 3);
}

#[test]
fn a_wait_of_just_one_round_of_the_field_is_not_long_enough() {
    let field = vec![
        contender(1, 90.0, false, 9, 0),
        contender(2, 80.0, false, 8, 0),
    ];
    assert_eq!(names(&field, 1, 10), vec![1]);
    assert_eq!(names(&field, 1, 11), vec![2]);
}

#[test]
fn the_best_gets_the_largest_share_of_one_slot() {
    for n in 2..7u8 {
        let mut field: Vec<Contender> = (1..=n)
            .map(|b| contender(b, b as f64, false, 0, 0))
            .collect();
        let mut shares: HashMap<u8, usize> = HashMap::new();
        for epoch in 1..=(2 * n as u64 + 2) {
            for b in names(&field, 1, epoch) {
                *shares.entry(b).or_insert(0) += 1;
                field[b as usize - 1].last_selected = epoch;
            }
        }
        for b in 1..n {
            assert!(shares[&n] > shares.get(&b).copied().unwrap_or(0));
        }
    }
}

#[test]
fn a_pick_that_was_owed_its_slot_counts_as_exploration() {
    let field = vec![
        contender(1, 90.0, false, 9, 0),
        contender(2, 80.0, false, 2, 0),
        contender(3, 85.0, true, 9, 0),
        contender(4, 85.0, true, 9, 1),
    ];
    let selection = choose_peers(&field, 3, 10);
    let flagged = selection.peers.iter().filter(|p| p.exploratory).count();
    assert_eq!(flagged, explore_slots(3));
    assert_eq!(names(&field, 3, 10), vec![1, 2]);
}

// ---- observing ------------------------------------------------------------------------------------------------

#[test]
fn peer_snapshot_reflects_learned_state() {
    let mut e = PeerEntry::cold(pid(1), Provenance::Dht, 0);
    e.connection_class = Some(TraversalKind::Relayed);
    e.quality.observe_throughput(m(500.0), &KIT);
    e.quality.observe_result(true, false, &KIT);
    e.quality.bump_samples();
    let snap = PeerSnapshot::of(&e, &KIT);
    assert_eq!(snap.peer_id, pid(1).to_hex());
    assert_eq!(snap.connection_class.as_deref(), Some("relayed"));
    assert_eq!(snap.throughput_bps, Some(m(500.0)));
    assert_eq!(snap.samples, 1);
}

#[test]
fn selector_snapshot_counts_and_learned_values() {
    let mut r = Registry::new(100);
    r.mark_connected(pid(1), Provenance::Gossip, 0, &KIT);
    r.upsert_candidate(
        &Candidate::new(
            pid(2),
            vec![CandidateAddr::direct(String::from("h"), 1, None)],
        ),
        Provenance::Dht,
        0,
        &KIT,
    );
    teach(&mut r, 1, 100.0, None);
    let sat = SaturationModel::default();
    let relay = RelayModel::default();
    let snap = SelectorSnapshot::build(r.iter(), &sat, &relay, 0, 0, &KIT);
    assert_eq!(snap.registry_size, 2);
    assert_eq!(snap.measured_peers, 1);
    assert_eq!(snap.connected_peers, 1);
    assert!(snap.saturation_direct >= 1);
    assert!(f(snap.relayed_penalty) > 0.0 && f(snap.relayed_penalty) <= 1.0);
}

// ---- outcomes ----------------------------------------------------------------------------------------------------

const STORE: [u8; 32] = [0x42; 32];

fn content() -> ContentId {
    ContentId::store(STORE)
}

fn outcome(b: u8, result: OutcomeResult, bytes: u64, duration_ms: u64, at: u64) -> TransferOutcome {
    TransferOutcome {
        peer_id: pid(b),
        content: content(),
        kind: OutcomeKind::Range {
            index: 0,
            offset: 0,
            length: 1000,
        },
        result,
        bytes,
        duration_ms,
        rtt_ms: Some(10),
        at,
    }
}

fn success(b: u8, bytes: u64, at: u64) -> TransferOutcome {
    outcome(b, OutcomeResult::Success, bytes, 1000, at)
}

fn failure(b: u8, reason: FailureReason, at: u64) -> TransferOutcome {
    let mut o = outcome(b, OutcomeResult::Failure { reason }, 0, 0, at);
    o.rtt_ms = None;
    o
}

#[test]
fn throughput_derived_only_from_measured_bytes_and_duration() {
    let o = TransferOutcome {
        peer_id: pid(1),
        content: content(),
        kind: OutcomeKind::Range {
            index: 0,
            offset: 0,
            length: 1000,
        },
        result: OutcomeResult::Success,
        bytes: 1000,
        duration_ms: 1000,
        rtt_ms: Some(20),
        at: 5,
    };
    assert_eq!(o.throughput_bps(&KIT), Some(m(1000.0)));
    assert!(o.is_success());
    assert!(!o.is_hard_failure());
    assert!(failure(1, FailureReason::VerificationFailed, 5).is_hard_failure());
    assert!(!failure(1, FailureReason::Timeout, 5).is_hard_failure());
}

#[test]
fn zero_duration_or_zero_bytes_has_no_throughput() {
    let mut o = TransferOutcome {
        peer_id: pid(1),
        content: content(),
        kind: OutcomeKind::Request { total_length: 0 },
        result: OutcomeResult::Success,
        bytes: 0,
        duration_ms: 1000,
        rtt_ms: None,
        at: 1,
    };
    assert_eq!(o.throughput_bps(&KIT), None);
    o.bytes = 1000;
    o.duration_ms = 0;
    assert_eq!(o.throughput_bps(&KIT), None);
}

// ---- the whole selector ----------------------------------------------------------------------------------------------

#[derive(Clone, Copy)]
struct SynthPeer {
    throughput: f64,
    reliable: bool,
    saturation_ceiling: Option<u32>,
}

impl SynthPeer {
    fn fast_reliable(tput: f64) -> Self {
        SynthPeer {
            throughput: tput,
            reliable: true,
            saturation_ceiling: None,
        }
    }
    fn with_ceiling(tput: f64, ceiling: u32) -> Self {
        SynthPeer {
            throughput: tput,
            reliable: true,
            saturation_ceiling: Some(ceiling),
        }
    }

    fn measured(&self, concurrency: u32) -> f64 {
        match self.saturation_ceiling {
            Some(c) if concurrency > c => self.throughput * (c as f64) / (concurrency as f64),
            _ => self.throughput,
        }
    }
}

fn drive(
    sel: &mut Selector,
    topo: &HashMap<u8, SynthPeer>,
    parallelism: usize,
    rounds: usize,
    at_start: u64,
) -> HashMap<u8, usize> {
    let mut served: HashMap<u8, usize> = HashMap::new();
    let cands: Vec<Candidate> = topo.keys().map(|&b| cand(b)).collect();
    for r in 0..rounds {
        let at = at_start + r as u64;
        let req = ContentRequest::new(content(), parallelism);
        let selection = sel.select(&req, &cands);
        for sp in &selection.peers {
            let b = sp.peer_id.as_bytes()[0];
            let synth = topo[&b];
            let conc = sp.max_concurrency;
            let tput = synth.measured(conc);
            let ok = synth.reliable;
            *served.entry(b).or_insert(0) += 1;
            let outcome = TransferOutcome {
                peer_id: sp.peer_id,
                content: content(),
                kind: OutcomeKind::Range {
                    index: r,
                    offset: 0,
                    length: 1_000_000,
                },
                result: if ok {
                    OutcomeResult::Success
                } else {
                    OutcomeResult::Failure {
                        reason: FailureReason::Timeout,
                    }
                },
                bytes: (tput as u64).max(1),
                duration_ms: 1000,
                rtt_ms: Some(20),
                at,
            };
            sel.record_outcome(&outcome);
        }
    }
    served
}

#[test]
fn converges_to_fast_reliable() {
    let mut sel = selector(SelectorConfig::deterministic(1000, 7));
    let mut topo = HashMap::new();
    topo.insert(1u8, SynthPeer::fast_reliable(1_000_000.0));
    topo.insert(2u8, SynthPeer::fast_reliable(500_000.0));
    topo.insert(3u8, SynthPeer::fast_reliable(50_000.0));

    let served = drive(&mut sel, &topo, 2, 60, 1000);

    let fast = served.get(&1).copied().unwrap_or(0);
    let slow = served.get(&3).copied().unwrap_or(0);
    assert!(
        fast > slow,
        "fast peer must serve more ranges than slow (fast {fast}, slow {slow})"
    );

    let final_sel = sel.select(
        &ContentRequest::new(content(), 3),
        &[cand(1), cand(2), cand(3)],
    );
    assert_eq!(
        final_sel.best().unwrap().peer_id,
        pid(1),
        "the fast, reliable peer must be ranked best after convergence"
    );
}

#[test]
fn load_spread_off_saturating_peer() {
    let mut sel = selector(SelectorConfig::deterministic(1000, 11));
    let mut topo = HashMap::new();
    topo.insert(1u8, SynthPeer::with_ceiling(2_000_000.0, 2));
    topo.insert(2u8, SynthPeer::fast_reliable(800_000.0));
    topo.insert(3u8, SynthPeer::fast_reliable(700_000.0));

    drive(&mut sel, &topo, 4, 50, 1000);

    let req = ContentRequest::new(content(), 6);
    let selection = sel.select(&req, &[cand(1), cand(2), cand(3)]);

    assert!(
        selection.len() >= 2,
        "load must spread across multiple peers, not pile on one (got {} peers)",
        selection.len()
    );
    let top = selection
        .peers
        .iter()
        .find(|p| p.peer_id == pid(1))
        .expect("the saturating peer should still be selected");
    assert!(
        top.max_concurrency <= 4,
        "the saturating peer's recommended concurrency must be capped near its learned ceiling, got {}",
        top.max_concurrency
    );
    let total: u32 = selection.peers.iter().map(|p| p.max_concurrency).sum();
    assert!(
        total > top.max_concurrency,
        "excess demand must spill to other peers (total {total}, top cap {})",
        top.max_concurrency
    );
}

#[test]
fn degradation_adaptation() {
    let mut sel = selector(SelectorConfig::deterministic(1000, 13));
    let mut topo = HashMap::new();
    topo.insert(1u8, SynthPeer::fast_reliable(1_500_000.0));
    topo.insert(2u8, SynthPeer::fast_reliable(600_000.0));
    drive(&mut sel, &topo, 1, 30, 1000);

    let before = sel.select(&ContentRequest::new(content(), 2), &[cand(1), cand(2)]);
    assert_eq!(
        before.best().unwrap().peer_id,
        pid(1),
        "peer 1 best while fast"
    );

    topo.insert(1u8, SynthPeer::fast_reliable(50_000.0));
    drive(&mut sel, &topo, 1, 20, 2000);

    let after = sel.select(&ContentRequest::new(content(), 2), &[cand(1), cand(2)]);
    assert_eq!(
        after.best().unwrap().peer_id,
        pid(2),
        "ranking must move to the now-faster peer 2 after peer 1 degrades"
    );

    topo.insert(1u8, SynthPeer::fast_reliable(2_000_000.0));
    drive(&mut sel, &topo, 1, 25, 3000);
    let recovered = sel.select(&ContentRequest::new(content(), 2), &[cand(1), cand(2)]);
    assert_eq!(
        recovered.best().unwrap().peer_id,
        pid(1),
        "a recovered peer must rise again"
    );
}

#[test]
fn p99_orientation_beats_naive() {
    let mut sel = selector(SelectorConfig::deterministic(1000, 17));

    for i in 0..40usize {
        let at = 1000u64 + i as u64;
        let t1 = if i % 2 == 0 { 2_000_000.0 } else { 100_000.0 };
        let t2 = 900_000.0;
        for (p, t) in [(1u8, t1), (2u8, t2)] {
            sel.record_outcome(&TransferOutcome {
                peer_id: pid(p),
                content: content(),
                kind: OutcomeKind::Range {
                    index: i,
                    offset: 0,
                    length: 1_000_000,
                },
                result: OutcomeResult::Success,
                bytes: t as u64,
                duration_ms: 1000,
                rtt_ms: Some(20),
                at,
            });
        }
    }

    let s1 = sel.peer_snapshot(&pid(1)).unwrap();
    let s2 = sel.peer_snapshot(&pid(2)).unwrap();
    assert!(
        f(s1.throughput_volatility) > f(s2.throughput_volatility),
        "the heavy-tailed peer must register higher volatility (p1 {}, p2 {})",
        f(s1.throughput_volatility),
        f(s2.throughput_volatility)
    );

    let mut steady_best_or_second = 0;
    for _ in 0..10 {
        let sel_now = sel.select(&ContentRequest::new(content(), 2), &[cand(1), cand(2)]);
        if sel_now.peers.iter().any(|p| p.peer_id == pid(2)) {
            steady_best_or_second += 1;
        }
    }
    assert_eq!(
        steady_best_or_second, 10,
        "the steady peer must remain a first-class source under P99 orientation, never starved"
    );
}

#[test]
fn bounded_exploration_of_cold_peers() {
    let mut sel = selector(SelectorConfig::deterministic(1000, 19));
    let mut topo = HashMap::new();
    for b in 1u8..=5 {
        topo.insert(b, SynthPeer::fast_reliable(500_000.0));
    }
    let served = drive(&mut sel, &topo, 3, 40, 1000);
    for b in 1u8..=5 {
        assert!(
            served.get(&b).copied().unwrap_or(0) > 0,
            "every candidate in an all-cold network must be tried (peer {b} never served)"
        );
    }

    let mut sel2 = selector(SelectorConfig::deterministic(1000, 23));
    let mut warm = HashMap::new();
    warm.insert(1u8, SynthPeer::fast_reliable(2_000_000.0));
    drive(&mut sel2, &warm, 1, 30, 1000);
    let cands: Vec<Candidate> = (1u8..=8).map(cand).collect();
    let selection = sel2.select(&ContentRequest::new(content(), 6), &cands);
    let explore_count = selection.peers.iter().filter(|p| p.exploratory).count();
    assert!(
        explore_count <= 2,
        "cold peers must not crowd out the proven peer (got {explore_count} exploratory of {})",
        selection.len()
    );
    assert!(
        selection
            .peers
            .iter()
            .any(|p| p.peer_id == pid(1) && !p.exploratory),
        "the proven fast peer must be selected as a non-exploratory source"
    );
    assert_eq!(
        selection.best().unwrap().peer_id,
        pid(1),
        "the proven fast peer must rank best over cold peers"
    );
}

fn seeded_history() -> Vec<Vec<(PeerId, u32, bool)>> {
    let mut sel = selector(SelectorConfig::deterministic(1000, 99));
    let cands: Vec<Candidate> = (1u8..=6).map(cand).collect();
    let mut history = Vec::new();
    for r in 0..20usize {
        let at = 1000u64 + r as u64;
        let selection = sel.select(&ContentRequest::new(content(), 3), &cands);
        history.push(
            selection
                .peers
                .iter()
                .map(|p| (p.peer_id, p.rank, p.exploratory))
                .collect(),
        );
        for sp in &selection.peers {
            sel.record_outcome(&TransferOutcome {
                peer_id: sp.peer_id,
                content: content(),
                kind: OutcomeKind::Range {
                    index: r,
                    offset: 0,
                    length: 1000,
                },
                result: OutcomeResult::Success,
                bytes: (300_000 + sp.peer_id.as_bytes()[0] as u64 * 100_000).max(1),
                duration_ms: 1000,
                rtt_ms: Some(10),
                at,
            });
        }
    }
    history
}

#[test]
fn seed_determinism() {
    let a = seeded_history();
    let b = seeded_history();
    assert_eq!(
        a, b,
        "identical seed + clock + outcome stream must yield identical rankings"
    );
}

#[test]
fn anti_gaming_measured_over_advertised() {
    let mut sel = selector(SelectorConfig::deterministic(1000, 29));

    let mut topo = HashMap::new();
    topo.insert(1u8, SynthPeer::fast_reliable(80_000.0));
    topo.insert(2u8, SynthPeer::fast_reliable(1_500_000.0));
    drive(&mut sel, &topo, 1, 30, 1000);

    let ranked = sel.select(&ContentRequest::new(content(), 2), &[cand(1), cand(2)]);
    assert_eq!(
        ranked.best().unwrap().peer_id,
        pid(2),
        "the peer that MEASURES fast must outrank the one that only 'advertises' fast"
    );

    let mut sel2 = selector(SelectorConfig::deterministic(1000, 31));
    let mut at = 1000u64;
    for i in 0..5usize {
        sel2.record_outcome(&TransferOutcome {
            peer_id: pid(3),
            content: content(),
            kind: OutcomeKind::Range {
                index: i,
                offset: 0,
                length: 1000,
            },
            result: OutcomeResult::Success,
            bytes: 1_000_000,
            duration_ms: 1000,
            rtt_ms: Some(10),
            at,
        });
        at += 1;
    }
    for i in 0..8usize {
        sel2.record_outcome(&TransferOutcome {
            peer_id: pid(3),
            content: content(),
            kind: OutcomeKind::Range {
                index: 100 + i,
                offset: 0,
                length: 1000,
            },
            result: OutcomeResult::Failure {
                reason: FailureReason::VerificationFailed,
            },
            bytes: 0,
            duration_ms: 0,
            rtt_ms: None,
            at,
        });
        at += 1;
    }
    let ranked2 = sel2.select(&ContentRequest::new(content(), 2), &[cand(3), cand(4)]);
    assert_eq!(
        ranked2.best().unwrap().peer_id,
        pid(4),
        "a fresh cold peer must rank ahead of a verification-failing (bad/hostile) source"
    );
}

#[test]
fn rebalance_replaces_dropped_source() {
    let mut sel = selector(SelectorConfig::deterministic(1000, 37));
    let mut topo = HashMap::new();
    topo.insert(1u8, SynthPeer::fast_reliable(1_000_000.0));
    topo.insert(2u8, SynthPeer::fast_reliable(900_000.0));
    drive(&mut sel, &topo, 2, 30, 1000);

    sel.upsert_candidate(&cand(3));
    for i in 0..10usize {
        sel.record_outcome(&TransferOutcome {
            peer_id: pid(3),
            content: content(),
            kind: OutcomeKind::Range {
                index: 200 + i,
                offset: 0,
                length: 1000,
            },
            result: OutcomeResult::Success,
            bytes: 950_000,
            duration_ms: 1000,
            rtt_ms: Some(15),
            at: 2000 + i as u64,
        });
    }

    let req = ContentRequest::new(content(), 3);
    let need = RangePlanDelta::of_count(3);
    let replacement = sel.rebalance(&req, &[pid(1), pid(2)], &need);

    assert!(
        !replacement.is_empty(),
        "rebalance must return a replacement subset for the still-needed ranges"
    );
    assert!(
        replacement.peers.iter().any(|p| p.peer_id == pid(3)),
        "rebalance must be able to pick the freshly-learned replacement peer 3"
    );
}

#[test]
fn sel_01_public_api_shapes() {
    let mut sel = selector(SelectorConfig::default());

    let addr = socket(203, 0, 113, 5, 9444);
    sel.on_pool_event(&PoolEvent::PeerAdded {
        peer_id: pid(1),
        addr,
    });
    sel.on_connection_class(&pid(1), TraversalKind::Direct);
    sel.upsert_candidate(&cand(2));
    sel.on_pool_event(&PoolEvent::PeerRemoved {
        peer_id: pid(1),
        reason: PoolRemovalReason::Disconnected,
    });

    let req = ContentRequest {
        content: content(),
        total_length: Some(10_000),
        range_count: Some(4),
        parallelism: 2,
    };
    let selection = sel.select(&req, &[cand(2), cand(3)]);
    for p in &selection.peers {
        let _ = (p.peer_id, p.rank, p.max_concurrency, p.exploratory);
    }

    sel.record_outcome(&TransferOutcome {
        peer_id: pid(2),
        content: content(),
        kind: OutcomeKind::Range {
            index: 0,
            offset: 0,
            length: 2500,
        },
        result: OutcomeResult::Success,
        bytes: 2500,
        duration_ms: 100,
        rtt_ms: Some(12),
        at: 5,
    });
    sel.record_outcome(&TransferOutcome {
        peer_id: pid(3),
        content: content(),
        kind: OutcomeKind::Request {
            total_length: 10_000,
        },
        result: OutcomeResult::Interrupted { bytes_before: 4000 },
        bytes: 4000,
        duration_ms: 500,
        rtt_ms: None,
        at: 6,
    });

    let _ = sel.rebalance(&req, &[pid(2)], &RangePlanDelta::of_indices(vec![1, 2, 3]));

    sel.remove_peer(&pid(3));
    let _snap = sel.snapshot();
    assert!(sel.registry_size() >= 1);

    let reuse = dig_nat::PeerId::from_bytes(*pid(1).as_bytes());
    assert_eq!(reuse.to_hex(), pid(1).to_hex());
    let _content: dig_dht::ContentId = content();
    let _prov = Provenance::Dht;
}

#[test]
fn sel_02_registry_churn_and_bounds() {
    let mut sel = selector(SelectorConfig::deterministic(1000, 3));
    sel.on_pool_event(&PoolEvent::PeerAdded {
        peer_id: pid(1),
        addr: socket(10, 0, 0, 1, 1),
    });
    sel.record_outcome(&TransferOutcome {
        peer_id: pid(1),
        content: content(),
        kind: OutcomeKind::Range {
            index: 0,
            offset: 0,
            length: 1000,
        },
        result: OutcomeResult::Success,
        bytes: 500_000,
        duration_ms: 1000,
        rtt_ms: Some(10),
        at: 1000,
    });
    sel.on_pool_event(&PoolEvent::PeerRemoved {
        peer_id: pid(1),
        reason: PoolRemovalReason::Disconnected,
    });
    let snap = sel
        .peer_snapshot(&pid(1))
        .expect("entry retained across disconnect");
    assert!(
        snap.throughput_bps.is_some(),
        "learned quality retained across disconnect"
    );
    assert!(!snap.connected);

    sel.on_connection_class(&pid(1), TraversalKind::Relayed);
    let snap = sel.peer_snapshot(&pid(1)).unwrap();
    assert_eq!(snap.connection_class.as_deref(), Some("relayed"));
}

#[test]
fn sel_07_download_loop_contract() {
    let mut sel = selector(SelectorConfig::deterministic(1000, 41));
    for i in 0..6u64 {
        sel.record_outcome(&success(1, 1_000_000, 1000 + i));
    }
    let good = f(sel.peer_snapshot(&pid(1)).unwrap().reliability.unwrap());
    sel.record_outcome(&failure(1, FailureReason::VerificationFailed, 2000));
    let after_hard = f(sel.peer_snapshot(&pid(1)).unwrap().reliability.unwrap());
    assert!(
        after_hard < good,
        "a verification failure must drop reliability sharply"
    );
    assert_eq!(sel.peer_snapshot(&pid(1)).unwrap().hard_failures, 1);

    let mut sel2 = selector(SelectorConfig::deterministic(1000, 43));
    for i in 0..6u64 {
        sel2.record_outcome(&success(2, 1_000_000, 1000 + i));
    }
    let before = sel2.peer_snapshot(&pid(2)).unwrap().reliability.unwrap();
    sel2.record_outcome(&failure(2, FailureReason::Cancelled, 2000));
    let after = sel2.peer_snapshot(&pid(2)).unwrap().reliability.unwrap();
    assert_eq!(
        before, after,
        "a host-cancel must not penalize the peer's reliability"
    );
}

#[test]
fn sel_08_relayed_prior_does_not_preempt_measurement() {
    let mut sel = selector(SelectorConfig::deterministic(1000, 47));
    sel.upsert_candidate(&candidate_classed(1, TraversalKind::Relayed));
    sel.upsert_candidate(&candidate_classed(2, TraversalKind::Direct));
    for i in 0..25u64 {
        sel.record_outcome(&success(1, 1_800_000, 1000 + i));
        sel.record_outcome(&success(2, 120_000, 1000 + i));
    }
    let ranked = sel.select(
        &ContentRequest::new(content(), 2),
        &[
            candidate_classed(1, TraversalKind::Relayed),
            candidate_classed(2, TraversalKind::Direct),
        ],
    );
    assert_eq!(
        ranked.best().unwrap().peer_id,
        pid(1),
        "a relayed peer that measures fast must outrank a direct peer that measures slow (measured quality dominates the class prior)"
    );
}

#[test]
fn sel_10_config_is_wiring_only() {
    let cfg = SelectorConfig {
        clock: ClockSource::manual(0),
        rng_seed: Some(1),
        registry_capacity: 10,
    };
    let sel = selector(cfg);
    assert!(sel.registry_size() == 0);
}

// ---- what the selector keeps ---------------------------------------------------------------------------------------------

#[test]
fn nothing_is_noted_of_peers_that_left() {
    let mut cfg = SelectorConfig::deterministic(1000, 5);
    cfg.registry_capacity = 4;
    let mut sel = selector(cfg);
    for b in 0..40u8 {
        let selection = sel.select(&ContentRequest::new(content(), 1), &[cand(b)]);
        assert!(selection.len() <= 1);
        let snap = sel.snapshot();
        assert!(snap.registry_size <= 4);
        assert!(snap.last_selected_len <= snap.registry_size);
        assert!(snap.dispatched_len <= snap.registry_size);
    }
    sel.record_outcome(&success(39, 1000, 1000));
    assert!(
        sel.peer_snapshot(&pid(39)).is_none(),
        "a newcomer leaves again where everyone else is busy"
    );
    sel.record_outcome(&success(0, 1000, 1000));
    let snap = sel.snapshot();
    assert_eq!(snap.registry_size, 4);
    assert_eq!(snap.last_selected_len, 4);
    assert_eq!(snap.dispatched_len, 3);
}

#[test]
fn removing_an_idle_peer_forgets_it() {
    let mut sel = selector(SelectorConfig::deterministic(1000, 5));
    sel.select(&ContentRequest::new(content(), 1), &[cand(1)]);
    assert_eq!(sel.snapshot().last_selected_len, 1);
    sel.remove_peer(&pid(1));
    assert_eq!(sel.registry_size(), 1, "a busy peer is kept");
    sel.set_clock(ClockSource::manual(1000 + DISPATCH_TTL_SECS));
    sel.select(&ContentRequest::new(content(), 1), &[]);
    sel.remove_peer(&pid(1));
    let snap = sel.snapshot();
    assert_eq!(snap.registry_size, 0);
    assert_eq!(snap.last_selected_len, 0);
    assert_eq!(snap.dispatched_len, 0);
    assert_eq!(sel.clock().now(), 1000 + DISPATCH_TTL_SECS);
}

#[test]
fn a_selection_is_dispatched_to_at_once_and_an_outcome_settles_one_range() {
    let mut sel = selector(SelectorConfig::deterministic(1000, 5));
    let selection = sel.select(&ContentRequest::new(content(), 1), &[cand(1)]);
    let first = selection.best().unwrap();
    assert_eq!(first.max_concurrency, 3);
    assert!(first.exploratory);
    assert_eq!(sel.peer_snapshot(&pid(1)).unwrap().in_flight, 3);
    sel.on_dispatch(&pid(1), 2);
    assert_eq!(sel.peer_snapshot(&pid(1)).unwrap().in_flight, 5);
    sel.record_outcome(&success(1, 1000, 1001));
    assert_eq!(sel.peer_snapshot(&pid(1)).unwrap().in_flight, 4);
    sel.on_dispatch(&pid(9), 2);
    assert!(sel.peer_snapshot(&pid(9)).is_none());
    let again = sel.select(&ContentRequest::new(content(), 1), &[cand(1)]);
    assert_eq!(again.best().unwrap().max_concurrency, 1);
}

#[test]
fn the_banned_are_not_selected_until_they_rejoin() {
    let mut sel = selector(SelectorConfig::deterministic(1000, 5));
    sel.upsert_candidate(&cand(1));
    sel.on_pool_event(&PoolEvent::PeerRemoved {
        peer_id: pid(1),
        reason: PoolRemovalReason::Banned,
    });
    let req = ContentRequest::new(content(), 2);
    assert!(sel.select(&req, &[cand(1)]).is_empty());
    assert!(sel
        .rebalance(&req, &[], &RangePlanDelta::of_count(2))
        .is_empty());
    sel.on_pool_event(&PoolEvent::PeerAdded {
        peer_id: pid(1),
        addr: socket(10, 0, 0, 1, 1),
    });
    assert_eq!(sel.select(&req, &[cand(1)]).len(), 1);
}

#[test]
fn selecting_leaves_what_was_learned() {
    let mut sel = selector(SelectorConfig::deterministic(1000, 5));
    sel.record_outcome(&success(1, 1000, 1000));
    let before = sel.peer_snapshot(&pid(1)).unwrap();
    sel.select(&ContentRequest::new(content(), 3), &[cand(1), cand(2)]);
    let after = sel.peer_snapshot(&pid(1)).unwrap();
    assert_eq!(before.throughput_bps, after.throughput_bps);
    assert_eq!(before.reliability, after.reliability);
    assert_eq!(before.samples, after.samples);
    assert_eq!(before.provenance, Provenance::Nat);
    assert_eq!(after.provenance, Provenance::Nat);
}

#[test]
fn interruptions_are_soft_failures_and_leave_throughput() {
    let mut sel = selector(SelectorConfig::deterministic(1000, 5));
    sel.record_outcome(&success(1, 1000, 1000));
    let before = sel.peer_snapshot(&pid(1)).unwrap();
    sel.record_outcome(&outcome(
        1,
        OutcomeResult::Interrupted { bytes_before: 10 },
        10,
        10,
        1001,
    ));
    let after = sel.peer_snapshot(&pid(1)).unwrap();
    assert_eq!(before.throughput_bps, after.throughput_bps);
    assert_eq!(before.rtt_ms, Some(m(10.0)));
    assert_eq!(after.rtt_ms, Some(m(10.0)));
    assert!(f(after.reliability.unwrap()) < f(before.reliability.unwrap()));
    assert_eq!(after.hard_failures, 0);
    assert_eq!(after.samples, 2);
}

#[test]
fn outcomes_are_attributed_to_the_path_and_the_load_of_their_dispatch() {
    let mut sel = selector(SelectorConfig::deterministic(1000, 5));
    let relayed = candidate_classed(1, TraversalKind::Relayed);
    sel.select(&ContentRequest::new(content(), 1), &[relayed]);
    sel.on_connection_class(&pid(1), TraversalKind::Direct);
    sel.record_outcome(&success(1, 1_000_000, 1001));
    sel.on_dispatch(&pid(1), 9);
    sel.record_outcome(&success(1, 2_000_000, 1002));
    let snap = sel.snapshot();
    assert_eq!(snap.saturation_relayed, 2);
    assert_eq!(snap.saturation_direct, 10);
    assert_eq!(snap.saturation_unknown, 3);
    assert_eq!(f(snap.relayed_penalty), 0.5);
}

#[test]
fn rebalancing_prefers_peers_that_are_not_active() {
    let mut sel = selector(SelectorConfig::deterministic(1000, 5));
    for i in 0..10u64 {
        sel.record_outcome(&success(1, 1_000_000, 1000 + i));
        sel.record_outcome(&success(2, 900_000, 1000 + i));
    }
    let req = ContentRequest::new(content(), 2);
    let fresh = sel.rebalance(&req, &[], &RangePlanDelta::of_count(2));
    assert_eq!(fresh.best().unwrap().peer_id, pid(1));
    let replacing = sel.rebalance(&req, &[pid(1)], &RangePlanDelta::of_count(2));
    assert_eq!(replacing.best().unwrap().peer_id, pid(2));
    let one = sel.rebalance(&req, &[], &RangePlanDelta::default());
    assert_eq!(one.len(), 1);
}

#[test]
fn draws_differ_along_the_sequence_and_between_seeds() {
    let orders: Vec<Vec<PeerId>> = (0..8u64)
        .map(|seed| {
            let mut sel = selector(SelectorConfig::deterministic(1000, seed));
            let cands: Vec<Candidate> = (1u8..=9).map(cand).collect();
            sel.select(&ContentRequest::new(content(), 27), &cands)
                .peers
                .iter()
                .map(|p| p.peer_id)
                .collect()
        })
        .collect();
    assert!(orders.iter().all(|order| order.len() == 9));
    assert!(orders.iter().any(|order| *order != orders[0]));
}

#[test]
fn draws_are_those_of_the_seeded_generator() {
    let mut generator = rand_pcg::Pcg64Mcg::seed_from_u64(77);
    let mut numbers: Vec<(u64, u8)> = (1u8..=5).map(|b| (generator.gen::<u64>(), b)).collect();
    numbers.sort();
    let expected: Vec<PeerId> = numbers.iter().map(|(_, b)| pid(*b)).collect();

    let mut sel = selector(SelectorConfig::deterministic(1000, 77));
    let cands: Vec<Candidate> = (1u8..=5).map(cand).collect();
    let first: Vec<PeerId> = sel
        .select(&ContentRequest::new(content(), 15), &cands)
        .peers
        .iter()
        .map(|p| p.peer_id)
        .collect();
    assert_eq!(first, expected);

    let mut later: Vec<(u64, u8)> = (1u8..=5).map(|b| (generator.gen::<u64>(), b)).collect();
    later.sort();
    let expected_later: Vec<PeerId> = later.iter().map(|(_, b)| pid(*b)).collect();
    let second: Vec<PeerId> = sel
        .select(&ContentRequest::new(content(), 15), &cands)
        .peers
        .iter()
        .map(|p| p.peer_id)
        .collect();
    assert_eq!(second, expected_later);
}

// ---- over many calls -------------------------------------------------------------------------------------------

#[test]
fn flagged_picks_stay_within_the_cap() {
    let mut s = selector(SelectorConfig::deterministic(1000, 1));
    for _ in 0..3 {
        s.select(&ContentRequest::new(content(), 1), &[cand(2)]);
        s.record_outcome(&success(2, 2000, 1000));
    }
    s.record_outcome(&success(1, 1000, 1000));
    let pool = [cand(1), cand(2), cand(3), cand(4)];
    s.upsert_candidate(&pool[2]);
    s.upsert_candidate(&pool[3]);
    let r = s.select(&ContentRequest::new(content(), 3), &pool);
    let flagged = r.peers.iter().filter(|p| p.exploratory).count();
    assert!(flagged <= explore_slots(3));
    assert_eq!(explore_slots(3), 1);
}

#[test]
fn the_faster_peer_gets_the_larger_share() {
    let mut s = selector(SelectorConfig::deterministic(1000, 29));
    let mut rounds: HashMap<u8, usize> = HashMap::new();
    for _ in 0..30 {
        let r = s.select(&ContentRequest::new(content(), 1), &[cand(1), cand(2)]);
        assert_eq!(r.len(), 1);
        let b = r.peers[0].peer_id.as_bytes()[0];
        *rounds.entry(b).or_insert(0) += 1;
        let bytes = if b == 1 { 80_000 } else { 1_500_000 };
        s.record_outcome(&success(b, bytes, 1000));
    }
    assert!(rounds[&2] > rounds[&1]);
    assert!(rounds[&1] > 0);
}

#[test]
fn a_peer_at_its_saturation_point_gets_no_further_ranges() {
    let mut s = selector(SelectorConfig::deterministic(1000, 1));
    s.record_outcome(&success(1, 1000, 1000));
    s.on_dispatch(&pid(1), 3);
    assert_eq!(s.snapshot().saturation_unknown, 3);
    let r = s.select(&ContentRequest::new(content(), 2), &[cand(1), cand(2)]);
    assert_eq!(s.peer_snapshot(&pid(1)).unwrap().in_flight, 3);
    assert_eq!(r.len(), 1);
    assert_eq!(r.peers[0].peer_id, pid(2));
    assert_eq!(s.peer_snapshot(&pid(2)).unwrap().in_flight, 3);
    let again = s.select(&ContentRequest::new(content(), 1), &[cand(1), cand(2)]);
    assert_eq!(again.len(), 1, "nobody has headroom, so somebody gets one range");
    assert_eq!(again.peers[0].max_concurrency, 1);
}

#[test]
fn worse_throughput_at_more_concurrency_never_raises_the_saturation_point() {
    let mut model = SaturationModel::default();
    for _ in 0..9 {
        model.observe(PeerClass::DirectPath, 1, m(100.0), &KIT);
    }
    model.observe(PeerClass::DirectPath, 10, m(200.0), &KIT);
    assert_eq!(model.saturation_point(PeerClass::DirectPath), 5);
    let mut point = model.direct.point;
    for _ in 0..5 {
        model.observe(PeerClass::DirectPath, 20, m(100.0), &KIT);
        assert!(model.direct.point.bits <= point.bits);
        point = model.direct.point;
    }
    assert_eq!(model.saturation_point(PeerClass::DirectPath), 5);
}

#[test]
fn the_report_of_a_path_is_the_strongest_evidence() {
    let mut r = Registry::new(100);
    r.upsert_candidate(&cand(1), Provenance::Dht, 100, &KIT);
    assert_eq!(
        r.set_connection_class(pid(1), TraversalKind::Direct, 100, &KIT),
        FeedResult::Updated
    );
    let e = r.get(&pid(1)).unwrap();
    assert_eq!(e.connection_class, Some(TraversalKind::Direct));
    assert_eq!(e.provenance, Provenance::Nat);
}

#[test]
fn an_unmeasured_peer_shows_nothing_measured() {
    let mut s = selector(SelectorConfig::deterministic(1000, 1));
    s.upsert_candidate(&cand(1));
    let x = s.peer_snapshot(&pid(1)).unwrap();
    assert_eq!(x.samples, 0);
    assert_eq!(x.throughput_bps, None);
    assert_eq!(x.rtt_ms, None);
    assert_eq!(x.reliability, None);
    assert_eq!(x.hard_failures, 0);
    assert_eq!(x.in_flight, 0);
    assert_eq!(x.provenance, Provenance::Manual);
    let mut e = entry(2);
    e.quality.throughput.seed_prior(m(50.0));
    assert_eq!(PeerSnapshot::of(&e, &KIT).throughput_bps, None);
}

#[test]
fn nobody_starves_over_selections_with_outcomes_in_between() {
    for want in 1..4usize {
        let n = 5u8;
        let mut s = selector(SelectorConfig::deterministic(1000, 3));
        let pool: Vec<Candidate> = (1..=n).map(cand).collect();
        for c in &pool {
            s.upsert_candidate(c);
        }
        for b in 1..=n {
            s.record_outcome(&success(b, 1000 * b as u64 * b as u64, 1000));
        }
        let mut seen: HashMap<u8, usize> = HashMap::new();
        for turn in 0..(2 * n as usize - 1) {
            let r = s.select(&ContentRequest::new(content(), want), &pool);
            for p in &r.peers {
                let b = p.peer_id.as_bytes()[0];
                seen.entry(b).or_insert(turn);
                s.record_outcome(&success(b, 1000 * b as u64 * b as u64, 1000));
            }
        }
        assert_eq!(seen.len(), n as usize, "{want} slots");
    }
}

#[test]
fn equal_histories_are_answered_alike_by_rebalancing_too() {
    let history = || {
        let mut s = selector(SelectorConfig::deterministic(1000, 11));
        for b in 1..8u8 {
            s.upsert_candidate(&cand(b));
        }
        s.record_outcome(&success(3, 5000, 1000));
        s.on_connection_class(&pid(4), TraversalKind::Relayed);
        let first = s.select(&ContentRequest::new(content(), 3), &[cand(1), cand(3), cand(5)]);
        let second = s.rebalance(
            &ContentRequest::new(content(), 4),
            &[pid(3)],
            &RangePlanDelta::of_count(4),
        );
        (first, second)
    };
    assert_eq!(history(), history());
}

#[test]
fn a_candidate_named_twice_is_chosen_once() {
    let mut s = selector(SelectorConfig::deterministic(1000, 1));
    s.record_outcome(&success(1, 1000, 1000));
    let r = s.select(&ContentRequest::new(content(), 2), &[cand(1), cand(1)]);
    assert_eq!(r.len(), 1);
    assert_eq!(s.peer_snapshot(&pid(1)).unwrap().in_flight, 3);
}

#[test]
fn scores_go_by_measurements_and_path_alone() {
    let plain = measured(1, 100.0, 200.0, 1, TraversalKind::Direct);
    let mut other = measured(1, 100.0, 200.0, 1, TraversalKind::Upnp);
    other.provenance = Provenance::Nat;
    other.addresses = vec![address(), address()];
    other.connected = true;
    other.first_seen = 77;
    let judged = |e: &PeerEntry| {
        score_peer(
            e,
            &SaturationModel::default(),
            &RelayModel::default(),
            m(0.0),
            &KIT,
        )
    };
    assert_eq!(judged(&plain), judged(&other));
    let relayed = measured(1, 100.0, 200.0, 0, TraversalKind::Relayed);
    let direct = measured(1, 100.0, 200.0, 0, TraversalKind::Direct);
    assert_eq!(score_of(&relayed), score_of(&direct) * 0.85);
}

#[test]
fn being_active_costs_rank_and_headroom() {
    let mark = ScoredPeer {
        effective_score: m(80.0).bits as i128,
        headroom: 3,
        exploratory: false,
        tie_break: 1,
    };
    let idle = finish(mark, m(0.0), false, &KIT);
    let active = finish(mark, m(0.0), true, &KIT);
    let rival = contender(9, 60.0, false, 9, 0);
    let field = |score: ScoredPeer| {
        let mut own = contender(1, 0.0, false, 9, 0);
        own.score = score;
        vec![own, rival]
    };
    assert_eq!(names(&field(idle), 2, 10), vec![1, 9]);
    assert_eq!(names(&field(active), 2, 10), vec![9, 1]);
    assert_eq!(choose_peers(&field(idle), 2, 10).peers[0].max_concurrency, 3);
    assert_eq!(choose_peers(&field(active), 2, 10).peers[1].max_concurrency, 2);
}

#[test]
fn success_rates_stay_between_zero_and_one() {
    let mut r = Reliability::new();
    r.seed_prior(m(0.5));
    for i in 0..200u32 {
        r.observe(i % 7 != 0, i % 3 == 0, &KIT);
        let rate = f(r.rate().unwrap());
        assert!((0.0..=1.0).contains(&rate));
    }
    for _ in 0..200 {
        r.observe(true, false, &KIT);
        assert!(f(r.rate().unwrap()) <= 1.0);
    }
}

#[test]
fn doubles_round_in_order() {
    let values = grid();
    for pair in values.windows(2) {
        assert!(KIT.nearest(m(pair[0])) <= KIT.nearest(m(pair[1])));
        assert_eq!(KIT.product(m(pair[0]), m(1.0)), m(pair[0]));
    }
}

fn same_as_the_machine(a: Measure, b: Measure) {
    assert_eq!(KIT.sum(a, b), Machine.sum(a, b), "{a:?} + {b:?}");
    assert_eq!(KIT.gap(a, b), Machine.gap(a, b), "{a:?} - {b:?}");
    assert_eq!(KIT.product(a, b), Machine.product(a, b), "{a:?} * {b:?}");
    assert_eq!(KIT.quotient(a, b), Machine.quotient(a, b), "{a:?} / {b:?}");
    assert_eq!(KIT.nearest(a), Machine.nearest(a), "{a:?}");
}

#[test]
fn doubles_agree_with_the_machine_on_edges() {
    let mut values: Vec<Measure> = grid().into_iter().map(m).collect();
    for bits in [
        2,
        0x000F_FFFF_FFFF_FFFF,
        0x0010_0000_0000_0000,
        0x0010_0000_0000_0001,
        0x001F_FFFF_FFFF_FFFF,
        0x3FEF_FFFF_FFFF_FFFF,
        0x3FF0_0000_0000_0001,
        0x41EF_FFFF_FFE0_0000,
        0x41EF_FFFF_FFF0_0000,
        0x41F0_0000_0000_0000,
        0x4340_0000_0000_0000,
        0x5FE0_0000_0000_0001,
        0x7FEF_FFFF_FFFF_FFFE,
        0x7FF0_0000_0000_0001,
        0x7FF8_0000_0000_0000,
    ] {
        values.push(Measure { bits });
    }
    for &a in &values {
        for &b in &values {
            same_as_the_machine(a, b);
        }
    }
    for n in [0, 1, 2, 3, (1 << 53) - 1, 1 << 53, (1 << 53) + 1, (1 << 53) + 3, u64::MAX - 1, u64::MAX] {
        assert_eq!(KIT.count(n), Machine.count(n));
    }
    for halves in 0..2000u64 {
        let x = m(halves as f64 / 2.0);
        assert_eq!(KIT.nearest(x), Machine.nearest(x));
    }
}

#[test]
fn doubles_agree_with_the_machine_at_random() {
    let mut rng = rand_pcg::Pcg64::seed_from_u64(7);
    for _ in 0..20_000 {
        let a = Measure { bits: rng.gen::<u64>() >> 1 };
        let b = Measure { bits: rng.gen::<u64>() >> 1 };
        same_as_the_machine(a, b);
        // Two of about the same size, where sums round and differences cancel.
        let near = rng.gen_range(0..60u64) << 52;
        let c = Measure { bits: (0x3FC0_0000_0000_0000 + near) | (rng.gen::<u64>() >> 12) };
        let d = Measure { bits: (0x3FE0_0000_0000_0000 + near) | (rng.gen::<u64>() >> 12) };
        same_as_the_machine(c, d);
        // Products and quotients on the brink of what doubles reach.
        let small = Measure { bits: rng.gen::<u64>() >> 10 };
        same_as_the_machine(small, c);
        same_as_the_machine(c, small);
        let n = rng.gen::<u64>() >> rng.gen_range(0..64u32);
        assert_eq!(KIT.count(n), Machine.count(n));
    }
}

#[test]
fn rates_move_as_the_plain_formula_says() {
    for start in 0..=1000u64 {
        for samples in 0..6u64 {
            for ok in [true, false] {
                let rate = start as f64 / 1000.0;
                let mut r = Reliability {
                    rate: Some(m(rate)),
                    samples,
                    hard_failures: 0,
                };
                r.observe(ok, false, &KIT);
                let weight = (1.0 / (samples as f64 + 1.0)).max(0.25);
                let target = if ok { 1.0 } else { 0.0 };
                let plain = (1.0 - weight) * rate + weight * target;
                assert_eq!(f(r.rate().unwrap()), plain);
            }
        }
    }
    let mut high = Reliability {
        rate: Some(m(1.0)),
        samples: 2,
        hard_failures: 0,
    };
    for k in 0..2000u64 {
        let rate = f64::from_bits(1.0f64.to_bits() - k);
        for samples in 0..4u64 {
            high.rate = Some(m(rate));
            high.samples = samples;
            high.observe(true, false, &KIT);
            let weight = (1.0 / (samples as f64 + 1.0)).max(0.25);
            let plain = (1.0 - weight) * rate + weight;
            assert_eq!(f(high.rate().unwrap()), plain);
            assert!(rate <= plain && plain <= 1.0);
        }
    }
}

#[test]
fn rates_follow_the_results() {
    let mut r = Reliability::new();
    r.seed_prior(m(7.0));
    assert_eq!(r.rate, Some(m(1.0)));
    let mut before = r;
    for (ok, hard) in [
        (true, false),
        (false, true),
        (true, true),
        (false, false),
        (true, false),
        (true, false),
        (false, true),
    ] {
        r.observe(ok, hard, &KIT);
        let (old, new) = (f(before.rate.unwrap()), f(r.rate.unwrap()));
        assert!((0.0..=1.0).contains(&new));
        assert!(if ok { new >= old } else { new <= old });
        let counted = if !ok && hard { 1 } else { 0 };
        assert_eq!(r.hard_failures(), before.hard_failures() + counted);
        before = r;
    }
    let (mut plain, mut hard) = (before, before);
    plain.observe(true, false, &KIT);
    hard.observe(true, true, &KIT);
    assert_eq!(plain, hard);
}

#[test]
fn means_follow_the_samples() {
    for mean in [1.0, 3.7, 250.0, 1e6, 1.2345678e9, 1e-9] {
        for samples in [1u64, 3, 20] {
            let estimate = Estimate {
                mean: Some(m(mean)),
                mad: m(mean / 7.0),
                samples,
            };
            for ratio in [0.0, 0.1, 0.5, 0.999999, 1.0, 1.000001, 2.0, 50.0] {
                let mut after = estimate;
                let sample = mean * ratio;
                after.observe(m(sample), &KIT);
                let new = f(after.value().unwrap());
                if sample <= mean {
                    assert!(new.to_bits() <= mean.to_bits() + 1);
                }
                if sample.to_bits() + 32 <= mean.to_bits() {
                    assert!(new < mean);
                }
                if sample.to_bits() >= mean.to_bits() + 64 {
                    assert!(new > mean);
                }
                assert!(new <= (1.0 - 0.15) * mean + sample);
                assert!(new >= 0.15 * sample);
            }
        }
    }
}

#[test]
fn a_default_registry_keeps_nobody() {
    let mut r = Registry::default();
    assert!(r.is_empty());
    r.upsert_candidate(&cand(1), Provenance::Manual, 5, &KIT);
    assert!(r.is_empty());
    assert_eq!(r.drain_evicted(), vec![pid(1)]);
}

#[test]
fn nobody_starves_over_selections_and_rebalancings_in_any_order() {
    let n = 5u8;
    let mut s = selector(SelectorConfig::deterministic(1000, 3));
    let mut pool: Vec<Candidate> = (1..=n).map(cand).collect();
    for c in &pool {
        s.upsert_candidate(c);
    }
    for b in 1..=n {
        s.record_outcome(&success(b, 1000 * b as u64 * b as u64, 1000));
    }
    let mut seen: HashMap<u8, usize> = HashMap::new();
    for turn in 0..(2 * n as usize - 1) {
        let request = ContentRequest::new(content(), 2);
        let r = if turn % 2 == 0 {
            pool.reverse();
            s.select(&request, &pool)
        } else {
            s.rebalance(&request, &[pid(5)], &RangePlanDelta::of_count(2))
        };
        assert_eq!(r.len(), 2);
        for p in &r.peers {
            let b = p.peer_id.as_bytes()[0];
            seen.entry(b).or_insert(turn);
            for _ in 0..p.max_concurrency {
                s.record_outcome(&success(b, 1000 * b as u64 * b as u64, 1000));
            }
        }
    }
    assert_eq!(seen.len(), n as usize);
}

#[test]
fn being_active_never_helps_in_a_rebalancing() {
    let rebalanced = |active: &[PeerId]| {
        let mut s = selector(SelectorConfig::deterministic(1000, 21));
        for b in 1..=6u8 {
            s.upsert_candidate(&cand(b));
        }
        for b in 1..=4u8 {
            for _ in 0..5 {
                s.record_outcome(&success(b, 10_000 * (10 - b as u64), 1000));
            }
        }
        let need = RangePlanDelta::of_count(6);
        s.rebalance(&ContentRequest::new(content(), 6), active, &need)
    };
    for busy in 1..=4u8 {
        for others in [vec![], vec![pid(1 + busy % 4)], vec![pid(5)]] {
            let mut more = others.clone();
            more.push(pid(busy));
            let (idle, active) = (rebalanced(&others), rebalanced(&more));
            let find = |s: &dig_peer_selector::Selection| {
                s.peers.iter().find(|p| p.peer_id == pid(busy)).copied().unwrap()
            };
            let (before, after) = (find(&idle), find(&active));
            assert!(before.rank <= after.rank);
            assert!(after.max_concurrency <= before.max_concurrency);
        }
    }
}

#[test]
fn an_idle_peer_over_a_relay_scores_the_handicap_times_its_direct_score() {
    let (saturation, mut relay) = (SaturationModel::default(), RelayModel::default());
    relay.observe(false, m(900.0), &KIT);
    relay.observe(true, m(500.0), &KIT);
    let direct = measured(1, 700.0, 300.0, 0, TraversalKind::Direct);
    let relayed = measured(1, 700.0, 300.0, 0, TraversalKind::Relayed);
    let score = |e: &PeerEntry| {
        let mark = score_peer(e, &saturation, &relay, m(0.0), &KIT);
        Measure { bits: mark.effective_score as u64 }
    };
    assert_eq!(score(&relayed), KIT.product(score(&direct), relay.penalty(&KIT)));
    assert!(score(&relayed).bits < score(&direct).bits);
}

fn mixed_history<A: Arithmetic>(mut s: PeerSelector<A>) -> Vec<Vec<(PeerId, u32, bool)>> {
    let pool: Vec<Candidate> = (1..=9).map(cand).collect();
    let mut answers = Vec::new();
    for round in 0..40u64 {
        let r = if round % 3 == 2 {
            let active = [pid(1), pid(4)];
            s.rebalance(&ContentRequest::new(content(), 4), &active, &RangePlanDelta::of_count(3))
        } else {
            s.select(&ContentRequest::new(content(), 3), &pool)
        };
        for p in &r.peers {
            let b = p.peer_id.as_bytes()[0];
            if (b as u64 + round) % 5 == 0 {
                s.record_outcome(&failure(b, FailureReason::Timeout, 1000 + round));
            } else {
                let bytes = 7919 * (b as u64) * (1 + round % 7);
                s.record_outcome(&success(b, bytes, 1000 + round));
            }
        }
        answers.push(
            r.peers
                .iter()
                .map(|p| (p.peer_id, p.max_concurrency, p.exploratory))
                .collect(),
        );
    }
    answers
}

#[test]
fn a_selector_answers_alike_with_the_arithmetic_of_the_machine() {
    let config = || SelectorConfig::deterministic(1000, 5);
    assert_eq!(
        mixed_history(PeerSelector::new(config())),
        mixed_history(PeerSelector::with_arithmetic(config(), Machine)),
    );
}

#[test]
fn means_settle_on_a_stationary_stream() {
    for (start, sample) in [(1e9, 1e3), (1e3, 1e9), (5.0, 5.0), (0.1, 0.0)] {
        let bound: f64 = if start > sample { start } else { sample };
        let bound = f64::from_bits(bound.to_bits() + 64);
        let near = 32.0 * (f64::from_bits(bound.to_bits() + 1) - bound);
        let mut estimate = Estimate {
            mean: Some(m(start)),
            mad: m(0.0),
            samples: 50,
        };
        let mut distance: f64 = start - sample;
        for _ in 0..600 {
            estimate.observe(m(sample), &KIT);
            let next = f(estimate.value().unwrap()) - sample;
            assert!(next.abs() <= near || next.abs() <= distance.abs() * 15.0 / 16.0);
            distance = next;
        }
        assert!(distance.abs() <= near);
    }
}
