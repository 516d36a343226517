//! Plain values: clocks, configurations, requests, outcomes and identities.

use std::time::{Duration, UNIX_EPOCH};

use dig_peer_selector::address::{copy_addresses, AddressKind, CandidateAddr, IpAddress};
use dig_peer_selector::config::{seconds_of, DEFAULT_SEED};
use dig_peer_selector::observe::traversal_kind_name;
use dig_peer_selector::{
    peer_id_hex, Candidate, ClockSource, ContentId, ContentRequest, FailureReason, PeerId,
    PoolEvent, PoolRemovalReason, Provenance, ProviderRecord, RangePlanDelta, SelectedPeer,
    Selection, SelectorConfig, SocketAddress, TraversalKind, DEFAULT_REGISTRY_CAPACITY,
    MAX_DIAL_CANDIDATES,
};

const S: [u8; 32] = [0x11; 32];

fn pid(b: u8) -> PeerId {
    PeerId::from_bytes([b; 32])
}

fn v4(a: u8, b: u8, c: u8, d: u8, port: u16) -> SocketAddress {
    SocketAddress {
        ip: IpAddress::V4([a, b, c, d]),
        port,
    }
}

#[test]
fn manual_clock_advances_and_sets() {
    let mut c = ClockSource::manual(100);
    assert_eq!(c.now(), 100);
    c.advance(50);
    assert_eq!(c.now(), 150);
    c.set(10);
    assert_eq!(c.now(), 10);
}

#[test]
fn manual_clock_wraps_at_the_end_of_its_range() {
    let mut c = ClockSource::manual(u64::MAX);
    c.advance(3);
    assert_eq!(c.now(), 2);
}

#[test]
fn system_clock_is_nonzero_and_ignores_manual_ops() {
    let mut c = ClockSource::system();
    assert!(c.now() > 1_600_000_000);
    c.advance(1000);
    c.set(0);
    assert!(c.now() > 1_600_000_000);
}

#[test]
fn readings_of_the_machine_clock_are_whole_seconds() {
    assert_eq!(seconds_of(Ok(Duration::from_millis(2999))), 2);
    assert_eq!(seconds_of(Ok(Duration::from_secs(u64::MAX))), u64::MAX);
    let early = UNIX_EPOCH - Duration::from_secs(5);
    assert_eq!(seconds_of(early.duration_since(UNIX_EPOCH)), 0);
}

#[test]
fn default_config_uses_system_clock_and_default_capacity() {
    let cfg = SelectorConfig::default();
    assert_eq!(cfg.registry_capacity, DEFAULT_REGISTRY_CAPACITY);
    assert!(cfg.rng_seed.is_none());
    assert_eq!(
        cfg.effective_seed(),
        SelectorConfig::default().effective_seed()
    );
    assert_ne!(
        cfg.effective_seed(),
        0,
        "the fixed default seed is deterministic + non-zero"
    );
    assert_eq!(cfg.effective_seed(), DEFAULT_SEED);
    assert_eq!(cfg.clock, ClockSource::System);
    assert_eq!(ClockSource::default(), ClockSource::System);
}

#[test]
fn deterministic_config_is_reproducible() {
    let a = SelectorConfig::deterministic(1000, 42);
    let b = SelectorConfig::deterministic(1000, 42);
    assert_eq!(a.clock.now(), b.clock.now());
    assert_eq!(a.effective_seed(), b.effective_seed());
    assert_eq!(a.effective_seed(), 42);
}

#[test]
fn clock_debug_renders() {
    assert!(format!("{:?}", ClockSource::system()).contains("System"));
    assert!(format!("{:?}", ClockSource::manual(7)).contains('7'));
}

#[test]
fn peer_id_hex_helper() {
    assert_eq!(peer_id_hex(&pid(0xAB)), pid(0xAB).to_hex());
}

#[test]
fn identities_are_spelled_in_lower_case_digits_and_read_in_either_case() {
    let mut bytes = [0u8; 32];
    bytes[0] = 0x0A;
    bytes[1] = 0xF7;
    bytes[31] = 0x3C;
    let id = PeerId::from_bytes(bytes);
    let text = id.to_hex();
    assert_eq!(text.len(), 64);
    assert!(text.starts_with("0af700"));
    assert!(text.ends_with("3c"));
    assert_eq!(PeerId::from_hex(&text), Some(id));
    assert_eq!(PeerId::from_hex(&text.to_uppercase()), Some(id));
    assert_eq!(PeerId::from_hex(&text[1..]), None);
    assert_eq!(PeerId::from_hex(&text.replace('f', "g")), None);
    assert_eq!(PeerId::from_hex(""), None);
    assert!(id.same(&PeerId::from_bytes(*id.as_bytes())));
    assert!(!id.same(&pid(1)));
}

#[test]
fn pool_event_variants_construct_and_compare() {
    let addr = v4(203, 0, 113, 7, 9444);
    let a = PoolEvent::PeerAdded {
        peer_id: pid(1),
        addr,
    };
    let b = PoolEvent::PeerRemoved {
        peer_id: pid(1),
        reason: PoolRemovalReason::Banned,
    };
    assert_ne!(a, b);
    assert_eq!(
        a.clone(),
        PoolEvent::PeerAdded {
            peer_id: pid(1),
            addr
        }
    );
}

#[test]
fn removal_reasons_are_distinct() {
    assert_ne!(PoolRemovalReason::Disconnected, PoolRemovalReason::Banned);
    assert_ne!(PoolRemovalReason::Dead, PoolRemovalReason::Banned);
}

#[test]
fn provenance_evidence_orders_live_links_above_hints() {
    assert!(Provenance::Nat.evidence() > Provenance::Gossip.evidence());
    assert!(Provenance::Gossip.evidence() > Provenance::Dht.evidence());
    assert!(Provenance::Dht.evidence() > Provenance::Pex.evidence());
    assert!(Provenance::Pex.evidence() > Provenance::Manual.evidence());
    assert_eq!(Provenance::Nat.evidence(), 4);
}

#[test]
fn content_request_clamps_parallelism_to_at_least_one() {
    let r = ContentRequest::new(ContentId::store(S), 0);
    assert_eq!(r.effective_parallelism(), 1);
    let r = ContentRequest::new(ContentId::store(S), 5);
    assert_eq!(r.effective_parallelism(), 5);
}

#[test]
fn candidate_from_provider_record_round_trips_peer_id() {
    let published = dig_dht::ProviderRecord::new(
        &ContentId::store(S).to_key(),
        &dig_dht::PeerId::from_bytes([7; 32]),
        vec![dig_dht::CandidateAddr::direct("203.0.113.7", 9444)],
        1000,
    );
    let rec = ProviderRecord {
        content_key: published.content_key.clone(),
        provider_peer_id: published.provider_peer_id.clone(),
        addresses: published
            .addresses
            .iter()
            .map(|a| {
                CandidateAddr::direct(
                    a.host.clone(),
                    a.port,
                    Some(IpAddress::V4([203, 0, 113, 7])),
                )
            })
            .collect(),
        expires_at: published.expires_at,
    };
    let cand = Candidate::from_provider_record(&rec).unwrap();
    assert_eq!(cand.peer_id, pid(7));
    assert_eq!(cand.addresses.len(), 1);
    assert_eq!(cand.addresses[0].host, "203.0.113.7");
    assert_eq!(cand.class, None);
}

#[test]
fn a_record_with_a_malformed_identity_is_no_candidate() {
    let rec = ProviderRecord {
        content_key: String::new(),
        provider_peer_id: String::from("not an identity"),
        addresses: Vec::new(),
        expires_at: 0,
    };
    assert!(Candidate::from_provider_record(&rec).is_none());
}

#[test]
fn verification_failed_is_hard_and_blames_peer() {
    assert!(FailureReason::VerificationFailed.is_hard());
    assert!(FailureReason::VerificationFailed.blames_peer());
    assert!(!FailureReason::Timeout.is_hard());
    assert!(!FailureReason::Cancelled.blames_peer());
    assert!(FailureReason::Timeout.blames_peer());
}

#[test]
fn range_plan_delta_constructors() {
    assert_eq!(RangePlanDelta::of_count(3).needed_ranges, vec![0, 1, 2]);
    assert_eq!(
        RangePlanDelta::of_indices(vec![4, 9]).needed_ranges,
        vec![4, 9]
    );
    assert!(RangePlanDelta::default().is_empty());
    assert_eq!(RangePlanDelta::of_count(2).len(), 2);
}

#[test]
fn selection_helpers() {
    let mut s = Selection::empty();
    assert!(s.is_empty());
    assert!(s.best().is_none());
    s.peers.push(SelectedPeer {
        peer_id: pid(1),
        rank: 0,
        max_concurrency: 2,
        exploratory: false,
    });
    assert_eq!(s.len(), 1);
    assert_eq!(s.best().unwrap().peer_id, pid(1));
    assert!(Selection::default().is_empty());
}

#[test]
fn address_kinds_rank_from_direct_to_relay() {
    assert_eq!(AddressKind::Direct.rank(), 0);
    assert_eq!(AddressKind::Mapped.rank(), 1);
    assert_eq!(AddressKind::Reflexive.rank(), 2);
    assert_eq!(AddressKind::Relay.rank(), 3);
    assert!(AddressKind::Direct.is_dialable());
    assert!(AddressKind::Mapped.is_dialable());
    assert!(AddressKind::Reflexive.is_dialable());
    assert!(!AddressKind::Relay.is_dialable());
}

#[test]
fn copied_addresses_are_equal() {
    let addresses = vec![
        CandidateAddr::direct(String::from("a"), 1, None),
        CandidateAddr {
            host: String::from("10.0.0.1"),
            port: 2,
            kind: AddressKind::Mapped,
            ip: Some(IpAddress::V4([10, 0, 0, 1])),
        },
    ];
    assert_eq!(copy_addresses(&addresses), addresses);
}

#[test]
fn paths_have_stable_names() {
    assert_eq!(traversal_kind_name(TraversalKind::Direct), "direct");
    assert_eq!(traversal_kind_name(TraversalKind::Upnp), "upnp");
    assert_eq!(traversal_kind_name(TraversalKind::NatPmp), "natpmp");
    assert_eq!(traversal_kind_name(TraversalKind::Pcp), "pcp");
    assert_eq!(traversal_kind_name(TraversalKind::HolePunch), "holepunch");
    assert_eq!(traversal_kind_name(TraversalKind::Relayed), "relayed");
}

#[test]
fn the_dial_bound_is_the_one_the_order_applies() {
    assert_eq!(MAX_DIAL_CANDIDATES, dig_dht::MAX_DIAL_CANDIDATES);
}
