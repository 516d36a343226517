//! From a selection to dial targets.

use dig_peer_selector::dial::{sockets_of, Endpoint};
use dig_peer_selector::{
    AddressKind, Candidate, CandidateAddr, ContentId, ContentRequest, IpAddress, PeerId,
    PeerSelector, PeerTarget, SelectorConfig, SocketAddress, MAX_DIAL_CANDIDATES,
};

const NETWORK: &str = "mainnet";

fn pid(b: u8) -> PeerId {
    PeerId::from_bytes([b; 32])
}

fn selector() -> PeerSelector {
    PeerSelector::new(SelectorConfig::default())
}

fn request() -> ContentRequest {
    ContentRequest::new(ContentId::store([0x42; 32]), 8)
}

/// `10.0.0.last`.
fn addr4(last: u8, port: u16, kind: AddressKind) -> CandidateAddr {
    CandidateAddr {
        host: format!("10.0.0.{last}"),
        port,
        kind,
        ip: Some(IpAddress::V4([10, 0, 0, last])),
    }
}

fn ip6(last: u8) -> IpAddress {
    let mut octets = [0u8; 16];
    octets[0] = 0x20;
    octets[1] = 0x01;
    octets[2] = 0x0d;
    octets[3] = 0xb8;
    octets[15] = last;
    IpAddress::V6(octets)
}

/// `2001:db8::last`.
fn addr6(last: u8, port: u16, kind: AddressKind) -> CandidateAddr {
    CandidateAddr {
        host: format!("2001:db8::{last}"),
        port,
        kind,
        ip: Some(ip6(last)),
    }
}

fn host_name(host: &str, port: u16, kind: AddressKind) -> CandidateAddr {
    CandidateAddr {
        host: host.to_string(),
        port,
        kind,
        ip: None,
    }
}

fn socket4(last: u8, port: u16) -> SocketAddress {
    SocketAddress {
        ip: IpAddress::V4([10, 0, 0, last]),
        port,
    }
}

fn is_v6(socket: &SocketAddress) -> bool {
    matches!(socket.ip, IpAddress::V6(_))
}

fn plan(candidates: &[Candidate]) -> Vec<(PeerId, PeerTarget)> {
    let mut selector = selector();
    let selection = selector.select(&request(), candidates);
    assert!(!selection.is_empty(), "fixture must select something");
    selector
        .dial_plan(&selection, NETWORK)
        .into_iter()
        .map(|(chosen, target)| (chosen.peer_id, target))
        .collect()
}

#[test]
fn plan_carries_the_peers_dialable_address() {
    let c = Candidate::new(pid(1), vec![addr4(7, 9444, AddressKind::Direct)]);
    let plan = plan(&[c]);

    let (_, target) = &plan[0];
    assert_eq!(target.direct_addrs()[..], [socket4(7, 9444)][..]);
}

#[test]
fn each_target_pins_its_own_peers_identity_and_addresses() {
    let a = Candidate::new(pid(1), vec![addr4(1, 9444, AddressKind::Direct)]);
    let b = Candidate::new(pid(2), vec![addr4(2, 9445, AddressKind::Direct)]);
    let plan = plan(&[a, b]);
    assert_eq!(plan.len(), 2);

    for (peer_id, target) in plan {
        assert_eq!(target.peer_id, peer_id);
        let expected = match peer_id {
            p if p == pid(1) => socket4(1, 9444),
            _ => socket4(2, 9445),
        };
        assert_eq!(target.direct_addrs()[..], [expected][..]);
    }
}

#[test]
fn undialable_candidates_are_dropped_and_the_honest_one_survives() {
    let c = Candidate::new(
        pid(1),
        vec![
            addr4(250, 9444, AddressKind::Relay),
            host_name("peer.example.com", 9444, AddressKind::Direct),
            addr4(9, 9444, AddressKind::Direct),
        ],
    );
    let plan = plan(&[c]);

    assert_eq!(plan[0].1.direct_addrs()[..], [socket4(9, 9444)][..]);
}

#[test]
fn ipv6_candidate_keeps_its_address_and_port() {
    let c = Candidate::new(pid(1), vec![addr6(1, 9444, AddressKind::Direct)]);
    let plan = plan(&[c]);

    let addrs = plan[0].1.direct_addrs();
    assert_eq!(addrs.len(), 1);
    assert!(is_v6(&addrs[0]), "expected a v6 socket, got {addrs:?}");
    assert_eq!(addrs[0].port, 9444);
    assert_eq!(addrs[0].ip, ip6(1));
}

#[test]
fn address_count_is_capped_at_the_bound_and_not_below_it() {
    let all: Vec<u8> = vec![1, 2, 3, 4, 5, 6];
    let at_bound: Vec<CandidateAddr> = all[..MAX_DIAL_CANDIDATES]
        .iter()
        .map(|n| addr4(*n, 9444, AddressKind::Direct))
        .collect();
    let over_bound: Vec<CandidateAddr> = all
        .iter()
        .map(|n| addr4(*n, 9444, AddressKind::Direct))
        .collect();
    assert!(
        over_bound.len() > MAX_DIAL_CANDIDATES,
        "fixture must exceed the bound"
    );

    assert_eq!(
        plan(&[Candidate::new(pid(1), at_bound)])[0]
            .1
            .direct_addrs()
            .len(),
        MAX_DIAL_CANDIDATES,
    );
    assert_eq!(
        plan(&[Candidate::new(pid(2), over_bound)])[0]
            .1
            .direct_addrs()
            .len(),
        MAX_DIAL_CANDIDATES,
    );
}

#[test]
fn repeated_addresses_do_not_fill_the_cap_with_one_destination() {
    let mut addresses: Vec<CandidateAddr> = (0..6)
        .map(|_| addr4(1, 9444, AddressKind::Direct))
        .collect();
    addresses.push(addr4(2, 9444, AddressKind::Direct));

    let plan = plan(&[Candidate::new(pid(1), addresses)]);
    let dialed = plan[0].1.direct_addrs();

    assert_eq!(
        dialed[..],
        [socket4(1, 9444), socket4(2, 9444)][..],
        "expected two distinct destinations, got {dialed:?}",
    );
}

#[test]
fn truncation_reserves_a_slot_for_the_ipv4_fallback() {
    let mut addresses: Vec<CandidateAddr> = (1..=5)
        .map(|n| addr6(n, 9444, AddressKind::Direct))
        .collect();
    addresses.push(addr4(9, 9444, AddressKind::Direct));

    let plan = plan(&[Candidate::new(pid(1), addresses)]);
    let dialed = plan[0].1.direct_addrs();

    assert_eq!(dialed.len(), MAX_DIAL_CANDIDATES);
    assert!(
        dialed.contains(&socket4(9, 9444)),
        "the IPv4 fallback was truncated away: {dialed:?}",
    );
    assert!(
        is_v6(&dialed[0]),
        "IPv6 must still lead the list: {dialed:?}",
    );
}

#[test]
fn unusable_hosts_are_removed_before_the_cap_not_after() {
    let mut addresses: Vec<CandidateAddr> = (1..=5)
        .map(|n| addr6(n, 9444, AddressKind::Direct))
        .collect();
    addresses.push(host_name("peer.example.com", 9444, AddressKind::Direct));

    let plan = plan(&[Candidate::new(pid(1), addresses)]);
    let dialed = plan[0].1.direct_addrs();

    assert_eq!(
        dialed.len(),
        MAX_DIAL_CANDIDATES,
        "a hostname consumed a dial slot: {dialed:?}",
    );
    assert!(dialed.iter().all(is_v6));
}

#[test]
fn a_peer_with_no_dialable_address_is_handed_back_relay_only() {
    let c = Candidate::new(
        pid(1),
        vec![host_name("relay.example", 9444, AddressKind::Relay)],
    );
    let plan = plan(&[c]);

    assert_eq!(plan.len(), 1);
    assert_eq!(plan[0].1.peer_id, pid(1));
    assert!(plan[0].1.direct_addrs().is_empty());
}

#[test]
fn plan_follows_selection_rank_order() {
    let candidates: Vec<Candidate> = (1u8..=4)
        .map(|b| Candidate::new(pid(b), vec![addr4(b, 9444, AddressKind::Direct)]))
        .collect();

    let mut selector = selector();
    let selection = selector.select(&request(), &candidates);
    let plan = selector.dial_plan(&selection, NETWORK);

    let planned: Vec<PeerId> = plan.iter().map(|(chosen, _)| chosen.peer_id).collect();
    let selected: Vec<PeerId> = selection.peers.iter().map(|p| p.peer_id).collect();
    assert_eq!(planned, selected);
}

#[test]
fn an_unknown_peer_has_no_target() {
    let mut selector = selector();
    let known = Candidate::new(pid(1), vec![addr4(1, 9444, AddressKind::Direct)]);
    selector.upsert_candidate(&known);

    assert!(selector.peer_target(&pid(1), NETWORK).is_some());
    assert!(selector.peer_target(&pid(99), NETWORK).is_none());
}

#[test]
fn target_carries_the_network_id() {
    let c = Candidate::new(pid(1), vec![addr4(1, 9444, AddressKind::Direct)]);
    assert_eq!(plan(&[c])[0].1.network_id, NETWORK);
}

#[test]
fn more_direct_addresses_of_a_family_come_first() {
    let c = Candidate::new(
        pid(1),
        vec![
            addr4(3, 9444, AddressKind::Reflexive),
            addr4(2, 9444, AddressKind::Mapped),
            addr6(1, 9444, AddressKind::Reflexive),
            addr4(1, 9444, AddressKind::Direct),
        ],
    );
    let plan = plan(&[c]);
    let dialed = plan[0].1.direct_addrs();
    assert!(is_v6(&dialed[0]));
    assert_eq!(
        dialed[1..],
        [socket4(1, 9444), socket4(2, 9444), socket4(3, 9444)][..]
    );
}

#[test]
fn a_chosen_peer_that_was_removed_is_left_out_of_the_plan() {
    let mut first = selector();
    let selection = first.select(
        &request(),
        &[Candidate::new(
            pid(1),
            vec![addr4(1, 9444, AddressKind::Direct)],
        )],
    );
    assert_eq!(selection.len(), 1);
    let other = selector();
    assert!(other.dial_plan(&selection, NETWORK).is_empty());
}

#[test]
fn endpoints_become_the_sockets_of_reachable_addresses() {
    let name = CandidateAddr::direct(String::from("peer.example.com"), 9444, None);
    let addresses = vec![
        addr4(250, 9444, AddressKind::Relay),
        name,
        addr4(9, 9444, AddressKind::Direct),
        addr4(9, 9555, AddressKind::Mapped),
    ];
    let endpoint = |host: &str, port: u16| Endpoint {
        host: String::from(host),
        port,
    };
    let endpoints = vec![
        endpoint("10.0.0.9", 9555),
        endpoint("10.0.0.250", 9444),
        endpoint("peer.example.com", 9444),
        endpoint("10.0.0.9", 9444),
        endpoint("10.0.0.9", 1),
    ];
    let socket = |port: u16| SocketAddress {
        ip: IpAddress::V4([10, 0, 0, 9]),
        port,
    };
    assert_eq!(sockets_of(&addresses, &endpoints), vec![socket(9555), socket(9444)]);
    assert!(sockets_of(&Vec::new(), &endpoints).is_empty());
}
