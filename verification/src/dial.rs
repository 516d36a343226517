//! From a chosen peer to something that can be dialed.

use vstd::prelude::*;

use crate::address::{AddressKind, CandidateAddr, SocketAddress};
use crate::identity::PeerId;

verus! {

/// How many addresses a target holds at most.
pub const MAX_DIAL_CANDIDATES: usize = 4;

/// Whom to dial, where, and on which network. A target without addresses is reached by its identity
/// alone, through the relay.
#[derive(Debug, PartialEq, Eq)]
pub struct PeerTarget {
    /// The identity that the dialed peer has to prove.
    pub peer_id: PeerId,
    /// Where to dial it, in the order of preference.
    pub addrs: Vec<SocketAddress>,
    /// The network.
    pub network_id: String,
}

impl PeerTarget {
    /// Where to dial the peer directly.
    pub fn direct_addrs(&self) -> (r: &Vec<SocketAddress>)
        ensures
            *r == self.addrs,
    {
        &self.addrs
    }
}

/// A host and a port.
pub struct Endpoint {
    /// An IP literal or a host name.
    pub host: String,
    /// The port.
    pub port: u16,
}

impl View for Endpoint {
    type V = (Seq<char>, u16);

    open spec fn view(&self) -> (Seq<char>, u16) {
        (self.host@, self.port)
    }
}

/// What the dial order depends on: host, port and kind of each candidate.
pub open spec fn descriptions(addresses: Seq<CandidateAddr>) -> Seq<(Seq<char>, u16, AddressKind)> {
    Seq::new(
        addresses.len(),
        |i: int| (addresses[i].host@, addresses[i].port, addresses[i].kind),
    )
}

/// The host and port of the candidates that `dig_dht::dial_candidates` gives, in its order.
pub uninterp spec fn dial_order(
    candidates: Seq<(Seq<char>, u16, AddressKind)>,
) -> Seq<(Seq<char>, u16)>;

/// Whether an address has the given host and port.
pub open spec fn is_at(address: CandidateAddr, endpoint: (Seq<char>, u16)) -> bool {
    address.host@ == endpoint.0 && address.port == endpoint.1
}

/// Whether an address that can be dialed has the given host and port.
pub open spec fn offered(addresses: Seq<CandidateAddr>, endpoint: (Seq<char>, u16)) -> bool {
    exists|i: int|
        0 <= i < addresses.len() && addresses[i].kind.dials() && is_at(
            #[trigger] addresses[i],
            endpoint,
        )
}

/// `dig_dht::dial_candidates`: orders the candidates that can be dialed, IPv6 literals first, drops
/// repeated endpoints and all but a few, and keeps a slot for what is not IPv6. What it gives depends
/// on host, port and kind of the candidates alone: it is given a name. Of that name it is claimed
/// that it lists endpoints of candidates that can be dialed, none twice and at most four, and is
/// empty only where no candidate can be dialed. Which of them lead and which keeps the slot is not
/// claimed: that goes by the family that a host spells, and the library does not read hosts.
#[verifier::external_body]
fn dht_dial_candidates(addresses: &Vec<CandidateAddr>) -> (r: Vec<Endpoint>)
    ensures
        r@.map_values(|e: Endpoint| e@) == dial_order(descriptions(addresses@)),
        r@.len() <= MAX_DIAL_CANDIDATES,
        r@.map_values(|e: Endpoint| e@).no_duplicates(),
        forall|k: int|
            0 <= k < r@.len() ==> offered(addresses@, (#[trigger] r@[k])@),
        r@.len() == 0 ==> forall|i: int|
            0 <= i < addresses@.len() ==> !(#[trigger] addresses@[i]).kind.dials(),
{
    let given: Vec<dig_dht::CandidateAddr> = addresses.iter().map(|a| dig_dht::CandidateAddr {
        host: a.host.clone(),
        port: a.port,
        kind: match a.kind {
            AddressKind::Direct => dig_dht::AddressKind::Direct,
            AddressKind::Mapped => dig_dht::AddressKind::Mapped,
            AddressKind::Reflexive => dig_dht::AddressKind::Reflexive,
            AddressKind::Relay => dig_dht::AddressKind::Relay,
        },
    }).collect();
    let ordered = dig_dht::dial_candidates(&given).into_iter();
    ordered.map(|c| Endpoint { host: c.host.clone(), port: c.port }).collect()
}

/// The addresses whose host is an IP literal.
pub open spec fn literals(addresses: Seq<CandidateAddr>) -> Seq<CandidateAddr>
    decreases addresses.len(),
{
    if addresses.len() == 0 {
        Seq::empty()
    } else if addresses.last().ip is Some {
        literals(addresses.drop_last()).push(addresses.last())
    } else {
        literals(addresses.drop_last())
    }
}

/// Whether an address can be dialed and its host is an IP literal.
pub open spec fn reachable(address: CandidateAddr) -> bool {
    address.kind.dials() && address.ip is Some
}

/// The socket of the first reachable address with the given host and port, if there is one.
pub open spec fn socket_for(
    addresses: Seq<CandidateAddr>,
    endpoint: (Seq<char>, u16),
) -> Option<SocketAddress>
    decreases addresses.len(),
{
    if addresses.len() == 0 {
        None
    } else if reachable(addresses[0]) && is_at(addresses[0], endpoint) {
        addresses[0].socket()
    } else {
        socket_for(addresses.drop_first(), endpoint)
    }
}

/// The sockets of the endpoints, in their order; an endpoint without a reachable address has none.
pub open spec fn sockets(
    addresses: Seq<CandidateAddr>,
    endpoints: Seq<(Seq<char>, u16)>,
) -> Seq<SocketAddress>
    decreases endpoints.len(),
{
    if endpoints.len() == 0 {
        Seq::empty()
    } else {
        let front = sockets(addresses, endpoints.drop_last());
        match socket_for(addresses, endpoints.last()) {
            Some(socket) => front.push(socket),
            None => front,
        }
    }
}

/// The addresses whose host is an IP literal.
fn keep_literals(addresses: &Vec<CandidateAddr>) -> (r: Vec<CandidateAddr>)
    ensures
        r@ == literals(addresses@),
{
    let mut kept: Vec<CandidateAddr> = Vec::new();
    let mut i: usize = 0;
    while i < addresses.len()
        invariant
            i <= addresses@.len(),
            kept@ == literals(addresses@.take(i as int)),
        decreases addresses@.len() - i,
    {
        assert(addresses@.take(i + 1).drop_last() =~= addresses@.take(i as int));
        assert(addresses@.take(i + 1).last() == addresses@[i as int]);
        if addresses[i].ip.is_some() {
            kept.push(addresses[i].clone());
        }
        i = i + 1;
    }
    assert(addresses@.take(i as int) =~= addresses@);
    kept
}

proof fn lemma_literals(addresses: Seq<CandidateAddr>)
    ensures
        forall|i: int|
            0 <= i < literals(addresses).len() ==> (#[trigger] literals(addresses)[i]).ip is Some
                && addresses.contains(literals(addresses)[i]),
        forall|i: int|
            0 <= i < addresses.len() && (#[trigger] addresses[i]).ip is Some ==> literals(
                addresses,
            ).contains(addresses[i]),
    decreases addresses.len(),
{
    if addresses.len() > 0 {
        let front = addresses.drop_last();
        lemma_literals(front);
        let all = literals(addresses);
        assert forall|i: int| 0 <= i < all.len() implies (#[trigger] all[i]).ip is Some
            && addresses.contains(all[i]) by {
            if i < literals(front).len() {
                assert(all[i] == literals(front)[i]);
                let j = choose|j: int| 0 <= j < front.len() && front[j] == all[i];
                assert(addresses[j] == all[i]);
            } else {
                assert(addresses[addresses.len() - 1] == all[i]);
            }
        }
        assert forall|i: int| 0 <= i < addresses.len() && (#[trigger] addresses[i]).ip is Some
            implies all.contains(addresses[i]) by {
            if i < front.len() {
                assert(front[i] == addresses[i]);
                let j = choose|j: int|
                    0 <= j < literals(front).len() && literals(front)[j] == addresses[i];
                assert(all[j] == addresses[i]);
            } else {
                assert(all[all.len() - 1] == addresses[i]);
            }
        }
    }
}

/// The socket of the first reachable address with the endpoint's host and port.
fn socket_at(addresses: &Vec<CandidateAddr>, endpoint: &Endpoint) -> (r: Option<SocketAddress>)
    ensures
        r == socket_for(addresses@, endpoint@),
{
    let mut i: usize = 0;
    assert(addresses@.skip(0) =~= addresses@);
    while i < addresses.len()
        invariant
            i <= addresses@.len(),
            socket_for(addresses@, endpoint@) == socket_for(addresses@.skip(i as int), endpoint@),
        decreases addresses@.len() - i,
    {
        let ghost rest = addresses@.skip(i as int);
        assert(rest[0] == addresses@[i as int]);
        assert(rest.drop_first() =~= addresses@.skip(i + 1));
        if addresses[i].kind.is_dialable() && addresses[i].port == endpoint.port
            && addresses[i].host == endpoint.host {
            match addresses[i].ip {
                Some(ip) => {
                    return Some(SocketAddress { ip, port: addresses[i].port });
                },
                None => {},
            }
        }
        i = i + 1;
    }
    None
}

/// The sockets of the endpoints, in their order.
pub fn sockets_of(addresses: &Vec<CandidateAddr>, endpoints: &Vec<Endpoint>) -> (r: Vec<
    SocketAddress,
>)
    ensures
        r@ == sockets(addresses@, endpoints@.map_values(|e: Endpoint| e@)),
{
    let ghost order = endpoints@.map_values(|e: Endpoint| e@);
    let mut found: Vec<SocketAddress> = Vec::new();
    let mut k: usize = 0;
    while k < endpoints.len()
        invariant
            k <= endpoints@.len(),
            order == endpoints@.map_values(|e: Endpoint| e@),
            found@ == sockets(addresses@, order.take(k as int)),
        decreases endpoints@.len() - k,
    {
        assert(order.take(k + 1).drop_last() =~= order.take(k as int));
        assert(order.take(k + 1).last() == endpoints@[k as int]@);
        match socket_at(addresses, &endpoints[k]) {
            Some(socket) => {
                found.push(socket);
            },
            None => {},
        }
        k = k + 1;
    }
    assert(order.take(k as int) =~= order);
    found
}

/// Whether a socket is that of a reachable address with the given host and port.
pub open spec fn reaches(
    addresses: Seq<CandidateAddr>,
    endpoint: (Seq<char>, u16),
    socket: SocketAddress,
) -> bool {
    exists|i: int|
        0 <= i < addresses.len() && reachable(#[trigger] addresses[i]) && is_at(
            addresses[i],
            endpoint,
        ) && addresses[i].socket() == Some(socket)
}

/// Whether sockets are those of reachable addresses with the hosts and ports of an order in which
/// nothing comes twice; there are a few at most, and none only where no address is reachable.
pub open spec fn well_aimed(
    found: Seq<SocketAddress>,
    order: Seq<(Seq<char>, u16)>,
    addresses: Seq<CandidateAddr>,
) -> bool {
    &&& found.len() == order.len() <= MAX_DIAL_CANDIDATES
    &&& order.no_duplicates()
    &&& forall|k: int| 0 <= k < found.len() ==> reaches(addresses, order[k], #[trigger] found[k])
    &&& found.len() == 0 <==> forall|i: int|
        0 <= i < addresses.len() ==> !reachable(#[trigger] addresses[i])
}

/// Whether this is the target of a peer with the given addresses: the sockets of its IP literals in
/// dial order.
pub open spec fn is_target(
    target: PeerTarget,
    peer_id: PeerId,
    addresses: Seq<CandidateAddr>,
    network_id: Seq<char>,
) -> bool {
    let order = dial_order(descriptions(literals(addresses)));
    &&& target.peer_id == peer_id
    &&& target.network_id@ == network_id
    &&& target.addrs@ == sockets(literals(addresses), order)
    &&& well_aimed(target.addrs@, order, addresses)
}

proof fn lemma_socket_for(addresses: Seq<CandidateAddr>, endpoint: (Seq<char>, u16))
    ensures
        socket_for(addresses, endpoint) is Some <==> exists|i: int|
            0 <= i < addresses.len() && reachable(#[trigger] addresses[i]) && is_at(
                addresses[i],
                endpoint,
            ),
        socket_for(addresses, endpoint) matches Some(socket) ==> reaches(
            addresses,
            endpoint,
            socket,
        ),
    decreases addresses.len(),
{
    if addresses.len() > 0 {
        let rest = addresses.drop_first();
        lemma_socket_for(rest, endpoint);
        if reachable(addresses[0]) && is_at(addresses[0], endpoint) {
        } else {
            if exists|i: int|
                0 <= i < addresses.len() && reachable(#[trigger] addresses[i]) && is_at(
                    addresses[i],
                    endpoint,
                ) {
                let i = choose|i: int|
                    0 <= i < addresses.len() && reachable(#[trigger] addresses[i]) && is_at(
                        addresses[i],
                        endpoint,
                    );
                assert(rest[i - 1] == addresses[i]);
            }
            if let Some(socket) = socket_for(rest, endpoint) {
                let i = choose|i: int|
                    0 <= i < rest.len() && reachable(#[trigger] rest[i]) && is_at(
                        rest[i],
                        endpoint,
                    ) && rest[i].socket() == Some(socket);
                assert(addresses[i + 1] == rest[i]);
            }
        }
    }
}

proof fn lemma_sockets(addresses: Seq<CandidateAddr>, order: Seq<(Seq<char>, u16)>)
    requires
        forall|k: int| 0 <= k < order.len() ==> socket_for(addresses, #[trigger] order[k]) is Some,
    ensures
        sockets(addresses, order).len() == order.len(),
        forall|k: int|
            0 <= k < order.len() ==> Some(#[trigger] sockets(addresses, order)[k]) == socket_for(
                addresses,
                order[k],
            ),
    decreases order.len(),
{
    if order.len() > 0 {
        let front = order.drop_last();
        assert forall|k: int| 0 <= k < front.len() implies socket_for(
            addresses,
            #[trigger] front[k],
        ) is Some by {
            assert(front[k] == order[k]);
        }
        lemma_sockets(addresses, front);
        assert(order[order.len() - 1] == order.last());
        assert forall|k: int| 0 <= k < order.len() implies Some(
            #[trigger] sockets(addresses, order)[k],
        ) == socket_for(addresses, order[k]) by {
            if k < front.len() {
                assert(sockets(addresses, order)[k] == sockets(addresses, front)[k]);
                assert(front[k] == order[k]);
            }
        }
    }
}

proof fn lemma_aimed(addresses: Seq<CandidateAddr>, order: Seq<(Seq<char>, u16)>)
    requires
        order.len() <= MAX_DIAL_CANDIDATES,
        order.no_duplicates(),
        forall|k: int| 0 <= k < order.len() ==> offered(literals(addresses), #[trigger] order[k]),
        order.len() == 0 ==> forall|i: int|
            0 <= i < literals(addresses).len() ==> !(
            #[trigger] literals(addresses)[i]).kind.dials(),
    ensures
        well_aimed(sockets(literals(addresses), order), order, addresses),
{
    let usable = literals(addresses);
    let found = sockets(usable, order);
    lemma_literals(addresses);
    assert forall|k: int| 0 <= k < order.len() implies socket_for(
        usable,
        #[trigger] order[k],
    ) is Some by {
        lemma_socket_for(usable, order[k]);
        let i = choose|i: int|
            0 <= i < usable.len() && usable[i].kind.dials() && is_at(#[trigger] usable[i], order[k]);
        assert(reachable(usable[i]));
    }
    lemma_sockets(usable, order);
    assert forall|k: int| 0 <= k < found.len() implies reaches(
        addresses,
        order[k],
        #[trigger] found[k],
    ) by {
        lemma_socket_for(usable, order[k]);
        assert(reaches(usable, order[k], found[k]));
        let i = choose|i: int|
            0 <= i < usable.len() && reachable(#[trigger] usable[i]) && is_at(usable[i], order[k])
                && usable[i].socket() == Some(found[k]);
        assert(addresses.contains(usable[i]));
        let j = choose|j: int| 0 <= j < addresses.len() && addresses[j] == usable[i];
        assert(reachable(addresses[j]));
    }
    if found.len() == 0 {
        assert forall|i: int| 0 <= i < addresses.len() implies !reachable(
            #[trigger] addresses[i],
        ) by {
            if addresses[i].ip is Some {
                let j = choose|j: int| 0 <= j < usable.len() && usable[j] == addresses[i];
                assert(!usable[j].kind.dials());
            }
        }
    } else {
        assert(reaches(addresses, order[0], found[0]));
    }
}

/// The target for a peer with the given addresses: its IP literals in dial order, a few at most.
/// Host names are dropped before the order is made, so that they take no slot. Without an address
/// that can be dialed the target is reached through the relay.
pub fn peer_target(peer_id: PeerId, addresses: &Vec<CandidateAddr>, network_id: &str) -> (r:
    PeerTarget)
    ensures
        is_target(r, peer_id, addresses@, network_id@),
{
    let usable = keep_literals(addresses);
    let ordered = dht_dial_candidates(&usable);
    let ghost order = dial_order(descriptions(usable@));
    proof {
        assert forall|k: int| 0 <= k < order.len() implies offered(usable@, #[trigger] order[k]) by {
            assert(ordered@.map_values(|e: Endpoint| e@)[k] == ordered@[k]@);
        }
        lemma_aimed(addresses@, order);
    }
    let addrs = sockets_of(&usable, &ordered);
    PeerTarget { peer_id, addrs, network_id: network_id.to_owned() }
}

/// A target holds just the socket of the one reachable address, where there is one.
pub proof fn the_only_address_is_the_target(
    target: PeerTarget,
    peer_id: PeerId,
    addresses: Seq<CandidateAddr>,
    network_id: Seq<char>,
    i: int,
)
    requires
        is_target(target, peer_id, addresses, network_id),
        0 <= i < addresses.len(),
        reachable(addresses[i]),
        forall|j: int| 0 <= j < addresses.len() && j != i ==> !reachable(#[trigger] addresses[j]),
    ensures
        target.addrs@.len() == 1,
        Some(target.addrs@[0]) == addresses[i].socket(),
        target.peer_id == peer_id,
        target.network_id@ == network_id,
{
    let order = dial_order(descriptions(literals(addresses)));
    let found = target.addrs@;
    let only = (addresses[i].host@, addresses[i].port);
    assert forall|k: int| 0 <= k < found.len() implies order[k] == only && Some(
        #[trigger] found[k],
    ) == addresses[i].socket() by {
        assert(reaches(addresses, order[k], found[k]));
    }
    if found.len() > 1 {
        assert(Some(found[0]) == addresses[i].socket());
        assert(Some(found[1]) == addresses[i].socket());
        assert(order[0] == order[1]);
    }
}

} // verus!
