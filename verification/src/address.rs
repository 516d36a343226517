//! Where a peer may be reached, and by which path a link to it runs.

use vstd::prelude::*;

verus! {

/// How a live link to a peer was established.
#[derive(Clone, Copy, Debug, PartialEq, Eq, Hash, Structural)]
pub enum TraversalKind {
    /// Dialed without help.
    Direct,
    /// Through a mapping made by UPnP.
    Upnp,
    /// Through a mapping made by NAT-PMP.
    NatPmp,
    /// Through a mapping made by PCP.
    Pcp,
    /// By a coordinated hole punch.
    HolePunch,
    /// Through a relay, which carries every byte.
    Relayed,
}

/// How a candidate address was learned.
#[derive(Clone, Copy, Debug, PartialEq, Eq, Hash, Structural)]
pub enum AddressKind {
    /// Advertised or observed as directly reachable.
    Direct,
    /// The outside of a port mapping.
    Mapped,
    /// Seen by a third party.
    Reflexive,
    /// Reachable through a relay only.
    Relay,
}

impl AddressKind {
    /// How far from direct an address of this kind is.
    pub open spec fn distance(self) -> u8 {
        match self {
            AddressKind::Direct => 0,
            AddressKind::Mapped => 1,
            AddressKind::Reflexive => 2,
            AddressKind::Relay => 3,
        }
    }

    /// Whether an address of this kind can be dialed: every one but a relay marker.
    pub open spec fn dials(self) -> bool {
        self != AddressKind::Relay
    }

    /// How far from direct an address of this kind is; lower is more direct.
    pub fn rank(self) -> (r: u8)
        ensures
            r == self.distance(),
    {
        dht_rank(self)
    }

    /// Whether an address of this kind can be dialed directly.
    pub fn is_dialable(self) -> (r: bool)
        ensures
            r == self.dials(),
    {
        dht_is_dialable(self)
    }
}

/// `dig_dht::AddressKind::rank`: numbers the four kinds from zero, the most direct first.
#[verifier::external_body]
fn dht_rank(kind: AddressKind) -> (r: u8)
    ensures
        r == kind.distance(),
{
    match kind {
        AddressKind::Direct => dig_dht::AddressKind::Direct,
        AddressKind::Mapped => dig_dht::AddressKind::Mapped,
        AddressKind::Reflexive => dig_dht::AddressKind::Reflexive,
        AddressKind::Relay => dig_dht::AddressKind::Relay,
    }.rank()
}

/// `dig_dht::AddressKind::is_dialable`: true of every kind but the relay marker.
#[verifier::external_body]
fn dht_is_dialable(kind: AddressKind) -> (r: bool)
    ensures
        r == kind.dials(),
{
    match kind {
        AddressKind::Direct => dig_dht::AddressKind::Direct,
        AddressKind::Mapped => dig_dht::AddressKind::Mapped,
        AddressKind::Reflexive => dig_dht::AddressKind::Reflexive,
        AddressKind::Relay => dig_dht::AddressKind::Relay,
    }.is_dialable()
}

/// An IP address.
#[derive(Clone, Copy, Debug, PartialEq, Eq, Hash)]
pub enum IpAddress {
    /// Version 4, by its four octets.
    V4([u8; 4]),
    /// Version 6, by its sixteen octets.
    V6([u8; 16]),
}

/// An IP address and a port.
#[derive(Clone, Copy, Debug, PartialEq, Eq, Hash)]
pub struct SocketAddress {
    /// The address.
    pub ip: IpAddress,
    /// The port.
    pub port: u16,
}

/// One address a peer may be dialed at.
#[derive(Debug, PartialEq, Eq)]
pub struct CandidateAddr {
    /// An IP literal or a host name.
    pub host: String,
    /// The port.
    pub port: u16,
    /// How the address was learned.
    pub kind: AddressKind,
    /// The address that the host spells, where it is an IP literal.
    pub ip: Option<IpAddress>,
}

impl CandidateAddr {
    /// A directly reachable address.
    pub fn direct(host: String, port: u16, ip: Option<IpAddress>) -> (r: CandidateAddr)
        ensures
            r == (CandidateAddr { host, port, kind: AddressKind::Direct, ip }),
    {
        CandidateAddr { host, port, kind: AddressKind::Direct, ip }
    }

    /// The socket that the address denotes, where the host is an IP literal.
    pub open spec fn socket(self) -> Option<SocketAddress> {
        match self.ip {
            Some(ip) => Some(SocketAddress { ip, port: self.port }),
            None => None,
        }
    }
}

impl Clone for CandidateAddr {
    fn clone(&self) -> (r: CandidateAddr)
        ensures
            r == *self,
    {
        CandidateAddr { host: self.host.clone(), port: self.port, kind: self.kind, ip: self.ip }
    }
}

/// A copy of a list of addresses.
pub fn copy_addresses(addresses: &Vec<CandidateAddr>) -> (r: Vec<CandidateAddr>)
    ensures
        r@ == addresses@,
{
    let mut r: Vec<CandidateAddr> = Vec::new();
    let mut i: usize = 0;
    while i < addresses.len()
        invariant
            i <= addresses.len(),
            r@ == addresses@.take(i as int),
        decreases addresses.len() - i,
    {
        r.push(addresses[i].clone());
        assert(addresses@.take(i + 1) == addresses@.take(i as int).push(addresses@[i as int]));
        i = i + 1;
    }
    assert(addresses@.take(i as int) == addresses@);
    r
}

} // verus!
