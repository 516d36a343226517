//! Read-only views of what a selector has learned.

use vstd::prelude::*;

use crate::address::TraversalKind;
use crate::identity::{hex_text, PeerId};
use crate::measure::{Arithmetic, Measure};
use crate::quality::{volatility, Estimate};
use crate::registry::{views, Peer, PeerEntry};
use crate::scoring::{PeerClass, RelayModel, SaturationModel};
use crate::types::Provenance;

verus! {

/// The name of a path.
pub open spec fn path_name(kind: TraversalKind) -> Seq<char> {
    match kind {
        TraversalKind::Direct => "direct"@,
        TraversalKind::Upnp => "upnp"@,
        TraversalKind::NatPmp => "natpmp"@,
        TraversalKind::Pcp => "pcp"@,
        TraversalKind::HolePunch => "holepunch"@,
        TraversalKind::Relayed => "relayed"@,
    }
}

/// The name of a path.
pub fn traversal_kind_name(kind: TraversalKind) -> (r: String)
    ensures
        r@ == path_name(kind),
{
    match kind {
        TraversalKind::Direct => "direct",
        TraversalKind::Upnp => "upnp",
        TraversalKind::NatPmp => "natpmp",
        TraversalKind::Pcp => "pcp",
        TraversalKind::HolePunch => "holepunch",
        TraversalKind::Relayed => "relayed",
    }.to_owned()
}

/// The canonical text form of an identity.
pub fn peer_id_hex(peer: &PeerId) -> (r: String)
    ensures
        r@ == hex_text(peer.bytes@),
{
    peer.to_hex()
}

/// The mean of what was measured.
fn measured_mean(estimate: &Estimate) -> (r: Option<Measure>)
    ensures
        r == estimate.measured(),
{
    if estimate.samples() == 0 {
        None
    } else {
        estimate.value()
    }
}

/// What is known of one peer.
#[derive(Clone, Debug, PartialEq, Eq)]
pub struct PeerSnapshot {
    /// The identity, in hexadecimal digits.
    pub peer_id: String,
    /// How the peer entered the registry.
    pub provenance: Provenance,
    /// The name of the path of the link to it, if known.
    pub connection_class: Option<String>,
    /// Whether there is a live link to it.
    pub connected: bool,
    /// Whether it is banned.
    pub banned: bool,
    /// Its throughput in bytes per second, if measured.
    pub throughput_bps: Option<Measure>,
    /// Its time to the first byte in milliseconds, if measured.
    pub rtt_ms: Option<Measure>,
    /// Its success rate, if measured.
    pub reliability: Option<Measure>,
    /// The relative volatility of its throughput.
    pub throughput_volatility: Measure,
    /// How many outcomes were measured.
    pub samples: u64,
    /// How often its bytes did not verify.
    pub hard_failures: u64,
    /// How many ranges it is busy with.
    pub in_flight: u32,
}

impl PeerSnapshot {
    /// Whether this is what is known of `peer`.
    pub open spec fn shows<A: Arithmetic>(self, kit: &A, peer: Peer) -> bool {
        &&& self.peer_id@ == hex_text(peer.peer_id.bytes@)
        &&& self.provenance == peer.provenance
        &&& match (self.connection_class, peer.connection_class) {
            (Some(name), Some(kind)) => name@ == path_name(kind),
            (None, None) => true,
            _ => false,
        }
        &&& self.connected == peer.connected
        &&& self.banned == peer.banned
        &&& self.throughput_bps == peer.quality.throughput.measured()
        &&& self.rtt_ms == peer.quality.rtt.measured()
        &&& self.reliability == peer.quality.reliability.measured()
        &&& volatility(peer.quality.throughput.mean, peer.quality.throughput.mad).gives(
            kit,
            self.throughput_volatility,
        )
        &&& self.samples == peer.quality.samples
        &&& self.hard_failures == peer.quality.reliability.hard_failures
        &&& self.in_flight == peer.quality.in_flight
    }

    /// What is known of a registered peer.
    pub fn of<A: Arithmetic>(entry: &PeerEntry, kit: &A) -> (r: PeerSnapshot)
        ensures
            r.shows(kit, entry@),
    {
        let quality = &entry.quality;
        PeerSnapshot {
            peer_id: entry.peer_id.to_hex(),
            provenance: entry.provenance,
            connection_class: match entry.connection_class {
                Some(kind) => Some(traversal_kind_name(kind)),
                None => None,
            },
            connected: entry.connected,
            banned: entry.banned,
            throughput_bps: measured_mean(&quality.throughput),
            rtt_ms: measured_mean(&quality.rtt),
            reliability: quality.reliability.rate(),
            throughput_volatility: quality.throughput.relative_volatility(kit),
            samples: quality.samples,
            hard_failures: quality.reliability.hard_failures(),
            in_flight: quality.in_flight,
        }
    }
}

/// How many peers were measured at least once.
pub open spec fn measured_among(peers: Seq<Peer>) -> nat
    decreases peers.len(),
{
    if peers.len() == 0 {
        0
    } else {
        measured_among(peers.drop_last()) + (if peers.last().quality.samples > 0 {
            1nat
        } else {
            0
        })
    }
}

/// How many peers are connected.
pub open spec fn connected_among(peers: Seq<Peer>) -> nat
    decreases peers.len(),
{
    if peers.len() == 0 {
        0
    } else {
        connected_among(peers.drop_last()) + (if peers.last().connected {
            1nat
        } else {
            0
        })
    }
}

/// What a selector has learned on the whole.
#[derive(Clone, Copy, Debug, PartialEq, Eq)]
pub struct SelectorSnapshot {
    /// How many peers are registered.
    pub registry_size: usize,
    /// How many were measured.
    pub measured_peers: usize,
    /// How many are connected.
    pub connected_peers: usize,
    /// The saturation point of direct paths.
    pub saturation_direct: u32,
    /// The saturation point of relayed paths.
    pub saturation_relayed: u32,
    /// The saturation point of paths not known yet.
    pub saturation_unknown: u32,
    /// The factor on the score of a relayed peer.
    pub relayed_penalty: Measure,
    /// For how many peers it is noted when they were last chosen.
    pub last_selected_len: usize,
    /// For how many peers a dispatch is noted.
    pub dispatched_len: usize,
}

impl SelectorSnapshot {
    /// Whether this is what the registered peers and the learned models come to.
    pub open spec fn shows<A: Arithmetic>(
        self,
        kit: &A,
        peers: Seq<Peer>,
        saturation: SaturationModel,
        relay: RelayModel,
    ) -> bool {
        &&& self.registry_size == peers.len()
        &&& self.measured_peers == measured_among(peers)
        &&& self.connected_peers == connected_among(peers)
        &&& self.saturation_direct == saturation.direct.ranges
        &&& self.saturation_relayed == saturation.relayed.ranges
        &&& self.saturation_unknown == saturation.unknown.ranges
        &&& relay.handicap().gives(kit, self.relayed_penalty)
    }

    /// What the registered peers and the learned models come to.
    pub fn build<A: Arithmetic>(
        entries: &Vec<PeerEntry>,
        saturation: &SaturationModel,
        relay: &RelayModel,
        last_selected_len: usize,
        dispatched_len: usize,
        kit: &A,
    ) -> (r: SelectorSnapshot)
        ensures
            r.shows(kit, views(entries@), *saturation, *relay),
            r.last_selected_len == last_selected_len,
            r.dispatched_len == dispatched_len,
    {
        let ghost peers = views(entries@);
        let mut measured_peers: usize = 0;
        let mut connected_peers: usize = 0;
        let mut i: usize = 0;
        while i < entries.len()
            invariant
                i <= entries@.len(),
                peers == views(entries@),
                measured_peers == measured_among(peers.take(i as int)),
                connected_peers == connected_among(peers.take(i as int)),
                measured_peers <= i,
                connected_peers <= i,
            decreases entries@.len() - i,
        {
            assert(peers.take(i + 1).drop_last() =~= peers.take(i as int));
            assert(peers.take(i + 1).last() == entries@[i as int]@);
            if !entries[i].quality.is_cold() {
                measured_peers = measured_peers + 1;
            }
            if entries[i].connected {
                connected_peers = connected_peers + 1;
            }
            i = i + 1;
        }
        assert(peers.take(i as int) =~= peers);
        SelectorSnapshot {
            registry_size: entries.len(),
            measured_peers,
            connected_peers,
            saturation_direct: saturation.saturation_point(PeerClass::DirectPath),
            saturation_relayed: saturation.saturation_point(PeerClass::RelayedPath),
            saturation_unknown: saturation.saturation_point(PeerClass::Unknown),
            relayed_penalty: relay.penalty(kit),
            last_selected_len,
            dispatched_len,
        }
    }
}

} // verus!
