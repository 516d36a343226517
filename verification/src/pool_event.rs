//! What the connected pool reports as it gains and loses peers.

use vstd::prelude::*;

use crate::address::SocketAddress;
use crate::identity::PeerId;

verus! {

/// A change of the connected pool.
#[derive(Clone, Copy, Debug, PartialEq, Eq)]
pub enum PoolEvent {
    /// A peer joined the pool.
    PeerAdded {
        /// The verified identity.
        peer_id: PeerId,
        /// The remote end of the link: the peer, or the relay of a relayed link.
        addr: SocketAddress,
    },
    /// A peer left the pool.
    PeerRemoved {
        /// The identity that is no longer connected.
        peer_id: PeerId,
        /// Why it left.
        reason: PoolRemovalReason,
    },
}

/// Why a peer left the pool.
#[derive(Clone, Copy, Debug, PartialEq, Eq, Structural)]
pub enum PoolRemovalReason {
    /// An ordinary disconnect.
    Disconnected,
    /// The peer stopped answering.
    Dead,
    /// The peer misbehaved and was banned.
    Banned,
}

} // verus!
