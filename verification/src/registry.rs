//! The registry: every known peer, within a bound.
//!
//! Peers are kept in the order in which they were registered. Over the bound, the peer least worth
//! keeping leaves first: an idle one while there is one, else one that is only disconnected. A
//! connected peer never leaves that way.

use vstd::prelude::*;

use crate::address::{copy_addresses, CandidateAddr, TraversalKind};
use crate::formula::{constant, Formula, Term};
use crate::identity::PeerId;
use crate::measure::{Arithmetic, Measure, HALF, ONE, ZERO};
use crate::quality::{confidence_in, confidence_term, PeerQuality};
use crate::scoring::{known_or, or_constant};
use crate::types::{Candidate, Provenance};

verus! {

/// How long an unsettled dispatch keeps a peer busy, in seconds.
pub const DISPATCH_TTL_SECS: u64 = 300;

/// What the registry knows of one peer.
#[derive(Clone, Debug)]
pub struct PeerEntry {
    /// The identity.
    pub peer_id: PeerId,
    /// Where it may be dialed.
    pub addresses: Vec<CandidateAddr>,
    /// The path of the link to it, if known.
    pub connection_class: Option<TraversalKind>,
    /// How it entered the registry, by the strongest evidence.
    pub provenance: Provenance,
    /// What was learned of it.
    pub quality: PeerQuality,
    /// When it was registered, in seconds since the epoch.
    pub first_seen: u64,
    /// When it was last measured, in seconds since the epoch.
    pub last_outcome_at: Option<u64>,
    /// Whether there is a live link to it.
    pub connected: bool,
    /// Whether it is banned.
    pub banned: bool,
    /// Since when it is busy, in seconds since the epoch.
    pub in_flight_since: Option<u64>,
}

/// A registry entry, with the addresses as a sequence.
#[verifier::ext_equal]
pub struct Peer {
    /// The identity.
    pub peer_id: PeerId,
    /// Where it may be dialed.
    pub addresses: Seq<CandidateAddr>,
    /// The path of the link to it, if known.
    pub connection_class: Option<TraversalKind>,
    /// How it entered the registry.
    pub provenance: Provenance,
    /// What was learned of it.
    pub quality: PeerQuality,
    /// When it was registered.
    pub first_seen: u64,
    /// When it was last measured.
    pub last_outcome_at: Option<u64>,
    /// Whether there is a live link to it.
    pub connected: bool,
    /// Whether it is banned.
    pub banned: bool,
    /// Since when it is busy.
    pub in_flight_since: Option<u64>,
}

impl View for PeerEntry {
    type V = Peer;

    open spec fn view(&self) -> Peer {
        Peer {
            peer_id: self.peer_id,
            addresses: self.addresses@,
            connection_class: self.connection_class,
            provenance: self.provenance,
            quality: self.quality,
            first_seen: self.first_seen,
            last_outcome_at: self.last_outcome_at,
            connected: self.connected,
            banned: self.banned,
            in_flight_since: self.in_flight_since,
        }
    }
}

impl Peer {
    /// A peer of which nothing is known.
    pub open spec fn fresh(peer_id: PeerId, provenance: Provenance, now: u64) -> Peer {
        Peer {
            peer_id,
            addresses: Seq::empty(),
            connection_class: None,
            provenance,
            quality: PeerQuality::unknown(),
            first_seen: now,
            last_outcome_at: None,
            connected: false,
            banned: false,
            in_flight_since: None,
        }
    }

    /// The peer with an even chance for its success rate, unless results were measured.
    pub open spec fn with_even_odds(self) -> Peer {
        Peer {
            quality: PeerQuality {
                reliability: self.quality.reliability.seeded(Measure { bits: HALF }),
                ..self.quality
            },
            ..self
        }
    }

    /// A newcomer that a candidate introduces.
    pub open spec fn introduced(candidate: Candidate, provenance: Provenance, now: u64) -> Peer {
        (Peer {
            addresses: candidate.addresses@,
            connection_class: candidate.class,
            ..Peer::fresh(candidate.peer_id, provenance, now)
        }).with_even_odds()
    }

    /// A newcomer that joined the pool.
    pub open spec fn linked(peer_id: PeerId, provenance: Provenance, now: u64) -> Peer {
        Peer { connected: true, ..Peer::fresh(peer_id, provenance, now) }
    }

    /// A newcomer of which the path of a link was reported.
    pub open spec fn reported(peer_id: PeerId, class: TraversalKind, now: u64) -> Peer {
        (Peer {
            connection_class: Some(class),
            ..Peer::fresh(peer_id, Provenance::Nat, now)
        }).with_even_odds()
    }

    /// The peer after a candidate told of it again: what the candidate knows replaces what was
    /// known, and the stronger evidence stays.
    pub open spec fn refreshed(self, candidate: Candidate, provenance: Provenance) -> Peer {
        Peer {
            addresses: if candidate.addresses@.len() > 0 {
                candidate.addresses@
            } else {
                self.addresses
            },
            connection_class: if candidate.class is Some {
                candidate.class
            } else {
                self.connection_class
            },
            provenance: self.provenance.stronger(provenance),
            ..self
        }
    }

    /// The peer after the path of a link to it was reported, which is the strongest evidence.
    pub open spec fn routed(self, class: TraversalKind) -> Peer {
        Peer {
            connection_class: Some(class),
            provenance: self.provenance.stronger(Provenance::Nat),
            ..self
        }
    }

    /// The peer after it joined the pool.
    pub open spec fn joined(self, provenance: Provenance) -> Peer {
        Peer {
            connected: true,
            banned: false,
            provenance: self.provenance.stronger(provenance),
            ..self
        }
    }

    /// The peer after it left the pool.
    pub open spec fn left(self, banned: bool) -> Peer {
        Peer { connected: false, banned: self.banned || banned, ..self }
    }

    /// Whether the peer may leave while others could: it is neither connected nor busy.
    pub open spec fn idle(self) -> bool {
        !self.connected && self.quality.in_flight == 0
    }

    /// How long ago the peer was last measured, or registered where it never was.
    pub open spec fn age(self, now: u64) -> u64 {
        let reference = match self.last_outcome_at {
            Some(at) => at,
            None => self.first_seen,
        };
        if now < reference {
            0
        } else {
            (now - reference) as u64
        }
    }

    /// Whether the time since which the peer is busy is known exactly while it is busy.
    pub open spec fn stamped(self) -> bool {
        self.quality.in_flight > 0 <==> self.in_flight_since is Some
    }

    /// The peer with `count` more ranges in flight, as far as the counter reaches.
    pub open spec fn busier(self, count: u32, now: u64) -> Peer {
        let in_flight = if self.quality.in_flight + count > u32::MAX {
            u32::MAX
        } else {
            (self.quality.in_flight + count) as u32
        };
        Peer {
            quality: PeerQuality { in_flight, ..self.quality },
            in_flight_since: if self.quality.in_flight == 0 && in_flight > 0 {
                Some(now)
            } else {
                self.in_flight_since
            },
            ..self
        }
    }

    /// The peer with `count` ranges fewer in flight, at least none.
    pub open spec fn relieved(self, count: u32) -> Peer {
        let in_flight = if self.quality.in_flight < count {
            0
        } else {
            (self.quality.in_flight - count) as u32
        };
        Peer {
            quality: PeerQuality { in_flight, ..self.quality },
            in_flight_since: if in_flight == 0 {
                None
            } else {
                self.in_flight_since
            },
            ..self
        }
    }

    /// Whether the peer has been busy for the whole time an unsettled dispatch counts.
    pub open spec fn overdue(self, now: u64) -> bool {
        self.in_flight_since matches Some(since) && now >= since && now - since
            >= DISPATCH_TTL_SECS
    }

    /// The peer with an overdue dispatch written off.
    pub open spec fn settled(self, now: u64) -> Peer {
        if self.overdue(now) {
            Peer {
                quality: PeerQuality { in_flight: 0, ..self.quality },
                in_flight_since: None,
                ..self
            }
        } else {
            self
        }
    }

    /// The peer with `quality` learned of it, its ranges in flight unchanged.
    pub open spec fn taught(self, quality: PeerQuality, at: Option<u64>) -> Peer {
        Peer {
            quality: PeerQuality { in_flight: self.quality.in_flight, ..quality },
            last_outcome_at: at,
            ..self
        }
    }
}

/// Whether the `i`-th address is the one to prefer: it can be dialed, and every other that can be is
/// less direct, or as direct and later.
pub open spec fn preferred(addresses: Seq<CandidateAddr>, i: int) -> bool {
    &&& 0 <= i < addresses.len()
    &&& addresses[i].kind.dials()
    &&& forall|j: int|
        #![trigger addresses[j]]
        0 <= j < addresses.len() && addresses[j].kind.dials() ==> addresses[i].kind.distance()
            < addresses[j].kind.distance() || (addresses[i].kind.distance()
            == addresses[j].kind.distance() && i <= j)
}

impl PeerEntry {
    /// An entry for a peer of which nothing is known.
    pub fn cold(peer_id: PeerId, provenance: Provenance, now: u64) -> (r: PeerEntry)
        ensures
            r@ == Peer::fresh(peer_id, provenance, now),
    {
        PeerEntry {
            peer_id,
            addresses: Vec::new(),
            connection_class: None,
            provenance,
            quality: PeerQuality::cold(),
            first_seen: now,
            last_outcome_at: None,
            connected: false,
            banned: false,
            in_flight_since: None,
        }
    }

    /// Whether the peer may be selected: it is not banned.
    pub fn is_eligible(&self) -> (r: bool)
        ensures
            r == !self.banned,
    {
        !self.banned
    }

    /// Whether the peer may leave under ordinary pressure: it is neither connected nor busy.
    pub fn is_evictable(&self) -> (r: bool)
        ensures
            r == self@.idle(),
    {
        !self.connected && self.quality.in_flight == 0
    }

    /// Whether the peer may leave where nobody else can: it is not connected.
    pub fn is_force_evictable(&self) -> (r: bool)
        ensures
            r == !self.connected,
    {
        !self.connected
    }

    /// The most direct address that can be dialed, the first of equals.
    pub fn preferred_address(&self) -> (r: Option<&CandidateAddr>)
        ensures
            r is Some <==> exists|i: int|
                0 <= i < self.addresses@.len() && (#[trigger] self.addresses@[i]).kind.dials(),
            r matches Some(address) ==> exists|i: int|
                preferred(self.addresses@, i) && self.addresses@[i] == *address,
    {
        let mut best: Option<usize> = None;
        let mut i: usize = 0;
        while i < self.addresses.len()
            invariant
                i <= self.addresses.len(),
                best matches Some(b) ==> b < i && preferred(self.addresses@.take(i as int), b as int),
                best is None ==> forall|j: int| 0 <= j < i ==> !(#[trigger] self.addresses@[j]).kind.dials(),
            decreases self.addresses.len() - i,
        {
            let ghost before = self.addresses@.take(i as int);
            let ghost after = self.addresses@.take(i + 1);
            assert(forall|j: int| 0 <= j < i ==> before[j] == after[j]);
            assert(after[i as int] == self.addresses@[i as int]);
            if self.addresses[i].kind.is_dialable() {
                match best {
                    None => {
                        best = Some(i);
                    },
                    Some(b) => {
                        if self.addresses[i].kind.rank() < self.addresses[b].kind.rank() {
                            best = Some(i);
                        }
                    },
                }
            }
            i = i + 1;
        }
        assert(self.addresses@.take(i as int) == self.addresses@);
        match best {
            Some(b) => Some(&self.addresses[b]),
            None => None,
        }
    }

    /// Gives the peer an even chance for its success rate, unless results were measured. No throughput
    /// is presumed.
    fn seed_class_prior(&mut self)
        ensures
            final(self)@ == old(self)@.with_even_odds(),
    {
        self.quality.reliability.seed_prior(Measure { bits: HALF });
    }

    /// What the peer is worth keeping, given its quality and the time since it was last measured.
    pub fn eviction_value<A: Arithmetic>(&self, now: u64, kit: &A) -> (r: Measure)
        ensures
            retention(self.quality, self@.age(now)).gives(kit, r),
    {
        let reference: u64 = match self.last_outcome_at {
            Some(at) => at,
            None => self.first_seen,
        };
        let age: u64 = now.saturating_sub(reference);
        let one = Term::constant(ONE, kit);
        let half = Term::constant(HALF, kit);
        let throughput = known_or(self.quality.throughput.value(), ZERO, kit);
        let reliability = known_or(self.quality.reliability.rate, ZERO, kit);
        let trusted = throughput.times(&confidence_term(self.quality.samples, kit), kit);
        let value = trusted.times(&half.plus(&half.times(&reliability, kit), kit), kit);
        let hours = Term::count(age, kit).over(&Term::constant(HOUR, kit), kit);
        let fresh = one.over(&one.plus(&hours, kit), kit);
        value.times(&fresh, kit).plus(&fresh, kit).value
    }
}

/// What feeding an event to the registry did.
#[derive(Clone, Copy, Debug, PartialEq, Eq, Structural)]
pub enum FeedResult {
    /// A new peer was registered.
    Inserted,
    /// A known peer was updated.
    Updated,
    /// A known peer was marked as disconnected, or removed.
    MarkedDisconnected,
    /// The peer is not known.
    Absent,
}

/// Whether a peer is among `peers`.
pub open spec fn registered(peers: Seq<Peer>, id: PeerId) -> bool {
    exists|i: int| 0 <= i < peers.len() && (#[trigger] peers[i]).peer_id == id
}

/// Where a registered peer stands.
pub open spec fn place(peers: Seq<Peer>, id: PeerId) -> int {
    choose|i: int| 0 <= i < peers.len() && (#[trigger] peers[i]).peer_id == id
}

/// Whether no identity occurs twice.
pub open spec fn distinct(peers: Seq<Peer>) -> bool {
    forall|i: int, j: int|
        0 <= i < j < peers.len() ==> (#[trigger] peers[i]).peer_id != (#[trigger] peers[j]).peer_id
}

/// Whether no identity occurs twice and every busy peer is stamped.
pub open spec fn sound(peers: Seq<Peer>) -> bool {
    &&& distinct(peers)
    &&& forall|i: int| 0 <= i < peers.len() ==> (#[trigger] peers[i]).stamped()
}

/// The peers with `peer` in the place of the registered one of the same identity.
pub open spec fn replaced(peers: Seq<Peer>, peer: Peer) -> Seq<Peer> {
    peers.update(place(peers, peer.peer_id), peer)
}

/// The registered peer of an identity.
pub open spec fn known(peers: Seq<Peer>, id: PeerId) -> Peer {
    peers[place(peers, id)]
}

/// The peers with every overdue dispatch written off.
pub open spec fn settled(peers: Seq<Peer>, now: u64) -> Seq<Peer> {
    Seq::new(peers.len(), |i: int| peers[i].settled(now))
}

/// Whether the `i`-th peer may be the next to leave: it is idle, or no peer is and it is not
/// connected.
pub open spec fn may_leave(peers: Seq<Peer>, i: int) -> bool {
    if exists|j: int| 0 <= j < peers.len() && (#[trigger] peers[j]).idle() {
        peers[i].idle()
    } else {
        !peers[i].connected
    }
}

/// Whether the `i`-th peer is the next to leave: of those that may, the one least worth keeping, the
/// earliest of equals.
pub open spec fn leaves_next(peers: Seq<Peer>, worth: Seq<Measure>, i: int) -> bool {
    &&& 0 <= i < peers.len()
    &&& may_leave(peers, i)
    &&& forall|j: int|
        #![trigger worth[j]]
        0 <= j < peers.len() && may_leave(peers, j) ==> worth[i].bits < worth[j].bits || (
        worth[i].bits == worth[j].bits && i <= j)
}

/// Whether every peer is connected.
pub open spec fn all_connected(peers: Seq<Peer>) -> bool {
    forall|i: int| 0 <= i < peers.len() ==> (#[trigger] peers[i]).connected
}

/// The next to leave.
pub open spec fn victim(peers: Seq<Peer>, worth: Seq<Measure>) -> int {
    choose|i: int| leaves_next(peers, worth, i)
}

/// Who stays when peers leave one by one until the bound holds or everyone is connected.
pub open spec fn kept(peers: Seq<Peer>, worth: Seq<Measure>, capacity: nat) -> Seq<Peer>
    decreases peers.len(),
{
    if peers.len() <= capacity || all_connected(peers) || !(0 <= victim(peers, worth)
        < peers.len()) {
        peers
    } else {
        let v = victim(peers, worth);
        kept(peers.remove(v), worth.remove(v), capacity)
    }
}

/// Who leaves then, in order.
pub open spec fn shed(peers: Seq<Peer>, worth: Seq<Measure>, capacity: nat) -> Seq<PeerId>
    decreases peers.len(),
{
    if peers.len() <= capacity || all_connected(peers) || !(0 <= victim(peers, worth)
        < peers.len()) {
        Seq::empty()
    } else {
        let v = victim(peers, worth);
        seq![peers[v].peer_id] + shed(peers.remove(v), worth.remove(v), capacity)
    }
}

/// The bit pattern of `3600.0`: the seconds of an hour.
pub const HOUR: u64 = 0x40AC_2000_0000_0000;

/// How fresh a peer is that was last measured `age` seconds ago: half after an hour.
pub open spec fn freshness(age: u64) -> Formula {
    constant(ONE).over(constant(ONE).plus(Formula::Count(age).over(constant(HOUR))))
}

/// What a peer is worth keeping: its throughput, as far as it is trusted and reliable, and one more,
/// both as far as the peer is fresh.
pub open spec fn retention(quality: PeerQuality, age: u64) -> Formula {
    or_constant(quality.throughput.mean, ZERO).times(confidence_in(quality.samples)).times(
        constant(HALF).plus(constant(HALF).times(or_constant(quality.reliability.rate, ZERO))),
    ).times(freshness(age)).plus(freshness(age))
}

/// Whether `worth` is what each peer is worth keeping, as `kit` computes.
pub open spec fn weighed<A: Arithmetic>(
    kit: &A,
    peers: Seq<Peer>,
    now: u64,
    worth: Seq<Measure>,
) -> bool {
    &&& worth.len() == peers.len()
    &&& forall|i: int|
        0 <= i < peers.len() ==> retention(
            (#[trigger] peers[i]).quality,
            peers[i].age(now),
        ).gives(kit, worth[i])
}

/// Whether enforcing the bound leaves `after` of `before` and sends `gone` away: overdue dispatches
/// are written off, then the peers least worth keeping leave.
pub open spec fn bounded<A: Arithmetic>(
    kit: &A,
    before: Seq<Peer>,
    capacity: nat,
    now: u64,
    after: Seq<Peer>,
    gone: Seq<PeerId>,
) -> bool {
    let peers = settled(before, now);
    if peers.len() <= capacity {
        after == peers && gone == Seq::<PeerId>::empty()
    } else {
        exists|worth: Seq<Measure>| #[trigger]
            weighed(kit, peers, now, worth) && after == kept(peers, worth, capacity) && gone
                == shed(peers, worth, capacity)
    }
}

/// The places of the registered peers are where they were found.
pub proof fn lemma_place(peers: Seq<Peer>, i: int)
    requires
        distinct(peers),
        0 <= i < peers.len(),
    ensures
        registered(peers, peers[i].peer_id),
        place(peers, peers[i].peer_id) == i,
{
    let p = place(peers, peers[i].peer_id);
    assert(0 <= p < peers.len() && peers[p].peer_id == peers[i].peer_id);
}

/// Some peer is next to leave unless everyone is connected.
pub proof fn lemma_victim_exists(peers: Seq<Peer>, worth: Seq<Measure>)
    requires
        worth.len() == peers.len(),
        !all_connected(peers),
    ensures
        leaves_next(peers, worth, victim(peers, worth)),
{
    let c = choose|i: int| 0 <= i < peers.len() && !(#[trigger] peers[i]).connected;
    if exists|j: int| 0 <= j < peers.len() && (#[trigger] peers[j]).idle() {
        let j = choose|j: int| 0 <= j < peers.len() && (#[trigger] peers[j]).idle();
        assert(may_leave(peers, j));
    } else {
        assert(may_leave(peers, c));
    }
    let first = choose|i: int| 0 <= i < peers.len() && may_leave(peers, i);
    lemma_least(peers, worth, first);
}

proof fn lemma_least(peers: Seq<Peer>, worth: Seq<Measure>, i: int)
    requires
        worth.len() == peers.len(),
        0 <= i < peers.len(),
        may_leave(peers, i),
    ensures
        exists|j: int| leaves_next(peers, worth, j),
    decreases worth[i].bits, i,
{
    if !leaves_next(peers, worth, i) {
        let j = choose|j: int|
            #![trigger worth[j]]
            0 <= j < peers.len() && may_leave(peers, j) && !(worth[i].bits < worth[j].bits || (
            worth[i].bits == worth[j].bits && i <= j));
        lemma_least(peers, worth, j);
    }
}

/// The registry.
#[derive(Debug)]
pub struct Registry {
    entries: Vec<PeerEntry>,
    capacity: usize,
    evicted: Vec<PeerId>,
}

impl Default for Registry {
    /// An empty registry that keeps nobody who is not connected.
    fn default() -> (r: Registry)
        ensures
            r.wf(),
            r.peers() == Seq::<Peer>::empty(),
            r.bound() == 0,
            r.departed() == Seq::<PeerId>::empty(),
    {
        Registry { entries: Vec::new(), capacity: 0, evicted: Vec::new() }
    }
}

/// The entries as a sequence of peers.
pub open spec fn views(entries: Seq<PeerEntry>) -> Seq<Peer> {
    Seq::new(entries.len(), |i: int| entries[i]@)
}

impl Registry {
    /// The peers, in the order of their registration.
    pub closed spec fn peers(&self) -> Seq<Peer> {
        views(self.entries@)
    }

    /// How many peers the registry holds at most, unless more are connected.
    pub closed spec fn bound(&self) -> nat {
        self.capacity as nat
    }

    /// Who left since that was last asked, in order.
    pub closed spec fn departed(&self) -> Seq<PeerId> {
        self.evicted@
    }

    /// Whether the registry is sound.
    pub open spec fn wf(&self) -> bool {
        sound(self.peers())
    }

    /// An empty registry for `capacity` peers, at least one.
    pub fn new(capacity: usize) -> (r: Registry)
        ensures
            r.wf(),
            r.peers() == Seq::<Peer>::empty(),
            r.bound() == (if capacity == 0 {
                1
            } else {
                capacity as nat
            }),
            r.departed() == Seq::<PeerId>::empty(),
    {
        Registry {
            entries: Vec::new(),
            capacity: if capacity == 0 {
                1
            } else {
                capacity
            },
            evicted: Vec::new(),
        }
    }

    /// How many peers are registered.
    pub fn len(&self) -> (r: usize)
        ensures
            r == self.peers().len(),
    {
        self.entries.len()
    }

    /// Whether nobody is registered.
    pub fn is_empty(&self) -> (r: bool)
        ensures
            r == (self.peers().len() == 0),
    {
        self.entries.len() == 0
    }

    /// Who left the registry since this was last asked.
    pub fn drain_evicted(&mut self) -> (r: Vec<PeerId>)
        ensures
            r@ == old(self).departed(),
            final(self).departed() == Seq::<PeerId>::empty(),
            final(self).peers() == old(self).peers(),
            final(self).bound() == old(self).bound(),
    {
        let mut drained: Vec<PeerId> = Vec::new();
        std::mem::swap(&mut drained, &mut self.evicted);
        drained
    }

    fn find(&self, peer: &PeerId) -> (r: Option<usize>)
        ensures
            r is Some <==> registered(self.peers(), *peer),
            r matches Some(i) ==> i < self.entries@.len() && self.peers()[i as int].peer_id == *peer,
            r matches Some(i) ==> distinct(self.peers()) ==> place(self.peers(), *peer) == i,
    {
        let mut i: usize = 0;
        while i < self.entries.len()
            invariant
                i <= self.entries.len(),
                forall|j: int| 0 <= j < i ==> (#[trigger] self.peers()[j]).peer_id != *peer,
            decreases self.entries.len() - i,
        {
            if self.entries[i].peer_id.same(peer) {
                proof {
                    assert(self.peers()[i as int].peer_id == *peer);
                    if distinct(self.peers()) {
                        lemma_place(self.peers(), i as int);
                    }
                }
                return Some(i);
            }
            i = i + 1;
        }
        None
    }

    /// The entry of a peer.
    pub fn get(&self, peer: &PeerId) -> (r: Option<&PeerEntry>)
        requires
            self.wf(),
        ensures
            r is Some <==> registered(self.peers(), *peer),
            r matches Some(entry) ==> entry@ == known(self.peers(), *peer),
    {
        match self.find(peer) {
            Some(i) => Some(&self.entries[i]),
            None => None,
        }
    }

    /// Every entry, in the order of registration.
    pub fn iter(&self) -> (r: &Vec<PeerEntry>)
        ensures
            views(r@) == self.peers(),
    {
        &self.entries
    }

    /// Writes off every dispatch that never settled in time.
    pub fn reclaim_stale_in_flight(&mut self, now: u64)
        requires
            old(self).wf(),
        ensures
            final(self).wf(),
            final(self).peers() == settled(old(self).peers(), now),
            final(self).bound() == old(self).bound(),
            final(self).departed() == old(self).departed(),
    {
        let ghost before = self.peers();
        let mut i: usize = 0;
        while i < self.entries.len()
            invariant
                i <= self.entries@.len(),
                before == old(self).peers(),
                self.entries@.len() == before.len(),
                forall|j: int| 0 <= j < i ==> #[trigger] self.peers()[j] == before[j].settled(now),
                forall|j: int| i <= j < before.len() ==> #[trigger] self.peers()[j] == before[j],
                self.bound() == old(self).bound(),
                self.departed() == old(self).departed(),
            decreases self.entries@.len() - i,
        {
            let ghost peers = self.peers();
            assert(peers[i as int] == before[i as int]);
            match self.entries[i].in_flight_since {
                Some(since) => {
                    if now.saturating_sub(since) >= DISPATCH_TTL_SECS {
                        self.entries[i].quality.in_flight = 0;
                        self.entries[i].in_flight_since = None;
                    }
                },
                None => {},
            }
            assert(self.peers() =~= peers.update(i as int, before[i as int].settled(now)));
            i = i + 1;
        }
        assert(self.peers() =~= settled(before, now));
        assert(forall|j: int| 0 <= j < before.len() ==> before[j].stamped() ==> (
        #[trigger] self.peers()[j]).stamped());
    }

    /// What each peer is worth keeping.
    fn weigh<A: Arithmetic>(&self, now: u64, kit: &A) -> (r: Vec<Measure>)
        ensures
            weighed(kit, self.peers(), now, r@),
    {
        let mut worth: Vec<Measure> = Vec::new();
        let mut i: usize = 0;
        while i < self.entries.len()
            invariant
                i <= self.entries@.len(),
                worth@.len() == i,
                forall|j: int|
                    0 <= j < i ==> retention(
                        (#[trigger] self.peers()[j]).quality,
                        self.peers()[j].age(now),
                    ).gives(kit, worth@[j]),
            decreases self.entries@.len() - i,
        {
            let value = self.entries[i].eviction_value(now, kit);
            worth.push(value);
            i = i + 1;
        }
        worth
    }

    fn enforce_capacity<A: Arithmetic>(&mut self, now: u64, kit: &A) -> (gone: Ghost<Seq<PeerId>>)
        requires
            old(self).wf(),
        ensures
            final(self).wf(),
            bounded(kit, old(self).peers(), old(self).bound(), now, final(self).peers(), gone@),
            final(self).departed() == old(self).departed() + gone@,
            final(self).bound() == old(self).bound(),
    {
        self.reclaim_stale_in_flight(now);
        let ghost peers = self.peers();
        let ghost capacity = self.bound();
        if self.entries.len() <= self.capacity {
            assert(self.departed() =~= old(self).departed() + Seq::<PeerId>::empty());
            return Ghost(Seq::empty());
        }
        let mut worth = self.weigh(now, kit);
        let ghost first_worth = worth@;
        let ghost mut gone = Seq::<PeerId>::empty();
        let mut everyone_stays = false;
        while !everyone_stays && self.entries.len() > self.capacity
            invariant
                self.wf(),
                self.bound() == capacity,
                capacity == old(self).bound(),
                worth@.len() == self.entries@.len(),
                kept(peers, first_worth, capacity) == kept(self.peers(), worth@, capacity),
                shed(peers, first_worth, capacity) == gone + shed(self.peers(), worth@, capacity),
                self.departed() == old(self).departed() + gone,
                everyone_stays ==> all_connected(self.peers()),
            decreases self.entries@.len() + (if everyone_stays { 0int } else { 1 }),
        {
            let ghost now_peers = self.peers();
            match next_to_leave(&self.entries, &worth) {
                Some(i) => {
                    let ghost now_worth = worth@;
                    proof {
                        assert(now_peers =~= views(self.entries@));
                        lemma_victim_exists(now_peers, now_worth);
                        lemma_same_victim(now_peers, now_worth, i as int, victim(now_peers, now_worth));
                    }
                    let entry = self.entries.remove(i);
                    let _ = worth.remove(i);
                    self.evicted.push(entry.peer_id);
                    proof {
                        let left = now_peers[i as int].peer_id;
                        assert(self.peers() =~= now_peers.remove(i as int));
                        lemma_remove_sound(now_peers, i as int);
                        assert(gone.push(left) + shed(self.peers(), worth@, capacity) =~= gone + (
                        seq![left] + shed(self.peers(), worth@, capacity)));
                        gone = gone.push(left);
                        assert(self.departed() =~= old(self).departed() + gone);
                    }
                },
                None => {
                    everyone_stays = true;
                },
            }
        }
        proof {
            assert(gone + Seq::<PeerId>::empty() =~= gone);
        }
        Ghost(gone)
    }

    /// Appends a newcomer and enforces the bound.
    fn take_in<A: Arithmetic>(&mut self, entry: PeerEntry, now: u64, kit: &A) -> (gone: Ghost<
        Seq<PeerId>,
    >)
        requires
            old(self).wf(),
            !registered(old(self).peers(), entry.peer_id),
            entry@.stamped(),
        ensures
            final(self).wf(),
            bounded(
                kit,
                old(self).peers().push(entry@),
                old(self).bound(),
                now,
                final(self).peers(),
                gone@,
            ),
            final(self).departed() == old(self).departed() + gone@,
            final(self).bound() == old(self).bound(),
    {
        let ghost before = self.peers();
        let ghost newcomer = entry@;
        self.entries.push(entry);
        assert(self.peers() =~= before.push(newcomer));
        self.enforce_capacity(now, kit)
    }

    /// Takes a candidate in: a new peer is registered cold, a known one keeps what was learned of it
    /// and is told where it may be dialed.
    pub fn upsert_candidate<A: Arithmetic>(
        &mut self,
        candidate: &Candidate,
        provenance: Provenance,
        now: u64,
        kit: &A,
    ) -> (r: FeedResult)
        requires
            old(self).wf(),
        ensures
            final(self).wf(),
            final(self).bound() == old(self).bound(),
            registered(old(self).peers(), candidate.peer_id) ==> {
                &&& r == FeedResult::Updated
                &&& final(self).peers() == replaced(
                    old(self).peers(),
                    known(old(self).peers(), candidate.peer_id).refreshed(*candidate, provenance),
                )
                &&& final(self).departed() == old(self).departed()
            },
            !registered(old(self).peers(), candidate.peer_id) ==> {
                &&& r == FeedResult::Inserted
                &&& exists|gone: Seq<PeerId>| #[trigger]
                    bounded(
                        kit,
                        old(self).peers().push(Peer::introduced(*candidate, provenance, now)),
                        old(self).bound(),
                        now,
                        final(self).peers(),
                        gone,
                    ) && final(self).departed() == old(self).departed() + gone
            },
    {
        let ghost before = self.peers();
        match self.find(&candidate.peer_id) {
            Some(i) => {
                if candidate.addresses.len() > 0 {
                    self.entries[i].addresses = copy_addresses(&candidate.addresses);
                }
                if candidate.class.is_some() {
                    self.entries[i].connection_class = candidate.class;
                }
                if provenance.evidence() > self.entries[i].provenance.evidence() {
                    self.entries[i].provenance = provenance;
                }
                assert(self.peers() =~= before.update(
                    i as int,
                    before[i as int].refreshed(*candidate, provenance),
                ));
                FeedResult::Updated
            },
            None => {
                let mut entry = PeerEntry::cold(candidate.peer_id, provenance, now);
                entry.addresses = copy_addresses(&candidate.addresses);
                entry.connection_class = candidate.class;
                entry.seed_class_prior();
                assert(entry@ == Peer::introduced(*candidate, provenance, now));
                let _ = self.take_in(entry, now, kit);
                FeedResult::Inserted
            },
        }
    }

    /// Notes that a peer joined the pool: a new peer is registered cold, a known one keeps what was
    /// learned of it, and a ban is lifted.
    pub fn mark_connected<A: Arithmetic>(
        &mut self,
        peer: PeerId,
        provenance: Provenance,
        now: u64,
        kit: &A,
    ) -> (r: FeedResult)
        requires
            old(self).wf(),
        ensures
            final(self).wf(),
            final(self).bound() == old(self).bound(),
            registered(old(self).peers(), peer) ==> {
                &&& r == FeedResult::Updated
                &&& final(self).peers() == replaced(
                    old(self).peers(),
                    known(old(self).peers(), peer).joined(provenance),
                )
                &&& final(self).departed() == old(self).departed()
            },
            !registered(old(self).peers(), peer) ==> {
                &&& r == FeedResult::Inserted
                &&& exists|gone: Seq<PeerId>| #[trigger]
                    bounded(
                        kit,
                        old(self).peers().push(Peer::linked(peer, provenance, now)),
                        old(self).bound(),
                        now,
                        final(self).peers(),
                        gone,
                    ) && final(self).departed() == old(self).departed() + gone
            },
    {
        let ghost before = self.peers();
        match self.find(&peer) {
            Some(i) => {
                self.entries[i].connected = true;
                self.entries[i].banned = false;
                if provenance.evidence() > self.entries[i].provenance.evidence() {
                    self.entries[i].provenance = provenance;
                }
                assert(self.peers() =~= before.update(
                    i as int,
                    before[i as int].joined(provenance),
                ));
                FeedResult::Updated
            },
            None => {
                let mut entry = PeerEntry::cold(peer, provenance, now);
                entry.connected = true;
                let _ = self.take_in(entry, now, kit);
                FeedResult::Inserted
            },
        }
    }

    /// Notes that a peer left the pool: its entry and what was learned of it stay.
    pub fn mark_disconnected(&mut self, peer: &PeerId, banned: bool) -> (r: FeedResult)
        requires
            old(self).wf(),
        ensures
            final(self).wf(),
            final(self).bound() == old(self).bound(),
            final(self).departed() == old(self).departed(),
            r == (if registered(old(self).peers(), *peer) {
                FeedResult::MarkedDisconnected
            } else {
                FeedResult::Absent
            }),
            final(self).peers() == (if registered(old(self).peers(), *peer) {
                replaced(old(self).peers(), known(old(self).peers(), *peer).left(banned))
            } else {
                old(self).peers()
            }),
    {
        let ghost before = self.peers();
        match self.find(peer) {
            Some(i) => {
                self.entries[i].connected = false;
                if banned {
                    self.entries[i].banned = true;
                }
                assert(self.peers() =~= before.update(i as int, before[i as int].left(banned)));
                FeedResult::MarkedDisconnected
            },
            None => FeedResult::Absent,
        }
    }

    /// Notes the path of a link to a peer, which is registered cold where it is new. The report is
    /// evidence as strong as there is.
    pub fn set_connection_class<A: Arithmetic>(
        &mut self,
        peer: PeerId,
        class: TraversalKind,
        now: u64,
        kit: &A,
    ) -> (r: FeedResult)
        requires
            old(self).wf(),
        ensures
            final(self).wf(),
            final(self).bound() == old(self).bound(),
            registered(old(self).peers(), peer) ==> {
                &&& r == FeedResult::Updated
                &&& final(self).peers() == replaced(
                    old(self).peers(),
                    known(old(self).peers(), peer).routed(class),
                )
                &&& final(self).departed() == old(self).departed()
            },
            !registered(old(self).peers(), peer) ==> {
                &&& r == FeedResult::Inserted
                &&& exists|gone: Seq<PeerId>| #[trigger]
                    bounded(
                        kit,
                        old(self).peers().push(Peer::reported(peer, class, now)),
                        old(self).bound(),
                        now,
                        final(self).peers(),
                        gone,
                    ) && final(self).departed() == old(self).departed() + gone
            },
    {
        let ghost before = self.peers();
        match self.find(&peer) {
            Some(i) => {
                self.entries[i].connection_class = Some(class);
                if Provenance::Nat.evidence() > self.entries[i].provenance.evidence() {
                    self.entries[i].provenance = Provenance::Nat;
                }
                assert(self.peers() =~= before.update(i as int, before[i as int].routed(class)));
                FeedResult::Updated
            },
            None => {
                let mut entry = PeerEntry::cold(peer, Provenance::Nat, now);
                entry.connection_class = Some(class);
                entry.seed_class_prior();
                let _ = self.take_in(entry, now, kit);
                FeedResult::Inserted
            },
        }
    }

    /// Removes a peer, unless it is busy.
    pub fn remove(&mut self, peer: &PeerId) -> (r: FeedResult)
        requires
            old(self).wf(),
        ensures
            final(self).wf(),
            final(self).bound() == old(self).bound(),
            !registered(old(self).peers(), *peer) ==> {
                &&& r == FeedResult::Absent
                &&& final(self).peers() == old(self).peers()
                &&& final(self).departed() == old(self).departed()
            },
            registered(old(self).peers(), *peer) && known(
                old(self).peers(),
                *peer,
            ).quality.in_flight > 0 ==> {
                &&& r == FeedResult::Updated
                &&& final(self).peers() == old(self).peers()
                &&& final(self).departed() == old(self).departed()
            },
            registered(old(self).peers(), *peer) && known(
                old(self).peers(),
                *peer,
            ).quality.in_flight == 0 ==> {
                &&& r == FeedResult::MarkedDisconnected
                &&& final(self).peers() == old(self).peers().remove(
                    place(old(self).peers(), *peer),
                )
                &&& final(self).departed() == old(self).departed().push(*peer)
            },
    {
        let ghost before = self.peers();
        match self.find(peer) {
            Some(i) => {
                if self.entries[i].quality.in_flight > 0 {
                    FeedResult::Updated
                } else {
                    let _ = self.entries.remove(i);
                    self.evicted.push(*peer);
                    proof {
                        assert(self.peers() =~= before.remove(i as int));
                        lemma_remove_sound(before, i as int);
                    }
                    FeedResult::MarkedDisconnected
                }
            },
            None => FeedResult::Absent,
        }
    }

    /// Notes that `count` ranges were dispatched to a peer.
    pub fn add_in_flight(&mut self, peer: &PeerId, count: u32, now: u64)
        requires
            old(self).wf(),
        ensures
            final(self).wf(),
            final(self).bound() == old(self).bound(),
            final(self).departed() == old(self).departed(),
            final(self).peers() == (if registered(old(self).peers(), *peer) {
                replaced(old(self).peers(), known(old(self).peers(), *peer).busier(count, now))
            } else {
                old(self).peers()
            }),
    {
        let ghost before = self.peers();
        match self.find(peer) {
            Some(i) => {
                let was_idle = self.entries[i].quality.in_flight == 0;
                self.entries[i].quality.in_flight = self.entries[i].quality.in_flight.saturating_add(
                    count,
                );
                if was_idle && self.entries[i].quality.in_flight > 0 {
                    self.entries[i].in_flight_since = Some(now);
                }
                assert(self.peers() =~= before.update(
                    i as int,
                    before[i as int].busier(count, now),
                ));
                assert(before[i as int].stamped());
            },
            None => {},
        }
    }

    /// Notes that `count` ranges dispatched to a peer settled.
    pub fn release_in_flight(&mut self, peer: &PeerId, count: u32)
        requires
            old(self).wf(),
        ensures
            final(self).wf(),
            final(self).bound() == old(self).bound(),
            final(self).departed() == old(self).departed(),
            final(self).peers() == (if registered(old(self).peers(), *peer) {
                replaced(old(self).peers(), known(old(self).peers(), *peer).relieved(count))
            } else {
                old(self).peers()
            }),
    {
        let ghost before = self.peers();
        match self.find(peer) {
            Some(i) => {
                self.entries[i].quality.in_flight = self.entries[i].quality.in_flight.saturating_sub(
                    count,
                );
                if self.entries[i].quality.in_flight == 0 {
                    self.entries[i].in_flight_since = None;
                }
                assert(self.peers() =~= before.update(i as int, before[i as int].relieved(count)));
                assert(before[i as int].stamped());
            },
            None => {},
        }
    }

    /// Replaces what was learned of a peer, and when it was last measured. Its ranges in flight are
    /// not learned and stay.
    pub fn learn(&mut self, peer: &PeerId, quality: PeerQuality, last_outcome_at: Option<u64>)
        requires
            old(self).wf(),
        ensures
            final(self).wf(),
            final(self).bound() == old(self).bound(),
            final(self).departed() == old(self).departed(),
            final(self).peers() == (if registered(old(self).peers(), *peer) {
                replaced(
                    old(self).peers(),
                    known(old(self).peers(), *peer).taught(quality, last_outcome_at),
                )
            } else {
                old(self).peers()
            }),
    {
        let ghost before = self.peers();
        match self.find(peer) {
            Some(i) => {
                let in_flight: u32 = self.entries[i].quality.in_flight;
                self.entries[i].quality = PeerQuality { in_flight, ..quality };
                self.entries[i].last_outcome_at = last_outcome_at;
                assert(self.peers() =~= before.update(
                    i as int,
                    before[i as int].taught(quality, last_outcome_at),
                ));
                assert(before[i as int].stamped());
            },
            None => {},
        }
    }
}

/// The next peer to leave, where `worth` is what each is worth keeping; nobody where everyone is
/// connected.
pub fn next_to_leave(entries: &Vec<PeerEntry>, worth: &Vec<Measure>) -> (r: Option<usize>)
    requires
        worth@.len() == entries@.len(),
    ensures
        r is None <==> all_connected(views(entries@)),
        r matches Some(i) ==> leaves_next(views(entries@), worth@, i as int),
{
    let ghost peers = views(entries@);
    let mut idle: Option<usize> = None;
    let mut loose: Option<usize> = None;
    let mut i: usize = 0;
    while i < entries.len()
        invariant
            peers == views(entries@),
            worth@.len() == entries@.len(),
            i <= entries@.len(),
            idle is None ==> forall|j: int| 0 <= j < i ==> !(#[trigger] peers[j]).idle(),
            idle matches Some(b) ==> b < i && peers[b as int].idle() && forall|j: int|
                #![trigger worth@[j]]
                0 <= j < i && peers[j].idle() ==> worth@[b as int].bits < worth@[j].bits || (
                worth@[b as int].bits == worth@[j].bits && b <= j),
            loose is None ==> forall|j: int| 0 <= j < i ==> (#[trigger] peers[j]).connected,
            loose matches Some(b) ==> b < i && !peers[b as int].connected && forall|j: int|
                #![trigger worth@[j]]
                0 <= j < i && !peers[j].connected ==> worth@[b as int].bits < worth@[j].bits || (
                worth@[b as int].bits == worth@[j].bits && b <= j),
        decreases entries@.len() - i,
    {
        assert(peers[i as int] == entries@[i as int]@);
        if entries[i].is_evictable() {
            match idle {
                None => {
                    idle = Some(i);
                },
                Some(b) => {
                    if worth[i].bits < worth[b].bits {
                        idle = Some(i);
                    }
                },
            }
        }
        if entries[i].is_force_evictable() {
            match loose {
                None => {
                    loose = Some(i);
                },
                Some(b) => {
                    if worth[i].bits < worth[b].bits {
                        loose = Some(i);
                    }
                },
            }
        }
        i = i + 1;
    }
    match idle {
        Some(b) => {
            assert(peers[b as int].idle());
            Some(b)
        },
        None => {
            loose
        },
    }
}

proof fn lemma_same_victim(peers: Seq<Peer>, worth: Seq<Measure>, i: int, j: int)
    requires
        worth.len() == peers.len(),
        leaves_next(peers, worth, i),
        leaves_next(peers, worth, j),
    ensures
        i == j,
{
    assert(worth[i].bits <= worth[j].bits && worth[j].bits <= worth[i].bits);
}

proof fn lemma_remove_sound(peers: Seq<Peer>, i: int)
    requires
        sound(peers),
        0 <= i < peers.len(),
    ensures
        sound(peers.remove(i)),
{
    let rest = peers.remove(i);
    assert(forall|j: int|
        0 <= j < rest.len() ==> #[trigger] rest[j] == peers[if j < i {
            j
        } else {
            j + 1
        }]);
}

} // verus!
