//! What each event does to the peers that a selector knows, field by field.

use vstd::prelude::*;

use crate::address::TraversalKind;
use crate::closeness::{lemma_whole_constants, number};
use crate::engine::{lemma_known_stamped, lemma_replaced_coherent};
use crate::engine_laws::{
    choices_are_eligible_and_teach_nothing, newcomers_respect_the_bound, same_but_load,
};
use crate::identity::PeerId;
use crate::measure::Arithmetic;
use crate::pool_event::{PoolEvent, PoolRemovalReason};
use crate::registry::{bounded, distinct, lemma_place, place, registered, Peer};
use crate::registry_laws::the_bound_is_hard;
use crate::state::{without, SelectorState};
use crate::types::{Candidate, Provenance, SelectedPeer};

verus! {

/// Whether the evidence of one provenance is stronger than that of another: a reported path outranks
/// the pool, the pool a provider record, a provider record peer exchange, and that the host.
pub open spec fn outranks(a: Provenance, b: Provenance) -> bool {
    match a {
        Provenance::Nat => b != Provenance::Nat,
        Provenance::Gossip => b is Dht || b is Pex || b is Manual,
        Provenance::Dht => b is Pex || b is Manual,
        Provenance::Pex => b is Manual,
        Provenance::Manual => false,
    }
}

/// Whether a peer is one of which nothing is known but that it is there since now.
pub open spec fn brand_new(peer: Peer, now: u64) -> bool {
    &&& peer.quality.samples == 0
    &&& peer.quality.in_flight == 0
    &&& peer.quality.throughput.mean is None
    &&& peer.quality.throughput.samples == 0
    &&& peer.quality.rtt.mean is None
    &&& peer.quality.rtt.samples == 0
    &&& peer.quality.reliability.samples == 0
    &&& peer.quality.reliability.hard_failures == 0
    &&& peer.first_seen == now
    &&& peer.last_outcome_at is None
    &&& peer.in_flight_since is None
    &&& !peer.banned
}

/// Whether a peer that nobody told of is as it was: only where it has been busy for five minutes or
/// more is it taken to be busy no longer, and only where someone has to leave may it be gone.
pub open spec fn left_alone(before: SelectorState, after: SelectorState, id: PeerId, now: u64) -> bool {
    &&& after.knows(id) ==> before.knows(id)
    &&& after.knows(id) ==> {
        let (a, b) = (after.peer(id), before.peer(id));
        &&& same_but_load(a, b)
        &&& a == b || (a.quality.in_flight == 0 && a.in_flight_since is None
            && b.in_flight_since is Some && b.in_flight_since->0 + 300 <= now)
    }
    &&& before.knows(id) && before.peer(id).connected ==> after.knows(id)
    &&& before.knows(id) && before.peers.len() < before.bound ==> after.knows(id)
    &&& after.knows(id) ==> noted_alike(before, after, id)
}

/// Whether the same is noted of a peer: when it was last chosen, and what was dispatched to it.
pub open spec fn noted_alike(before: SelectorState, after: SelectorState, id: PeerId) -> bool {
    &&& after.last_selected.contains_key(id) <==> before.last_selected.contains_key(id)
    &&& after.last_selected.contains_key(id) ==> after.last_selected[id] == before.last_selected[id]
    &&& after.dispatched.contains_key(id) <==> before.dispatched.contains_key(id)
    &&& after.dispatched.contains_key(id) ==> after.dispatched[id] == before.dispatched[id]
}

/// After a candidate with at least one address is taken in, and while its peer is registered, the
/// addresses of the peer are exactly those of the candidate; a candidate without addresses leaves
/// them. So it is with the path, if the candidate knows it. Of what the registry knew before nothing
/// else changes but that the stronger evidence counts, and a newcomer has neither links nor load nor
/// history, and even odds.
pub proof fn candidates_bring_their_addresses<A: Arithmetic>(
    kit: &A,
    before: SelectorState,
    candidate: Candidate,
    provenance: Provenance,
    now: u64,
    after: SelectorState,
)
    requires
        before.coherent(),
        before.upserts(kit, candidate, provenance, now, after),
    ensures
        after.knows(candidate.peer_id) && candidate.addresses@.len() > 0 ==> after.peer(
            candidate.peer_id,
        ).addresses == candidate.addresses@,
        after.knows(candidate.peer_id) && candidate.addresses@.len() == 0 ==> after.peer(
            candidate.peer_id,
        ).addresses == (if before.knows(candidate.peer_id) {
            before.peer(candidate.peer_id).addresses
        } else {
            Seq::empty()
        }),
        after.knows(candidate.peer_id) && candidate.class is Some ==> after.peer(
            candidate.peer_id,
        ).connection_class == candidate.class,
        after.knows(candidate.peer_id) && candidate.class is None ==> after.peer(
            candidate.peer_id,
        ).connection_class == (if before.knows(candidate.peer_id) {
            before.peer(candidate.peer_id).connection_class
        } else {
            None
        }),
        before.knows(candidate.peer_id) ==> {
            let (a, b) = (after.peer(candidate.peer_id), before.peer(candidate.peer_id));
            &&& after.knows(candidate.peer_id)
            &&& noted_alike(before, after, candidate.peer_id)
            &&& a.provenance == (if outranks(provenance, b.provenance) {
                provenance
            } else {
                b.provenance
            })
            &&& a == (Peer {
                addresses: a.addresses,
                connection_class: a.connection_class,
                provenance: a.provenance,
                ..b
            })
        },
        !before.knows(candidate.peer_id) && after.knows(candidate.peer_id) ==> {
            let a = after.peer(candidate.peer_id);
            &&& brand_new(a, now)
            &&& !a.connected
            &&& a.provenance == provenance
            &&& a.quality.reliability.rate matches Some(rate) && 2real * number(rate) == 1real
        },
        forall|id: PeerId|
            id != candidate.peer_id ==> #[trigger] left_alone(before, after, id, now),
        after.saturation == before.saturation,
        after.relay == before.relay,
        after.epoch == before.epoch,
        after.drawn == before.drawn,
        after.coherent(),
{
    lemma_whole_constants();
    let id = candidate.peer_id;
    if before.knows(id) {
        lemma_known_stamped(before, id);
        lemma_replaced_coherent(before, before.peer(id).refreshed(candidate, provenance));
        assert forall|other: PeerId| other != id implies #[trigger] left_alone(
            before,
            after,
            other,
            now,
        ) by {
            assert(after.knows(other) <==> before.knows(other));
        }
    } else {
        let newcomer = Peer::introduced(candidate, provenance, now);
        lemma_newcomer(kit, before, newcomer, now, after);
    }
}

/// A newcomer is as it was taken in, and the others are left alone.
pub proof fn lemma_newcomer<A: Arithmetic>(
    kit: &A,
    before: SelectorState,
    newcomer: Peer,
    now: u64,
    after: SelectorState,
)
    requires
        before.coherent(),
        newcomer.quality.in_flight == 0,
        newcomer.in_flight_since is None,
        !before.knows(newcomer.peer_id),
        before.takes_in(kit, newcomer, now, after),
    ensures
        after.knows(newcomer.peer_id) ==> after.peer(newcomer.peer_id) == newcomer,
        newcomer.connected ==> after.knows(newcomer.peer_id),
        before.peers.len() < before.bound ==> after.knows(newcomer.peer_id),
        forall|id: PeerId|
            id != newcomer.peer_id ==> #[trigger] left_alone(before, after, id, now),
        after.saturation == before.saturation,
        after.relay == before.relay,
        after.epoch == before.epoch,
        after.drawn == before.drawn,
        after.coherent(),
{
    newcomers_respect_the_bound(kit, before, newcomer, now, after);
    let all = before.peers.push(newcomer);
    let gone = choose|gone: Seq<PeerId>| #[trigger]
        bounded(kit, all, before.bound, now, after.peers, gone) && after
            == (SelectorState {
            peers: after.peers,
            last_selected: without(before.last_selected, gone),
            dispatched: without(before.dispatched, gone),
            ..before
        });
    assert(distinct(all)) by {
        assert forall|i: int, j: int| 0 <= i < j < all.len() implies (#[trigger] all[i]).peer_id != (
        #[trigger] all[j]).peer_id by {
            if j == before.peers.len() {
                assert(before.peers[i].peer_id != newcomer.peer_id);
            } else {
                assert(before.peers[i].peer_id != before.peers[j].peer_id);
            }
        }
    }
    the_bound_is_hard(kit, all, before.bound, now, after.peers, gone);
    assert(all[before.peers.len() as int] == newcomer);
    lemma_place(all, before.peers.len() as int);
    assert(registered(all, newcomer.peer_id));
    assert forall|id: PeerId| id != newcomer.peer_id implies #[trigger] left_alone(
        before,
        after,
        id,
        now,
    ) by {
        if before.knows(id) {
            let i = choose|i: int|
                0 <= i < before.peers.len() && (#[trigger] before.peers[i]).peer_id == id;
            assert(all[i] == before.peers[i]);
            lemma_place(all, i);
            lemma_place(before.peers, i);
            lemma_known_stamped(before, id);
            if before.peers.len() < before.bound {
                assert(!gone.contains(id));
            }
        }
        if after.knows(id) {
            assert(after.peer(id) == before.peer(id).settled(now));
            assert(!gone.contains(id));
            assert(!gone.to_set().contains(id));
        }
    }
}

/// Whether a candidate is the last of several to tell of its peer.
pub open spec fn last_word(candidates: Seq<Candidate>, j: int) -> bool {
    &&& 0 <= j < candidates.len()
    &&& forall|i: int|
        j < i < candidates.len() ==> (#[trigger] candidates[i]).peer_id != candidates[j].peer_id
}

proof fn lemma_upserted_addresses<A: Arithmetic>(
    kit: &A,
    before: SelectorState,
    candidates: Seq<Candidate>,
    now: u64,
    after: SelectorState,
    j: int,
)
    requires
        before.coherent(),
        before.upserts_all(kit, candidates, now, after),
        0 <= j <= candidates.len(),
        j < candidates.len() ==> last_word(candidates, j),
    ensures
        after.coherent(),
        j < candidates.len() && after.knows(candidates[j].peer_id) && candidates[j].addresses@.len()
            > 0 ==> after.peer(candidates[j].peer_id).addresses == candidates[j].addresses@,
        j < candidates.len() && after.knows(candidates[j].peer_id) && candidates[j].class is Some
            ==> after.peer(candidates[j].peer_id).connection_class == candidates[j].class,
    decreases candidates.len(),
{
    if candidates.len() > 0 {
        let front = candidates.drop_last();
        let mid = choose|mid: SelectorState|
            before.upserts_all(kit, front, now, mid) && #[trigger] mid.upserts(
                kit,
                candidates.last(),
                Provenance::Dht,
                now,
                after,
            );
        if j < front.len() {
            assert(front[j] == candidates[j]);
            assert forall|i: int| j < i < front.len() implies (#[trigger] front[i]).peer_id
                != front[j].peer_id by {
                assert(candidates[i].peer_id != candidates[j].peer_id);
            }
            lemma_upserted_addresses(kit, before, front, now, mid, j);
            candidates_bring_their_addresses(kit, mid, candidates.last(), Provenance::Dht, now, after);
            assert(candidates[candidates.len() - 1].peer_id != candidates[j].peer_id);
            assert(left_alone(mid, after, candidates[j].peer_id, now));
        } else {
            lemma_upserted_addresses(kit, before, front, now, mid, front.len() as int);
            candidates_bring_their_addresses(kit, mid, candidates.last(), Provenance::Dht, now, after);
        }
    }
}

/// After a selection the addresses of a registered peer are those of the last candidate that told of
/// it, if it told of any, and so is its path, if it told of one.
pub proof fn selections_keep_the_addresses_told<A: Arithmetic>(
    kit: &A,
    before: SelectorState,
    candidates: Seq<Candidate>,
    want: usize,
    now: u64,
    selected: Seq<SelectedPeer>,
    after: SelectorState,
    j: int,
)
    requires
        before.coherent(),
        want >= 1,
        candidates.len() <= usize::MAX,
        before.selects(kit, candidates, want, now, selected, after),
        last_word(candidates, j),
        after.knows(candidates[j].peer_id),
    ensures
        candidates[j].addresses@.len() > 0 ==> after.peer(candidates[j].peer_id).addresses
            == candidates[j].addresses@,
        candidates[j].class is Some ==> after.peer(candidates[j].peer_id).connection_class
            == candidates[j].class,
{
    let pool = candidates.map_values(|c: Candidate| c.peer_id);
    let mid = choose|mid: SelectorState| #[trigger]
        before.upserts_all(kit, candidates, now, mid) && mid.chooses(
            kit,
            pool,
            Seq::empty(),
            want,
            now,
            selected,
            after,
        );
    lemma_upserted_addresses(kit, before, candidates, now, mid, j);
    choices_are_eligible_and_teach_nothing(
        kit,
        mid,
        pool,
        Seq::empty(),
        want,
        now,
        selected,
        after,
    );
    let id = candidates[j].peer_id;
    assert(after.knows(id) <==> mid.knows(id));
    assert(same_but_load(after.peer(id), mid.peer(id)));
}

proof fn lemma_upserted_strangers<A: Arithmetic>(
    kit: &A,
    before: SelectorState,
    candidates: Seq<Candidate>,
    now: u64,
    after: SelectorState,
    id: PeerId,
)
    requires
        before.coherent(),
        before.upserts_all(kit, candidates, now, after),
    ensures
        after.coherent(),
        after.bound == before.bound,
        before.peers.len() + candidates.len() <= before.bound ==> {
            &&& after.peers.len() <= before.peers.len() + candidates.len()
            &&& before.knows(id) ==> after.knows(id)
            &&& forall|j: int|
                0 <= j < candidates.len() ==> after.knows((#[trigger] candidates[j]).peer_id)
        },
        after.knows(id) && !before.knows(id) ==> {
            let a = after.peer(id);
            &&& a.provenance == Provenance::Dht
            &&& !a.connected
            &&& !a.banned
            &&& a.first_seen == now
            &&& a.last_outcome_at is None
            &&& a.quality.samples == 0
            &&& exists|j: int|
                0 <= j < candidates.len() && (#[trigger] candidates[j]).peer_id == id
        },
    decreases candidates.len(),
{
    if candidates.len() > 0 {
        let front = candidates.drop_last();
        let last = candidates.last();
        let mid = choose|mid: SelectorState|
            before.upserts_all(kit, front, now, mid) && #[trigger] mid.upserts(
                kit,
                last,
                Provenance::Dht,
                now,
                after,
            );
        lemma_upserted_strangers(kit, before, front, now, mid, id);
        candidates_bring_their_addresses(kit, mid, last, Provenance::Dht, now, after);
        assert(candidates[candidates.len() - 1] == last);
        if id != last.peer_id {
            assert(left_alone(mid, after, id, now));
        }
        if mid.knows(id) && !before.knows(id) {
            let j = choose|j: int| 0 <= j < front.len() && (#[trigger] front[j]).peer_id == id;
            assert(candidates[j].peer_id == id);
        }
        if before.peers.len() + candidates.len() <= before.bound {
            lemma_one_more_peer(kit, mid, last, now, after);
            assert forall|j: int| 0 <= j < candidates.len() implies after.knows(
                (#[trigger] candidates[j]).peer_id,
            ) by {
                let other = candidates[j].peer_id;
                if j < front.len() {
                    assert(front[j].peer_id == other);
                    assert(mid.knows(other));
                }
                if other != last.peer_id {
                    assert(left_alone(mid, after, other, now));
                }
            }
        }
    }
}

/// While there is room a candidate is registered, and nobody leaves for it.
proof fn lemma_one_more_peer<A: Arithmetic>(
    kit: &A,
    before: SelectorState,
    candidate: Candidate,
    now: u64,
    after: SelectorState,
)
    requires
        before.coherent(),
        before.upserts(kit, candidate, Provenance::Dht, now, after),
        before.peers.len() < before.bound,
    ensures
        after.knows(candidate.peer_id),
        after.peers.len() <= before.peers.len() + 1,
{
    if before.knows(candidate.peer_id) {
        lemma_known_stamped(before, candidate.peer_id);
        lemma_replaced_coherent(
            before,
            before.peer(candidate.peer_id).refreshed(candidate, Provenance::Dht),
        );
    } else {
        lemma_newcomer(
            kit,
            before,
            Peer::introduced(candidate, Provenance::Dht, now),
            now,
            after,
        );
    }
}

/// After a selection every candidate is registered while there is room for all of them, and nobody
/// left. Whoever is new is one of the candidates, by the evidence of a provider record, neither
/// connected nor banned, and not measured.
pub proof fn selections_register_the_candidates<A: Arithmetic>(
    kit: &A,
    before: SelectorState,
    candidates: Seq<Candidate>,
    want: usize,
    now: u64,
    selected: Seq<SelectedPeer>,
    after: SelectorState,
    id: PeerId,
)
    requires
        before.coherent(),
        want >= 1,
        candidates.len() <= usize::MAX,
        before.selects(kit, candidates, want, now, selected, after),
    ensures
        before.peers.len() + candidates.len() <= before.bound ==> {
            &&& before.knows(id) ==> after.knows(id)
            &&& forall|j: int|
                0 <= j < candidates.len() ==> after.knows((#[trigger] candidates[j]).peer_id)
        },
        after.knows(id) && !before.knows(id) ==> {
            let a = after.peer(id);
            &&& a.provenance == Provenance::Dht
            &&& !a.connected
            &&& !a.banned
            &&& a.first_seen == now
            &&& a.last_outcome_at is None
            &&& a.quality.samples == 0
            &&& exists|j: int|
                0 <= j < candidates.len() && (#[trigger] candidates[j]).peer_id == id
        },
{
    let pool = candidates.map_values(|c: Candidate| c.peer_id);
    let mid = choose|mid: SelectorState| #[trigger]
        before.upserts_all(kit, candidates, now, mid) && mid.chooses(
            kit,
            pool,
            Seq::empty(),
            want,
            now,
            selected,
            after,
        );
    lemma_upserted_strangers(kit, before, candidates, now, mid, id);
    choices_are_eligible_and_teach_nothing(
        kit,
        mid,
        pool,
        Seq::empty(),
        want,
        now,
        selected,
        after,
    );
    assert(after.knows(id) <==> mid.knows(id));
    assert forall|j: int|
        before.peers.len() + candidates.len() <= before.bound && 0 <= j < candidates.len() implies
        after.knows((#[trigger] candidates[j]).peer_id) by {
        assert(mid.knows(candidates[j].peer_id));
    }
    if after.knows(id) {
        assert(same_but_load(after.peer(id), mid.peer(id)));
    }
}

/// A peer that joined the pool is registered, connected and not banned, by the evidence of the pool
/// at least; a newcomer has neither load nor history. What else is known of it stays.
pub proof fn joining_connects<A: Arithmetic>(
    kit: &A,
    before: SelectorState,
    event: PoolEvent,
    now: u64,
    after: SelectorState,
)
    requires
        before.coherent(),
        event is PeerAdded,
        before.hears(kit, event, now, after),
    ensures
        after.knows(event->PeerAdded_peer_id),
        after.peer(event->PeerAdded_peer_id).connected,
        !after.peer(event->PeerAdded_peer_id).banned,
        before.knows(event->PeerAdded_peer_id) ==> {
            let (a, b) = (after.peer(event->PeerAdded_peer_id), before.peer(event->PeerAdded_peer_id));
            &&& noted_alike(before, after, event->PeerAdded_peer_id)
            &&& a.provenance == (if outranks(Provenance::Gossip, b.provenance) {
                Provenance::Gossip
            } else {
                b.provenance
            })
            &&& a == (Peer { connected: true, banned: false, provenance: a.provenance, ..b })
        },
        !before.knows(event->PeerAdded_peer_id) ==> {
            let a = after.peer(event->PeerAdded_peer_id);
            &&& brand_new(a, now)
            &&& a.provenance == Provenance::Gossip
            &&& a.addresses.len() == 0
            &&& a.connection_class is None
            &&& a.quality.reliability.rate is None
        },
        forall|id: PeerId|
            id != event->PeerAdded_peer_id ==> #[trigger] left_alone(before, after, id, now),
        after.saturation == before.saturation,
        after.relay == before.relay,
        after.coherent(),
{
    let id = event->PeerAdded_peer_id;
    if before.knows(id) {
        lemma_known_stamped(before, id);
        lemma_replaced_coherent(before, before.peer(id).joined(Provenance::Gossip));
        assert forall|other: PeerId| other != id implies #[trigger] left_alone(
            before,
            after,
            other,
            now,
        ) by {
            assert(after.knows(other) <==> before.knows(other));
        }
    } else {
        lemma_newcomer(kit, before, Peer::linked(id, Provenance::Gossip, now), now, after);
    }
}

/// A peer that left the pool stays registered if it was, is not connected, and is banned if it was
/// banned or left for that; everything else stays as it was.
pub proof fn leaving_disconnects<A: Arithmetic>(
    kit: &A,
    before: SelectorState,
    event: PoolEvent,
    now: u64,
    after: SelectorState,
)
    requires
        before.coherent(),
        event is PeerRemoved,
        before.hears(kit, event, now, after),
    ensures
        forall|id: PeerId| #[trigger] after.knows(id) <==> before.knows(id),
        before.knows(event->PeerRemoved_peer_id) ==> {
            let (a, b) = (
                after.peer(event->PeerRemoved_peer_id),
                before.peer(event->PeerRemoved_peer_id),
            );
            &&& !a.connected
            &&& a.banned <==> b.banned || event->reason is Banned
            &&& a == (Peer { connected: false, banned: a.banned, ..b })
        },
        forall|id: PeerId|
            id != event->PeerRemoved_peer_id && before.knows(id) ==> #[trigger] after.peer(id)
                == before.peer(id),
        after == (SelectorState { peers: after.peers, ..before }),
        after.coherent(),
{
    let id = event->PeerRemoved_peer_id;
    if before.knows(id) {
        lemma_known_stamped(before, id);
        lemma_replaced_coherent(before, before.peer(id).left(event->reason is Banned));
        assert((event->reason == PoolRemovalReason::Banned) == (event->reason is Banned));
    }
}

/// The path that was reported of a link is the path of the peer while it is registered, and the
/// strongest evidence of it. A known peer keeps all else; a newcomer is not connected, has neither
/// load nor history, and even odds.
pub proof fn reported_paths_are_kept<A: Arithmetic>(
    kit: &A,
    before: SelectorState,
    id: PeerId,
    class: TraversalKind,
    now: u64,
    after: SelectorState,
)
    requires
        before.coherent(),
        before.classes(kit, id, class, now, after),
    ensures
        before.knows(id) || before.peers.len() < before.bound ==> after.knows(id),
        after.knows(id) ==> after.peer(id).connection_class == Some(class) && after.peer(id).provenance
            == Provenance::Nat,
        before.knows(id) ==> noted_alike(before, after, id) && after.peer(id) == (Peer {
            connection_class: Some(class),
            provenance: Provenance::Nat,
            ..before.peer(id)
        }),
        !before.knows(id) && after.knows(id) ==> {
            let a = after.peer(id);
            &&& brand_new(a, now)
            &&& !a.connected
            &&& a.addresses.len() == 0
            &&& a.quality.reliability.rate matches Some(rate) && 2real * number(rate) == 1real
        },
        forall|other: PeerId| other != id ==> #[trigger] left_alone(before, after, other, now),
        after.saturation == before.saturation,
        after.relay == before.relay,
        after.coherent(),
{
    lemma_whole_constants();
    if before.knows(id) {
        lemma_known_stamped(before, id);
        lemma_replaced_coherent(before, before.peer(id).routed(class));
        assert forall|other: PeerId| other != id implies #[trigger] left_alone(
            before,
            after,
            other,
            now,
        ) by {
            assert(after.knows(other) <==> before.knows(other));
        }
    } else {
        lemma_newcomer(kit, before, Peer::reported(id, class, now), now, after);
    }
}

/// A peer that is to be removed is forgotten where it has no range in flight, and only there. Nobody
/// else is touched.
pub proof fn only_idle_peers_are_removed(before: SelectorState, id: PeerId)
    requires
        before.coherent(),
    ensures
        before.removed(id).knows(id) <==> before.knows(id) && before.peer(id).quality.in_flight > 0,
        before.removed(id).knows(id) ==> before.removed(id).peer(id) == before.peer(id),
        !before.removed(id).knows(id) ==> !before.removed(id).last_selected.contains_key(id)
            && !before.removed(id).dispatched.contains_key(id),
        forall|other: PeerId|
            other != id ==> (#[trigger] before.removed(id).knows(other) <==> before.knows(other)),
        forall|other: PeerId|
            other != id && before.knows(other) ==> #[trigger] before.removed(id).peer(other)
                == before.peer(other),
        forall|other: PeerId|
            other != id ==> #[trigger] noted_alike(before, before.removed(id), other),
        before.removed(id).saturation == before.saturation,
        before.removed(id).relay == before.relay,
        before.removed(id).epoch == before.epoch,
{
    let after = before.removed(id);
    if before.knows(id) && before.peer(id).quality.in_flight == 0 {
        let p = place(before.peers, id);
        assert(0 <= p < before.peers.len() && before.peers[p].peer_id == id);
        assert(seq![id].to_set().contains(id)) by {
            assert(seq![id][0] == id);
        }
        assert forall|other: PeerId| other != id implies #[trigger] noted_alike(
            before,
            after,
            other,
        ) by {
            assert(!seq![id].to_set().contains(other));
        }
        assert(distinct(after.peers)) by {
            assert forall|i: int, j: int| 0 <= i < j < after.peers.len() implies (
            #[trigger] after.peers[i]).peer_id != (#[trigger] after.peers[j]).peer_id by {
                let (a, b) = (
                    if i < p {
                        i
                    } else {
                        i + 1
                    },
                    if j < p {
                        j
                    } else {
                        j + 1
                    },
                );
                assert(before.peers[a].peer_id != before.peers[b].peer_id);
            }
        }
        assert(!after.knows(id)) by {
            assert forall|i: int| 0 <= i < after.peers.len() implies (#[trigger] after.peers[i]).peer_id
                != id by {
                let a = if i < p {
                    i
                } else {
                    i + 1
                };
                assert(before.peers[a].peer_id != before.peers[p].peer_id);
            }
        }
        assert forall|other: PeerId| other != id implies (#[trigger] after.knows(other)
            <==> before.knows(other)) && (before.knows(other) ==> after.peer(other) == before.peer(
            other,
        )) by {
            if before.knows(other) {
                let i = choose|i: int|
                    0 <= i < before.peers.len() && (#[trigger] before.peers[i]).peer_id == other;
                let a = if i < p {
                    i
                } else {
                    i - 1
                };
                assert(after.peers[a] == before.peers[i]);
                lemma_place(before.peers, i);
                lemma_place(after.peers, a);
            }
            if after.knows(other) {
                let i = choose|i: int|
                    0 <= i < after.peers.len() && (#[trigger] after.peers[i]).peer_id == other;
                let a = if i < p {
                    i
                } else {
                    i + 1
                };
                assert(before.peers[a] == after.peers[i]);
                lemma_place(before.peers, a);
            }
        }
        assert forall|other: PeerId| other != id && before.knows(other) implies
            #[trigger] before.removed(id).peer(other) == before.peer(other) by {
            assert(after.knows(other) <==> before.knows(other));
        }
    }
}

/// Ranges dispatched to a registered peer add to those in flight, as far as they can be counted; it is
/// busy since now if it was not before. Nobody else is touched.
pub proof fn dispatches_add_up(before: SelectorState, id: PeerId, count: u32, now: u64)
    requires
        before.coherent(),
    ensures
        before.loaded(id, count, now).coherent(),
        forall|other: PeerId| #[trigger]
            before.loaded(id, count, now).knows(other) <==> before.knows(other),
        forall|other: PeerId|
            other != id && before.knows(other) ==> #[trigger] before.loaded(id, count, now).peer(
                other,
            ) == before.peer(other),
        before.knows(id) ==> {
            let (a, b) = (before.loaded(id, count, now).peer(id), before.peer(id));
            &&& same_but_load(a, b)
            &&& b.quality.in_flight + count <= u32::MAX ==> a.quality.in_flight
                == b.quality.in_flight + count
            &&& b.quality.in_flight + count > u32::MAX ==> a.quality.in_flight == u32::MAX
            &&& b.quality.in_flight > 0 ==> a.in_flight_since == b.in_flight_since
            &&& b.quality.in_flight == 0 && count > 0 ==> a.in_flight_since == Some(now)
        },
{
    if before.knows(id) {
        lemma_known_stamped(before, id);
        lemma_replaced_coherent(before, before.peer(id).busier(count, now));
    }
}

} // verus!
