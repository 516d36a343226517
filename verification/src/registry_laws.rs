//! What holds of every registry.

use vstd::prelude::*;

use crate::address::TraversalKind;
use crate::formula::{constant, steady, Formula};
use crate::identity::PeerId;
use crate::measure::{Arithmetic, Measure, HALF, INFINITY, ONE, ZERO};
use crate::order::{
    below, lemma_below_itself, lemma_below_over, lemma_below_plus, lemma_below_times, orderly,
    proper,
};
use crate::quality::{confidence_in, PeerQuality};
use crate::registry::{
    all_connected, bounded, distinct, freshness, kept, known, leaves_next, lemma_place,
    lemma_victim_exists, may_leave, place, registered, retention, settled, shed, victim, weighed,
    Peer, DISPATCH_TTL_SECS, HOUR,
};
use crate::scoring::or_constant;
use crate::types::{Candidate, Provenance};

verus! {

/// What the registered peer of an identity is worth keeping.
pub open spec fn worth_of(peers: Seq<Peer>, worth: Seq<Measure>, id: PeerId) -> Measure {
    worth[place(peers, id)]
}

proof fn lemma_removed(peers: Seq<Peer>, worth: Seq<Measure>, v: int)
    requires
        distinct(peers),
        worth.len() == peers.len(),
        0 <= v < peers.len(),
    ensures
        distinct(peers.remove(v)),
        !registered(peers.remove(v), peers[v].peer_id),
        forall|id: PeerId| #[trigger]
            registered(peers, id) <==> id == peers[v].peer_id || registered(peers.remove(v), id),
        forall|id: PeerId| #[trigger]
            registered(peers.remove(v), id) ==> known(peers.remove(v), id) == known(peers, id)
                && worth_of(peers.remove(v), worth.remove(v), id) == worth_of(peers, worth, id),
        forall|p: Peer| peers.remove(v).contains(p) ==> #[trigger] peers.contains(p),
        forall|p: Peer| #[trigger]
            peers.contains(p) ==> p == peers[v] || peers.remove(v).contains(p),
{
    let rest = peers.remove(v);
    assert forall|j: int| 0 <= j < rest.len() implies #[trigger] rest[j] == peers[if j < v {
        j
    } else {
        j + 1
    }] by {}
    assert forall|id: PeerId| #[trigger] registered(rest, id) implies registered(peers, id) && known(
        rest,
        id,
    ) == known(peers, id) && worth_of(rest, worth.remove(v), id) == worth_of(peers, worth, id) by {
        let j = choose|j: int| 0 <= j < rest.len() && (#[trigger] rest[j]).peer_id == id;
        let i = if j < v {
            j
        } else {
            j + 1
        };
        lemma_place(rest, j);
        lemma_place(peers, i);
        assert(peers[i] == rest[j]);
    }
    assert forall|id: PeerId| registered(peers, id) && id != peers[v].peer_id implies registered(
        rest,
        id,
    ) by {
        let i = choose|i: int| 0 <= i < peers.len() && (#[trigger] peers[i]).peer_id == id;
        let j = if i < v {
            i
        } else {
            i - 1
        };
        assert(rest[j] == peers[i]);
    }
    assert(registered(peers, peers[v].peer_id));
    assert forall|p: Peer| #[trigger] peers.contains(p) implies p == peers[v] || rest.contains(p) by {
        let i = choose|i: int| 0 <= i < peers.len() && peers[i] == p;
        if i != v {
            assert(rest[if i < v {
                i
            } else {
                i - 1
            }] == p);
        }
    }
    assert forall|p: Peer| rest.contains(p) implies #[trigger] peers.contains(p) by {
        let j = choose|j: int| 0 <= j < rest.len() && rest[j] == p;
        assert(peers[if j < v {
            j
        } else {
            j + 1
        }] == p);
    }
}

/// Shedding peers keeps the bound unless everyone left is connected, sends away no more than the
/// bound asks for and nobody who is connected, and accounts for everybody.
pub proof fn shedding_keeps_the_bound(peers: Seq<Peer>, worth: Seq<Measure>, capacity: nat)
    requires
        distinct(peers),
        worth.len() == peers.len(),
    ensures
        kept(peers, worth, capacity).len() <= capacity || all_connected(
            kept(peers, worth, capacity),
        ),
        shed(peers, worth, capacity).len() > 0 ==> kept(peers, worth, capacity).len() >= capacity,
        kept(peers, worth, capacity).len() + shed(peers, worth, capacity).len() == peers.len(),
        distinct(kept(peers, worth, capacity)),
        forall|p: Peer| #[trigger]
            kept(peers, worth, capacity).contains(p) ==> peers.contains(p),
        forall|p: Peer| #[trigger]
            peers.contains(p) && p.connected ==> kept(peers, worth, capacity).contains(p),
        forall|id: PeerId| #[trigger]
            registered(peers, id) <==> registered(kept(peers, worth, capacity), id) || shed(
                peers,
                worth,
                capacity,
            ).contains(id),
        forall|id: PeerId| #[trigger]
            shed(peers, worth, capacity).contains(id) ==> !registered(
                kept(peers, worth, capacity),
                id,
            ) && !known(peers, id).connected,
    decreases peers.len(),
{
    if peers.len() > capacity && !all_connected(peers) {
        lemma_victim_exists(peers, worth);
        let v = victim(peers, worth);
        let rest = peers.remove(v);
        let rest_worth = worth.remove(v);
        lemma_removed(peers, worth, v);
        lemma_place(peers, v);
        shedding_keeps_the_bound(rest, rest_worth, capacity);
        let stay = kept(rest, rest_worth, capacity);
        let gone = shed(rest, rest_worth, capacity);
        let all_gone = seq![peers[v].peer_id] + gone;
        assert(!peers[v].connected);
        assert forall|id: PeerId| #[trigger] all_gone.contains(id) <==> id == peers[v].peer_id
            || gone.contains(id) by {
            if gone.contains(id) {
                let j = choose|j: int| 0 <= j < gone.len() && gone[j] == id;
                assert(all_gone[j + 1] == id);
            }
            if id == peers[v].peer_id {
                assert(all_gone[0] == id);
            }
            if all_gone.contains(id) {
                let j = choose|j: int| 0 <= j < all_gone.len() && all_gone[j] == id;
                if j > 0 {
                    assert(gone[j - 1] == id);
                }
            }
        }
        assert forall|p: Peer| #[trigger] stay.contains(p) implies peers.contains(p) by {
            assert(rest.contains(p));
        }
        assert forall|id: PeerId| #[trigger] all_gone.contains(id) implies !registered(stay, id)
            && !known(peers, id).connected by {
            if id == peers[v].peer_id {
                assert(!registered(rest, id));
            } else {
                assert(gone.contains(id));
                assert(registered(rest, id));
            }
        }
        assert forall|id: PeerId| #[trigger] registered(peers, id) <==> registered(stay, id)
            || all_gone.contains(id) by {
            assert(registered(rest, id) <==> registered(stay, id) || gone.contains(id));
        }
    }
}

/// Peers leave in the order of what they are worth keeping: a busy one leaves only when no idle one
/// is left, and whoever leaves is worth no more than anyone of its sort who stays, and was registered
/// earlier where it is worth as much.
pub proof fn the_least_worth_leave_first(
    peers: Seq<Peer>,
    worth: Seq<Measure>,
    capacity: nat,
    gone: PeerId,
    stays: Peer,
)
    requires
        distinct(peers),
        worth.len() == peers.len(),
        shed(peers, worth, capacity).contains(gone),
        kept(peers, worth, capacity).contains(stays),
    ensures
        !known(peers, gone).idle() ==> !stays.idle(),
        !stays.connected && known(peers, gone).idle() == stays.idle() ==> worth_of(
            peers,
            worth,
            gone,
        ).bits <= worth_of(peers, worth, stays.peer_id).bits,
        !stays.connected && known(peers, gone).idle() == stays.idle() && worth_of(
            peers,
            worth,
            gone,
        ).bits == worth_of(peers, worth, stays.peer_id).bits ==> place(peers, gone) < place(
            peers,
            stays.peer_id,
        ),
    decreases peers.len(),
{
    shedding_keeps_the_bound(peers, worth, capacity);
    if peers.len() > capacity && !all_connected(peers) {
        lemma_victim_exists(peers, worth);
        let v = victim(peers, worth);
        let rest = peers.remove(v);
        let rest_worth = worth.remove(v);
        lemma_removed(peers, worth, v);
        lemma_place(peers, v);
        shedding_keeps_the_bound(rest, rest_worth, capacity);
        assert(rest.contains(stays));
        let s = choose|s: int| 0 <= s < rest.len() && rest[s] == stays;
        assert(registered(rest, stays.peer_id)) by {
            assert(rest[s].peer_id == stays.peer_id);
        }
        assert(peers.contains(stays));
        let t = choose|t: int| 0 <= t < peers.len() && peers[t] == stays;
        lemma_place(peers, t);
        let all_gone = shed(peers, worth, capacity);
        let later = shed(rest, rest_worth, capacity);
        let g = choose|g: int| 0 <= g < all_gone.len() && all_gone[g] == gone;
        if g == 0 {
            assert(gone == peers[v].peer_id);
            assert(leaves_next(peers, worth, v));
            if stays.idle() {
                assert(peers[t].idle());
                assert(may_leave(peers, t));
            } else if !stays.connected && !peers[v].idle() {
                assert(may_leave(peers, t));
            }
            assert(may_leave(peers, t) ==> worth[v].bits < worth[t].bits || (worth[v].bits
                == worth[t].bits && v <= t));
            if v == t {
                assert(!registered(rest, peers[v].peer_id));
            }
        } else {
            assert(later[g - 1] == gone);
            assert(later.contains(gone));
            the_least_worth_leave_first(rest, rest_worth, capacity, gone, stays);
            assert(registered(rest, gone));
            let a = place(rest, gone);
            let c = if a < v {
                a
            } else {
                a + 1
            };
            assert(0 <= a < rest.len() && rest[a].peer_id == gone && peers[c] == rest[a]);
            lemma_place(peers, c);
            lemma_place(rest, s);
            assert(peers[if s < v {
                s
            } else {
                s + 1
            }] == stays);
            lemma_place(
                peers,
                if s < v {
                    s
                } else {
                    s + 1
                },
            );
        }
    }
}

/// Enforcing the bound leaves at most the bound, or connected peers only; everyone is accounted for,
/// and no connected peer leaves.
pub proof fn the_bound_is_hard<A: Arithmetic>(
    kit: &A,
    before: Seq<Peer>,
    capacity: nat,
    now: u64,
    after: Seq<Peer>,
    gone: Seq<PeerId>,
)
    requires
        distinct(before),
        bounded(kit, before, capacity, now, after, gone),
    ensures
        after.len() <= capacity || all_connected(after),
        after.len() + gone.len() == before.len(),
        gone.len() > 0 ==> after.len() >= capacity,
        distinct(after),
        forall|id: PeerId| #[trigger]
            registered(before, id) <==> registered(after, id) || gone.contains(id),
        forall|id: PeerId| #[trigger]
            gone.contains(id) ==> !registered(after, id) && !known(before, id).connected,
        forall|id: PeerId| #[trigger]
            registered(after, id) ==> known(after, id) == known(before, id).settled(now),
{
    let peers = settled(before, now);
    lemma_settled_places(before, now);
    if peers.len() > capacity {
        let worth = choose|worth: Seq<Measure>| #[trigger]
            weighed(kit, peers, now, worth) && after == kept(peers, worth, capacity) && gone
                == shed(peers, worth, capacity);
        shedding_keeps_the_bound(peers, worth, capacity);
        assert forall|id: PeerId| #[trigger] registered(before, id) <==> registered(after, id)
            || gone.contains(id) by {
            assert(registered(peers, id) <==> registered(after, id) || gone.contains(id));
        }
        assert forall|id: PeerId| #[trigger] gone.contains(id) implies !registered(after, id)
            && !known(before, id).connected by {
            assert(registered(peers, id));
        }
        assert forall|id: PeerId| #[trigger] registered(after, id) implies known(after, id)
            == known(before, id).settled(now) by {
            let j = choose|j: int| 0 <= j < after.len() && (#[trigger] after[j]).peer_id == id;
            lemma_place(after, j);
            assert(after.contains(after[j]));
            assert(peers.contains(after[j]));
            let i = choose|i: int| 0 <= i < peers.len() && peers[i] == after[j];
            lemma_place(peers, i);
            assert(registered(peers, id));
        }
    }
}

/// Writing off dispatches moves nobody.
pub proof fn lemma_settled_places(before: Seq<Peer>, now: u64)
    requires
        distinct(before),
    ensures
        distinct(settled(before, now)),
        forall|id: PeerId| #[trigger]
            registered(settled(before, now), id) <==> registered(before, id),
        forall|id: PeerId|
            registered(before, id) ==> #[trigger] known(settled(before, now), id) == known(
                before,
                id,
            ).settled(now),
{
    let after = settled(before, now);
    assert forall|i: int| 0 <= i < after.len() implies (#[trigger] after[i]).peer_id
        == before[i].peer_id by {}
    assert forall|i: int, j: int| 0 <= i < j < after.len() implies (#[trigger] after[i]).peer_id
        != (#[trigger] after[j]).peer_id by {
        assert(before[i].peer_id != before[j].peer_id);
    }
    assert forall|id: PeerId| #[trigger] registered(after, id) <==> registered(before, id) by {
        if registered(before, id) {
            let i = choose|i: int| 0 <= i < before.len() && (#[trigger] before[i]).peer_id == id;
            assert(after[i].peer_id == id);
        }
        if registered(after, id) {
            let i = choose|i: int| 0 <= i < after.len() && (#[trigger] after[i]).peer_id == id;
            assert(before[i].peer_id == id);
        }
    }
    assert forall|id: PeerId| registered(before, id) implies #[trigger] known(after, id) == known(
        before,
        id,
    ).settled(now) by {
        let i = choose|i: int| 0 <= i < before.len() && (#[trigger] before[i]).peer_id == id;
        lemma_place(before, i);
        lemma_place(after, i);
    }
}

/// What was learned of a peer outlives being told of again, the report of a path, joining the pool and
/// leaving it.
pub proof fn learning_outlives_churn(
    peer: Peer,
    candidate: Candidate,
    provenance: Provenance,
    class: TraversalKind,
    banned: bool,
)
    ensures
        peer.routed(class).quality == peer.quality,
        peer.refreshed(candidate, provenance).quality == peer.quality,
        peer.joined(provenance).quality == peer.quality,
        peer.left(banned).quality == peer.quality,
        peer.left(banned).joined(provenance).quality == peer.quality,
{
}

/// A ban lasts until the peer joins the pool again, and an ordinary leave is no ban.
pub proof fn bans_last_until_the_peer_rejoins(
    peer: Peer,
    candidate: Candidate,
    provenance: Provenance,
)
    ensures
        peer.left(true).banned,
        peer.left(false).banned == peer.banned,
        peer.banned ==> peer.left(false).banned && peer.refreshed(candidate, provenance).banned,
        !peer.left(true).joined(provenance).banned,
{
}

/// The evidence for a peer never weakens, and the report of a path makes it the strongest.
pub proof fn evidence_never_weakens(
    peer: Peer,
    candidate: Candidate,
    provenance: Provenance,
    class: TraversalKind,
)
    ensures
        peer.refreshed(candidate, provenance).provenance.strength() >= peer.provenance.strength(),
        peer.refreshed(candidate, provenance).provenance.strength() >= provenance.strength(),
        peer.joined(provenance).provenance.strength() >= peer.provenance.strength(),
        peer.joined(provenance).provenance.strength() >= provenance.strength(),
        peer.routed(class).provenance == Provenance::Nat,
{
}

/// Releasing as many ranges as were dispatched restores the peer, unless the counter ran over.
pub proof fn release_undoes_dispatch(peer: Peer, count: u32, now: u64)
    requires
        peer.stamped(),
        peer.quality.in_flight + count <= u32::MAX,
    ensures
        peer.busier(count, now).relieved(count) == peer,
{
}

/// A dispatch is written off once it has been open for its whole time and not before; what was
/// learned stays, and writing off twice is writing off once.
pub proof fn only_overdue_dispatches_are_written_off(peer: Peer, now: u64)
    requires
        peer.stamped(),
    ensures
        peer.settled(now).quality.same_learning(peer.quality),
        peer.settled(now).settled(now) == peer.settled(now),
        peer.settled(now).stamped(),
        peer.in_flight_since matches Some(since) && since <= now < since + DISPATCH_TTL_SECS
            ==> peer.settled(now) == peer,
        peer.in_flight_since matches Some(since) && since + DISPATCH_TTL_SECS <= now ==> peer.settled(
            now,
        ).quality.in_flight == 0 && peer.settled(now).idle() == !peer.connected,
{
}

/// Of two peers with as many outcomes, one that is at least as fast and reliable and was measured no
/// longer ago is worth no less. The arithmetic is to be steady and orderly.
pub proof fn fresh_and_fast_peers_are_worth_no_less<A: Arithmetic>(
    kit: &A,
    better: PeerQuality,
    age: u64,
    worth: Measure,
    worse: PeerQuality,
    more_age: u64,
    less_worth: Measure,
)
    requires
        steady(kit),
        orderly(kit),
        age <= more_age,
        better.samples == worse.samples,
        at_most_as_much(worse.throughput.mean, better.throughput.mean),
        at_most_as_much(worse.reliability.rate, better.reliability.rate),
        retention(better, age).gives(kit, worth),
        retention(worse, more_age).gives(kit, less_worth),
    ensures
        less_worth.bits <= worth.bits,
{
    let (one, half) = (constant(ONE), constant(HALF));
    let (b_fast, w_fast) = (
        or_constant(better.throughput.mean, ZERO),
        or_constant(worse.throughput.mean, ZERO),
    );
    let (b_rate, w_rate) = (
        or_constant(better.reliability.rate, ZERO),
        or_constant(worse.reliability.rate, ZERO),
    );
    let trust = confidence_in(better.samples);
    assert(proper(trust)) by {
        reveal_with_fuel(proper, 3);
    }
    lemma_below_itself(kit, trust);
    lemma_below_times(kit, w_fast, trust, b_fast, trust);
    lemma_below_times(kit, half, w_rate, half, b_rate);
    lemma_below_plus(kit, half, half.times(w_rate), half, half.times(b_rate));
    let (b_sure, w_sure) = (half.plus(half.times(b_rate)), half.plus(half.times(w_rate)));
    lemma_below_times(kit, w_fast.times(trust), w_sure, b_fast.times(trust), b_sure);

    let (few, many, hour) = (Formula::Count(age), Formula::Count(more_age), constant(HOUR));
    lemma_below_over(kit, few, hour, many, hour);
    lemma_below_plus(kit, one, few.over(hour), one, many.over(hour));
    lemma_below_over(kit, one, one.plus(many.over(hour)), one, one.plus(few.over(hour)));
    let (b_fresh, w_fresh) = (freshness(age), freshness(more_age));
    let (b_value, w_value) = (
        b_fast.times(trust).times(b_sure),
        w_fast.times(trust).times(w_sure),
    );
    lemma_below_times(kit, w_value, w_fresh, b_value, b_fresh);
    lemma_below_plus(kit, w_value.times(w_fresh), w_fresh, b_value.times(b_fresh), b_fresh);
    assert(below(kit, retention(worse, more_age), retention(better, age)));
}

/// Whether one of two known quantities is at most the other, where nothing known is the least.
pub open spec fn at_most_as_much(less: Option<Measure>, more: Option<Measure>) -> bool {
    match (less, more) {
        (Some(a), Some(b)) => a.bits <= b.bits <= INFINITY,
        (None, Some(b)) => b.bits <= INFINITY,
        (None, None) => true,
        (Some(_), None) => false,
    }
}

} // verus!
