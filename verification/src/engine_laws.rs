//! What holds of every selector.

use vstd::prelude::*;

use crate::engine::{
    lemma_contestants, lemma_known_stamped, lemma_replaced_coherent, lemma_taken_in_coherent,
};
use crate::identity::PeerId;
use crate::judging::{are_bounds, bonus_between, explored, is_bonus, some_proven};
use crate::measure::{Arithmetic, Measure, INFINITY, ZERO};
use crate::order::discerning;
use crate::quality::PeerQuality;
use crate::ranking::{
    chosen, lemma_chosen_places, lemma_ranking_complete, lineup, ranking, roomy, some_room,
    Contender,
};
use crate::ranking_laws::{
    lemma_ranking_descends, score_at, selections_are_bounded, somebody_is_chosen,
};
use crate::registry::{
    all_connected, bounded, known, lemma_place, place, registered, replaced, settled, sound, Peer,
};
use crate::registry_laws::{lemma_settled_places, the_bound_is_hard};
use crate::scoring::{room, PeerClass, ScoredPeer};
use crate::scoring_laws::exploring_is_worth_less_than_the_best;
use crate::state::{absorbs, without, SelectorState};
use crate::types::{
    Candidate, FailureReason, OutcomeResult, Provenance, SelectedPeer, TransferOutcome,
};

verus! {

/// Registering a newcomer leaves the registry within its bound, or with connected peers only.
pub proof fn newcomers_respect_the_bound<A: Arithmetic>(
    kit: &A,
    before: SelectorState,
    newcomer: Peer,
    now: u64,
    after: SelectorState,
)
    requires
        before.coherent(),
        newcomer.stamped(),
        !before.knows(newcomer.peer_id),
        before.takes_in(kit, newcomer, now, after),
    ensures
        after.peers.len() <= after.bound || all_connected(after.peers),
        forall|id: PeerId|
            before.knows(id) && before.peer(id).connected ==> #[trigger] after.knows(id),
        forall|id: PeerId| #[trigger]
            after.knows(id) ==> after.peer(id) == (if id == newcomer.peer_id {
                newcomer.settled(now)
            } else {
                before.peer(id).settled(now)
            }) && (id == newcomer.peer_id || before.knows(id)),
        forall|id: PeerId| #[trigger]
            after.last_selected.contains_key(id) <==> before.last_selected.contains_key(id)
                && after.knows(id),
        after.coherent(),
{
    let all = before.peers.push(newcomer);
    let gone = choose|gone: Seq<PeerId>| #[trigger]
        bounded(kit, all, before.bound, now, after.peers, gone) && after == (SelectorState {
            peers: after.peers,
            last_selected: without(before.last_selected, gone),
            dispatched: without(before.dispatched, gone),
            ..before
        });
    lemma_pushed(before.peers, newcomer);
    lemma_bounded_sound(kit, all, before.bound, now, after.peers, gone);
    the_bound_is_hard(kit, all, before.bound, now, after.peers, gone);
    lemma_taken_in_coherent(kit, before, newcomer, now, after, gone);
    assert forall|id: PeerId| before.knows(id) && before.peer(id).connected implies #[trigger] after.knows(
        id,
    ) by {
        assert(registered(all, id) && known(all, id) == before.peer(id));
        assert(!gone.contains(id));
    }
    assert forall|id: PeerId| #[trigger] after.knows(id) implies after.peer(id) == (if id
        == newcomer.peer_id {
        newcomer.settled(now)
    } else {
        before.peer(id).settled(now)
    }) && (id == newcomer.peer_id || before.knows(id)) by {
        assert(registered(all, id));
    }
    assert forall|id: PeerId| #[trigger] after.last_selected.contains_key(id)
        <==> before.last_selected.contains_key(id) && after.knows(id) by {
        if before.last_selected.contains_key(id) {
            assert(registered(before.peers, id));
            assert(registered(all, id));
            assert(registered(all, id) <==> registered(after.peers, id) || gone.contains(id));
        }
        assert(gone.contains(id) ==> !registered(after.peers, id));
    }
}

proof fn lemma_pushed(peers: Seq<Peer>, newcomer: Peer)
    requires
        sound(peers),
        newcomer.stamped(),
        !registered(peers, newcomer.peer_id),
    ensures
        sound(peers.push(newcomer)),
        forall|id: PeerId| #[trigger]
            registered(peers.push(newcomer), id) <==> registered(peers, id) || id
                == newcomer.peer_id,
        forall|id: PeerId| #[trigger]
            registered(peers, id) ==> known(peers.push(newcomer), id) == known(peers, id),
        known(peers.push(newcomer), newcomer.peer_id) == newcomer,
{
    let all = peers.push(newcomer);
    assert forall|i: int, j: int| 0 <= i < j < all.len() implies (#[trigger] all[i]).peer_id != (
    #[trigger] all[j]).peer_id by {
        assert(all[i] == peers[i]);
        if j < peers.len() {
            assert(all[j] == peers[j]);
        } else {
            assert(registered(peers, peers[i].peer_id));
        }
    }
    assert forall|i: int| 0 <= i < all.len() implies (#[trigger] all[i]).stamped() by {
        if i < peers.len() {
            assert(all[i] == peers[i]);
        }
    }
    assert forall|id: PeerId| #[trigger] registered(peers, id) implies registered(all, id) && known(
        all,
        id,
    ) == known(peers, id) by {
        let i = choose|i: int| 0 <= i < peers.len() && (#[trigger] peers[i]).peer_id == id;
        lemma_place(peers, i);
        assert(all[i] == peers[i]);
        lemma_place(all, i);
    }
    assert forall|id: PeerId| #[trigger] registered(all, id) implies registered(peers, id) || id
        == newcomer.peer_id by {
        let i = choose|i: int| 0 <= i < all.len() && (#[trigger] all[i]).peer_id == id;
        if i < peers.len() {
            assert(peers[i].peer_id == id);
        }
    }
    lemma_place(all, peers.len() as int);
}

proof fn lemma_bounded_sound<A: Arithmetic>(
    kit: &A,
    before: Seq<Peer>,
    capacity: nat,
    now: u64,
    after: Seq<Peer>,
    gone: Seq<PeerId>,
)
    requires
        sound(before),
        bounded(kit, before, capacity, now, after, gone),
    ensures
        sound(after),
{
    the_bound_is_hard(kit, before, capacity, now, after, gone);
    assert forall|j: int| 0 <= j < after.len() implies (#[trigger] after[j]).stamped() by {
        lemma_place(after, j);
        let id = after[j].peer_id;
        assert(registered(after, id));
        assert(registered(before, id));
        let p = place(before, id);
        assert(before[p].stamped());
    }
}

/// Whether two records of a peer differ in its ranges in flight at most.
pub open spec fn same_but_load(a: Peer, b: Peer) -> bool {
    &&& a.quality.same_learning(b.quality)
    &&& a == Peer { quality: a.quality, in_flight_since: a.in_flight_since, ..b }
}

/// Dispatching to one of the chosen touches nobody else.
pub proof fn lemma_dispatched_one(state: SelectorState, selected: SelectedPeer, now: u64)
    requires
        state.coherent(),
        state.knows(selected.peer_id),
    ensures
        ({
            let after = state.dispatched_one(selected, now);
            &&& after.coherent()
            &&& forall|id: PeerId| #[trigger] after.knows(id) <==> state.knows(id)
            &&& forall|id: PeerId|
                state.knows(id) && id != selected.peer_id ==> #[trigger] after.peer(id)
                    == state.peer(id)
            &&& after.peer(selected.peer_id) == state.peer(selected.peer_id).busier(
                selected.max_concurrency,
                now,
            )
        }),
{
    let id = selected.peer_id;
    lemma_known_stamped(state, id);
    let loaded = state.with_peer(state.peer(id).busier(selected.max_concurrency, now));
    lemma_replaced_coherent(state, state.peer(id).busier(selected.max_concurrency, now));
    let after = state.dispatched_one(selected, now);
    assert(after.peers == loaded.peers);
    assert forall|other: PeerId| #[trigger] after.knows(other) <==> state.knows(other) by {
        assert(loaded.knows(other) <==> state.knows(other));
    }
    assert forall|other: PeerId| state.knows(other) && other != id implies #[trigger] after.peer(
        other,
    ) == state.peer(other) by {
        assert(loaded.peer(other) == state.peer(other));
    }
    assert(loaded.peer(id) == state.peer(id).busier(selected.max_concurrency, now));
    assert forall|other: PeerId| #[trigger] after.last_selected.contains_key(
        other,
    ) implies registered(after.peers, other) by {
        assert(other == id || state.last_selected.contains_key(other));
        assert(after.knows(other) <==> state.knows(other));
    }
    assert forall|other: PeerId| #[trigger] after.dispatched.contains_key(other) implies registered(
        after.peers,
        other,
    ) by {
        assert(other == id || state.dispatched.contains_key(other));
        assert(after.knows(other) <==> state.knows(other));
    }
}

/// Dispatching to the chosen keeps the state coherent and everybody registered.
pub proof fn lemma_dispatched_all(state: SelectorState, selected: Seq<SelectedPeer>, now: u64)
    requires
        state.coherent(),
        forall|k: int| 0 <= k < selected.len() ==> state.knows((#[trigger] selected[k]).peer_id),
    ensures
        ({
            let after = state.dispatched_all(selected, now);
            &&& after.coherent()
            &&& after == (SelectorState {
                peers: after.peers,
                last_selected: after.last_selected,
                dispatched: after.dispatched,
                ..state
            })
            &&& forall|id: PeerId| #[trigger] after.knows(id) <==> state.knows(id)
            &&& forall|id: PeerId| #[trigger]
                after.knows(id) ==> same_but_load(after.peer(id), state.peer(id))
            &&& forall|id: PeerId|
                after.knows(id) && !(exists|k: int|
                    0 <= k < selected.len() && (#[trigger] selected[k]).peer_id == id)
                    ==> #[trigger] after.peer(id) == state.peer(id) && after.last_round(id)
                    == state.last_round(id)
        }),
    decreases selected.len(),
{
    if selected.len() > 0 {
        let front = selected.drop_last();
        assert forall|k: int| 0 <= k < front.len() implies state.knows(
            (#[trigger] front[k]).peer_id,
        ) by {
            assert(front[k] == selected[k]);
        }
        lemma_dispatched_all(state, front, now);
        let mid = state.dispatched_all(front, now);
        let last = selected.last();
        assert(selected[selected.len() - 1] == last);
        assert(mid.knows(last.peer_id) <==> state.knows(last.peer_id));
        lemma_dispatched_one(mid, last, now);
        let after = state.dispatched_all(selected, now);
        assert forall|id: PeerId| #[trigger] after.knows(id) implies same_but_load(
            after.peer(id),
            state.peer(id),
        ) by {
            assert(mid.knows(id));
            assert(same_but_load(mid.peer(id), state.peer(id)));
        }
        assert forall|id: PeerId|
            after.knows(id) && !(exists|k: int|
                0 <= k < selected.len() && (#[trigger] selected[k]).peer_id == id) implies #[trigger] after.peer(
            id,
        ) == state.peer(id) && after.last_round(id) == state.last_round(id) by {
            assert(mid.knows(id));
            assert(id != last.peer_id);
            assert forall|k: int| 0 <= k < front.len() implies (#[trigger] front[k]).peer_id
                != id by {
                assert(front[k] == selected[k]);
            }
            assert(mid.peer(id) == state.peer(id));
        }
    } else {
        assert forall|id: PeerId| #[trigger] state.knows(id) implies same_but_load(
            state.peer(id),
            state.peer(id),
        ) by {}
    }
}

/// Whoever is chosen is of the pool, registered and not banned; nobody is chosen exactly where nobody
/// of the pool may be; and no more are chosen than wanted. Choosing teaches nothing: but for ranges
/// in flight every record stays as it was.
pub proof fn choices_are_eligible_and_teach_nothing<A: Arithmetic>(
    kit: &A,
    before: SelectorState,
    pool: Seq<PeerId>,
    active: Seq<PeerId>,
    want: usize,
    now: u64,
    selected: Seq<SelectedPeer>,
    after: SelectorState,
)
    requires
        before.coherent(),
        want >= 1,
        pool.len() <= usize::MAX,
        before.chooses(kit, pool, active, want, now, selected, after),
    ensures
        selected.len() <= want,
        selected.len() == 0 <==> forall|i: int|
            0 <= i < pool.len() ==> !before.eligible(#[trigger] pool[i]),
        forall|k: int|
            0 <= k < selected.len() ==> before.eligible((#[trigger] selected[k]).peer_id)
                && pool.contains(selected[k].peer_id) && selected[k].max_concurrency >= 1,
        after.coherent(),
        after.saturation == before.saturation,
        after.relay == before.relay,
        forall|id: PeerId| #[trigger] after.knows(id) <==> before.knows(id),
        forall|id: PeerId| #[trigger]
            after.knows(id) ==> same_but_load(after.peer(id), before.peer(id)),
{
    let calm = before.calmed(now);
    lemma_calmed(before, now);
    lemma_contestants(calm, pool);
    lemma_all_eligible_contest(calm, pool);
    let ids = calm.contestants(pool);
    if ids.len() == 0 {
        assert forall|i: int| 0 <= i < pool.len() implies !before.eligible(#[trigger] pool[i]) by {
            if calm.eligible(pool[i]) {
                assert(ids.contains(pool[i]));
            }
            assert(calm.knows(pool[i]) <==> before.knows(pool[i]));
            assert(calm.knows(pool[i]) ==> same_but_load(calm.peer(pool[i]), before.peer(pool[i])));
        }
    } else {
        let field = choose|field: Seq<Contender>| #[trigger]
            calm.is_field(kit, ids, active, field) && selected == lineup(
                field,
                want,
                calm.next_round(ids.len()).epoch,
            ) && after == calm.next_round(ids.len()).dispatched_all(selected, now);
        let round = calm.next_round(ids.len());
        lemma_chosen_places(field, want, round.epoch);
        somebody_is_chosen(field, want, round.epoch);
        assert forall|k: int| 0 <= k < selected.len() implies before.eligible(
            (#[trigger] selected[k]).peer_id,
        ) && pool.contains(selected[k].peer_id) && selected[k].max_concurrency >= 1 && round.knows(
            selected[k].peer_id,
        ) by {
            let place = chosen(field, want, round.epoch)[k] as int;
            let id = ids[place];
            assert(field[place].peer_id == id);
            assert(calm.eligible(id));
            assert(calm.knows(id) ==> same_but_load(calm.peer(id), before.peer(id)));
        }
        assert(round.coherent());
        lemma_dispatched_all(round, selected, now);
        assert forall|id: PeerId| #[trigger] after.knows(id) <==> before.knows(id) by {
            assert(round.knows(id) <==> calm.knows(id));
        }
        assert forall|id: PeerId| #[trigger] after.knows(id) implies same_but_load(
            after.peer(id),
            before.peer(id),
        ) by {
            assert(round.peer(id) == calm.peer(id));
            assert(calm.knows(id));
            assert(same_but_load(calm.peer(id), before.peer(id)));
        }
        assert(before.eligible(selected[0].peer_id) && pool.contains(selected[0].peer_id));
        let j = choose|j: int| 0 <= j < pool.len() && pool[j] == selected[0].peer_id;
        assert(before.eligible(pool[j]));
    }
}

/// Writing off dispatches moves nobody and leaves the state coherent.
pub proof fn lemma_calmed(before: SelectorState, now: u64)
    requires
        before.coherent(),
    ensures
        before.calmed(now).coherent(),
        forall|id: PeerId| #[trigger] before.calmed(now).knows(id) <==> before.knows(id),
        forall|id: PeerId| #[trigger]
            before.calmed(now).knows(id) ==> same_but_load(
                before.calmed(now).peer(id),
                before.peer(id),
            ) && before.calmed(now).peer(id) == before.peer(id).settled(now),
{
    let calm = before.calmed(now);
    lemma_settled_places(before.peers, now);
    assert forall|i: int| 0 <= i < calm.peers.len() implies (#[trigger] calm.peers[i]).stamped() by {
        assert(before.peers[i].stamped());
    }
    assert forall|id: PeerId| #[trigger] calm.knows(id) implies same_but_load(
        calm.peer(id),
        before.peer(id),
    ) && calm.peer(id) == before.peer(id).settled(now) by {
        assert(registered(before.peers, id));
        assert(known(settled(before.peers, now), id) == known(before.peers, id).settled(now));
    }
}

/// Whoever may be chosen contests.
pub proof fn lemma_all_eligible_contest(state: SelectorState, pool: Seq<PeerId>)
    ensures
        forall|i: int|
            0 <= i < pool.len() && state.eligible(#[trigger] pool[i]) ==> state.contestants(
                pool,
            ).contains(pool[i]),
    decreases pool.len(),
{
    if pool.len() > 0 {
        let front = pool.drop_last();
        lemma_all_eligible_contest(state, front);
        let all = state.contestants(pool);
        assert forall|i: int| 0 <= i < pool.len() && state.eligible(#[trigger] pool[i]) implies all.contains(
            pool[i],
        ) by {
            if i < front.len() {
                assert(front[i] == pool[i]);
                let some = state.contestants(front);
                let j = choose|j: int| 0 <= j < some.len() && some[j] == pool[i];
                assert(all[j] == pool[i]);
            } else if !state.contestants(front).contains(pool[i]) {
                assert(all[all.len() - 1] == pool[i]);
            }
        }
    }
}

/// Whether nothing was measured of a peer.
pub open spec fn unmeasured(quality: PeerQuality) -> bool {
    &&& quality.samples == 0
    &&& quality.throughput == PeerQuality::unknown().throughput
    &&& quality.rtt == PeerQuality::unknown().rtt
}

proof fn lemma_upserted<A: Arithmetic>(
    kit: &A,
    before: SelectorState,
    candidate: Candidate,
    provenance: Provenance,
    now: u64,
    after: SelectorState,
)
    requires
        before.coherent(),
        before.upserts(kit, candidate, provenance, now, after),
    ensures
        after.coherent(),
        after.saturation == before.saturation,
        after.relay == before.relay,
        forall|id: PeerId| #[trigger]
            after.knows(id) ==> if before.knows(id) {
                after.peer(id).quality.same_learning(before.peer(id).quality)
            } else {
                unmeasured(after.peer(id).quality)
            },
{
    let id = candidate.peer_id;
    if before.knows(id) {
        lemma_known_stamped(before, id);
        lemma_replaced_coherent(before, before.peer(id).refreshed(candidate, provenance));
        assert forall|other: PeerId| #[trigger] after.knows(other) implies before.knows(other)
            && after.peer(other).quality.same_learning(before.peer(other).quality) by {
            if other != id {
                assert(after.peer(other) == before.peer(other));
            }
        }
    } else {
        let newcomer = Peer::introduced(candidate, provenance, now);
        newcomers_respect_the_bound(kit, before, newcomer, now, after);
    }
}

/// Taking candidates in teaches nothing.
pub proof fn lemma_upserted_all<A: Arithmetic>(
    kit: &A,
    before: SelectorState,
    candidates: Seq<Candidate>,
    now: u64,
    after: SelectorState,
)
    requires
        before.coherent(),
        before.upserts_all(kit, candidates, now, after),
    ensures
        after.coherent(),
        after.saturation == before.saturation,
        after.relay == before.relay,
        forall|id: PeerId| #[trigger]
            after.knows(id) ==> unmeasured(after.peer(id).quality) || (before.knows(id)
                && after.peer(id).quality.same_learning(before.peer(id).quality)),
    decreases candidates.len(),
{
    if candidates.len() > 0 {
        let mid = choose|mid: SelectorState|
            before.upserts_all(kit, candidates.drop_last(), now, mid) && #[trigger] mid.upserts(
                kit,
                candidates.last(),
                Provenance::Dht,
                now,
                after,
            );
        lemma_upserted_all(kit, before, candidates.drop_last(), now, mid);
        lemma_upserted(kit, mid, candidates.last(), Provenance::Dht, now, after);
        assert forall|id: PeerId| #[trigger] after.knows(id) implies unmeasured(
            after.peer(id).quality,
        ) || (before.knows(id) && after.peer(id).quality.same_learning(
            before.peer(id).quality,
        )) by {
            if mid.knows(id) {
                assert(after.peer(id).quality.same_learning(mid.peer(id).quality));
            }
        }
    }
}

/// Selecting teaches nothing: of every registered peer either as much was learned as before, or
/// nothing was measured, since it is new or was squeezed out and told of again.
pub proof fn selecting_teaches_nothing<A: Arithmetic>(
    kit: &A,
    before: SelectorState,
    candidates: Seq<Candidate>,
    want: usize,
    now: u64,
    selected: Seq<SelectedPeer>,
    after: SelectorState,
)
    requires
        before.coherent(),
        want >= 1,
        candidates.len() <= usize::MAX,
        before.selects(kit, candidates, want, now, selected, after),
    ensures
        selected.len() <= want,
        candidates.len() == 0 ==> selected.len() == 0,
        forall|k: int|
            0 <= k < selected.len() ==> !after.peer((#[trigger] selected[k]).peer_id).banned
                && after.knows(selected[k].peer_id) && exists|j: int|
                0 <= j < candidates.len() && (#[trigger] candidates[j]).peer_id
                    == selected[k].peer_id,
        after.coherent(),
        after.saturation == before.saturation,
        after.relay == before.relay,
        forall|id: PeerId| #[trigger]
            after.knows(id) ==> unmeasured(after.peer(id).quality) || (before.knows(id)
                && after.peer(id).quality.same_learning(before.peer(id).quality)),
{
    let pool = candidates.map_values(|c: Candidate| c.peer_id);
    let mid = choose|mid: SelectorState| #[trigger]
        before.upserts_all(kit, candidates, now, mid) && mid.chooses(
            kit,
            pool,
            Seq::empty(),
            want,
            now,
            selected,
            after,
        );
    lemma_upserted_all(kit, before, candidates, now, mid);
    choices_are_eligible_and_teach_nothing(
        kit,
        mid,
        pool,
        Seq::empty(),
        want,
        now,
        selected,
        after,
    );
    assert forall|k: int| 0 <= k < selected.len() implies !after.peer(
        (#[trigger] selected[k]).peer_id,
    ).banned && after.knows(selected[k].peer_id) && exists|j: int|
        0 <= j < candidates.len() && (#[trigger] candidates[j]).peer_id == selected[k].peer_id by {
        let id = selected[k].peer_id;
        assert(after.knows(id) <==> mid.knows(id));
        assert(pool.contains(id));
        let j = choose|j: int| 0 <= j < pool.len() && pool[j] == id;
        assert(candidates[j].peer_id == id);
    }
    assert forall|id: PeerId| #[trigger] after.knows(id) implies unmeasured(after.peer(id).quality)
        || (before.knows(id) && after.peer(id).quality.same_learning(
        before.peer(id).quality,
    )) by {
        assert(mid.knows(id));
        assert(same_but_load(after.peer(id), mid.peer(id)));
    }
}

/// Where nobody is chosen twice, each chosen peer is busier by exactly what was asked of it, and its
/// load before, its path and the round are noted.
pub proof fn dispatches_show_at_once(
    state: SelectorState,
    selected: Seq<SelectedPeer>,
    now: u64,
    k: int,
)
    requires
        state.coherent(),
        forall|j: int| 0 <= j < selected.len() ==> state.knows((#[trigger] selected[j]).peer_id),
        forall|i: int, j: int|
            0 <= i < j < selected.len() ==> (#[trigger] selected[i]).peer_id != (
            #[trigger] selected[j]).peer_id,
        0 <= k < selected.len(),
    ensures
        ({
            let id = selected[k].peer_id;
            let after = state.dispatched_all(selected, now);
            &&& after.peer(id) == state.peer(id).busier(selected[k].max_concurrency, now)
            &&& after.last_round(id) == state.epoch
            &&& after.attribution(id).in_flight_at_dispatch == state.peer(id).quality.in_flight
            &&& after.attribution(id).class == PeerClass::class_of(state.peer(id).connection_class)
        }),
    decreases selected.len(),
{
    let front = selected.drop_last();
    let last = selected.last();
    assert(selected[selected.len() - 1] == last);
    assert forall|j: int| 0 <= j < front.len() implies state.knows((#[trigger] front[j]).peer_id) by {
        assert(front[j] == selected[j]);
    }
    lemma_dispatched_all(state, front, now);
    let mid = state.dispatched_all(front, now);
    assert(mid.knows(last.peer_id) <==> state.knows(last.peer_id));
    lemma_dispatched_one(mid, last, now);
    if k == selected.len() - 1 {
        assert forall|j: int| 0 <= j < front.len() implies (#[trigger] front[j]).peer_id
            != last.peer_id by {
            assert(front[j] == selected[j]);
        }
        assert(mid.knows(last.peer_id));
        assert(mid.peer(last.peer_id) == state.peer(last.peer_id));
    } else {
        assert forall|i: int, j: int| 0 <= i < j < front.len() implies (#[trigger] front[i]).peer_id
            != (#[trigger] front[j]).peer_id by {
            assert(front[i] == selected[i] && front[j] == selected[j]);
        }
        assert(front[k] == selected[k]);
        dispatches_show_at_once(state, front, now, k);
        let id = selected[k].peer_id;
        assert(id != last.peer_id);
        assert(mid.knows(id) <==> state.knows(id));
        let after = state.dispatched_all(selected, now);
        assert(after.peer(id) == mid.peer(id));
        assert(mid.dispatched.contains_key(id)) by {
            lemma_noted(state, front, now, k);
        }
    }
}

proof fn lemma_noted(state: SelectorState, selected: Seq<SelectedPeer>, now: u64, k: int)
    requires
        0 <= k < selected.len(),
    ensures
        state.dispatched_all(selected, now).dispatched.contains_key(selected[k].peer_id),
    decreases selected.len(),
{
    if k < selected.len() - 1 {
        lemma_noted(state, selected.drop_last(), now, k);
    }
}

/// An outcome of a registered peer moves no other peer's record, settles one range, and forgets the
/// dispatch it is attributed to. A cancellation by the host leaves reliability, throughput and
/// latency alone.
pub proof fn only_the_peer_of_an_outcome_learns<A: Arithmetic>(
    kit: &A,
    before: SelectorState,
    outcome: TransferOutcome,
    now: u64,
    after: SelectorState,
)
    requires
        before.coherent(),
        before.knows(outcome.peer_id),
        before.records(kit, outcome, now, after),
    ensures
        forall|id: PeerId| #[trigger] after.knows(id) <==> before.knows(id),
        forall|id: PeerId|
            before.knows(id) && id != outcome.peer_id ==> #[trigger] after.peer(id) == before.peer(
                id,
            ),
        after.peer(outcome.peer_id).quality.in_flight == (if before.peer(
            outcome.peer_id,
        ).quality.in_flight == 0 {
            0
        } else {
            (before.peer(outcome.peer_id).quality.in_flight - 1) as u32
        }),
        after.peer(outcome.peer_id).quality.samples > 0,
        !after.dispatched.contains_key(outcome.peer_id),
        after.last_selected == before.last_selected,
        outcome.result == (OutcomeResult::Failure { reason: FailureReason::Cancelled }) ==> {
            let (a, b) = (after.peer(outcome.peer_id).quality, before.peer(outcome.peer_id).quality);
            &&& a.reliability == b.reliability
            &&& a.throughput == b.throughput
            &&& a.rtt == b.rtt
            &&& after.saturation == before.saturation
            &&& after.relay == before.relay
        },
{
    let id = outcome.peer_id;
    let (mid, rate) = choose|mid: SelectorState, rate: Option<Measure>|
        (if before.knows(outcome.peer_id) {
            mid == before
        } else {
            before.takes_in(
                kit,
                Peer::fresh(outcome.peer_id, Provenance::Nat, now).with_even_odds(),
                now,
                mid,
            )
        }) && outcome.is_rate(kit, rate) && #[trigger] mid.folds(kit, outcome, rate, now, after);
    let at = if outcome.at < now {
        now
    } else {
        outcome.at
    };
    let quality = choose|quality: PeerQuality| #[trigger]
        absorbs(kit, mid.peer(id).quality, outcome, rate, quality) && after.peers == replaced(
            mid.peers,
            mid.peer(id).taught(quality, Some(at)).relieved(1),
        );
    lemma_known_stamped(before, id);
    let told = before.peer(id).taught(quality, Some(at)).relieved(1);
    lemma_replaced_coherent(before, told);
    assert(after.peers == before.with_peer(told).peers);
    assert forall|other: PeerId| #[trigger] after.knows(other) <==> before.knows(other) by {
        assert(before.with_peer(told).knows(other) <==> before.knows(other));
    }
    assert forall|other: PeerId| before.knows(other) && other != id implies #[trigger] after.peer(
        other,
    ) == before.peer(other) by {
        assert(before.with_peer(told).peer(other) == before.peer(other));
    }
    assert(before.with_peer(told).peer(id) == told);
}

/// A round is noted of exactly those who were chosen in it.
pub proof fn rounds_are_noted<A: Arithmetic>(
    kit: &A,
    before: SelectorState,
    pool: Seq<PeerId>,
    active: Seq<PeerId>,
    want: usize,
    now: u64,
    selected: Seq<SelectedPeer>,
    after: SelectorState,
    id: PeerId,
)
    requires
        before.coherent(),
        want >= 1,
        pool.len() <= usize::MAX,
        before.chooses(kit, pool, active, want, now, selected, after),
        before.knows(id),
    ensures
        selected.len() > 0 ==> after.epoch == (if before.epoch == u64::MAX {
            0
        } else {
            (before.epoch + 1) as u64
        }),
        selected.len() == 0 ==> after.epoch == before.epoch,
        after.last_round(id) == (if exists|k: int|
            0 <= k < selected.len() && (#[trigger] selected[k]).peer_id == id {
            after.epoch
        } else {
            before.last_round(id)
        }),
{
    choices_are_eligible_and_teach_nothing(kit, before, pool, active, want, now, selected, after);
    lemma_calmed(before, now);
    let calm = before.calmed(now);
    let ids = calm.contestants(pool);
    if ids.len() > 0 {
        let field = choose|field: Seq<Contender>| #[trigger]
            calm.is_field(kit, ids, active, field) && selected == lineup(
                field,
                want,
                calm.next_round(ids.len()).epoch,
            ) && after == calm.next_round(ids.len()).dispatched_all(selected, now);
        let round = calm.next_round(ids.len());
        lemma_contestants(calm, pool);
        lemma_chosen_places(field, want, round.epoch);
        somebody_is_chosen(field, want, round.epoch);
        assert forall|k: int| 0 <= k < selected.len() implies round.knows(
            (#[trigger] selected[k]).peer_id,
        ) by {
            assert(before.eligible(selected[k].peer_id));
            assert(calm.knows(selected[k].peer_id) <==> before.knows(selected[k].peer_id));
        }
        assert(round.coherent());
        lemma_dispatched_all(round, selected, now);
        if exists|k: int| 0 <= k < selected.len() && (#[trigger] selected[k]).peer_id == id {
            let k = choose|k: int| 0 <= k < selected.len() && (#[trigger] selected[k]).peer_id == id;
            lemma_round_noted(round, selected, now, k);
        } else {
            assert(after.knows(id));
            assert(after.peer(id) == round.peer(id));
        }
    }
}

proof fn lemma_round_noted(state: SelectorState, selected: Seq<SelectedPeer>, now: u64, k: int)
    requires
        0 <= k < selected.len(),
    ensures
        state.dispatched_all(selected, now).last_round(selected[k].peer_id) == state.epoch,
        state.dispatched_all(selected, now).last_selected.contains_key(selected[k].peer_id),
        state.dispatched_all(selected, now).epoch == state.epoch,
    decreases selected.len(),
{
    let front = selected.drop_last();
    lemma_epoch_stays(state, front, now);
    if k < selected.len() - 1 {
        lemma_round_noted(state, front, now, k);
    }
}

proof fn lemma_epoch_stays(state: SelectorState, selected: Seq<SelectedPeer>, now: u64)
    ensures
        state.dispatched_all(selected, now).epoch == state.epoch,
    decreases selected.len(),
{
    if selected.len() > 0 {
        lemma_epoch_stays(state, selected.drop_last(), now);
    }
}

/// Whether a peer is at the saturation point of its class, or past it.
pub open spec fn saturated(state: SelectorState, id: PeerId) -> bool {
    room(state.peer(id), state.saturation) == 0
}

/// A contender is full where its peer is saturated, and its headroom stays within the room of its
/// peer.
pub proof fn lemma_headroom<A: Arithmetic>(
    kit: &A,
    state: SelectorState,
    ids: Seq<PeerId>,
    active: Seq<PeerId>,
    field: Seq<Contender>,
)
    requires
        state.is_field(kit, ids, active, field),
    ensures
        field.len() == ids.len(),
        forall|i: int|
            0 <= i < ids.len() ==> (#[trigger] field[i]).peer_id == ids[i] && field[i].full
                == saturated(state, ids[i]) && field[i].score.headroom <= room(
                state.peer(ids[i]),
                state.saturation,
            ),
{
    let (marks, bonus) = choose|marks: Seq<ScoredPeer>, bonus: Measure|
        state.judged(kit, ids, marks) && is_bonus(kit, marks, bonus) && #[trigger] state.makes_field(
            kit,
            ids,
            active,
            marks,
            bonus,
            field,
        );
    assert forall|i: int| 0 <= i < ids.len() implies (#[trigger] field[i]).peer_id == ids[i]
        && field[i].full == saturated(state, ids[i]) && field[i].score.headroom <= room(
        state.peer(ids[i]),
        state.saturation,
    ) by {
        assert(marks[i].headroom == room(state.peer(ids[i]), state.saturation));
    }
}

/// Nobody of the chosen is chosen twice.
pub proof fn lemma_chosen_once<A: Arithmetic>(
    kit: &A,
    state: SelectorState,
    ids: Seq<PeerId>,
    active: Seq<PeerId>,
    field: Seq<Contender>,
    want: usize,
    epoch: u64,
)
    requires
        state.is_field(kit, ids, active, field),
        ids.no_duplicates(),
        field.len() <= usize::MAX,
        want >= 1,
    ensures
        forall|i: int, j: int|
            0 <= i < j < lineup(field, want, epoch).len() ==> (#[trigger] lineup(
                field,
                want,
                epoch,
            )[i]).peer_id != (#[trigger] lineup(field, want, epoch)[j]).peer_id,
{
    lemma_headroom(kit, state, ids, active, field);
    lemma_chosen_places(field, want, epoch);
    let places = chosen(field, want, epoch);
    assert forall|i: int, j: int|
        0 <= i < j < lineup(field, want, epoch).len() implies (#[trigger] lineup(
        field,
        want,
        epoch,
    )[i]).peer_id != (#[trigger] lineup(field, want, epoch)[j]).peer_id by {
        assert(places[i] != places[j]);
        assert(field[places[i] as int].peer_id == ids[places[i] as int]);
        assert(field[places[j] as int].peer_id == ids[places[j] as int]);
    }
}

/// Choosing takes nobody past the saturation point of its class, unless everybody who may be chosen
/// is saturated; then each of the chosen gets one range.
pub proof fn ranges_stop_at_saturation<A: Arithmetic>(
    kit: &A,
    before: SelectorState,
    pool: Seq<PeerId>,
    active: Seq<PeerId>,
    want: usize,
    now: u64,
    selected: Seq<SelectedPeer>,
    after: SelectorState,
    k: int,
)
    requires
        before.coherent(),
        want >= 1,
        pool.len() <= usize::MAX,
        before.chooses(kit, pool, active, want, now, selected, after),
        0 <= k < selected.len(),
    ensures
        ({
            let peer = after.peer(selected[k].peer_id);
            let ranges = after.saturation.of(PeerClass::class_of(peer.connection_class)).ranges;
            peer.quality.in_flight <= ranges || (selected[k].max_concurrency == 1 && forall|i: int|
                0 <= i < pool.len() && before.eligible(#[trigger] pool[i]) ==> saturated(
                    before.calmed(now),
                    pool[i],
                ))
        }),
{
    choices_are_eligible_and_teach_nothing(kit, before, pool, active, want, now, selected, after);
    lemma_calmed(before, now);
    let calm = before.calmed(now);
    let ids = calm.contestants(pool);
    lemma_contestants(calm, pool);
    lemma_all_eligible_contest(calm, pool);
    let field = choose|field: Seq<Contender>| #[trigger]
        calm.is_field(kit, ids, active, field) && selected == lineup(
            field,
            want,
            calm.next_round(ids.len()).epoch,
        ) && after == calm.next_round(ids.len()).dispatched_all(selected, now);
    let round = calm.next_round(ids.len());
    lemma_headroom(kit, calm, ids, active, field);
    lemma_chosen_once(kit, calm, ids, active, field, want, round.epoch);
    selections_are_bounded(field, want, round.epoch);
    assert forall|j: int| 0 <= j < selected.len() implies round.knows(
        (#[trigger] selected[j]).peer_id,
    ) by {
        assert(before.eligible(selected[j].peer_id));
        assert(calm.knows(selected[j].peer_id) <==> before.knows(selected[j].peer_id));
    }
    assert(round.coherent());
    dispatches_show_at_once(round, selected, now, k);
    let place = chosen(field, want, round.epoch)[k] as int;
    let id = selected[k].peer_id;
    assert(id == ids[place]);
    assert(field[place].full == saturated(calm, id));
    assert(round.peer(id) == calm.peer(id));
    if !some_room(field) {
        assert forall|i: int| 0 <= i < pool.len() && before.eligible(
            #[trigger] pool[i],
        ) implies saturated(calm, pool[i]) by {
            assert(calm.knows(pool[i]));
            assert(same_but_load(calm.peer(pool[i]), before.peer(pool[i])));
            assert(calm.eligible(pool[i]));
            assert(ids.contains(pool[i]));
            let j = choose|j: int| 0 <= j < ids.len() && ids[j] == pool[i];
            assert(!roomy(field, j));
        }
    }
}

/// Where some proven peer of a round has a score above zero, and none an infinite one, the ranking is
/// led by a measured peer: exploring never comes first in it. The arithmetic is to be discerning.
pub proof fn measured_peers_lead<A: Arithmetic>(
    kit: &A,
    state: SelectorState,
    ids: Seq<PeerId>,
    field: Seq<Contender>,
    proven: int,
)
    requires
        discerning(kit),
        state.is_field(kit, ids, Seq::empty(), field),
        field.len() <= usize::MAX,
        0 <= proven < field.len(),
        field[proven].score.proven(),
        field[proven].score.effective_score > ZERO,
        forall|i: int|
            0 <= i < field.len() && (#[trigger] field[i]).score.proven()
                ==> field[i].score.effective_score < INFINITY,
    ensures
        !field[ranking(field, field.len())[0] as int].score.exploratory,
{
    let (marks, bonus) = choose|marks: Seq<ScoredPeer>, bonus: Measure|
        state.judged(kit, ids, marks) && is_bonus(kit, marks, bonus) && #[trigger] state.makes_field(
            kit,
            ids,
            Seq::empty(),
            marks,
            bonus,
            field,
        );
    assert forall|i: int| 0 <= i < field.len() implies (#[trigger] field[i]).score == explored(
        marks[i],
        bonus,
    ) by {
        assert(!Seq::<PeerId>::empty().contains(ids[i]));
    }
    assert(marks[proven] == field[proven].score);
    assert(some_proven(marks));
    let (worst, top) = choose|worst: Measure, top: Measure|
        are_bounds(marks, worst, top) && #[trigger] bonus_between(worst, top).gives(kit, bonus);
    let best = top.bits as i128;
    let b = choose|b: int|
        0 <= b < marks.len() && (#[trigger] marks[b]).proven() && marks[b].effective_score == best;
    assert(field[b].score == marks[b]);
    exploring_is_worth_less_than_the_best(kit, marks, bonus, best);
    let order = ranking(field, field.len());
    lemma_ranking_complete(field, field.len());
    lemma_ranking_descends(field, field.len());
    assert(order.contains(b as usize));
    let k = choose|k: int| 0 <= k < order.len() && order[k] == b as usize;
    assert(score_at(field, order[0]) >= score_at(field, order[k]));
    assert(field[order[0] as int].score == explored(marks[order[0] as int], bonus));
}

} // verus!
