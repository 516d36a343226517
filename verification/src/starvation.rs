//! That nobody starves, over all calls of a selector from its creation on.

use vstd::prelude::*;

use crate::engine::{lemma_contestants, lemma_known_stamped, lemma_replaced_coherent};
use crate::engine_laws::{
    lemma_all_eligible_contest, lemma_calmed, lemma_headroom, newcomers_respect_the_bound,
    rounds_are_noted, same_but_load, saturated,
};
use crate::history::{runs, Call};
use crate::identity::PeerId;
use crate::judging::{explored, is_bonus};
use crate::life::{is_life, lives_keep_faith};
use crate::measure::{Arithmetic, Measure};
use crate::pool_event::PoolEvent;
use crate::ranking::{chosen, lemma_chosen_places, lineup, passed_over, roomy, Contender};
use crate::ranking_laws::{somebody_is_chosen, Round};
use crate::registry::{bounded, place, Peer};
use crate::scoring::{bad_source, ScoredPeer};
use crate::state::{picked, without, SelectorState};
use crate::turns::{everybody_is_served, in_succession, seated, served_in, skipped_in, Sitting};
use crate::types::{Candidate, Provenance, SelectedPeer, TransferOutcome};

verus! {

/// Whether nobody was last chosen in a round yet to come.
pub open spec fn rounds_lie_behind(state: SelectorState) -> bool {
    forall|id: PeerId| #[trigger]
        state.last_selected.contains_key(id) ==> state.last_selected[id] <= state.epoch
}

proof fn lemma_dispatched_rounds(state: SelectorState, selected: Seq<SelectedPeer>, now: u64)
    requires
        rounds_lie_behind(state),
    ensures
        rounds_lie_behind(state.dispatched_all(selected, now)),
        state.dispatched_all(selected, now).epoch == state.epoch,
    decreases selected.len(),
{
    if selected.len() > 0 {
        lemma_dispatched_rounds(state, selected.drop_last(), now);
    }
}

proof fn lemma_choosing_keeps_rounds<A: Arithmetic>(
    kit: &A,
    before: SelectorState,
    pool: Seq<PeerId>,
    active: Seq<PeerId>,
    want: usize,
    now: u64,
    answer: Seq<SelectedPeer>,
    after: SelectorState,
)
    requires
        rounds_lie_behind(before),
        before.epoch < u64::MAX,
        before.chooses(kit, pool, active, want, now, answer, after),
    ensures
        rounds_lie_behind(after),
        before.epoch <= after.epoch <= before.epoch + 1,
{
    let calm = before.calmed(now);
    let ids = calm.contestants(pool);
    if ids.len() > 0 {
        let round = calm.next_round(ids.len());
        assert(rounds_lie_behind(round)) by {
            assert forall|id: PeerId| #[trigger]
                round.last_selected.contains_key(id) implies round.last_selected[id]
                <= round.epoch by {
                assert(before.last_selected.contains_key(id));
            }
        }
        lemma_dispatched_rounds(round, answer, now);
    } else {
        assert(after.last_selected == before.last_selected);
    }
}

proof fn lemma_fewer_rounds(before: SelectorState, gone: Seq<PeerId>, after: SelectorState)
    requires
        rounds_lie_behind(before),
        after.last_selected == without(before.last_selected, gone),
        after.epoch == before.epoch,
    ensures
        rounds_lie_behind(after),
{
    assert forall|id: PeerId| #[trigger] after.last_selected.contains_key(id) implies
        after.last_selected[id] <= after.epoch by {
        assert(before.last_selected.contains_key(id));
    }
}

proof fn lemma_taking_in_keeps_rounds<A: Arithmetic>(
    kit: &A,
    before: SelectorState,
    newcomer: Peer,
    now: u64,
    after: SelectorState,
)
    requires
        rounds_lie_behind(before),
        before.takes_in(kit, newcomer, now, after),
    ensures
        rounds_lie_behind(after),
        after.epoch == before.epoch,
{
    let gone = choose|gone: Seq<PeerId>| #[trigger]
        bounded(
            kit,
            before.peers.push(newcomer),
            before.bound,
            now,
            after.peers,
            gone,
        ) && after == (SelectorState {
            peers: after.peers,
            last_selected: without(before.last_selected, gone),
            dispatched: without(before.dispatched, gone),
            ..before
        });
    lemma_fewer_rounds(before, gone, after);
}

proof fn lemma_upserting_keeps_rounds<A: Arithmetic>(
    kit: &A,
    before: SelectorState,
    candidates: Seq<Candidate>,
    now: u64,
    after: SelectorState,
)
    requires
        rounds_lie_behind(before),
        before.upserts_all(kit, candidates, now, after),
    ensures
        rounds_lie_behind(after),
        after.epoch == before.epoch,
    decreases candidates.len(),
{
    if candidates.len() > 0 {
        let last = candidates.last();
        let mid = choose|mid: SelectorState|
            before.upserts_all(kit, candidates.drop_last(), now, mid) && #[trigger] mid.upserts(
                kit,
                last,
                Provenance::Dht,
                now,
                after,
            );
        lemma_upserting_keeps_rounds(kit, before, candidates.drop_last(), now, mid);
        if mid.knows(last.peer_id) {
            assert(after.last_selected == mid.last_selected);
        } else {
            lemma_taking_in_keeps_rounds(
                kit,
                mid,
                Peer::introduced(last, Provenance::Dht, now),
                now,
                after,
            );
        }
    }
}

proof fn lemma_call_keeps_rounds<A: Arithmetic>(
    kit: &A,
    call: Call,
    before: SelectorState,
    answer: Seq<SelectedPeer>,
    after: SelectorState,
)
    requires
        rounds_lie_behind(before),
        before.epoch < u64::MAX,
        call.leads(kit, before, answer, after),
    ensures
        rounds_lie_behind(after),
        before.epoch <= after.epoch <= before.epoch + 1,
{
    match call {
        Call::Select { candidates, want } => {
            let now = choose|now: u64| #[trigger]
                before.clock.reads(now) && before.selects(
                    kit,
                    candidates,
                    want,
                    now,
                    answer,
                    after,
                );
            let pool = candidates.map_values(|c: Candidate| c.peer_id);
            let mid = choose|mid: SelectorState| #[trigger]
                before.upserts_all(kit, candidates, now, mid) && mid.chooses(
                    kit,
                    pool,
                    Seq::empty(),
                    want,
                    now,
                    answer,
                    after,
                );
            lemma_upserting_keeps_rounds(kit, before, candidates, now, mid);
            lemma_choosing_keeps_rounds(
                kit,
                mid,
                pool,
                Seq::empty(),
                want,
                now,
                answer,
                after,
            );
        },
        Call::Rebalance { active, want, need } => {
            let now = choose|now: u64| #[trigger]
                before.clock.reads(now) && before.rebalances(
                    kit,
                    active,
                    want,
                    need,
                    now,
                    answer,
                    after,
                );
            lemma_choosing_keeps_rounds(
                kit,
                before,
                before.everyone(),
                active,
                slots_of(call),
                now,
                answer,
                after,
            );
        },
        Call::Record { outcome } => {
            let now = choose|now: u64| #[trigger]
                before.clock.reads(now) && before.records(kit, outcome, now, after);
            let newcomer = Peer::fresh(outcome.peer_id, Provenance::Nat, now).with_even_odds();
            let (mid, rate) = choose|mid: SelectorState, rate: Option<Measure>|
                (if before.knows(outcome.peer_id) {
                    mid == before
                } else {
                    before.takes_in(
                        kit,
                        Peer::fresh(outcome.peer_id, Provenance::Nat, now).with_even_odds(),
                        now,
                        mid,
                    )
                }) && outcome.is_rate(kit, rate) && #[trigger] mid.folds(
                    kit,
                    outcome,
                    rate,
                    now,
                    after,
                );
            if !before.knows(outcome.peer_id) {
                lemma_taking_in_keeps_rounds(kit, before, newcomer, now, mid);
            }
            assert(after.last_selected == mid.last_selected);
        },
        Call::Hear { event } => {
            let now = choose|now: u64| #[trigger]
                before.clock.reads(now) && before.hears(kit, event, now, after);
            if let PoolEvent::PeerAdded { peer_id, .. } = event {
                if !before.knows(peer_id) {
                    let newcomer = Peer::linked(peer_id, Provenance::Gossip, now);
                    lemma_taking_in_keeps_rounds(kit, before, newcomer, now, after);
                }
            }
        },
        Call::Classify { peer_id, class } => {
            let now = choose|now: u64| #[trigger]
                before.clock.reads(now) && before.classes(kit, peer_id, class, now, after);
            if !before.knows(peer_id) {
                let newcomer = Peer::reported(peer_id, class, now);
                lemma_taking_in_keeps_rounds(kit, before, newcomer, now, after);
            }
        },
        Call::Upsert { candidate } => {
            let now = choose|now: u64| #[trigger]
                before.clock.reads(now) && before.upserts(
                    kit,
                    candidate,
                    Provenance::Manual,
                    now,
                    after,
                );
            if !before.knows(candidate.peer_id) {
                let newcomer = Peer::introduced(candidate, Provenance::Manual, now);
                lemma_taking_in_keeps_rounds(kit, before, newcomer, now, after);
            }
        },
        Call::Remove { peer_id } => {
            if before.knows(peer_id) && before.peer(peer_id).quality.in_flight == 0 {
                lemma_fewer_rounds(before, seq![peer_id], after);
            }
        },
        Call::Dispatch { peer_id, count } => {
            let now = choose|now: u64| #[trigger]
                before.clock.reads(now) && after == before.loaded(peer_id, count, now);
            assert(after.last_selected == before.last_selected);
        },
        Call::SetClock { .. } => {},
    }
}

/// From its creation on, through fewer calls than rounds can be counted, a selector holds no more
/// rounds than it was called, and notes nobody as chosen in a round yet to come.
pub proof fn rounds_are_never_ahead<A: Arithmetic>(
    kit: &A,
    calls: Seq<Call>,
    states: Seq<SelectorState>,
    answers: Seq<Seq<SelectedPeer>>,
    k: int,
)
    requires
        is_life(kit, calls, states, answers),
        0 <= k <= calls.len(),
    ensures
        states[k].epoch <= k,
        rounds_lie_behind(states[k]),
    decreases k,
{
    if k > 0 {
        rounds_are_never_ahead(kit, calls, states, answers, k - 1);
        assert(calls[k - 1].leads(kit, states[k - 1], answers[k - 1], states[(k - 1) + 1]));
        lemma_call_keeps_rounds(kit, calls[k - 1], states[k - 1], answers[k - 1], states[k]);
    }
}

proof fn lemma_taken_in_keeps_rounds<A: Arithmetic>(
    kit: &A,
    before: SelectorState,
    newcomer: Peer,
    now: u64,
    after: SelectorState,
    id: PeerId,
)
    requires
        before.coherent(),
        newcomer.stamped(),
        !before.knows(newcomer.peer_id),
        before.takes_in(kit, newcomer, now, after),
        before.knows(id),
        after.knows(id),
    ensures
        after.epoch == before.epoch,
        after.last_round(id) == before.last_round(id),
        after.coherent(),
{
    newcomers_respect_the_bound(kit, before, newcomer, now, after);
    let gone = choose|gone: Seq<PeerId>| #[trigger]
        bounded(
            kit,
            before.peers.push(newcomer),
            before.bound,
            now,
            after.peers,
            gone,
        ) && after == (SelectorState {
            peers: after.peers,
            last_selected: without(before.last_selected, gone),
            dispatched: without(before.dispatched, gone),
            ..before
        });
    assert(after.last_selected.contains_key(id) <==> before.last_selected.contains_key(id)
        && after.knows(id));
    assert(after.last_selected == without(before.last_selected, gone));
}

/// A call that does not choose moves no round, and not when a peer was last chosen that is registered
/// before and after.
proof fn lemma_quiet_call<A: Arithmetic>(
    kit: &A,
    call: Call,
    before: SelectorState,
    answer: Seq<SelectedPeer>,
    after: SelectorState,
    id: PeerId,
)
    requires
        before.coherent(),
        !call.chooses(),
        call.leads(kit, before, answer, after),
        before.knows(id),
        after.knows(id),
    ensures
        after.epoch == before.epoch,
        after.last_round(id) == before.last_round(id),
{
    match call {
        Call::Record { outcome } => {
            let now = choose|now: u64| #[trigger]
                before.clock.reads(now) && before.records(kit, outcome, now, after);
            let newcomer = Peer::fresh(outcome.peer_id, Provenance::Nat, now).with_even_odds();
            let (mid, rate) = choose|mid: SelectorState, rate: Option<Measure>|
                (if before.knows(outcome.peer_id) {
                    mid == before
                } else {
                    before.takes_in(
                        kit,
                        Peer::fresh(outcome.peer_id, Provenance::Nat, now).with_even_odds(),
                        now,
                        mid,
                    )
                }) && outcome.is_rate(kit, rate) && #[trigger] mid.folds(
                    kit,
                    outcome,
                    rate,
                    now,
                    after,
                );
            lemma_folded_knows(kit, mid, outcome, rate, now, after, id);
            if !before.knows(outcome.peer_id) {
                lemma_taken_in_keeps_rounds(kit, before, newcomer, now, mid, id);
            }
        },
        Call::Hear { event } => {
            let now = choose|now: u64| #[trigger]
                before.clock.reads(now) && before.hears(kit, event, now, after);
            if let PoolEvent::PeerAdded { peer_id, .. } = event {
                if !before.knows(peer_id) {
                    let newcomer = Peer::linked(peer_id, Provenance::Gossip, now);
                    lemma_taken_in_keeps_rounds(kit, before, newcomer, now, after, id);
                }
            }
        },
        Call::Classify { peer_id, class } => {
            let now = choose|now: u64| #[trigger]
                before.clock.reads(now) && before.classes(kit, peer_id, class, now, after);
            if !before.knows(peer_id) {
                let newcomer = Peer::reported(peer_id, class, now);
                lemma_taken_in_keeps_rounds(kit, before, newcomer, now, after, id);
            }
        },
        Call::Upsert { candidate } => {
            let now = choose|now: u64| #[trigger]
                before.clock.reads(now) && before.upserts(
                    kit,
                    candidate,
                    Provenance::Manual,
                    now,
                    after,
                );
            if !before.knows(candidate.peer_id) {
                let newcomer = Peer::introduced(candidate, Provenance::Manual, now);
                lemma_taken_in_keeps_rounds(kit, before, newcomer, now, after, id);
            }
        },
        Call::Remove { peer_id } => {
            if before.knows(peer_id) && before.peer(peer_id).quality.in_flight == 0 {
                if id == peer_id {
                    let p = place(before.peers, id);
                    let rest = before.peers.remove(p);
                    let j = choose|j: int| 0 <= j < rest.len() && (#[trigger] rest[j]).peer_id == id;
                    let old = if j < p {
                        j
                    } else {
                        j + 1
                    };
                    assert(before.peers[old] == rest[j]);
                    assert(before.peers[old].peer_id == before.peers[p].peer_id);
                }
                assert(!seq![peer_id].to_set().contains(id));
            }
        },
        Call::Dispatch { peer_id, count } => {
            let now = choose|now: u64| #[trigger]
                before.clock.reads(now) && after == before.loaded(peer_id, count, now);
            assert(after.last_selected == before.last_selected);
        },
        Call::SetClock { .. } => {},
        _ => {},
    }
}

proof fn lemma_folded_knows<A: Arithmetic>(
    kit: &A,
    mid: SelectorState,
    outcome: TransferOutcome,
    rate: Option<Measure>,
    now: u64,
    after: SelectorState,
    id: PeerId,
)
    requires
        mid.folds(kit, outcome, rate, now, after),
        after.knows(id),
    ensures
        mid.knows(id),
{
    let i = choose|i: int| 0 <= i < after.peers.len() && (#[trigger] after.peers[i]).peer_id == id;
    if mid.knows(outcome.peer_id) {
        let p = place(mid.peers, outcome.peer_id);
        assert(0 <= p < mid.peers.len() && mid.peers[p].peer_id == outcome.peer_id);
        if i == p {
            assert(mid.peers[p].peer_id == id);
        } else {
            assert(mid.peers[i] == after.peers[i]);
        }
    } else {
        assert(mid.peers[i].peer_id == id);
    }
}

/// Taking in candidates who are registered already moves neither rounds nor what was learned.
proof fn lemma_refreshed_all<A: Arithmetic>(
    kit: &A,
    before: SelectorState,
    candidates: Seq<Candidate>,
    now: u64,
    after: SelectorState,
)
    requires
        before.coherent(),
        before.upserts_all(kit, candidates, now, after),
        forall|j: int|
            0 <= j < candidates.len() ==> before.knows((#[trigger] candidates[j]).peer_id),
    ensures
        after.coherent(),
        after == (SelectorState { peers: after.peers, ..before }),
        forall|id: PeerId| #[trigger] after.knows(id) <==> before.knows(id),
        forall|id: PeerId| #[trigger]
            after.knows(id) ==> after.peer(id).quality == before.peer(id).quality
                && after.peer(id).banned == before.peer(id).banned,
    decreases candidates.len(),
{
    if candidates.len() > 0 {
        let front = candidates.drop_last();
        let last = candidates.last();
        let mid = choose|mid: SelectorState|
            before.upserts_all(kit, front, now, mid) && #[trigger] mid.upserts(
                kit,
                last,
                Provenance::Dht,
                now,
                after,
            );
        assert forall|j: int| 0 <= j < front.len() implies before.knows(
            (#[trigger] front[j]).peer_id,
        ) by {
            assert(front[j] == candidates[j]);
        }
        lemma_refreshed_all(kit, before, front, now, mid);
        assert(candidates[candidates.len() - 1] == last);
        assert(mid.knows(last.peer_id) <==> before.knows(last.peer_id));
        lemma_known_stamped(mid, last.peer_id);
        let told = mid.peer(last.peer_id).refreshed(last, Provenance::Dht);
        lemma_replaced_coherent(mid, told);
        assert forall|id: PeerId| #[trigger] after.knows(id) implies after.peer(id).quality
            == before.peer(id).quality && after.peer(id).banned == before.peer(id).banned by {
            assert(mid.knows(id));
            if id != last.peer_id {
                assert(after.peer(id) == mid.peer(id));
            }
        }
    }
}

/// Whether a peer may be chosen and is no bad source.
pub open spec fn fit(state: SelectorState, id: PeerId) -> bool {
    &&& state.eligible(id)
    &&& state.peer(id).quality.samples == 0 || !bad_source(state.peer(id).quality)
}

/// Whether the `i`-th peer of the pool is saturated, though another is not.
pub open spec fn squeezed(state: SelectorState, pool: Seq<PeerId>, i: int) -> bool {
    &&& saturated(state, pool[i])
    &&& exists|j: int| 0 <= j < pool.len() && !saturated(state, #[trigger] pool[j])
}

/// How many sources a call asks for.
pub open spec fn slots_of(call: Call) -> usize {
    match call {
        Call::Select { want, .. } => want,
        Call::Rebalance { want, need, .. } => if need == 0 {
            1
        } else if need < want {
            need as usize
        } else {
            want
        },
        _ => 0,
    }
}

/// Whether the `i`-th peer of the pool is not squeezed when the call chooses.
pub open spec fn unsqueezed<A: Arithmetic>(
    kit: &A,
    state: SelectorState,
    call: Call,
    pool: Seq<PeerId>,
    i: int,
) -> bool {
    match call {
        Call::Select { candidates, .. } => forall|now: u64, mid: SelectorState| #[trigger]
            state.upserts_all(kit, candidates, now, mid) ==> !squeezed(mid.calmed(now), pool, i),
        _ => forall|now: u64| !squeezed(#[trigger] state.calmed(now), pool, i),
    }
}

/// Whether a call chooses among the peers of the pool: it selects among candidates who are these, in
/// whatever order, or it rebalances while nobody else may be chosen. Fewer are wanted than there are.
pub open spec fn is_turn(state: SelectorState, call: Call, pool: Seq<PeerId>) -> bool {
    &&& 1 <= slots_of(call) < pool.len()
    &&& match call {
        Call::Select { candidates, .. } => {
            &&& candidates.len() <= usize::MAX
            &&& forall|j: int|
                0 <= j < candidates.len() ==> pool.contains((#[trigger] candidates[j]).peer_id)
            &&& forall|i: int|
                0 <= i < pool.len() ==> exists|j: int|
                    0 <= j < candidates.len() && (#[trigger] candidates[j]).peer_id
                        == #[trigger] pool[i]
        },
        Call::Rebalance { .. } => {
            &&& state.peers.len() <= usize::MAX
            &&& forall|id: PeerId| #[trigger] state.eligible(id) ==> pool.contains(id)
        },
        _ => false,
    }
}

/// Whether a call chose among the whole pool in this sitting.
pub open spec fn was_turn(
    before: SelectorState,
    pool: Seq<PeerId>,
    want: usize,
    answer: Seq<SelectedPeer>,
    after: SelectorState,
    sitting: Sitting,
) -> bool {
    &&& seated(sitting, pool.len())
    &&& sitting.round.want == want
    &&& sitting.round.epoch == after.epoch == before.epoch + 1
    &&& forall|i: int|
        #![trigger sitting.seat[i]]
        #![trigger pool[i]]
        0 <= i < pool.len() ==> {
            let place = sitting.seat[i];
            let taken = chosen(sitting.round.field, want, after.epoch).contains(place as usize);
            &&& !sitting.round.field[place].score.bad()
            &&& sitting.round.field[place].last_selected == before.last_round(pool[i])
            &&& taken <==> picked(answer, pool[i])
            &&& after.last_round(pool[i]) == (if taken {
                after.epoch
            } else {
                before.last_round(pool[i])
            })
        }
}

/// The sitting of a field over the pool in some order.
spec fn sitting_of(
    pool: Seq<PeerId>,
    ids: Seq<PeerId>,
    field: Seq<Contender>,
    want: usize,
    epoch: u64,
) -> Sitting {
    Sitting {
        round: Round { field, want, epoch },
        seat: Seq::new(pool.len(), |i: int| ids.index_of(pool[i])),
        guest: Seq::new(ids.len(), |j: int| pool.index_of(ids[j])),
    }
}

proof fn lemma_all_seated(
    pool: Seq<PeerId>,
    ids: Seq<PeerId>,
    field: Seq<Contender>,
    want: usize,
    epoch: u64,
)
    requires
        pool.no_duplicates(),
        ids.no_duplicates(),
        forall|i: int| 0 <= i < pool.len() ==> ids.contains(#[trigger] pool[i]),
        forall|j: int| 0 <= j < ids.len() ==> pool.contains(#[trigger] ids[j]),
        field.len() == ids.len(),
    ensures
        ids.len() == pool.len(),
        seated(sitting_of(pool, ids, field, want, epoch), pool.len()),
        forall|i: int|
            0 <= i < pool.len() ==> ids[#[trigger] sitting_of(
                pool,
                ids,
                field,
                want,
                epoch,
            ).seat[i]] == pool[i],
{
    assert(ids.to_set() =~= pool.to_set());
    ids.unique_seq_to_set();
    pool.unique_seq_to_set();
    let sitting = sitting_of(pool, ids, field, want, epoch);
    assert forall|i: int| 0 <= i < pool.len() implies 0 <= (#[trigger] sitting.seat[i])
        < pool.len() && sitting.guest[sitting.seat[i]] == i && ids[sitting.seat[i]] == pool[i] by {
        assert(ids.contains(pool[i]));
        let j = sitting.seat[i];
        assert(ids[j] == pool[i]);
        assert(pool.contains(ids[j]));
    }
    assert forall|j: int| 0 <= j < pool.len() implies 0 <= (#[trigger] sitting.guest[j])
        < pool.len() && sitting.seat[sitting.guest[j]] == j by {
        assert(pool.contains(ids[j]));
        let i = sitting.guest[j];
        assert(pool[i] == ids[j]);
        assert(ids.contains(pool[i]));
    }
}

/// What choosing does to one of the contestants.
proof fn lemma_turn_of_one<A: Arithmetic>(
    kit: &A,
    mid: SelectorState,
    pool: Seq<PeerId>,
    active: Seq<PeerId>,
    want: usize,
    now: u64,
    answer: Seq<SelectedPeer>,
    after: SelectorState,
    field: Seq<Contender>,
    j: int,
)
    requires
        mid.coherent(),
        pool.len() <= usize::MAX,
        want >= 1,
        mid.chooses(kit, pool, active, want, now, answer, after),
        mid.calmed(now).is_field(kit, mid.calmed(now).contestants(pool), active, field),
        answer == lineup(field, want, after.epoch),
        0 <= j < mid.calmed(now).contestants(pool).len(),
        fit(mid, mid.calmed(now).contestants(pool)[j]),
        fit(mid.calmed(now), mid.calmed(now).contestants(pool)[j]),
    ensures
        field.len() == mid.calmed(now).contestants(pool).len(),
        ({
            let id = mid.calmed(now).contestants(pool)[j];
            let taken = chosen(field, want, after.epoch).contains(j as usize);
            &&& !field[j].score.bad()
            &&& field[j].last_selected == mid.last_round(id)
            &&& taken <==> picked(answer, id)
            &&& after.last_round(id) == (if taken {
                after.epoch
            } else {
                mid.last_round(id)
            })
        }),
{
    let calm = mid.calmed(now);
    let ids = calm.contestants(pool);
    lemma_contestants(calm, pool);
    lemma_headroom(kit, calm, ids, active, field);
    lemma_chosen_places(field, want, after.epoch);
    let places = chosen(field, want, after.epoch);
    let (marks, bonus) = choose|marks: Seq<ScoredPeer>, bonus: Measure|
        calm.judged(kit, ids, marks) && is_bonus(kit, marks, bonus) && #[trigger] calm.makes_field(
            kit,
            ids,
            active,
            marks,
            bonus,
            field,
        );
    assert(explored(marks[j], bonus).effective_score >= 0);
    assert(!field[j].score.bad());
    rounds_are_noted(kit, mid, pool, active, want, now, answer, after, ids[j]);
    if places.contains(j as usize) {
        let k = choose|k: int| 0 <= k < places.len() && places[k] == j as usize;
        assert((j as usize) as int == j);
        assert(answer[k].peer_id == ids[j]);
    }
    if picked(answer, ids[j]) {
        let k = choose|k: int| 0 <= k < answer.len() && (#[trigger] answer[k]).peer_id == ids[j];
        assert(places[k] < field.len());
        assert(field[places[k] as int].peer_id == ids[places[k] as int]);
        assert(places[k] as int == j);
        assert(places[k] == j as usize);
    }
}

/// Choosing among the whole pool is a turn.
proof fn lemma_choosing_is_a_turn<A: Arithmetic>(
    kit: &A,
    mid: SelectorState,
    pool: Seq<PeerId>,
    asked: Seq<PeerId>,
    active: Seq<PeerId>,
    want: usize,
    now: u64,
    answer: Seq<SelectedPeer>,
    after: SelectorState,
    member: int,
) -> (sitting: Sitting)
    requires
        mid.coherent(),
        mid.epoch < u64::MAX,
        pool.no_duplicates(),
        asked.len() <= usize::MAX,
        1 <= want < pool.len(),
        mid.chooses(kit, asked, active, want, now, answer, after),
        forall|i: int| 0 <= i < pool.len() ==> fit(mid, #[trigger] pool[i]),
        forall|i: int| 0 <= i < pool.len() ==> asked.contains(#[trigger] pool[i]),
        forall|id: PeerId| asked.contains(id) && #[trigger] mid.eligible(id) ==> pool.contains(id),
        0 <= member < pool.len(),
        !squeezed(mid.calmed(now), pool, member),
    ensures
        was_turn(mid, pool, want, answer, after, sitting),
        !passed_over(sitting.round.field, sitting.seat[member]),
{
    let calm = mid.calmed(now);
    let ids = calm.contestants(asked);
    lemma_calmed(mid, now);
    assert forall|i: int| 0 <= i < pool.len() implies fit(calm, #[trigger] pool[i]) by {
        assert(fit(mid, pool[i]));
        assert(calm.knows(pool[i]));
        assert(same_but_load(calm.peer(pool[i]), mid.peer(pool[i])));
    }
    lemma_contestants(calm, asked);
    lemma_all_eligible_contest(calm, asked);
    assert forall|i: int| 0 <= i < pool.len() implies ids.contains(#[trigger] pool[i]) by {
        assert(asked.contains(pool[i]));
        let a = choose|a: int| 0 <= a < asked.len() && asked[a] == pool[i];
        assert(fit(calm, pool[i]));
        assert(calm.eligible(asked[a]));
    }
    assert forall|j: int| 0 <= j < ids.len() implies pool.contains(#[trigger] ids[j]) by {
        assert(calm.eligible(ids[j]) && asked.contains(ids[j]));
        assert(calm.knows(ids[j]));
        assert(same_but_load(calm.peer(ids[j]), mid.peer(ids[j])));
        assert(mid.eligible(ids[j]));
    }
    assert(ids.contains(pool[0]));
    let round = calm.next_round(ids.len());
    let field = choose|field: Seq<Contender>| #[trigger]
        calm.is_field(kit, ids, active, field) && answer == lineup(field, want, round.epoch)
            && after == round.dispatched_all(answer, now);
    lemma_headroom(kit, calm, ids, active, field);
    let sitting = sitting_of(pool, ids, field, want, round.epoch);
    lemma_all_seated(pool, ids, field, want, round.epoch);
    lemma_some_answer(field, want, round.epoch, answer);
    assert(fit(mid, pool[0]));
    rounds_are_noted(kit, mid, asked, active, want, now, answer, after, pool[0]);
    assert(after.epoch == round.epoch);
    assert forall|i: int| 0 <= i < pool.len() implies {
        let place = #[trigger] sitting.seat[i];
        let taken = chosen(field, want, after.epoch).contains(place as usize);
        &&& !field[place].score.bad()
        &&& field[place].last_selected == mid.last_round(pool[i])
        &&& taken <==> picked(answer, pool[i])
        &&& after.last_round(pool[i]) == (if taken {
            after.epoch
        } else {
            mid.last_round(pool[i])
        })
    } by {
        assert(fit(mid, pool[i]) && fit(calm, pool[i]));
        assert(ids[sitting.seat[i]] == pool[i]);
        lemma_turn_of_one(
            kit,
            mid,
            asked,
            active,
            want,
            now,
            answer,
            after,
            field,
            sitting.seat[i],
        );
    }
    if passed_over(field, sitting.seat[member]) {
        let j = choose|j: int| #[trigger] roomy(field, j);
        assert(field[j].full == saturated(calm, ids[j]));
        assert(field[sitting.seat[member]].full == saturated(calm, pool[member]));
        assert(pool.contains(ids[j]));
        let i = choose|i: int| 0 <= i < pool.len() && pool[i] == ids[j];
        assert(!saturated(calm, pool[i]));
    }
    sitting
}

proof fn lemma_selecting_is_a_turn<A: Arithmetic>(
    kit: &A,
    before: SelectorState,
    candidates: Seq<Candidate>,
    want: usize,
    pool: Seq<PeerId>,
    answer: Seq<SelectedPeer>,
    after: SelectorState,
    member: int,
) -> (sitting: Sitting)
    requires
        before.coherent(),
        before.epoch < u64::MAX,
        (Call::Select { candidates, want }).leads(kit, before, answer, after),
        is_turn(before, Call::Select { candidates, want }, pool),
        pool.no_duplicates(),
        forall|i: int| 0 <= i < pool.len() ==> fit(before, #[trigger] pool[i]),
        0 <= member < pool.len(),
        unsqueezed(kit, before, Call::Select { candidates, want }, pool, member),
    ensures
        was_turn(before, pool, want, answer, after, sitting),
        !passed_over(sitting.round.field, sitting.seat[member]),
{
    let asked = candidates.map_values(|c: Candidate| c.peer_id);
    let now = choose|now: u64| #[trigger]
        before.clock.reads(now) && before.selects(kit, candidates, want, now, answer, after);
    let mid = choose|mid: SelectorState| #[trigger]
        before.upserts_all(kit, candidates, now, mid) && mid.chooses(
            kit,
            candidates.map_values(|c: Candidate| c.peer_id),
            Seq::empty(),
            want,
            now,
            answer,
            after,
        );
    assert forall|j: int| 0 <= j < candidates.len() implies before.knows(
        (#[trigger] candidates[j]).peer_id,
    ) by {
        assert(pool.contains(candidates[j].peer_id));
        let i = choose|i: int| 0 <= i < pool.len() && pool[i] == candidates[j].peer_id;
        assert(fit(before, pool[i]));
    }
    lemma_refreshed_all(kit, before, candidates, now, mid);
    assert forall|i: int| 0 <= i < pool.len() implies fit(mid, #[trigger] pool[i])
        && asked.contains(pool[i]) by {
        assert(fit(before, pool[i]));
        assert(mid.knows(pool[i]));
        let j = choose|j: int|
            0 <= j < candidates.len() && (#[trigger] candidates[j]).peer_id == pool[i];
        assert(asked[j] == pool[i]);
    }
    assert forall|id: PeerId| asked.contains(id) && #[trigger] mid.eligible(id) implies
        pool.contains(id) by {
        let j = choose|j: int| 0 <= j < asked.len() && asked[j] == id;
        assert(pool.contains(candidates[j].peer_id));
    }
    let sitting = lemma_choosing_is_a_turn(
        kit,
        mid,
        pool,
        asked,
        Seq::empty(),
        want,
        now,
        answer,
        after,
        member,
    );
    assert forall|i: int| 0 <= i < pool.len() implies mid.last_round(#[trigger] pool[i])
        == before.last_round(pool[i]) by {}
    assert(was_turn(before, pool, want, answer, after, sitting));
    sitting
}

proof fn lemma_rebalancing_is_a_turn<A: Arithmetic>(
    kit: &A,
    before: SelectorState,
    call: Call,
    pool: Seq<PeerId>,
    answer: Seq<SelectedPeer>,
    after: SelectorState,
    member: int,
) -> (sitting: Sitting)
    requires
        before.coherent(),
        before.epoch < u64::MAX,
        call is Rebalance,
        call.leads(kit, before, answer, after),
        is_turn(before, call, pool),
        pool.no_duplicates(),
        forall|i: int| 0 <= i < pool.len() ==> fit(before, #[trigger] pool[i]),
        0 <= member < pool.len(),
        unsqueezed(kit, before, call, pool, member),
    ensures
        was_turn(before, pool, slots_of(call), answer, after, sitting),
        !passed_over(sitting.round.field, sitting.seat[member]),
{
    let asked = before.everyone();
    let (active, want, need) = (call->active, call->Rebalance_want, call->need);
    let now = choose|now: u64| #[trigger]
        before.clock.reads(now) && before.rebalances(
            kit,
            active,
            want,
            need,
            now,
            answer,
            after,
        );
    assert forall|i: int| 0 <= i < pool.len() implies asked.contains(#[trigger] pool[i]) by {
        assert(fit(before, pool[i]));
        let p = choose|p: int|
            0 <= p < before.peers.len() && (#[trigger] before.peers[p]).peer_id == pool[i];
        assert(asked[p] == pool[i]);
    }
    assert(!squeezed(before.calmed(now), pool, member));
    lemma_choosing_is_a_turn(
        kit,
        before,
        pool,
        asked,
        active,
        slots_of(call),
        now,
        answer,
        after,
        member,
    )
}

proof fn lemma_some_answer(
    field: Seq<Contender>,
    want: usize,
    epoch: u64,
    answer: Seq<SelectedPeer>,
)
    requires
        0 < field.len() <= usize::MAX,
        want >= 1,
        answer == lineup(field, want, epoch),
    ensures
        answer.len() > 0,
{
    somebody_is_chosen(field, want, epoch);
}

/// Whether the calls at these positions choose among the whole pool, and no other call from the
/// first to the last of them chooses.
pub open spec fn take_turns(
    calls: Seq<Call>,
    states: Seq<SelectorState>,
    turns: Seq<int>,
    pool: Seq<PeerId>,
) -> bool {
    &&& forall|t: int|
        0 <= t < turns.len() ==> 0 <= #[trigger] turns[t] < calls.len() && is_turn(
            states[turns[t]],
            calls[turns[t]],
            pool,
        )
    &&& forall|t: int|
        #![trigger turns[t]]
        0 <= t && t + 1 < turns.len() ==> turns[t] < turns[t + 1] && forall|p: int|
            turns[t] < p < turns[t + 1] ==> !(#[trigger] calls[p]).chooses()
}

proof fn lemma_quiet_stretch<A: Arithmetic>(
    kit: &A,
    calls: Seq<Call>,
    states: Seq<SelectorState>,
    answers: Seq<Seq<SelectedPeer>>,
    from: int,
    to: int,
    id: PeerId,
)
    requires
        runs(kit, calls, states, answers),
        0 <= from <= to <= calls.len(),
        forall|k: int|
            from <= k <= to ==> (#[trigger] states[k]).coherent() && states[k].knows(id),
        forall|p: int| from <= p < to ==> !(#[trigger] calls[p]).chooses(),
    ensures
        states[to].epoch == states[from].epoch,
        states[to].last_round(id) == states[from].last_round(id),
    decreases to - from,
{
    if from < to {
        lemma_quiet_stretch(kit, calls, states, answers, from, to - 1, id);
        assert(!calls[to - 1].chooses());
        assert(states[to - 1].coherent() && states[to].knows(id));
        lemma_quiet_call(kit, calls[to - 1], states[to - 1], answers[to - 1], states[to], id);
    }
}

proof fn lemma_rising(
    calls: Seq<Call>,
    states: Seq<SelectorState>,
    turns: Seq<int>,
    pool: Seq<PeerId>,
    t: int,
    u: int,
)
    requires
        take_turns(calls, states, turns, pool),
        0 <= t <= u < turns.len(),
    ensures
        turns[t] <= turns[u],
        t < u ==> turns[t] < turns[u],
    decreases u - t,
{
    if t < u {
        lemma_rising(calls, states, turns, pool, t, u - 1);
        assert(turns[u - 1] < turns[(u - 1) + 1]);
    }
}

/// Whether the peers of the pool take part in a run from the first turn to the last: they may all be
/// chosen and none is a bad source, and the `member`-th of the pool is not passed over for being
/// saturated.
pub open spec fn takes_part<A: Arithmetic>(
    kit: &A,
    calls: Seq<Call>,
    states: Seq<SelectorState>,
    pool: Seq<PeerId>,
    turns: Seq<int>,
    member: int,
) -> bool {
    &&& pool.no_duplicates()
    &&& pool.len() <= usize::MAX
    &&& 0 <= member < pool.len()
    &&& take_turns(calls, states, turns, pool)
    &&& forall|k: int, i: int|
        #![trigger states[k], pool[i]]
        turns[0] <= k <= turns.last() && 0 <= i < pool.len() ==> fit(states[k], pool[i])
    &&& forall|t: int|
        0 <= t < turns.len() ==> unsqueezed(
            kit,
            states[#[trigger] turns[t]],
            calls[turns[t]],
            pool,
            member,
        )
}

/// A sitting in which the call at a position chose, and in which `member` is not passed over.
spec fn turn_sitting(
    calls: Seq<Call>,
    states: Seq<SelectorState>,
    answers: Seq<Seq<SelectedPeer>>,
    pool: Seq<PeerId>,
    member: int,
    p: int,
) -> Sitting {
    choose|sitting: Sitting| #[trigger]
        was_turn(
            states[p],
            pool,
            slots_of(calls[p]),
            answers[p],
            states[p + 1],
            sitting,
        ) && !passed_over(sitting.round.field, sitting.seat[member])
}

/// Between two turns neither the round nor anybody's last one moves.
proof fn lemma_between_turns<A: Arithmetic>(
    kit: &A,
    calls: Seq<Call>,
    states: Seq<SelectorState>,
    answers: Seq<Seq<SelectedPeer>>,
    pool: Seq<PeerId>,
    turns: Seq<int>,
    member: int,
    t: int,
    i: int,
)
    requires
        is_life(kit, calls, states, answers),
        takes_part(kit, calls, states, pool, turns, member),
        0 < t < turns.len(),
        0 <= i < pool.len(),
    ensures
        states[turns[t]].epoch == states[turns[t - 1] + 1].epoch,
        states[turns[t]].last_round(pool[i]) == states[turns[t - 1] + 1].last_round(pool[i]),
{
    let (q, p) = (turns[t - 1], turns[t]);
    lemma_rising(calls, states, turns, pool, 0, t - 1);
    lemma_rising(calls, states, turns, pool, t, turns.len() - 1);
    assert(q < turns[(t - 1) + 1]);
    assert forall|k: int| q + 1 <= k <= p implies (#[trigger] states[k]).coherent()
        && states[k].knows(pool[i]) by {
        lives_keep_faith(kit, calls, states, answers, k);
        assert(fit(states[k], pool[i]));
    }
    assert forall|k: int| q + 1 <= k < p implies !(#[trigger] calls[k]).chooses() by {}
    lemma_quiet_stretch(kit, calls, states, answers, q + 1, p, pool[i]);
}

/// A turn was taken in its sitting.
proof fn lemma_turn_at<A: Arithmetic>(
    kit: &A,
    calls: Seq<Call>,
    states: Seq<SelectorState>,
    answers: Seq<Seq<SelectedPeer>>,
    pool: Seq<PeerId>,
    turns: Seq<int>,
    member: int,
    t: int,
)
    requires
        is_life(kit, calls, states, answers),
        takes_part(kit, calls, states, pool, turns, member),
        0 <= t < turns.len(),
    ensures
        ({
            let p = turns[t];
            let sitting = turn_sitting(calls, states, answers, pool, member, p);
            &&& was_turn(
                states[p],
                pool,
                slots_of(calls[p]),
                answers[p],
                states[p + 1],
                sitting,
            )
            &&& !passed_over(sitting.round.field, sitting.seat[member])
        }),
        rounds_lie_behind(states[turns[t]]),
{
    let p = turns[t];
    let before = states[p];
    lemma_rising(calls, states, turns, pool, 0, t);
    lemma_rising(calls, states, turns, pool, t, turns.len() - 1);
    rounds_are_never_ahead(kit, calls, states, answers, p);
    lives_keep_faith(kit, calls, states, answers, p);
    let call = calls[p];
    assert(call.leads(kit, before, answers[p], states[p + 1]));
    assert(is_turn(before, call, pool));
    assert forall|i: int| 0 <= i < pool.len() implies fit(before, #[trigger] pool[i]) by {
        assert(turns[0] <= p <= turns.last());
    }
    if let Call::Select { candidates, want } = call {
        let sitting = lemma_selecting_is_a_turn(
            kit,
            before,
            candidates,
            want,
            pool,
            answers[p],
            states[p + 1],
            member,
        );
        assert(was_turn(before, pool, slots_of(call), answers[p], states[p + 1], sitting));
    } else {
        let sitting = lemma_rebalancing_is_a_turn(
            kit,
            before,
            call,
            pool,
            answers[p],
            states[p + 1],
            member,
        );
        assert(was_turn(before, pool, slots_of(call), answers[p], states[p + 1], sitting));
    }
}

/// Turns are counted one by one.
proof fn lemma_turns_counted<A: Arithmetic>(
    kit: &A,
    calls: Seq<Call>,
    states: Seq<SelectorState>,
    answers: Seq<Seq<SelectedPeer>>,
    pool: Seq<PeerId>,
    turns: Seq<int>,
    member: int,
    t: int,
)
    requires
        is_life(kit, calls, states, answers),
        takes_part(kit, calls, states, pool, turns, member),
        0 <= t < turns.len(),
    ensures
        states[turns[t]].epoch == states[turns[0]].epoch + t,
    decreases t,
{
    if t > 0 {
        lemma_turns_counted(kit, calls, states, answers, pool, turns, member, t - 1);
        lemma_turn_at(kit, calls, states, answers, pool, turns, member, t - 1);
        lemma_between_turns(kit, calls, states, answers, pool, turns, member, t, 0);
    }
}

/// The sittings of the turns.
spec fn turn_sittings(
    calls: Seq<Call>,
    states: Seq<SelectorState>,
    answers: Seq<Seq<SelectedPeer>>,
    pool: Seq<PeerId>,
    turns: Seq<int>,
    member: int,
) -> Seq<Sitting> {
    Seq::new(
        turns.len(),
        |t: int| turn_sitting(calls, states, answers, pool, member, turns[t]),
    )
}

proof fn lemma_sitting_follows<A: Arithmetic>(
    kit: &A,
    calls: Seq<Call>,
    states: Seq<SelectorState>,
    answers: Seq<Seq<SelectedPeer>>,
    pool: Seq<PeerId>,
    turns: Seq<int>,
    member: int,
    k: int,
)
    requires
        is_life(kit, calls, states, answers),
        takes_part(kit, calls, states, pool, turns, member),
        0 <= k < turns.len(),
    ensures
        ({
            let sittings = turn_sittings(calls, states, answers, pool, turns, member);
            &&& seated(sittings[k], pool.len())
            &&& 1 <= sittings[k].round.want < pool.len()
            &&& sittings[k].round.epoch == sittings[0].round.epoch + k
            &&& !skipped_in(sittings, k, member)
            &&& served_in(sittings, k, member) ==> picked(answers[turns[k]], pool[member])
        }),
{
    lemma_turn_at(kit, calls, states, answers, pool, turns, member, k);
    lemma_turn_at(kit, calls, states, answers, pool, turns, member, 0);
    lemma_turns_counted(kit, calls, states, answers, pool, turns, member, k);
    let p = turns[k];
    assert(is_turn(states[p], calls[p], pool));
    let sitting = turn_sitting(calls, states, answers, pool, member, p);
    assert(0 <= sitting.seat[member]);
}

proof fn lemma_sitting_links<A: Arithmetic>(
    kit: &A,
    calls: Seq<Call>,
    states: Seq<SelectorState>,
    answers: Seq<Seq<SelectedPeer>>,
    pool: Seq<PeerId>,
    turns: Seq<int>,
    member: int,
    k: int,
    i: int,
)
    requires
        is_life(kit, calls, states, answers),
        takes_part(kit, calls, states, pool, turns, member),
        0 <= k < turns.len(),
        0 <= i < pool.len(),
    ensures
        ({
            let sittings = turn_sittings(calls, states, answers, pool, turns, member);
            &&& !sittings[k].of(i).score.bad()
            &&& sittings[k].of(i).last_selected < sittings[k].round.epoch
            &&& k + 1 < sittings.len() ==> sittings[k + 1].of(i).last_selected == (if served_in(
                sittings,
                k,
                i,
            ) {
                sittings[k].round.epoch
            } else {
                sittings[k].of(i).last_selected
            })
        }),
{
    lemma_turn_at(kit, calls, states, answers, pool, turns, member, k);
    let p = turns[k];
    let sitting = turn_sitting(calls, states, answers, pool, member, p);
    assert(0 <= sitting.seat[i]);
    if states[p].last_selected.contains_key(pool[i]) {
        assert(states[p].last_round(pool[i]) <= states[p].epoch);
    }
    if k + 1 < turns.len() {
        lemma_turn_at(kit, calls, states, answers, pool, turns, member, k + 1);
        let next = turn_sitting(calls, states, answers, pool, member, turns[k + 1]);
        assert(0 <= next.seat[i]);
        lemma_between_turns(kit, calls, states, answers, pool, turns, member, k + 1, i);
    }
}

/// Nobody starves: of `n` peers that may all be chosen and of which none is a bad source, each is
/// picked at least once in any `2 * n - 1` calls that choose fewer than `n` among them. These may be
/// selections and rebalancings, whatever other calls come between them that do not choose, as long
/// as the peer is not passed over for being saturated. Of two in a row neither has to name the peers
/// in the order of the other.
pub proof fn nobody_starves<A: Arithmetic>(
    kit: &A,
    calls: Seq<Call>,
    states: Seq<SelectorState>,
    answers: Seq<Seq<SelectedPeer>>,
    pool: Seq<PeerId>,
    turns: Seq<int>,
    member: int,
)
    requires
        is_life(kit, calls, states, answers),
        takes_part(kit, calls, states, pool, turns, member),
        turns.len() == 2 * pool.len() - 1,
    ensures
        exists|t: int| 0 <= t < turns.len() && picked(answers[#[trigger] turns[t]], pool[member]),
{
    let n = pool.len();
    let sittings = turn_sittings(calls, states, answers, pool, turns, member);
    assert(in_succession(sittings, n)) by {
        assert forall|k: int| #![trigger sittings[k]] 0 <= k < sittings.len() implies {
            &&& seated(sittings[k], n)
            &&& 1 <= sittings[k].round.want < n
            &&& sittings[k].round.epoch == sittings[0].round.epoch + k
        } by {
            lemma_sitting_follows(kit, calls, states, answers, pool, turns, member, k);
        }
        assert forall|k: int, i: int|
            #![trigger sittings[k].of(i)]
            0 <= k < sittings.len() && 0 <= i < n implies {
            &&& !sittings[k].of(i).score.bad()
            &&& sittings[k].of(i).last_selected < sittings[k].round.epoch
            &&& k + 1 < sittings.len() ==> sittings[k + 1].of(i).last_selected == (if served_in(
                sittings,
                k,
                i,
            ) {
                sittings[k].round.epoch
            } else {
                sittings[k].of(i).last_selected
            })
        } by {
            lemma_sitting_links(kit, calls, states, answers, pool, turns, member, k, i);
        }
    }
    assert forall|t: int| 0 <= t < 2 * n - 1 implies !#[trigger] skipped_in(
        sittings,
        t,
        member,
    ) by {
        lemma_sitting_follows(kit, calls, states, answers, pool, turns, member, t);
    }
    everybody_is_served(sittings, n, member);
    let t = choose|t: int| 0 <= t < 2 * n - 1 && #[trigger] served_in(sittings, t, member);
    lemma_sitting_follows(kit, calls, states, answers, pool, turns, member, t);
    assert(picked(answers[turns[t]], pool[member]));
}

} // verus!
