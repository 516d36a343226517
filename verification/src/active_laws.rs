//! That being active already never helps a peer.

use vstd::prelude::*;

use crate::determinism::{lemma_one_basis, lemma_one_final};
use crate::engine::lemma_contestants;
use crate::engine_laws::{lemma_all_eligible_contest, lemma_calmed};
use crate::formula::steady;
use crate::identity::PeerId;
use crate::judging::is_bonus;
use crate::measure::{Arithmetic, Measure, INFINITY};
use crate::order::{lemma_proper, orderly, proper};
use crate::ranking::{
    chosen, claimant, exploration_cap, lemma_chosen_places, lemma_ranking_complete, lineup,
    passed_over, picks, ranking, roomy, some_room, Contender,
};
use crate::ranking_laws::{
    dimmed, lemma_ranking_descends, lemma_same_ranking, lower_scores_never_rank_earlier, score_at,
};
use crate::scoring::{at_least_one, bad_source, is_merit, merit, ScoredPeer};
use crate::scoring_laws::the_active_score_lower;
use crate::state::{picked, SelectorState};
use crate::types::SelectedPeer;

verus! {

/// Whether a place counts: its contender is not passed over, and is to be explored or is not, as
/// asked.
pub open spec fn counts(field: Seq<Contender>, place: usize, exploratory: bool) -> bool {
    !passed_over(field, place as int) && field[place as int].score.exploratory == exploratory
}

/// How many of the places count.
pub open spec fn tally(field: Seq<Contender>, places: Seq<usize>, exploratory: bool) -> nat
    decreases places.len(),
{
    if places.len() == 0 {
        0
    } else {
        tally(field, places.drop_first(), exploratory) + (if counts(
            field,
            places[0],
            exploratory,
        ) {
            1nat
        } else {
            0
        })
    }
}

/// How many of the places are taken, with `budget` unmeasured peers at most.
pub open spec fn taken(field: Seq<Contender>, places: Seq<usize>, budget: nat) -> nat {
    let unmeasured = tally(field, places, true);
    tally(field, places, false) + (if unmeasured < budget {
        unmeasured
    } else {
        budget
    })
}

proof fn lemma_tally_without(
    field: Seq<Contender>,
    places: Seq<usize>,
    exploratory: bool,
    k: int,
)
    requires
        0 <= k < places.len(),
    ensures
        tally(field, places, exploratory) == tally(field, places.remove(k), exploratory) + (
        if counts(field, places[k], exploratory) {
            1nat
        } else {
            0
        }),
    decreases places.len(),
{
    if k == 0 {
        assert(places.remove(0) =~= places.drop_first());
    } else {
        lemma_tally_without(field, places.drop_first(), exploratory, k - 1);
        assert(places.remove(k).drop_first() =~= places.drop_first().remove(k - 1));
        assert(places.remove(k)[0] == places[0]);
        assert(places.drop_first()[k - 1] == places[k]);
    }
}

/// More places hold no fewer that count, in two fields that agree on who counts.
proof fn lemma_tally_grows(
    field: Seq<Contender>,
    fewer: Seq<usize>,
    other: Seq<Contender>,
    more: Seq<usize>,
    exploratory: bool,
)
    requires
        fewer.no_duplicates(),
        forall|k: int| 0 <= k < fewer.len() ==> more.contains(#[trigger] fewer[k]),
        forall|k: int|
            0 <= k < fewer.len() ==> counts(field, #[trigger] fewer[k], exploratory) == counts(
                other,
                fewer[k],
                exploratory,
            ),
    ensures
        tally(field, fewer, exploratory) <= tally(other, more, exploratory),
    decreases fewer.len(),
{
    if fewer.len() > 0 {
        let first = fewer[0];
        let rest = fewer.drop_first();
        assert(more.contains(first));
        let at = choose|at: int| 0 <= at < more.len() && more[at] == first;
        lemma_tally_without(other, more, exploratory, at);
        let left = more.remove(at);
        assert forall|k: int| 0 <= k < rest.len() implies left.contains(#[trigger] rest[k]) by {
            assert(rest[k] == fewer[k + 1]);
            assert(more.contains(fewer[k + 1]));
            let b = choose|b: int| 0 <= b < more.len() && more[b] == rest[k];
            assert(b != at);
            assert(left[if b < at {
                b
            } else {
                b - 1
            }] == rest[k]);
        }
        assert forall|k: int| 0 <= k < rest.len() implies counts(
            field,
            #[trigger] rest[k],
            exploratory,
        ) == counts(other, rest[k], exploratory) by {
            assert(rest[k] == fewer[k + 1]);
        }
        assert(counts(field, fewer[0], exploratory) == counts(other, fewer[0], exploratory));
        lemma_tally_grows(field, rest, other, left, exploratory);
    }
}

/// Where there are slots for everyone, a measured contender who is not passed over is taken behind
/// those taken before it.
proof fn lemma_taken_behind(
    field: Seq<Contender>,
    order: Seq<usize>,
    slots: nat,
    budget: nat,
    p: int,
)
    requires
        slots >= order.len(),
        0 <= p < order.len(),
        counts(field, order[p], false),
    ensures
        taken(field, order.take(p), budget) < picks(field, order, None, slots, budget).len(),
        picks(field, order, None, slots, budget)[taken(field, order.take(p), budget) as int]
            == order[p],
    decreases order.len(),
{
    let i = order[0];
    let rest = order.drop_first();
    let unmeasured = field[i as int].score.exploratory;
    if p == 0 {
        assert(order.take(0).len() == 0);
        assert(picks(field, order, None, slots, budget) == seq![i] + picks(
            field,
            rest,
            None,
            (slots - 1) as nat,
            budget,
        ));
    } else {
        assert(order.take(p).drop_first() =~= rest.take(p - 1));
        assert(order.take(p)[0] == i);
        assert(rest[p - 1] == order[p]);
        if passed_over(field, i as int) || (unmeasured && budget == 0) {
            lemma_taken_behind(field, rest, slots, budget, p - 1);
            assert(picks(field, order, None, slots, budget) == picks(
                field,
                rest,
                None,
                slots,
                budget,
            ));
        } else {
            let left = if unmeasured {
                (budget - 1) as nat
            } else {
                budget
            };
            lemma_taken_behind(field, rest, (slots - 1) as nat, left, p - 1);
            assert(picks(field, order, None, slots, budget) == seq![i] + picks(
                field,
                rest,
                None,
                (slots - 1) as nat,
                left,
            ));
            assert(taken(field, order.take(p), budget) == taken(field, rest.take(p - 1), left) + 1);
        }
    }
}

/// Who is passed over does not depend on scores.
proof fn lemma_passed_alike(field: Seq<Contender>, other: Seq<Contender>, i: int, j: int)
    requires
        dimmed(field, other, i),
        0 <= j < field.len(),
    ensures
        passed_over(field, j) == passed_over(other, j),
        field[j].score.exploratory == other[j].score.exploratory,
{
    assert(forall|k: int| 0 <= k < field.len() ==> (#[trigger] field[k]).full == other[k].full);
    if some_room(field) {
        let k = choose|k: int| #[trigger] roomy(field, k);
        assert(field[k].full == other[k].full);
        assert(roomy(other, k));
    }
    if some_room(other) {
        let k = choose|k: int| #[trigger] roomy(other, k);
        assert(field[k].full == other[k].full);
        assert(roomy(field, k));
    }
    assert(field[j].full == other[j].full);
}

/// Whoever ranks before a contender ranks before it still when its score falls.
proof fn lemma_still_ahead(
    field: Seq<Contender>,
    other: Seq<Contender>,
    i: int,
    p: int,
    q: int,
    k: int,
)
    requires
        field.len() <= usize::MAX,
        dimmed(field, other, i),
        0 <= p < field.len(),
        0 <= q < field.len(),
        ranking(field, field.len())[p] == i as usize,
        ranking(other, field.len())[q] == i as usize,
        0 <= k < p,
    ensures
        ranking(other, field.len()).take(q).contains(ranking(field, field.len())[k]),
{
    let n = field.len();
    let (order, later) = (ranking(field, n), ranking(other, n));
    lemma_ranking_complete(field, n);
    lemma_ranking_complete(other, n);
    let place = order[k];
    assert(order[k] != order[p]);
    assert(later.contains(place));
    let b = choose|b: int| 0 <= b < later.len() && later[b] == place;
    assert(b != q);
    if other[i].score.effective_score == field[i].score.effective_score {
        lemma_same_ranking(field, other, n);
        assert(order == later);
        assert(p == q && b == k);
    } else {
        lemma_ranking_descends(field, n);
        lemma_ranking_descends(other, n);
        assert(score_at(field, order[k]) >= score_at(field, order[p]));
        assert(other[place as int] == field[place as int]);
        if b > q {
            assert(score_at(other, later[q]) >= score_at(other, later[b]));
        }
    }
    assert(later.take(q)[b] == place);
}

/// Where there are slots for everyone, a measured contender whose score falls is chosen still if it
/// was, and no earlier.
pub proof fn lower_scores_are_never_chosen_earlier(
    field: Seq<Contender>,
    other: Seq<Contender>,
    i: int,
    want: usize,
    epoch: u64,
)
    requires
        dimmed(field, other, i),
        field.len() <= want,
        !field[i].score.exploratory,
    ensures
        chosen(field, want, epoch).contains(i as usize) <==> !passed_over(field, i),
        chosen(other, want, epoch).contains(i as usize) <==> !passed_over(field, i),
        forall|k: int, l: int|
            #![trigger chosen(field, want, epoch)[k], chosen(other, want, epoch)[l]]
            0 <= k < chosen(field, want, epoch).len() && 0 <= l < chosen(other, want, epoch).len()
                && chosen(field, want, epoch)[k] == i && chosen(other, want, epoch)[l] == i ==> k
                <= l,
{
    let n = field.len();
    let budget = exploration_cap(want);
    let (order, later) = (ranking(field, n), ranking(other, n));
    lemma_ranking_complete(field, n);
    lemma_ranking_complete(other, n);
    lemma_chosen_places(field, want, epoch);
    lemma_chosen_places(other, want, epoch);
    lemma_passed_alike(field, other, i, i);
    assert(claimant(field, want, epoch) is None);
    assert(claimant(other, want, epoch) is None);
    assert(chosen(field, want, epoch) == picks(field, order, None, want as nat, budget));
    assert(chosen(other, want, epoch) == picks(other, later, None, want as nat, budget));
    if !passed_over(field, i) {
        assert(order.contains(i as usize) && later.contains(i as usize));
        let p = choose|p: int| 0 <= p < order.len() && order[p] == i as usize;
        let q = choose|q: int| 0 <= q < later.len() && later[q] == i as usize;
        lemma_taken_behind(field, order, want as nat, budget, p);
        lemma_taken_behind(other, later, want as nat, budget, q);
        let (ahead, ahead_later) = (order.take(p), later.take(q));
        assert forall|k: int| 0 <= k < ahead.len() implies ahead_later.contains(
            #[trigger] ahead[k],
        ) && counts(field, ahead[k], true) == counts(other, ahead[k], true) && counts(
            field,
            ahead[k],
            false,
        ) == counts(other, ahead[k], false) by {
            lemma_still_ahead(field, other, i, p, q, k);
            assert(order[k] < n);
            lemma_passed_alike(field, other, i, order[k] as int);
        }
        lemma_tally_grows(field, ahead, other, ahead_later, true);
        lemma_tally_grows(field, ahead, other, ahead_later, false);
        assert(taken(field, ahead, budget) <= taken(other, ahead_later, budget));
    }
}

/// Of two fields over the same peers the one in which somebody is active too differs in its
/// contender alone, who has no better a score and no more headroom.
proof fn lemma_active_dims<A: Arithmetic>(
    kit: &A,
    state: SelectorState,
    ids: Seq<PeerId>,
    active: Seq<PeerId>,
    idle_field: Seq<Contender>,
    busy_field: Seq<Contender>,
    i: int,
)
    requires
        steady(kit),
        orderly(kit),
        ids.no_duplicates(),
        0 <= i < ids.len(),
        !active.contains(ids[i]),
        state.is_field(kit, ids, active, idle_field),
        state.is_field(kit, ids, active.push(ids[i]), busy_field),
        idle_field[i].score.effective_score <= INFINITY,
    ensures
        dimmed(idle_field, busy_field, i),
{
    let more = active.push(ids[i]);
    let (marks, bonus) = choose|marks: Seq<ScoredPeer>, bonus: Measure|
        state.judged(kit, ids, marks) && is_bonus(kit, marks, bonus) && #[trigger] state.makes_field(
            kit,
            ids,
            active,
            marks,
            bonus,
            idle_field,
        );
    let (other_marks, other_bonus) = choose|marks: Seq<ScoredPeer>, bonus: Measure|
        state.judged(kit, ids, marks) && is_bonus(kit, marks, bonus) && #[trigger] state.makes_field(
            kit,
            ids,
            more,
            marks,
            bonus,
            busy_field,
        );
    lemma_one_basis(kit, state, ids, marks, bonus, other_marks, other_bonus);
    assert forall|j: int| 0 <= j < ids.len() && j != i implies #[trigger] busy_field[j]
        == idle_field[j] by {
        assert(ids[j] != ids[i]);
        assert(more.contains(ids[j]) == active.contains(ids[j])) by {
            if active.contains(ids[j]) {
                let a = choose|a: int| 0 <= a < active.len() && active[a] == ids[j];
                assert(more[a] == ids[j]);
            }
            if more.contains(ids[j]) {
                let a = choose|a: int| 0 <= a < more.len() && more[a] == ids[j];
                assert(a < active.len());
                assert(active[a] == ids[j]);
            }
        }
        lemma_one_final(
            kit,
            marks[j],
            bonus,
            active.contains(ids[j]),
            idle_field[j].score,
            busy_field[j].score,
        );
    }
    assert(more[active.len() as int] == ids[i]);
    assert(more.contains(ids[i]));
    the_active_score_lower(kit, marks[i], bonus, idle_field[i].score, busy_field[i].score);
}

/// Being active already never helps: a contender that is counted as active too ranks no earlier, and
/// is good for no more ranges. The arithmetic is to be steady and orderly.
pub proof fn being_active_never_lifts<A: Arithmetic>(
    kit: &A,
    state: SelectorState,
    ids: Seq<PeerId>,
    active: Seq<PeerId>,
    idle_field: Seq<Contender>,
    busy_field: Seq<Contender>,
    i: int,
    idle_place: int,
    busy_place: int,
)
    requires
        steady(kit),
        orderly(kit),
        ids.no_duplicates(),
        ids.len() <= usize::MAX,
        0 <= i < ids.len(),
        !active.contains(ids[i]),
        state.is_field(kit, ids, active, idle_field),
        state.is_field(kit, ids, active.push(ids[i]), busy_field),
        idle_field[i].score.effective_score <= INFINITY,
        0 <= idle_place < ids.len(),
        0 <= busy_place < ids.len(),
        ranking(idle_field, ids.len())[idle_place] == i as usize,
        ranking(busy_field, ids.len())[busy_place] == i as usize,
    ensures
        idle_place <= busy_place,
        busy_field[i].score.headroom <= idle_field[i].score.headroom,
        at_least_one(busy_field[i].score.headroom) <= at_least_one(idle_field[i].score.headroom),
{
    lemma_active_dims(kit, state, ids, active, idle_field, busy_field, i);
    lower_scores_never_rank_earlier(idle_field, busy_field, i, idle_place, busy_place);
}

/// The score of a measured peer that is not active is a measure, where its merit is made of measures.
proof fn lemma_idle_score<A: Arithmetic>(
    kit: &A,
    state: SelectorState,
    ids: Seq<PeerId>,
    active: Seq<PeerId>,
    field: Seq<Contender>,
    i: int,
)
    requires
        orderly(kit),
        0 <= i < ids.len(),
        !active.contains(ids[i]),
        state.is_field(kit, ids, active, field),
        state.peer(ids[i]).quality.samples > 0,
        proper(merit(state.peer(ids[i]), state.saturation, state.relay)),
    ensures
        field[i].score.effective_score <= INFINITY,
        !field[i].score.exploratory,
        field[i].peer_id == ids[i],
{
    let (marks, bonus) = choose|marks: Seq<ScoredPeer>, bonus: Measure|
        state.judged(kit, ids, marks) && is_bonus(kit, marks, bonus) && #[trigger] state.makes_field(
            kit,
            ids,
            active,
            marks,
            bonus,
            field,
        );
    let peer = state.peer(ids[i]);
    assert(marks[i].exploratory == (peer.quality.samples == 0));
    assert(field[i].score == marks[i]);
    if !bad_source(peer.quality) {
        assert(is_merit(kit, peer, state.saturation, state.relay, marks[i].effective_score));
        let value = choose|value: Measure| #[trigger]
            merit(peer, state.saturation, state.relay).gives(kit, value)
                && marks[i].effective_score == value.bits;
        lemma_proper(kit, merit(peer, state.saturation, state.relay), value);
    }
}

/// Being active already never helps: of two rebalancings from one state, for no fewer sources than may
/// be chosen, the one for which a measured peer is active too chooses that peer if the other does,
/// ranks it no earlier, and asks no more ranges of it. The arithmetic is to be steady and orderly.
pub proof fn being_active_never_helps<A: Arithmetic>(
    kit: &A,
    before: SelectorState,
    active: Seq<PeerId>,
    id: PeerId,
    want: usize,
    need: nat,
    now: u64,
    selected: Seq<SelectedPeer>,
    after: SelectorState,
    busy_selected: Seq<SelectedPeer>,
    busy_after: SelectorState,
    rank: int,
    busy_rank: int,
)
    requires
        steady(kit),
        orderly(kit),
        before.coherent(),
        before.eligible(id),
        before.peer(id).quality.samples > 0,
        proper(merit(before.calmed(now).peer(id), before.saturation, before.relay)),
        !active.contains(id),
        before.calmed(now).contestants(before.everyone()).len() <= want,
        before.calmed(now).contestants(before.everyone()).len() <= need,
        before.rebalances(kit, active, want, need, now, selected, after),
        before.rebalances(kit, active.push(id), want, need, now, busy_selected, busy_after),
    ensures
        picked(selected, id) <==> picked(busy_selected, id),
        0 <= rank < selected.len() && 0 <= busy_rank < busy_selected.len()
            && selected[rank].peer_id == id && busy_selected[busy_rank].peer_id == id ==> {
            &&& rank <= busy_rank
            &&& busy_rank <= u32::MAX ==> selected[rank].rank <= busy_selected[busy_rank].rank
            &&& busy_selected[busy_rank].max_concurrency <= selected[rank].max_concurrency
        },
{
    let calm = before.calmed(now);
    let ids = calm.contestants(before.everyone());
    lemma_contends(before, now, id);
    let i = choose|i: int| 0 <= i < ids.len() && ids[i] == id;
    let epoch = calm.next_round(ids.len()).epoch;
    let slots = slots_for(want, need);
    let field = lemma_field_of(kit, before, active, want, need, now, selected, after);
    let busy = lemma_field_of(
        kit,
        before,
        active.push(id),
        want,
        need,
        now,
        busy_selected,
        busy_after,
    );
    lemma_two_lineups(kit, calm, ids, active, i, field, busy, slots, epoch, rank, busy_rank);
}

/// How many sources a rebalancing is for.
spec fn slots_for(want: usize, need: nat) -> usize {
    if need < want {
        need as usize
    } else {
        want
    }
}

/// A rebalancing in which somebody contends makes its selection of a field.
proof fn lemma_field_of<A: Arithmetic>(
    kit: &A,
    before: SelectorState,
    active: Seq<PeerId>,
    want: usize,
    need: nat,
    now: u64,
    selected: Seq<SelectedPeer>,
    after: SelectorState,
) -> (field: Seq<Contender>)
    requires
        0 < before.calmed(now).contestants(before.everyone()).len() <= need,
        before.rebalances(kit, active, want, need, now, selected, after),
    ensures
        before.calmed(now).is_field(
            kit,
            before.calmed(now).contestants(before.everyone()),
            active,
            field,
        ),
        selected == lineup(
            field,
            slots_for(want, need),
            before.calmed(now).next_round(
                before.calmed(now).contestants(before.everyone()).len(),
            ).epoch,
        ),
{
    let calm = before.calmed(now);
    let ids = calm.contestants(before.everyone());
    let round = calm.next_round(ids.len());
    choose|field: Seq<Contender>| #[trigger]
        calm.is_field(kit, ids, active, field) && selected == lineup(
            field,
            slots_for(want, need),
            round.epoch,
        ) && after == round.dispatched_all(selected, now)
}

/// Who may be chosen contends when everybody may.
proof fn lemma_contends(before: SelectorState, now: u64, id: PeerId)
    requires
        before.coherent(),
        before.eligible(id),
    ensures
        before.calmed(now).contestants(before.everyone()).contains(id),
        before.calmed(now).contestants(before.everyone()).no_duplicates(),
        before.calmed(now).peer(id).quality.samples == before.peer(id).quality.samples,
{
    let calm = before.calmed(now);
    let pool = before.everyone();
    lemma_calmed(before, now);
    lemma_contestants(calm, pool);
    assert(calm.knows(id));
    let at = choose|at: int|
        0 <= at < before.peers.len() && (#[trigger] before.peers[at]).peer_id == id;
    assert(pool[at] == id);
    lemma_all_eligible_contest(calm, pool);
    assert(calm.eligible(pool[at]));
}

/// Of two selections, from fields that differ in whether a peer is active too, the one in which it is
/// holds it if the other does, no earlier and for no more ranges.
proof fn lemma_two_lineups<A: Arithmetic>(
    kit: &A,
    state: SelectorState,
    ids: Seq<PeerId>,
    active: Seq<PeerId>,
    i: int,
    field: Seq<Contender>,
    busy: Seq<Contender>,
    want: usize,
    epoch: u64,
    rank: int,
    busy_rank: int,
)
    requires
        steady(kit),
        orderly(kit),
        ids.no_duplicates(),
        0 <= i < ids.len() <= want,
        !active.contains(ids[i]),
        state.peer(ids[i]).quality.samples > 0,
        proper(merit(state.peer(ids[i]), state.saturation, state.relay)),
        state.is_field(kit, ids, active, field),
        state.is_field(kit, ids, active.push(ids[i]), busy),
    ensures
        ({
            let (selected, busy_selected) = (
                lineup(field, want, epoch),
                lineup(busy, want, epoch),
            );
            &&& picked(selected, ids[i]) <==> picked(busy_selected, ids[i])
            &&& 0 <= rank < selected.len() && 0 <= busy_rank < busy_selected.len()
                && selected[rank].peer_id == ids[i] && busy_selected[busy_rank].peer_id == ids[i]
                ==> {
                &&& rank <= busy_rank
                &&& busy_rank <= u32::MAX ==> selected[rank].rank <= busy_selected[busy_rank].rank
                &&& busy_selected[busy_rank].max_concurrency <= selected[rank].max_concurrency
            }
        }),
{
    let (selected, busy_selected) = (lineup(field, want, epoch), lineup(busy, want, epoch));
    lemma_idle_score(kit, state, ids, active, field, i);
    lemma_active_dims(kit, state, ids, active, field, busy, i);
    lower_scores_are_never_chosen_earlier(field, busy, i, want, epoch);
    lemma_found(kit, state, ids, active, field, want, epoch, i);
    lemma_found(kit, state, ids, active.push(ids[i]), busy, want, epoch, i);
    let (places, busy_places) = (chosen(field, want, epoch), chosen(busy, want, epoch));
    if places.contains(i as usize) {
        let k = choose|k: int| 0 <= k < places.len() && places[k] == i as usize;
        let l = choose|l: int| 0 <= l < busy_places.len() && busy_places[l] == i as usize;
        assert(selected[k].peer_id == ids[i] && busy_selected[l].peer_id == ids[i]);
    } else {
        assert forall|k: int| 0 <= k < selected.len() implies (#[trigger] selected[k]).peer_id
            != ids[i] by {
            assert(places[k] != i as usize);
        }
        assert forall|k: int| 0 <= k < busy_selected.len() implies (
        #[trigger] busy_selected[k]).peer_id != ids[i] by {
            assert(busy_places[k] != i as usize);
        }
    }
    if 0 <= rank < selected.len() && 0 <= busy_rank < busy_selected.len() && selected[rank].peer_id
        == ids[i] && busy_selected[busy_rank].peer_id == ids[i] {
        assert(places[rank] == i && busy_places[busy_rank] == i);
    }
}

/// A place of a selection holds a peer where the chosen place is that of its contender.
proof fn lemma_found<A: Arithmetic>(
    kit: &A,
    state: SelectorState,
    ids: Seq<PeerId>,
    active: Seq<PeerId>,
    field: Seq<Contender>,
    want: usize,
    epoch: u64,
    i: int,
)
    requires
        ids.no_duplicates(),
        0 <= i < ids.len() <= want,
        state.is_field(kit, ids, active, field),
    ensures
        forall|k: int|
            0 <= k < lineup(field, want, epoch).len() ==> ((#[trigger] lineup(
                field,
                want,
                epoch,
            )[k]).peer_id == ids[i] <==> chosen(field, want, epoch)[k] == i),
{
    let (marks, bonus) = choose|marks: Seq<ScoredPeer>, bonus: Measure|
        state.judged(kit, ids, marks) && is_bonus(kit, marks, bonus) && #[trigger] state.makes_field(
            kit,
            ids,
            active,
            marks,
            bonus,
            field,
        );
    lemma_chosen_places(field, want, epoch);
    assert forall|k: int| 0 <= k < lineup(field, want, epoch).len() implies ((#[trigger] lineup(
        field,
        want,
        epoch,
    )[k]).peer_id == ids[i] <==> chosen(field, want, epoch)[k] == i) by {
        let place = chosen(field, want, epoch)[k] as int;
        assert(place < field.len());
        assert(field[place].peer_id == ids[place]);
        assert(field[i].peer_id == ids[i]);
    }
}

} // verus!
