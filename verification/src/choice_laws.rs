//! Who is chosen, how many, and what is asked of each, in terms of what is known of the peers.

use vstd::prelude::*;

use crate::address::TraversalKind;
use crate::closeness::{
    around, dust, lemma_ends, lemma_factors, lemma_gap_number, lemma_grains, lemma_number_order,
    lemma_product_number, lemma_sum_close, lemma_summands, lemma_whole_constants, number, slip,
};
use crate::double_laws::doubles_are_discerning;
use crate::doubles::{is_number, Doubles};
use crate::engine::{lemma_contestants, lemma_known_stamped};
use crate::engine_laws::{
    choices_are_eligible_and_teach_nothing, dispatches_show_at_once, lemma_all_eligible_contest,
    lemma_calmed, lemma_chosen_once, lemma_dispatched_all, lemma_dispatched_one, lemma_upserted_all,
    same_but_load,
};
use crate::event_laws::noted_alike;
use crate::formula::{constant, Formula};
use crate::identity::PeerId;
use crate::judging::{are_bounds, bonus_between, explored, half_of, is_bonus, is_final, some_proven};
use crate::measure::{Arithmetic, Measure, HALF, INFINITY, QUARTER, ZERO};
use crate::ranking::{
    chosen, claimant, exploration_budget, lemma_chosen_places, lemma_ranking_complete, lineup,
    passed_over, picks, ranking, regulars, roomy, Contender,
};
use crate::ranking_laws::{
    better_scores_come_first, exploration_is_capped, flagged_among, lemma_flags,
    lemma_ranking_descends, score_at, scores_descend, unmeasured_among,
};
use crate::scoring::{is_judgement, PeerClass, ScoredPeer};
use crate::scoring_laws::exploring_is_worth_less_than_the_best;
use crate::state::{picked, SelectorState};
use crate::types::{Candidate, ContentRequest, SelectedPeer};
use crate::worth_laws::ranges_over;

verus! {

/// A request wants as many sources as it asks for, and one where it asks for none.
pub proof fn requests_want_what_they_ask_for(request: ContentRequest)
    ensures
        request.parallelism >= 1 ==> request.wanted() == request.parallelism,
        request.parallelism == 0 ==> request.wanted() == 1,
{
}

/// A rebalancing chooses no more peers than there are ranges that need a source, or one where there
/// are none, and no more than wanted; and at least one where anyone registered is not banned.
pub proof fn rebalancing_asks_no_more_than_needed<A: Arithmetic>(
    kit: &A,
    before: SelectorState,
    active: Seq<PeerId>,
    want: usize,
    need: nat,
    now: u64,
    selected: Seq<SelectedPeer>,
    after: SelectorState,
)
    requires
        before.coherent(),
        want >= 1,
        before.peers.len() <= usize::MAX,
        before.rebalances(kit, active, want, need, now, selected, after),
    ensures
        selected.len() <= want,
        need >= 1 ==> selected.len() <= need,
        need == 0 ==> selected.len() <= 1,
        selected.len() == 0 <==> forall|id: PeerId| #[trigger]
            before.knows(id) ==> before.peer(id).banned,
{
    let slots = if need == 0 {
        1
    } else if need < want {
        need as usize
    } else {
        want
    };
    let pool = before.everyone();
    choices_are_eligible_and_teach_nothing(kit, before, pool, active, slots, now, selected, after);
    if selected.len() == 0 {
        assert forall|id: PeerId| #[trigger] before.knows(id) implies before.peer(id).banned by {
            let i = choose|i: int|
                0 <= i < before.peers.len() && (#[trigger] before.peers[i]).peer_id == id;
            assert(pool[i] == id);
            assert(!before.eligible(pool[i]));
        }
    } else {
        assert(before.eligible(selected[0].peer_id));
    }
}

/// How many slots a rebalancing has: as many as ranges need a source and no more than wanted, or one
/// where none does.
pub open spec fn slots_for(want: usize, need: nat) -> nat {
    if need == 0 {
        1
    } else if need < want {
        need
    } else {
        want as nat
    }
}

/// What is left untaken of an order is left for want of slots, or because it is apart, passed over or
/// unmeasured; and what is taken comes before it.
proof fn lemma_left_out(
    field: Seq<Contender>,
    order: Seq<usize>,
    apart: Option<usize>,
    slots: nat,
    budget: nat,
    p: int,
)
    requires
        0 <= p < order.len(),
        scores_descend(field, order),
        apart != Some(order[p]),
        !passed_over(field, order[p] as int),
        !field[order[p] as int].score.exploratory,
        !picks(field, order, apart, slots, budget).contains(order[p]),
    ensures
        picks(field, order, apart, slots, budget).len() == slots,
        forall|j: int|
            0 <= j < picks(field, order, apart, slots, budget).len() ==> score_at(
                field,
                #[trigger] picks(field, order, apart, slots, budget)[j],
            ) >= score_at(field, order[p]),
    decreases order.len(),
{
    let taken = picks(field, order, apart, slots, budget);
    if slots > 0 {
        let i = order[0];
        let rest = order.drop_first();
        let unmeasured = field[i as int].score.exploratory;
        let skipped = apart == Some(i) || passed_over(field, i as int) || (unmeasured && budget == 0);
        let (fewer, less) = if skipped {
            (slots, budget)
        } else {
            (
                (slots - 1) as nat,
                if unmeasured {
                    (budget - 1) as nat
                } else {
                    budget
                },
            )
        };
        let more = picks(field, rest, apart, fewer, less);
        if p == 0 {
            assert(taken[0] == order[0]);
        } else {
            assert(rest[p - 1] == order[p]);
            assert(scores_descend(field, rest)) by {
                assert forall|a: int, b: int|
                    #![trigger rest[a], rest[b]]
                    0 <= a < b < rest.len() implies score_at(field, rest[a]) >= score_at(
                    field,
                    rest[b],
                ) by {
                    assert(rest[a] == order[a + 1] && rest[b] == order[b + 1]);
                }
            }
            if more.contains(order[p]) {
                let j = choose|j: int| 0 <= j < more.len() && more[j] == order[p];
                assert(taken[if skipped {
                    j
                } else {
                    j + 1
                }] == order[p]);
            }
            lemma_left_out(field, rest, apart, fewer, less, p - 1);
            assert forall|j: int| 0 <= j < taken.len() implies score_at(
                field,
                #[trigger] taken[j],
            ) >= score_at(field, order[p]) by {
                if skipped {
                    assert(taken[j] == more[j]);
                } else if j > 0 {
                    assert(taken[j] == more[j - 1]);
                } else {
                    assert(taken[j] == order[0]);
                    assert(score_at(field, order[0]) >= score_at(field, order[p]));
                }
            }
        }
    }
}

/// A measured contender that is not passed over is left out only where every slot is taken, and then
/// nobody is chosen on merit who scores lower.
pub proof fn nobody_better_is_left_out(
    field: Seq<Contender>,
    want: usize,
    epoch: u64,
    i: usize,
)
    requires
        field.len() <= usize::MAX,
        want >= 1,
        i < field.len(),
        !field[i as int].score.exploratory,
        !passed_over(field, i as int),
        !chosen(field, want, epoch).contains(i),
    ensures
        chosen(field, want, epoch).len() == want,
        forall|k: int|
            0 <= k < chosen(field, want, epoch).len() && !lineup(field, want, epoch)[k].exploratory
                ==> field[#[trigger] chosen(field, want, epoch)[k] as int].score.effective_score
                >= field[i as int].score.effective_score,
{
    let order = ranking(field, field.len());
    lemma_ranking_complete(field, field.len());
    lemma_ranking_descends(field, field.len());
    let apart = claimant(field, want, epoch);
    let taken = regulars(field, want, epoch);
    let all = chosen(field, want, epoch);
    assert(order.contains(i));
    let p = choose|p: int| 0 <= p < order.len() && order[p] == i;
    if let Some(c) = apart {
        assert(all[taken.len() as int] == c);
    }
    if taken.contains(i) {
        let j = choose|j: int| 0 <= j < taken.len() && taken[j] == i;
        assert(all[j] == i);
    }
    let slots = if apart is Some {
        (want - 1) as nat
    } else {
        want as nat
    };
    lemma_left_out(field, order, apart, slots, exploration_budget(field, want, epoch), p);
    assert forall|k: int| 0 <= k < all.len() && !lineup(field, want, epoch)[k].exploratory implies
        field[#[trigger] all[k] as int].score.effective_score
        >= field[i as int].score.effective_score by {
        if k < taken.len() {
            assert(all[k] == taken[k]);
            assert(score_at(field, taken[k]) >= score_at(field, order[p]));
        }
    }
}

/// How many more ranges at once a peer is good for: as many as its path, less those that it is busy
/// with.
pub open spec fn spare(state: SelectorState, id: PeerId) -> int {
    let peer = state.peer(id);
    let ranges = ranges_over(peer.connection_class, state.saturation);
    if ranges >= peer.quality.in_flight {
        ranges - peer.quality.in_flight
    } else {
        0
    }
}

/// Whether a score is what a peer is judged at.
pub open spec fn scores<A: Arithmetic>(
    kit: &A,
    state: SelectorState,
    id: PeerId,
    score: i128,
) -> bool {
    exists|mark: ScoredPeer| #[trigger]
        is_judgement(
            kit,
            state.peer(id),
            state.saturation,
            state.relay,
            Measure { bits: ZERO },
            mark,
        ) && mark.effective_score == score
}

/// The field of a round of choosing, and its contenders in terms of their peers.
proof fn lemma_field<A: Arithmetic>(
    kit: &A,
    before: SelectorState,
    pool: Seq<PeerId>,
    active: Seq<PeerId>,
    want: usize,
    now: u64,
    selected: Seq<SelectedPeer>,
    after: SelectorState,
) -> (field: Seq<Contender>)
    requires
        before.coherent(),
        want >= 1,
        pool.len() <= usize::MAX,
        before.chooses(kit, pool, active, want, now, selected, after),
        selected.len() > 0,
    ensures
        ({
            let calm = before.calmed(now);
            let ids = calm.contestants(pool);
            &&& field.len() == ids.len()
            &&& field.len() <= usize::MAX
            &&& ids.no_duplicates()
            &&& calm.is_field(kit, ids, active, field)
            &&& selected == lineup(field, want, calm.next_round(ids.len()).epoch)
            &&& after == calm.next_round(ids.len()).dispatched_all(selected, now)
            &&& forall|i: int|
                0 <= i < ids.len() ==> {
                    let c = #[trigger] field[i];
                    &&& c.peer_id == ids[i]
                    &&& c.full <==> spare(calm, ids[i]) == 0
                    &&& c.score.exploratory <==> before.peer(ids[i]).quality.samples == 0
                    &&& c.score.headroom == (if active.contains(ids[i]) && spare(calm, ids[i]) > 0 {
                        spare(calm, ids[i]) - 1
                    } else {
                        spare(calm, ids[i])
                    })
                    &&& c.last_selected == before.last_round(ids[i])
                    &&& before.eligible(ids[i])
                    &&& pool.contains(ids[i])
                    &&& before.peer(ids[i]).quality.samples > 0 && !active.contains(ids[i])
                        ==> scores(kit, calm, ids[i], c.score.effective_score)
                }
            &&& forall|id: PeerId|
                before.eligible(id) && pool.contains(id) ==> #[trigger] ids.contains(id)
        }),
{
    choices_are_eligible_and_teach_nothing(kit, before, pool, active, want, now, selected, after);
    lemma_calmed(before, now);
    let calm = before.calmed(now);
    let ids = calm.contestants(pool);
    lemma_contestants(calm, pool);
    lemma_all_eligible_contest(calm, pool);
    let field = choose|field: Seq<Contender>| #[trigger]
        calm.is_field(kit, ids, active, field) && selected == lineup(
            field,
            want,
            calm.next_round(ids.len()).epoch,
        ) && after == calm.next_round(ids.len()).dispatched_all(selected, now);
    let (marks, bonus) = choose|marks: Seq<ScoredPeer>, bonus: Measure|
        calm.judged(kit, ids, marks) && is_bonus(kit, marks, bonus) && #[trigger] calm.makes_field(
            kit,
            ids,
            active,
            marks,
            bonus,
            field,
        );
    assert forall|i: int| 0 <= i < ids.len() implies {
        let c = #[trigger] field[i];
        &&& c.peer_id == ids[i]
        &&& c.full <==> spare(calm, ids[i]) == 0
        &&& c.score.exploratory <==> before.peer(ids[i]).quality.samples == 0
        &&& c.score.headroom == (if active.contains(ids[i]) && spare(calm, ids[i]) > 0 {
            spare(calm, ids[i]) - 1
        } else {
            spare(calm, ids[i])
        })
        &&& c.last_selected == before.last_round(ids[i])
        &&& before.eligible(ids[i])
        &&& pool.contains(ids[i])
        &&& before.peer(ids[i]).quality.samples > 0 && !active.contains(ids[i]) ==> scores(
            kit,
            calm,
            ids[i],
            c.score.effective_score,
        )
    } by {
        assert(is_judgement(
            kit,
            calm.peer(ids[i]),
            calm.saturation,
            calm.relay,
            Measure { bits: ZERO },
            marks[i],
        ));
        assert(marks[i].headroom == spare(calm, ids[i]));
        assert(calm.eligible(ids[i]));
        assert(calm.knows(ids[i]));
        assert(same_but_load(calm.peer(ids[i]), before.peer(ids[i])));
    }
    assert forall|id: PeerId| before.eligible(id) && pool.contains(id) implies
        #[trigger] ids.contains(id) by {
        let j = choose|j: int| 0 <= j < pool.len() && pool[j] == id;
        assert(calm.knows(id) <==> before.knows(id));
        assert(same_but_load(calm.peer(id), before.peer(id)));
        assert(calm.eligible(pool[j]));
    }
    field
}

/// The chosen are ranked from zero on, and nobody twice. Of each as many ranges are asked as its path
/// is good for, less those that it is busy with and one more where it is active already, but one at
/// least; nobody is chosen at its saturation point unless everybody who may be chosen is there. The
/// unmeasured are flagged as exploratory; of the others at most the last one is, where there are more
/// contenders than slots and it has waited for more rounds than there are contenders. A third of the
/// slots, rounded up, bounds the flagged.
pub proof fn ranges_are_asked_up_to_saturation<A: Arithmetic>(
    kit: &A,
    before: SelectorState,
    pool: Seq<PeerId>,
    active: Seq<PeerId>,
    want: usize,
    now: u64,
    selected: Seq<SelectedPeer>,
    after: SelectorState,
    k: int,
)
    requires
        before.coherent(),
        want >= 1,
        pool.len() <= usize::MAX,
        before.chooses(kit, pool, active, want, now, selected, after),
        0 <= k < selected.len(),
    ensures
        ({
            let s = selected[k];
            let calm = before.calmed(now);
            let room = spare(calm, s.peer_id);
            let asked = if active.contains(s.peer_id) {
                room - 1
            } else {
                room
            };
            &&& k <= u32::MAX ==> s.rank == k
            &&& asked >= 1 ==> s.max_concurrency == asked
            &&& asked < 1 ==> s.max_concurrency == 1
            &&& room == 0 ==> forall|id: PeerId|
                before.eligible(id) && pool.contains(id) ==> #[trigger] spare(calm, id) == 0
            &&& before.peer(s.peer_id).quality.samples == 0 ==> s.exploratory
            &&& s.exploratory && before.peer(s.peer_id).quality.samples > 0 ==> {
                &&& k == selected.len() - 1
                &&& want < calm.contestants(pool).len()
                &&& after.epoch - before.last_round(s.peer_id) > calm.contestants(pool).len()
            }
        }),
        forall|j: int| 0 <= j < selected.len() && j != k ==> (#[trigger] selected[j]).peer_id
            != selected[k].peer_id,
        3 * flagged_among(selected) <= want + 2,
{
    let field = lemma_field(kit, before, pool, active, want, now, selected, after);
    let calm = before.calmed(now);
    let ids = calm.contestants(pool);
    let epoch = calm.next_round(ids.len()).epoch;
    lemma_chosen_places(field, want, epoch);
    exploration_is_capped(field, want, epoch);
    let places = chosen(field, want, epoch);
    let place = places[k] as int;
    let id = ids[place];
    assert(field[place].peer_id == id);
    if spare(calm, id) == 0 {
        assert(field[place].full);
        assert forall|other: PeerId| before.eligible(other) && pool.contains(other) implies
            #[trigger] spare(calm, other) == 0 by {
            assert(ids.contains(other));
            let j = choose|j: int| 0 <= j < ids.len() && ids[j] == other;
            assert(!roomy(field, j));
            assert(field[j].full);
        }
    }
    assert(after.epoch == epoch) by {
        lemma_epoch(calm.next_round(ids.len()), selected, now);
    }
    if selected[k].exploratory && before.peer(id).quality.samples > 0 {
        let c = claimant(field, want, epoch)->0;
        assert(claimant(field, want, epoch) == Some(places[k]));
        assert(places[places.len() - 1] == c);
        if k != places.len() - 1 {
            assert(places[k] != places[places.len() - 1]);
        }
    }
    assert forall|j: int| 0 <= j < selected.len() && j != k implies (#[trigger] selected[j]).peer_id
        != selected[k].peer_id by {
        assert(places[j] != places[k]);
        assert(field[places[j] as int].peer_id == ids[places[j] as int]);
    }
}

proof fn lemma_epoch(state: SelectorState, selected: Seq<SelectedPeer>, now: u64)
    ensures
        state.dispatched_all(selected, now).epoch == state.epoch,
        state.dispatched_all(selected, now).drawn == state.drawn,
        state.dispatched_all(selected, now).seed == state.seed,
    decreases selected.len(),
{
    if selected.len() > 0 {
        lemma_epoch(state, selected.drop_last(), now);
    }
}

/// A measured peer that may be chosen and has ranges to spare is left out only where every slot is
/// taken.
pub proof fn slots_are_filled<A: Arithmetic>(
    kit: &A,
    before: SelectorState,
    pool: Seq<PeerId>,
    active: Seq<PeerId>,
    want: usize,
    now: u64,
    selected: Seq<SelectedPeer>,
    after: SelectorState,
    id: PeerId,
)
    requires
        before.coherent(),
        want >= 1,
        pool.len() <= usize::MAX,
        before.chooses(kit, pool, active, want, now, selected, after),
        before.eligible(id),
        pool.contains(id),
        before.peer(id).quality.samples > 0,
        spare(before.calmed(now), id) > 0,
        !picked(selected, id),
    ensures
        selected.len() == want,
{
    choices_are_eligible_and_teach_nothing(kit, before, pool, active, want, now, selected, after);
    let j = choose|j: int| 0 <= j < pool.len() && pool[j] == id;
    assert(before.eligible(pool[j]));
    let field = lemma_field(kit, before, pool, active, want, now, selected, after);
    let calm = before.calmed(now);
    let ids = calm.contestants(pool);
    let epoch = calm.next_round(ids.len()).epoch;
    lemma_chosen_places(field, want, epoch);
    assert(ids.contains(id));
    let i = choose|i: int| 0 <= i < ids.len() && ids[i] == id;
    assert(field[i].peer_id == id);
    let places = chosen(field, want, epoch);
    if places.contains(i as usize) {
        let k = choose|k: int| 0 <= k < places.len() && places[k] == i as usize;
        assert(selected[k].peer_id == id);
    }
    nobody_better_is_left_out(field, want, epoch, i as usize);
}

/// Of two peers that are chosen on merit and not active already, the one ranked first is judged no
/// lower. A measured peer with ranges to spare that is not active and not chosen is judged no higher
/// than either.
pub proof fn merit_decides_who_is_chosen<A: Arithmetic>(
    kit: &A,
    before: SelectorState,
    pool: Seq<PeerId>,
    active: Seq<PeerId>,
    want: usize,
    now: u64,
    selected: Seq<SelectedPeer>,
    after: SelectorState,
    j: int,
    k: int,
    id: PeerId,
)
    requires
        before.coherent(),
        want >= 1,
        pool.len() <= usize::MAX,
        before.chooses(kit, pool, active, want, now, selected, after),
        0 <= j < k < selected.len(),
        !selected[j].exploratory && !active.contains(selected[j].peer_id),
        !selected[k].exploratory && !active.contains(selected[k].peer_id),
        before.eligible(id) && pool.contains(id),
        before.peer(id).quality.samples > 0,
        spare(before.calmed(now), id) > 0,
        !active.contains(id) && !picked(selected, id),
    ensures
        exists|first: i128, second: i128, other: i128|
            #![trigger
                scores(kit, before.calmed(now), selected[j].peer_id, first),
                scores(kit, before.calmed(now), selected[k].peer_id, second),
                scores(kit, before.calmed(now), id, other)
            ]
            scores(kit, before.calmed(now), selected[j].peer_id, first) && scores(
                kit,
                before.calmed(now),
                selected[k].peer_id,
                second,
            ) && scores(kit, before.calmed(now), id, other) && first >= second >= other,
{
    let field = lemma_field(kit, before, pool, active, want, now, selected, after);
    let calm = before.calmed(now);
    let ids = calm.contestants(pool);
    let epoch = calm.next_round(ids.len()).epoch;
    lemma_chosen_places(field, want, epoch);
    better_scores_come_first(field, want, epoch);
    let places = chosen(field, want, epoch);
    let taken = regulars(field, want, epoch);
    assert(ids.contains(id));
    let i = choose|i: int| 0 <= i < ids.len() && ids[i] == id;
    assert(field[i].peer_id == id);
    if places.contains(i as usize) {
        let n = choose|n: int| 0 <= n < places.len() && places[n] == i as usize;
        assert(selected[n].peer_id == id);
    }
    nobody_better_is_left_out(field, want, epoch, i as usize);
    let (a, b) = (places[j] as int, places[k] as int);
    assert(field[a].peer_id == ids[a] && field[b].peer_id == ids[b]);
    assert(k < taken.len()) by {
        if let Some(c) = claimant(field, want, epoch) {
            assert(places[taken.len() as int] == c);
        }
    }
    assert(places[j] == taken[j] && places[k] == taken[k]);
    assert(score_at(field, taken[j]) >= score_at(field, taken[k]));
    let (x, y, z) = (
        field[a].score.effective_score,
        field[b].score.effective_score,
        field[i].score.effective_score,
    );
    assert(places[k] as int == b && y >= z);
    assert(!field[a].score.exploratory && !field[b].score.exploratory);
    assert(scores(kit, calm, selected[j].peer_id, x));
    assert(scores(kit, calm, selected[k].peer_id, y));
    assert(scores(kit, calm, id, z));
}

/// A rebalancing leaves a measured peer that is not banned and has ranges to spare out only where as
/// many are chosen as ranges need a source, or as are wanted, or one where none needs any.
pub proof fn rebalancing_fills_what_is_needed<A: Arithmetic>(
    kit: &A,
    before: SelectorState,
    active: Seq<PeerId>,
    want: usize,
    need: nat,
    now: u64,
    selected: Seq<SelectedPeer>,
    after: SelectorState,
    id: PeerId,
)
    requires
        before.coherent(),
        want >= 1,
        before.peers.len() <= usize::MAX,
        before.rebalances(kit, active, want, need, now, selected, after),
        before.knows(id),
        !before.peer(id).banned,
        before.peer(id).quality.samples > 0,
        spare(before.calmed(now), id) > 0,
        !picked(selected, id),
    ensures
        selected.len() == slots_for(want, need),
{
    let i = choose|i: int| 0 <= i < before.peers.len() && (#[trigger] before.peers[i]).peer_id == id;
    assert(before.everyone()[i] == id);
    slots_are_filled(
        kit,
        before,
        before.everyone(),
        active,
        slots_for(want, need) as usize,
        now,
        selected,
        after,
        id,
    );
}

/// Choosing makes each of the chosen busier by what was asked of it and notes its load before, its
/// path and the round. A dispatch that has been open for five minutes or more is written off first, and
/// no other.
pub proof fn choosing_dispatches_what_it_asks<A: Arithmetic>(
    kit: &A,
    before: SelectorState,
    pool: Seq<PeerId>,
    active: Seq<PeerId>,
    want: usize,
    now: u64,
    selected: Seq<SelectedPeer>,
    after: SelectorState,
    k: int,
)
    requires
        before.coherent(),
        want >= 1,
        pool.len() <= usize::MAX,
        before.chooses(kit, pool, active, want, now, selected, after),
        0 <= k < selected.len(),
    ensures
        ({
            let id = selected[k].peer_id;
            let (a, b) = (after.peer(id), before.peer(id));
            let load = if b.in_flight_since is Some && b.in_flight_since->0 + 300 <= now {
                0
            } else {
                b.quality.in_flight
            };
            &&& load + selected[k].max_concurrency <= u32::MAX ==> a.quality.in_flight == load
                + selected[k].max_concurrency
            &&& load + selected[k].max_concurrency > u32::MAX ==> a.quality.in_flight == u32::MAX
            &&& load == 0 ==> a.in_flight_since == Some(now)
            &&& load > 0 ==> a.in_flight_since == b.in_flight_since
            &&& after.last_selected.contains_key(id)
            &&& after.last_selected[id] == after.epoch
            &&& after.dispatched.contains_key(id)
            &&& after.dispatched[id].in_flight_at_dispatch == load
            &&& match b.connection_class {
                Some(TraversalKind::Relayed) => after.dispatched[id].class
                    == PeerClass::RelayedPath,
                Some(_) => after.dispatched[id].class == PeerClass::DirectPath,
                None => after.dispatched[id].class == PeerClass::Unknown,
            }
        }),
{
    let field = lemma_field(kit, before, pool, active, want, now, selected, after);
    lemma_calmed(before, now);
    let calm = before.calmed(now);
    let ids = calm.contestants(pool);
    let round = calm.next_round(ids.len());
    choices_are_eligible_and_teach_nothing(kit, before, pool, active, want, now, selected, after);
    lemma_chosen_once(kit, calm, ids, active, field, want, round.epoch);
    assert forall|j: int| 0 <= j < selected.len() implies round.knows(
        (#[trigger] selected[j]).peer_id,
    ) by {
        assert(before.eligible(selected[j].peer_id));
        assert(calm.knows(selected[j].peer_id) <==> before.knows(selected[j].peer_id));
    }
    assert(round.coherent());
    dispatches_show_at_once(round, selected, now, k);
    lemma_records(round, selected, now, k);
    lemma_epoch(round, selected, now);
    let id = selected[k].peer_id;
    assert(before.eligible(id));
    assert(calm.knows(id));
    assert(round.peer(id) == calm.peer(id));
    assert(calm.peer(id) == before.peer(id).settled(now));
    lemma_known_stamped(before, id);
}

/// Choosing leaves whoever is not chosen as it was, but that overdue dispatches are written off, and
/// what is noted of it too.
pub proof fn choosing_leaves_the_others_alone<A: Arithmetic>(
    kit: &A,
    before: SelectorState,
    pool: Seq<PeerId>,
    active: Seq<PeerId>,
    want: usize,
    now: u64,
    selected: Seq<SelectedPeer>,
    after: SelectorState,
    id: PeerId,
)
    requires
        before.coherent(),
        want >= 1,
        pool.len() <= usize::MAX,
        before.chooses(kit, pool, active, want, now, selected, after),
        before.knows(id),
        !picked(selected, id),
    ensures
        after.knows(id),
        after.peer(id) == before.calmed(now).peer(id),
        noted_alike(before, after, id),
{
    choices_are_eligible_and_teach_nothing(kit, before, pool, active, want, now, selected, after);
    lemma_calmed(before, now);
    let calm = before.calmed(now);
    let ids = calm.contestants(pool);
    assert(after.knows(id) <==> before.knows(id));
    if ids.len() > 0 {
        let field = choose|field: Seq<Contender>| #[trigger]
            calm.is_field(kit, ids, active, field) && selected == lineup(
                field,
                want,
                calm.next_round(ids.len()).epoch,
            ) && after == calm.next_round(ids.len()).dispatched_all(selected, now);
        let round = calm.next_round(ids.len());
        assert forall|j: int| 0 <= j < selected.len() implies round.knows(
            (#[trigger] selected[j]).peer_id,
        ) && selected[j].peer_id != id by {
            assert(before.eligible(selected[j].peer_id));
            assert(calm.knows(selected[j].peer_id) <==> before.knows(selected[j].peer_id));
        }
        assert(round.coherent());
        assert(calm.knows(id) <==> before.knows(id));
        lemma_others_alone(round, selected, now, id);
        assert(round.peer(id) == calm.peer(id));
    }
}

proof fn lemma_others_alone(
    state: SelectorState,
    selected: Seq<SelectedPeer>,
    now: u64,
    id: PeerId,
)
    requires
        state.coherent(),
        state.knows(id),
        forall|j: int|
            0 <= j < selected.len() ==> state.knows((#[trigger] selected[j]).peer_id)
                && selected[j].peer_id != id,
    ensures
        state.dispatched_all(selected, now).peer(id) == state.peer(id),
        noted_alike(state, state.dispatched_all(selected, now), id),
    decreases selected.len(),
{
    if selected.len() > 0 {
        let front = selected.drop_last();
        let last = selected.last();
        assert forall|j: int| 0 <= j < front.len() implies state.knows((#[trigger] front[j]).peer_id)
            && front[j].peer_id != id by {
            assert(front[j] == selected[j]);
        }
        assert(selected[selected.len() - 1] == last);
        lemma_others_alone(state, front, now, id);
        lemma_dispatched_all(state, front, now);
        let mid = state.dispatched_all(front, now);
        assert(mid.knows(last.peer_id) <==> state.knows(last.peer_id));
        assert(mid.knows(id) <==> state.knows(id));
        lemma_dispatched_one(mid, last, now);
    }
}

proof fn lemma_records(state: SelectorState, selected: Seq<SelectedPeer>, now: u64, k: int)
    requires
        0 <= k < selected.len(),
    ensures
        state.dispatched_all(selected, now).dispatched.contains_key(selected[k].peer_id),
        state.dispatched_all(selected, now).last_selected.contains_key(selected[k].peer_id),
    decreases selected.len(),
{
    if k < selected.len() - 1 {
        lemma_records(state, selected.drop_last(), now, k);
    }
}

/// A dispatch that has been open for five minutes or more is written off, and no other; nothing else
/// is forgotten.
pub proof fn dispatches_expire_after_five_minutes(before: SelectorState, now: u64, id: PeerId)
    requires
        before.coherent(),
        before.knows(id),
    ensures
        before.calmed(now).knows(id),
        ({
            let (a, b) = (before.calmed(now).peer(id), before.peer(id));
            &&& same_but_load(a, b)
            &&& b.in_flight_since is Some && b.in_flight_since->0 + 300 <= now
                ==> a.quality.in_flight == 0 && a.in_flight_since is None
            &&& !(b.in_flight_since is Some && b.in_flight_since->0 + 300 <= now) ==> a == b
        }),
{
    lemma_calmed(before, now);
    assert(before.calmed(now).knows(id) <==> before.knows(id));
}

/// What counts of a judgement is half of it where the peer is active already, up to rounding, and
/// below that of every bad source that is not active where it is a bad one. Where nothing was measured it is the
/// bonus, or half of that.
pub proof fn being_active_halves_the_score(
    kit: &Doubles,
    mark: ScoredPeer,
    bonus: Measure,
    r: ScoredPeer,
    active: bool,
)
    requires
        is_final(kit, mark, bonus, active, r),
        mark.effective_score < INFINITY,
        is_number(bonus),
    ensures
        ({
            let score = if mark.exploratory {
                bonus.bits as int
            } else {
                mark.effective_score as int
            };
            &&& !active ==> r.effective_score == score
            &&& active && score >= 0 ==> r.effective_score >= 0 && around(
                2real * number(Measure { bits: r.effective_score as u64 }),
                number(Measure { bits: score as u64 }),
                2real * slip() * (number(Measure { bits: score as u64 }) + 1real),
            )
            &&& active && score < 0 ==> r.effective_score == score - 0x1_0000_0000_0000_0000
            &&& active && score >= 0 ==> r.effective_score <= score
        }),
        r.exploratory == mark.exploratory,
        r.tie_break == mark.tie_break,
{
    lemma_grains();
    lemma_whole_constants();
    if active {
        let told = explored(mark, bonus);
        if told.effective_score >= 0 {
            let score = Measure { bits: told.effective_score as u64 };
            let half = choose|half: Measure| #[trigger]
                half_of(score).gives(kit, half) && r.effective_score == half.bits;
            let (a, b) = lemma_factors(kit, Formula::Known(score), constant(HALF), half);
            let (x, y, s) = (number(score), number(b), slip());
            lemma_number_order(score, score);
            assert(x * y == x / 2real) by (nonlinear_arith)
                requires
                    2real * y == 1real,
            ;
            lemma_product_number(a, b, half, score);
            let z = x / 2real;
            assert(2real * s * (x + 1real) == 2real * (s * x) + 2real * s && s * z == (s * x) / 2real
                && s * x >= 0real && s * s <= s) by (nonlinear_arith)
                requires
                    z == x / 2real,
                    x >= 0real,
                    0real < s <= 1real,
            ;
            assert(Measure { bits: r.effective_score as u64 } == half);
        }
    }
}

/// Exploring is worth a quarter of the way up from the lowest score of a measured peer that is no bad
/// source to the highest, half of that score where there is but one, and nothing without any; up to
/// rounding.
pub proof fn exploring_is_worth_a_quarter_of_the_way(
    kit: &Doubles,
    marks: Seq<ScoredPeer>,
    bonus: Measure,
    low: int,
    high: int,
)
    requires
        is_bonus(kit, marks, bonus),
        0 <= low < marks.len(),
        0 <= high < marks.len(),
        !marks[low].exploratory && marks[low].effective_score >= 0,
        !marks[high].exploratory && 0 <= marks[high].effective_score < INFINITY,
        forall|i: int|
            0 <= i < marks.len() && !(#[trigger] marks[i]).exploratory && marks[i].effective_score
                >= 0 ==> marks[low].effective_score <= marks[i].effective_score
                <= marks[high].effective_score,
    ensures
        ({
            let worst = number(Measure { bits: marks[low].effective_score as u64 });
            let best = number(Measure { bits: marks[high].effective_score as u64 });
            let worth = if best > worst {
                worst + (best - worst) / 4real
            } else {
                best / 2real
            };
            around(number(bonus), worth, 4real * (slip() * (best + 1real)))
        }),
{
    lemma_grains();
    lemma_whole_constants();
    let (worst, best) = choose|worst: Measure, best: Measure|
        are_bounds(marks, worst, best) && #[trigger] bonus_between(worst, best).gives(kit, bonus);
    assert(marks[low].proven() && marks[high].proven());
    let l = choose|i: int|
        0 <= i < marks.len() && (#[trigger] marks[i]).proven() && marks[i].effective_score
            == worst.bits as i128;
    let h = choose|i: int|
        0 <= i < marks.len() && (#[trigger] marks[i]).proven() && marks[i].effective_score
            == best.bits as i128;
    assert(marks[l].proven() && marks[h].proven());
    assert(worst == Measure { bits: marks[low].effective_score as u64 });
    assert(best == Measure { bits: marks[high].effective_score as u64 });
    let (x, y, s) = (number(worst), number(best), slip());
    lemma_number_order(worst, best);
    let zero = Measure { bits: ZERO };
    lemma_number_order(zero, best);
    assert(s * s <= s && 4real * (s * (y + 1real)) == 4real * (s * y) + 4real * s && s * y >= 0real)
        by (nonlinear_arith)
        requires
            0real < s <= 1real,
            y >= 0real,
    ;
    let (f, g) = (Formula::Known(worst), Formula::Known(best));
    if best.bits > worst.bits {
        let (a, step) = lemma_summands(kit, f, constant(QUARTER).times(g.off(f)), bonus);
        let (q, gap) = lemma_factors(kit, constant(QUARTER), g.off(f), step);
        let (c, d) = lemma_ends(kit, g, f, gap);
        lemma_gap_number(c, d, gap);
        let (t, n) = (number(gap), number(q));
        lemma_number_order(gap, best);
        assert(n * t == t / 4real) by (nonlinear_arith)
            requires
                4real * n == 1real,
        ;
        lemma_product_number(q, gap, step, gap);
        doubles_are_discerning(kit);
        exploring_is_worth_less_than_the_best(kit, marks, bonus, best.bits as i128);
        lemma_sum_close(a, step, bonus);
        assert(s * s <= s) by (nonlinear_arith)
            requires
                0real < s <= 1real,
        ;
        lemma_quarter_up(x, y, t, number(step), number(bonus), s, dust());
    } else if best.bits > ZERO {
        let (a, b) = lemma_factors(kit, g, constant(HALF), bonus);
        let n = number(b);
        assert(y * n == y / 2real) by (nonlinear_arith)
            requires
                2real * n == 1real,
        ;
        lemma_product_number(a, b, bonus, best);
        assert(s * (y / 2real) == (s * y) / 2real) by (nonlinear_arith);
    }
}

proof fn lemma_quarter_up(x: real, y: real, t: real, u: real, v: real, s: real, d: real)
    requires
        0real <= x < y,
        0real < d <= s,
        100real * s <= 1real,
        0real <= t,
        around(t, y - x, s * (y - x) + d),
        around(u, t / 4real, s * (t / 4real) + d),
        around(v, x + u, s * (x + u) + d),
    ensures
        around(v, x + (y - x) / 4real, 4real * (s * (y + 1real))),
{
    let w = y - x;
    let e = s * y;
    assert(s * w <= e && e <= y / 100real && e >= 0real) by (nonlinear_arith)
        requires
            0real < s,
            100real * s <= 1real,
            0real <= w <= y,
            e == s * y,
    ;
    let z = t / 4real;
    assert(s * z <= (e + s) / 2real && s * z >= 0real) by (nonlinear_arith)
        requires
            0real < s,
            0real <= z <= y / 2real + 1real / 2real,
            e == s * y,
    ;
    let r = x + u;
    assert(r <= y + e + 3real * s);
    assert(s * r <= (11real * e + s) / 10real) by (nonlinear_arith)
        requires
            0real < s,
            100real * s <= 1real,
            r <= y + e + 3real * s,
            e == s * y,
            e >= 0real,
    ;
    assert(s * (y + 1real) == e + s) by (nonlinear_arith)
        requires
            e == s * y,
    ;
}

/// Exploring is worth nothing where nobody was measured but bad sources.
pub proof fn exploring_is_worth_nothing_without_measurements(
    kit: &Doubles,
    marks: Seq<ScoredPeer>,
    bonus: Measure,
)
    requires
        is_bonus(kit, marks, bonus),
        forall|i: int|
            0 <= i < marks.len() ==> (#[trigger] marks[i]).exploratory || marks[i].effective_score < 0,
    ensures
        bonus.bits == ZERO,
{
    let (worst, best) = choose|worst: Measure, best: Measure|
        are_bounds(marks, worst, best) && #[trigger] bonus_between(worst, best).gives(kit, bonus);
    assert(!some_proven(marks)) by {
        if some_proven(marks) {
            let i = choose|i: int| 0 <= i < marks.len() && (#[trigger] marks[i]).proven();
            assert(marks[i].exploratory || marks[i].effective_score < 0);
        }
    }
}

/// The contestants of a pool that names nobody twice are those of it who are registered and not
/// banned, in its order.
pub proof fn contestants_keep_the_order_of_the_pool(state: SelectorState, pool: Seq<PeerId>)
    requires
        pool.no_duplicates(),
    ensures
        state.contestants(pool) == pool.filter(
            |id: PeerId| state.knows(id) && !state.peer(id).banned,
        ),
    decreases pool.len(),
{
    reveal(Seq::filter);
    if pool.len() > 0 {
        let front = pool.drop_last();
        assert(front.no_duplicates());
        contestants_keep_the_order_of_the_pool(state, front);
        lemma_contestants(state, front);
        if state.contestants(front).contains(pool.last()) {
            let j = choose|j: int|
                0 <= j < state.contestants(front).len() && state.contestants(front)[j]
                    == pool.last();
            assert(front.contains(state.contestants(front)[j]));
            let i = choose|i: int| 0 <= i < front.len() && front[i] == pool.last();
            assert(pool[i] == pool[pool.len() - 1]);
        }
    }
}

/// An unmeasured one is left untaken for want of slots, or of budget, or because it is apart or passed
/// over.
proof fn lemma_left_unexplored(
    field: Seq<Contender>,
    order: Seq<usize>,
    apart: Option<usize>,
    slots: nat,
    budget: nat,
    p: int,
)
    requires
        0 <= p < order.len(),
        apart != Some(order[p]),
        !passed_over(field, order[p] as int),
        !picks(field, order, apart, slots, budget).contains(order[p]),
    ensures
        picks(field, order, apart, slots, budget).len() == slots || unmeasured_among(
            field,
            picks(field, order, apart, slots, budget),
        ) >= budget,
    decreases order.len(),
{
    let taken = picks(field, order, apart, slots, budget);
    if slots > 0 {
        let i = order[0];
        let rest = order.drop_first();
        let unmeasured = field[i as int].score.exploratory;
        let skipped = apart == Some(i) || passed_over(field, i as int) || (unmeasured && budget == 0);
        let (fewer, less) = if skipped {
            (slots, budget)
        } else {
            (
                (slots - 1) as nat,
                if unmeasured {
                    (budget - 1) as nat
                } else {
                    budget
                },
            )
        };
        let more = picks(field, rest, apart, fewer, less);
        if !skipped {
            assert(taken.drop_first() =~= more);
        }
        if p == 0 {
            if !skipped {
                assert(taken[0] == order[0]);
            }
        } else {
            assert(rest[p - 1] == order[p]);
            if more.contains(order[p]) {
                let j = choose|j: int| 0 <= j < more.len() && more[j] == order[p];
                assert(taken[if skipped {
                    j
                } else {
                    j + 1
                }] == order[p]);
            }
            lemma_left_unexplored(field, rest, apart, fewer, less, p - 1);
        }
    }
}

/// A contender that is not passed over is left out only where every slot is taken, or where a third of
/// the slots or more went to be explored.
pub proof fn exploration_is_not_stinted(field: Seq<Contender>, want: usize, epoch: u64, i: usize)
    requires
        field.len() <= usize::MAX,
        want >= 1,
        i < field.len(),
        !passed_over(field, i as int),
        !chosen(field, want, epoch).contains(i),
    ensures
        chosen(field, want, epoch).len() == want || 3 * flagged_among(lineup(field, want, epoch))
            >= want,
{
    let order = ranking(field, field.len());
    lemma_ranking_complete(field, field.len());
    let apart = claimant(field, want, epoch);
    let taken = regulars(field, want, epoch);
    let all = chosen(field, want, epoch);
    assert(order.contains(i));
    let p = choose|p: int| 0 <= p < order.len() && order[p] == i;
    if let Some(c) = apart {
        assert(all[taken.len() as int] == c);
    }
    if taken.contains(i) {
        let j = choose|j: int| 0 <= j < taken.len() && taken[j] == i;
        assert(all[j] == i);
    }
    let slots = if apart is Some {
        (want - 1) as nat
    } else {
        want as nat
    };
    let budget = exploration_budget(field, want, epoch);
    lemma_left_unexplored(field, order, apart, slots, budget, p);
    let selected = lineup(field, want, epoch);
    lemma_chosen_places(field, want, epoch);
    match apart {
        Some(c) => {
            let front = selected.drop_last();
            assert forall|k: int| 0 <= k < front.len() implies (#[trigger] front[k]).exploratory
                == field[taken[k] as int].score.exploratory by {
                assert(front[k] == selected[k]);
                assert(all[k] == taken[k]);
                assert(all[all.len() - 1] == c);
            }
            lemma_flags(field, taken, front);
        },
        None => {
            lemma_flags(field, all, selected);
        },
    }
}

/// A rebalancing asks of a chosen peer as many ranges as its path is good for, less those that it is
/// busy with, and one less where it is active already; but one at least.
pub proof fn rebalancing_asks_one_less_of_the_active<A: Arithmetic>(
    kit: &A,
    before: SelectorState,
    active: Seq<PeerId>,
    want: usize,
    need: nat,
    now: u64,
    selected: Seq<SelectedPeer>,
    after: SelectorState,
    k: int,
)
    requires
        before.coherent(),
        want >= 1,
        before.peers.len() <= usize::MAX,
        before.rebalances(kit, active, want, need, now, selected, after),
        0 <= k < selected.len(),
    ensures
        before.knows(selected[k].peer_id),
        !before.peer(selected[k].peer_id).banned,
        k <= u32::MAX ==> selected[k].rank == k,
        ({
            let room = spare(before.calmed(now), selected[k].peer_id);
            let asked = if active.contains(selected[k].peer_id) {
                room - 1
            } else {
                room
            };
            &&& asked >= 1 ==> selected[k].max_concurrency == asked
            &&& asked < 1 ==> selected[k].max_concurrency == 1
        }),
{
    let slots = slots_for(want, need) as usize;
    choices_are_eligible_and_teach_nothing(
        kit,
        before,
        before.everyone(),
        active,
        slots,
        now,
        selected,
        after,
    );
    ranges_are_asked_up_to_saturation(
        kit,
        before,
        before.everyone(),
        active,
        slots,
        now,
        selected,
        after,
        k,
    );
}

/// The state between taking candidates in and choosing among them.
proof fn lemma_between<A: Arithmetic>(
    kit: &A,
    before: SelectorState,
    candidates: Seq<Candidate>,
    want: usize,
    now: u64,
    selected: Seq<SelectedPeer>,
    after: SelectorState,
) -> (mid: SelectorState)
    requires
        before.coherent(),
        before.selects(kit, candidates, want, now, selected, after),
    ensures
        mid.coherent(),
        mid.saturation == before.saturation,
        mid.chooses(
            kit,
            candidates.map_values(|c: Candidate| c.peer_id),
            Seq::empty(),
            want,
            now,
            selected,
            after,
        ),
{
    let pool = candidates.map_values(|c: Candidate| c.peer_id);
    let mid = choose|mid: SelectorState| #[trigger]
        before.upserts_all(kit, candidates, now, mid) && mid.chooses(
            kit,
            pool,
            Seq::empty(),
            want,
            now,
            selected,
            after,
        );
    lemma_upserted_all(kit, before, candidates, now, mid);
    mid
}

/// A selection fills each of the chosen up to its saturation point: afterwards it is busy with as many
/// ranges as its path is good for, unless it was at that point before, when it is asked for one. A
/// measured candidate that is registered, not banned, below its saturation point and not chosen is
/// left out only where as many were chosen as wanted.
pub proof fn selections_fill_up_to_saturation<A: Arithmetic>(
    kit: &A,
    before: SelectorState,
    candidates: Seq<Candidate>,
    want: usize,
    now: u64,
    selected: Seq<SelectedPeer>,
    after: SelectorState,
    k: int,
    j: int,
)
    requires
        before.coherent(),
        want >= 1,
        candidates.len() <= usize::MAX,
        before.selects(kit, candidates, want, now, selected, after),
        0 <= k < selected.len(),
        0 <= j < candidates.len(),
    ensures
        k <= u32::MAX ==> selected[k].rank == k,
        ({
            let peer = after.peer(selected[k].peer_id);
            let ranges = ranges_over(peer.connection_class, after.saturation);
            &&& peer.quality.in_flight >= ranges
            &&& peer.quality.in_flight > ranges ==> selected[k].max_concurrency == 1
            &&& peer.quality.samples == 0 ==> selected[k].exploratory
        }),
        ({
            let (id, peer) = (candidates[j].peer_id, after.peer(candidates[j].peer_id));
            after.knows(id) && !peer.banned && peer.quality.samples > 0 && peer.quality.in_flight
                < ranges_over(peer.connection_class, after.saturation) && !picked(selected, id)
                ==> selected.len() == want
        }),
{
    let pool = candidates.map_values(|c: Candidate| c.peer_id);
    let mid = lemma_between(kit, before, candidates, want, now, selected, after);
    choices_are_eligible_and_teach_nothing(
        kit,
        mid,
        pool,
        Seq::empty(),
        want,
        now,
        selected,
        after,
    );
    ranges_are_asked_up_to_saturation(
        kit,
        mid,
        pool,
        Seq::empty(),
        want,
        now,
        selected,
        after,
        k,
    );
    choosing_dispatches_what_it_asks(
        kit,
        mid,
        pool,
        Seq::empty(),
        want,
        now,
        selected,
        after,
        k,
    );
    let chosen_id = selected[k].peer_id;
    lemma_calmed(mid, now);
    assert(mid.eligible(chosen_id));
    assert(after.knows(chosen_id) <==> mid.knows(chosen_id));
    assert(same_but_load(after.peer(chosen_id), mid.peer(chosen_id)));
    assert(mid.calmed(now).knows(chosen_id));
    assert(same_but_load(mid.calmed(now).peer(chosen_id), mid.peer(chosen_id)));
    dispatches_expire_after_five_minutes(mid, now, chosen_id);
    lemma_known_stamped(mid, chosen_id);
    let id = candidates[j].peer_id;
    if after.knows(id) && !picked(selected, id) {
        assert(after.knows(id) <==> mid.knows(id));
        assert(same_but_load(after.peer(id), mid.peer(id)));
        choosing_leaves_the_others_alone(
            kit,
            mid,
            pool,
            Seq::empty(),
            want,
            now,
            selected,
            after,
            id,
        );
        assert(pool[j] == id);
        if !after.peer(id).banned && after.peer(id).quality.samples > 0
            && after.peer(id).quality.in_flight < ranges_over(
            after.peer(id).connection_class,
            after.saturation,
        ) {
            slots_are_filled(
                kit,
                mid,
                pool,
                Seq::empty(),
                want,
                now,
                selected,
                after,
                id,
            );
        }
    }
}

} // verus!
