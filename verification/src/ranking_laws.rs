//! What holds of every selection.

use vstd::arithmetic::div_mod::lemma_fundamental_div_mod;
use vstd::prelude::*;
use vstd::set_lib::{lemma_int_range, lemma_len_subset, set_int_range};

use crate::ranking::{
    chosen, claimant, exploration_budget, exploration_cap, lemma_chosen_places,
    lemma_ranking_complete, lemma_slot, lineup, outwaits, owed, passed_over, picks, ranking,
    regulars, roomy, slotted, some_room, starved, Contender,
};
use crate::scoring::{at_least_one, ScoredPeer};
use crate::types::SelectedPeer;

verus! {

/// The score of the contender at a place.
pub open spec fn score_at(field: Seq<Contender>, place: usize) -> i128 {
    field[place as int].score.effective_score
}

/// Whether no place in an order has a better score than an earlier one.
pub open spec fn scores_descend(field: Seq<Contender>, order: Seq<usize>) -> bool {
    forall|a: int, b: int|
        #![trigger order[a], order[b]]
        0 <= a < b < order.len() ==> score_at(field, order[a]) >= score_at(field, order[b])
}

/// How many of the places hold an unmeasured peer.
pub open spec fn unmeasured_among(field: Seq<Contender>, places: Seq<usize>) -> nat
    decreases places.len(),
{
    if places.len() == 0 {
        0
    } else {
        unmeasured_among(field, places.drop_first()) + (if field[places[0] as int].score.exploratory {
            1nat
        } else {
            0
        })
    }
}

/// The ranking is in the order of scores.
pub proof fn lemma_ranking_descends(field: Seq<Contender>, n: nat)
    requires
        n <= field.len() <= usize::MAX,
    ensures
        scores_descend(field, ranking(field, n)),
    decreases n,
{
    if n > 0 {
        let before = ranking(field, (n - 1) as nat);
        let i = (n - 1) as usize;
        lemma_ranking_descends(field, (n - 1) as nat);
        let k = lemma_slot(field, before, i);
        let after = before.insert(k, i);
        assert forall|a: int, b: int|
            #![trigger after[a], after[b]]
            0 <= a < b < after.len() implies score_at(field, after[a]) >= score_at(
            field,
            after[b],
        ) by {
            if a == k {
                assert(after[b] == before[b - 1]);
            } else if b == k {
                assert(after[a] == before[a]);
                assert(before[a] == before[k - 1] || score_at(field, before[a]) >= score_at(
                    field,
                    before[k - 1],
                ));
            } else {
                assert(after[a] == before[if a < k {
                    a
                } else {
                    a - 1
                }]);
                assert(after[b] == before[if b < k {
                    b
                } else {
                    b - 1
                }]);
            }
        }
    }
}

proof fn lemma_picks_descend(
    field: Seq<Contender>,
    order: Seq<usize>,
    apart: Option<usize>,
    slots: nat,
    budget: nat,
)
    requires
        scores_descend(field, order),
    ensures
        scores_descend(field, picks(field, order, apart, slots, budget)),
        order.len() > 0 ==> forall|j: int|
            0 <= j < picks(field, order, apart, slots, budget).len() ==> score_at(field, order[0])
                >= score_at(field, #[trigger] picks(field, order, apart, slots, budget)[j]),
        unmeasured_among(field, picks(field, order, apart, slots, budget)) <= budget,
    decreases order.len(),
{
    if order.len() > 0 && slots > 0 {
        let i = order[0];
        let rest = order.drop_first();
        let unmeasured = field[i as int].score.exploratory;
        assert(scores_descend(field, rest)) by {
            assert forall|a: int, b: int|
                #![trigger rest[a], rest[b]]
                0 <= a < b < rest.len() implies score_at(field, rest[a]) >= score_at(
                field,
                rest[b],
            ) by {
                assert(rest[a] == order[a + 1] && rest[b] == order[b + 1]);
            }
        }
        if rest.len() > 0 {
            assert(rest[0] == order[1]);
            assert(score_at(field, order[0]) >= score_at(field, order[1]));
        }
        if apart == Some(i) || passed_over(field, i as int) || (unmeasured && budget == 0) {
            lemma_picks_descend(field, rest, apart, slots, budget);
        } else {
            let left = if unmeasured {
                (budget - 1) as nat
            } else {
                budget
            };
            lemma_picks_descend(field, rest, apart, (slots - 1) as nat, left);
            let tail = picks(field, rest, apart, (slots - 1) as nat, left);
            let all = seq![i] + tail;
            assert(all.drop_first() =~= tail);
            assert forall|j: int| 0 <= j < tail.len() implies score_at(field, i) >= score_at(
                field,
                #[trigger] tail[j],
            ) by {
                assert(rest.len() > 0);
            }
            assert forall|a: int, b: int|
                #![trigger all[a], all[b]]
                0 <= a < b < all.len() implies score_at(field, all[a]) >= score_at(
                field,
                all[b],
            ) by {
                assert(all[b] == tail[b - 1]);
                if a > 0 {
                    assert(all[a] == tail[a - 1]);
                }
            }
            assert forall|j: int| 0 <= j < all.len() implies score_at(field, order[0]) >= score_at(
                field,
                #[trigger] all[j],
            ) by {
                if j > 0 {
                    assert(all[j] == tail[j - 1]);
                }
            }
        }
    }
}

proof fn lemma_unmeasured_push(field: Seq<Contender>, places: Seq<usize>, i: usize)
    ensures
        unmeasured_among(field, places.push(i)) == unmeasured_among(field, places) + (if field[i as int].score.exploratory {
            1nat
        } else {
            0
        }),
    decreases places.len(),
{
    if places.len() > 0 {
        lemma_unmeasured_push(field, places.drop_first(), i);
        assert(places.push(i).drop_first() =~= places.drop_first().push(i));
    } else {
        assert(places.push(i).drop_first() =~= places);
    }
}

/// A selection holds no more peers than wanted, nobody twice and nobody who is saturated unless
/// everybody is, ranks them from zero on, and asks of each as many ranges as it has headroom, or one.
pub proof fn selections_are_bounded(field: Seq<Contender>, want: usize, epoch: u64)
    requires
        field.len() <= usize::MAX,
        want >= 1,
    ensures
        lineup(field, want, epoch).len() <= want,
        chosen(field, want, epoch).no_duplicates(),
        forall|k: int|
            0 <= k < lineup(field, want, epoch).len() ==> {
                let place = chosen(field, want, epoch)[k];
                let selected = #[trigger] lineup(field, want, epoch)[k];
                &&& place < field.len()
                &&& selected.peer_id == field[place as int].peer_id
                &&& k <= u32::MAX ==> selected.rank == k
                &&& selected.max_concurrency >= 1
                &&& selected.max_concurrency == at_least_one(field[place as int].score.headroom)
                &&& some_room(field) ==> !field[place as int].full
            },
{
    lemma_chosen_places(field, want, epoch);
    assert forall|k: int| 0 <= k < lineup(field, want, epoch).len() implies {
        let place = chosen(field, want, epoch)[k];
        let selected = #[trigger] lineup(field, want, epoch)[k];
        &&& place < field.len()
        &&& selected.peer_id == field[place as int].peer_id
        &&& k <= u32::MAX ==> selected.rank == k
        &&& selected.max_concurrency >= 1
        &&& selected.max_concurrency == at_least_one(field[place as int].score.headroom)
        &&& some_room(field) ==> !field[place as int].full
    } by {
        let place = chosen(field, want, epoch)[k];
        assert(place < field.len() && !passed_over(field, place as int));
    }
}

/// But for a peer that is owed its slot, the chosen stand in the order of their scores.
pub proof fn better_scores_come_first(field: Seq<Contender>, want: usize, epoch: u64)
    requires
        field.len() <= usize::MAX,
        want >= 1,
    ensures
        scores_descend(field, regulars(field, want, epoch)),
{
    lemma_ranking_descends(field, field.len());
    let apart = claimant(field, want, epoch);
    lemma_picks_descend(
        field,
        ranking(field, field.len()),
        apart,
        if apart is Some {
            (want - 1) as nat
        } else {
            want as nat
        },
        exploration_budget(field, want, epoch),
    );
}

/// Behind a bad source nobody but another bad source stands, unless it is owed its slot; and a bad
/// source is never owed one.
pub proof fn bad_sources_come_last(field: Seq<Contender>, want: usize, epoch: u64, a: int, b: int)
    requires
        field.len() <= usize::MAX,
        want >= 1,
        0 <= a < b < regulars(field, want, epoch).len(),
        field[regulars(field, want, epoch)[a] as int].score.bad(),
    ensures
        field[regulars(field, want, epoch)[b] as int].score.bad(),
        claimant(field, want, epoch) matches Some(i) ==> !field[i as int].score.bad(),
{
    better_scores_come_first(field, want, epoch);
    lemma_chosen_places(field, want, epoch);
    let order = regulars(field, want, epoch);
    assert(score_at(field, order[a]) >= score_at(field, order[b]));
}

/// How many of a selection are flagged as being explored.
pub open spec fn flagged_among(selected: Seq<SelectedPeer>) -> nat
    decreases selected.len(),
{
    if selected.len() == 0 {
        0
    } else {
        flagged_among(selected.drop_last()) + (if selected.last().exploratory {
            1nat
        } else {
            0
        })
    }
}

/// Where the unmeasured are flagged and nobody else is, the flagged are as many.
pub proof fn lemma_flags(field: Seq<Contender>, places: Seq<usize>, selected: Seq<SelectedPeer>)
    requires
        selected.len() == places.len(),
        forall|k: int|
            0 <= k < selected.len() ==> (#[trigger] selected[k]).exploratory
                == field[places[k] as int].score.exploratory,
    ensures
        flagged_among(selected) == unmeasured_among(field, places),
    decreases places.len(),
{
    if places.len() > 0 {
        let front = places.drop_last();
        assert(front.push(places.last()) =~= places);
        lemma_unmeasured_push(field, front, places.last());
        lemma_flags(field, front, selected.drop_last());
        assert(selected[selected.len() - 1] == selected.last());
    }
}

/// A selection holds no more peers to be explored than the cap allows, be they unmeasured or owed
/// their slot.
pub proof fn exploration_is_capped(field: Seq<Contender>, want: usize, epoch: u64)
    requires
        field.len() <= usize::MAX,
        want >= 1,
    ensures
        flagged_among(lineup(field, want, epoch)) <= exploration_cap(want),
        unmeasured_among(field, chosen(field, want, epoch)) <= exploration_cap(want),
{
    lemma_ranking_descends(field, field.len());
    lemma_chosen_places(field, want, epoch);
    let apart = claimant(field, want, epoch);
    let merited = regulars(field, want, epoch);
    lemma_picks_descend(
        field,
        ranking(field, field.len()),
        apart,
        if apart is Some {
            (want - 1) as nat
        } else {
            want as nat
        },
        exploration_budget(field, want, epoch),
    );
    let selected = lineup(field, want, epoch);
    let places = chosen(field, want, epoch);
    match apart {
        Some(i) => {
            lemma_unmeasured_push(field, merited, i);
            let front = selected.drop_last();
            assert forall|k: int| 0 <= k < front.len() implies (#[trigger] front[k]).exploratory
                == field[merited[k] as int].score.exploratory by {
                assert(front[k] == selected[k]);
                assert(places[k] == merited[k]);
                assert(places[places.len() - 1] == i);
            }
            lemma_flags(field, merited, front);
        },
        None => {
            lemma_flags(field, places, selected);
        },
    }
}

/// Whether a contender is measured, not passed over, and scores better than everyone else who is not.
pub open spec fn leads(field: Seq<Contender>, best: int) -> bool {
    &&& 0 <= best < field.len()
    &&& !field[best].score.exploratory
    &&& !passed_over(field, best)
    &&& forall|j: int|
        0 <= j < field.len() && j != best && !passed_over(field, j)
            ==> (#[trigger] field[j]).score.effective_score < field[best].score.effective_score
}

proof fn lemma_first_pick(
    field: Seq<Contender>,
    order: Seq<usize>,
    apart: Option<usize>,
    slots: nat,
    budget: nat,
    p: int,
)
    requires
        0 <= p < order.len(),
        slots > 0,
        apart != Some(order[p]),
        !passed_over(field, order[p] as int),
        field[order[p] as int].score.exploratory ==> budget > 0,
        forall|q: int| 0 <= q < p ==> passed_over(field, #[trigger] order[q] as int),
    ensures
        picks(field, order, apart, slots, budget).len() > 0,
        picks(field, order, apart, slots, budget)[0] == order[p],
    decreases order.len(),
{
    if p > 0 {
        assert(passed_over(field, order[0] as int));
        let rest = order.drop_first();
        assert forall|q: int| 0 <= q < p - 1 implies passed_over(
            field,
            #[trigger] rest[q] as int,
        ) by {
            assert(rest[q] == order[q + 1]);
        }
        lemma_first_pick(field, rest, apart, slots, budget, p - 1);
    }
}

/// A measured peer that scores better than everyone else who is not passed over is chosen first,
/// unless it is passed over itself, is the one that is owed a slot, or that one is owed the only
/// slot.
pub proof fn the_best_measured_peer_leads(
    field: Seq<Contender>,
    want: usize,
    epoch: u64,
    best: usize,
)
    requires
        field.len() <= usize::MAX,
        want >= 1,
        leads(field, best as int),
        claimant(field, want, epoch) != Some(best),
        want > 1 || claimant(field, want, epoch) is None,
    ensures
        chosen(field, want, epoch).len() > 0,
        chosen(field, want, epoch)[0] == best,
        lineup(field, want, epoch)[0].peer_id == field[best as int].peer_id,
        !lineup(field, want, epoch)[0].exploratory,
{
    let order = ranking(field, field.len());
    lemma_ranking_complete(field, field.len());
    lemma_ranking_descends(field, field.len());
    assert(order.contains(best));
    let p = choose|p: int| 0 <= p < order.len() && order[p] == best;
    assert forall|q: int| 0 <= q < p implies passed_over(field, #[trigger] order[q] as int) by {
        assert(score_at(field, order[q]) >= score_at(field, order[p]));
        assert(order[q] != order[p]);
    }
    let apart = claimant(field, want, epoch);
    lemma_first_pick(
        field,
        order,
        apart,
        if apart is Some {
            (want - 1) as nat
        } else {
            want as nat
        },
        exploration_budget(field, want, epoch),
        p,
    );
    assert(regulars(field, want, epoch)[0] == best);
}

/// Somebody is chosen wherever there is a contender.
pub proof fn somebody_is_chosen(field: Seq<Contender>, want: usize, epoch: u64)
    requires
        0 < field.len() <= usize::MAX,
        want >= 1,
    ensures
        chosen(field, want, epoch).len() > 0,
{
    lemma_ranking_complete(field, field.len());
    if claimant(field, want, epoch) is None {
        let order = ranking(field, field.len());
        let i: int = if some_room(field) {
            choose|i: int| #[trigger] roomy(field, i)
        } else {
            0
        };
        assert(!passed_over(field, i));
        assert(order.contains(i as usize));
        let p = choose|p: int| 0 <= p < order.len() && order[p] == i as usize;
        let q = lemma_first_open(field, order, p);
        lemma_first_pick(
            field,
            order,
            None,
            want as nat,
            exploration_budget(field, want, epoch),
            q,
        );
    }
}

proof fn lemma_first_open(field: Seq<Contender>, order: Seq<usize>, p: int) -> (q: int)
    requires
        0 <= p < order.len(),
        !passed_over(field, order[p] as int),
    ensures
        0 <= q <= p,
        !passed_over(field, order[q] as int),
        forall|k: int| 0 <= k < q ==> passed_over(field, #[trigger] order[k] as int),
    decreases p,
{
    if exists|k: int| 0 <= k < p && !passed_over(field, #[trigger] order[k] as int) {
        let k = choose|k: int| 0 <= k < p && !passed_over(field, #[trigger] order[k] as int);
        lemma_first_open(field, order, k)
    } else {
        p
    }
}

/// Where a contender is starved and slots are short, the one owed a slot is chosen last and flagged
/// as exploratory.
pub proof fn the_starved_are_served(field: Seq<Contender>, want: usize, epoch: u64, i: int)
    requires
        field.len() <= usize::MAX,
        1 <= want < field.len(),
        starved(field, epoch, i),
    ensures
        claimant(field, want, epoch) is Some,
        chosen(field, want, epoch).last() == claimant(field, want, epoch)->0,
        lineup(field, want, epoch).last().exploratory,
        outwaits(field, epoch, claimant(field, want, epoch)->0 as int, i),
{
    let c = lemma_longest_wait(field, epoch, i, field.len() as int);
    assert(owed(field, want, epoch, c)) by {
        assert forall|j: int| #[trigger] starved(field, epoch, j) implies outwaits(
            field,
            epoch,
            c,
            j,
        ) by {}
    }
    assert(owed(field, want, epoch, (c as usize) as int));
    lemma_chosen_places(field, want, epoch);
}

proof fn lemma_longest_wait(field: Seq<Contender>, epoch: u64, i: int, n: int) -> (c: int)
    requires
        0 <= n <= field.len(),
        starved(field, epoch, i),
    ensures
        starved(field, epoch, c),
        c == i || c < n,
        forall|j: int|
            (0 <= j < n || j == i) && #[trigger] starved(field, epoch, j) ==> outwaits(
                field,
                epoch,
                c,
                j,
            ),
    decreases n,
{
    if n == 0 {
        i
    } else {
        let c = lemma_longest_wait(field, epoch, i, n - 1);
        if starved(field, epoch, n - 1) && !outwaits(field, epoch, c, n - 1) {
            n - 1
        } else {
            c
        }
    }
}

/// Where everybody fits, nobody is passed over and there are not too many unmeasured peers, everybody
/// is chosen, in the order of the ranking.
pub proof fn everybody_is_chosen_where_all_fit(field: Seq<Contender>, want: usize, epoch: u64)
    requires
        field.len() <= want,
        want >= 1,
        forall|i: int| 0 <= i < field.len() ==> !passed_over(field, i),
        unmeasured_among(field, ranking(field, field.len())) <= exploration_cap(want),
    ensures
        chosen(field, want, epoch) == ranking(field, field.len()),
{
    lemma_ranking_complete(field, field.len());
    assert(forall|i: usize| !owed(field, want, epoch, i as int));
    lemma_picks_all(field, ranking(field, field.len()), want as nat, exploration_cap(want));
}

proof fn lemma_picks_all(field: Seq<Contender>, order: Seq<usize>, slots: nat, budget: nat)
    requires
        order.len() <= slots,
        unmeasured_among(field, order) <= budget,
        forall|k: int| 0 <= k < order.len() ==> !passed_over(field, #[trigger] order[k] as int),
    ensures
        picks(field, order, None, slots, budget) == order,
    decreases order.len(),
{
    if order.len() > 0 {
        let rest = order.drop_first();
        let unmeasured = field[order[0] as int].score.exploratory;
        let left = if unmeasured {
            (budget - 1) as nat
        } else {
            budget
        };
        assert(!passed_over(field, order[0] as int));
        assert forall|k: int| 0 <= k < rest.len() implies !passed_over(
            field,
            #[trigger] rest[k] as int,
        ) by {
            assert(rest[k] == order[k + 1]);
        }
        lemma_picks_all(field, rest, (slots - 1) as nat, left);
        assert(seq![order[0]] + rest =~= order);
    }
}

/// Whether no unmeasured contender ties with a measured one.
pub open spec fn unmixed(field: Seq<Contender>) -> bool {
    forall|i: int, j: int|
        #![trigger field[i], field[j]]
        0 <= i < field.len() && 0 <= j < field.len() && field[i].score.effective_score
            == field[j].score.effective_score ==> field[i].score.exploratory
            == field[j].score.exploratory
}

/// Where no unmeasured contender ties with a measured one, the ranking is the stable arrangement: of
/// two places the earlier one precedes, or neither does and the earlier contender comes first.
pub proof fn ranking_is_stable(field: Seq<Contender>, n: nat)
    requires
        n <= field.len() <= usize::MAX,
        unmixed(field),
    ensures
        forall|a: int, b: int|
            #![trigger ranking(field, n)[a], ranking(field, n)[b]]
            0 <= a < b < n ==> {
                let (i, j) = (ranking(field, n)[a], ranking(field, n)[b]);
                &&& !field[j as int].precedes(field[i as int])
                &&& field[i as int].precedes(field[j as int]) || i < j
            },
    decreases n,
{
    if n > 0 {
        let before = ranking(field, (n - 1) as nat);
        let x = (n - 1) as usize;
        ranking_is_stable(field, (n - 1) as nat);
        lemma_ranking_complete(field, (n - 1) as nat);
        lemma_ranking_complete(field, n);
        let k = lemma_slot(field, before, x);
        let after = before.insert(k, x);
        assert forall|a: int, b: int| #![trigger after[a], after[b]] 0 <= a < b < n implies {
            let (i, j) = (after[a], after[b]);
            &&& !field[j as int].precedes(field[i as int])
            &&& field[i as int].precedes(field[j as int]) || i < j
        } by {
            if a == k {
                assert(after[b] == before[b - 1]);
            } else if b == k {
                assert(after[a] == before[a]);
                if a < k - 1 {
                    assert(!field[before[k - 1] as int].precedes(field[before[a] as int]));
                    lemma_not_preceding_is_transitive(
                        field,
                        x as int,
                        before[k - 1] as int,
                        before[a] as int,
                    );
                }
            } else {
                assert(after[a] == before[if a < k {
                    a
                } else {
                    a - 1
                }]);
                assert(after[b] == before[if b < k {
                    b
                } else {
                    b - 1
                }]);
            }
        }
    }
}

proof fn lemma_not_preceding_is_transitive(field: Seq<Contender>, x: int, y: int, z: int)
    requires
        unmixed(field),
        0 <= x < field.len(),
        0 <= y < field.len(),
        0 <= z < field.len(),
        !field[x].precedes(field[y]),
        !field[y].precedes(field[z]),
    ensures
        !field[x].precedes(field[z]),
{
    let (a, b, c) = (field[x], field[y], field[z]);
    assert(a.score.effective_score == b.score.effective_score ==> a.score.exploratory
        == b.score.exploratory);
    assert(b.score.effective_score == c.score.effective_score ==> b.score.exploratory
        == c.score.exploratory);
}

/// Whether two fields differ in one contender at most, who has no better a score and no more headroom
/// in the second.
pub open spec fn dimmed(field: Seq<Contender>, other: Seq<Contender>, i: int) -> bool {
    &&& 0 <= i < field.len() == other.len()
    &&& forall|j: int| 0 <= j < field.len() && j != i ==> #[trigger] other[j] == field[j]
    &&& other[i] == Contender {
        score: ScoredPeer {
            effective_score: other[i].score.effective_score,
            headroom: other[i].score.headroom,
            ..field[i].score
        },
        ..field[i]
    }
    &&& other[i].score.effective_score <= field[i].score.effective_score
    &&& other[i].score.headroom <= field[i].score.headroom
}

/// A contender with a lower score never ranks earlier for it.
pub proof fn lower_scores_never_rank_earlier(
    field: Seq<Contender>,
    other: Seq<Contender>,
    i: int,
    p: int,
    q: int,
)
    requires
        field.len() <= usize::MAX,
        dimmed(field, other, i),
        0 <= p < field.len(),
        0 <= q < field.len(),
        ranking(field, field.len())[p] == i as usize,
        ranking(other, field.len())[q] == i as usize,
    ensures
        p <= q,
{
    let n = field.len();
    let (order, later) = (ranking(field, n), ranking(other, n));
    lemma_ranking_complete(field, n);
    lemma_ranking_complete(other, n);
    if other[i].score.effective_score == field[i].score.effective_score {
        lemma_same_ranking(field, other, n);
        assert(order == later);
    } else {
        lemma_ranking_descends(field, n);
        lemma_ranking_descends(other, n);
        let (ahead, ahead_later) = (order.take(p), later.take(q));
        assert forall|place: usize| ahead.to_set().contains(place) implies ahead_later.to_set().contains(
            place,
        ) by {
            let a = choose|a: int| 0 <= a < ahead.len() && ahead[a] == place;
            assert(order[a] == place && order[a] != order[p]);
            assert(score_at(field, order[a]) >= score_at(field, order[p]));
            assert(other[place as int] == field[place as int]);
            assert(later.contains(place));
            let b = choose|b: int| 0 <= b < later.len() && later[b] == place;
            if b > q {
                assert(score_at(other, later[q]) >= score_at(other, later[b]));
            }
            assert(ahead_later[b] == place);
        }
        assert(ahead.no_duplicates() && ahead_later.no_duplicates());
        ahead.unique_seq_to_set();
        ahead_later.unique_seq_to_set();
        lemma_len_subset(ahead.to_set(), ahead_later.to_set());
    }
}

/// Fields that compare alike rank alike.
pub proof fn lemma_same_ranking(field: Seq<Contender>, other: Seq<Contender>, n: nat)
    requires
        n <= field.len() == other.len() <= usize::MAX,
        forall|a: int, b: int|
            #![trigger field[a].precedes(field[b])]
            0 <= a < field.len() && 0 <= b < field.len() ==> field[a].precedes(field[b])
                == other[a].precedes(other[b]),
    ensures
        ranking(field, n) == ranking(other, n),
    decreases n,
{
    if n > 0 {
        let before = ranking(field, (n - 1) as nat);
        lemma_same_ranking(field, other, (n - 1) as nat);
        lemma_ranking_complete(field, (n - 1) as nat);
        lemma_same_slot(field, other, before, (n - 1) as usize);
    }
}

proof fn lemma_same_slot(
    field: Seq<Contender>,
    other: Seq<Contender>,
    order: Seq<usize>,
    i: usize,
)
    requires
        i < field.len() == other.len(),
        forall|k: int| 0 <= k < order.len() ==> (#[trigger] order[k]) < field.len(),
        forall|a: int, b: int|
            #![trigger field[a].precedes(field[b])]
            0 <= a < field.len() && 0 <= b < field.len() ==> field[a].precedes(field[b])
                == other[a].precedes(other[b]),
    ensures
        slotted(field, order, i) == slotted(other, order, i),
    decreases order.len(),
{
    if order.len() > 0 {
        assert(order[order.len() - 1] < field.len());
        assert(field[i as int].precedes(field[order.last() as int]) == other[i as int].precedes(
            other[order.last() as int],
        ));
        lemma_same_slot(field, other, order.drop_last(), i);
    }
}

/// One round of choosing.
pub struct Round {
    /// The contenders.
    pub field: Seq<Contender>,
    /// How many are wanted.
    pub want: usize,
    /// The number of the round.
    pub epoch: u64,
}

/// Whether rounds follow each other over the same contenders: slots are short, nobody is a bad
/// source, and whoever is chosen has that round noted.
pub open spec fn consecutive(rounds: Seq<Round>, n: nat) -> bool {
    &&& n <= usize::MAX
    &&& forall|k: int|
        #![trigger rounds[k]]
        0 <= k < rounds.len() ==> {
            &&& rounds[k].field.len() == n
            &&& 1 <= rounds[k].want < n
            &&& rounds[k].epoch == rounds[0].epoch + k
        }
    &&& forall|k: int, i: int|
        #![trigger rounds[k].field[i]]
        0 <= k < rounds.len() && 0 <= i < n ==> {
            &&& !rounds[k].field[i].score.bad()
            &&& rounds[k].field[i].last_selected < rounds[k].epoch
            &&& k + 1 < rounds.len() ==> rounds[k + 1].field[i].last_selected == (if chosen(
                rounds[k].field,
                rounds[k].want,
                rounds[k].epoch,
            ).contains(i as usize) {
                rounds[k].epoch
            } else {
                rounds[k].field[i].last_selected
            })
        }
}

/// Whether the `i`-th contender is chosen in the `k`-th round.
pub open spec fn chosen_in(rounds: Seq<Round>, k: int, i: int) -> bool {
    chosen(rounds[k].field, rounds[k].want, rounds[k].epoch).contains(i as usize)
}

/// Whether the `i`-th contender is passed over in the `k`-th round.
pub open spec fn passed_in(rounds: Seq<Round>, k: int, i: int) -> bool {
    passed_over(rounds[k].field, i)
}

proof fn lemma_chosen_is_recent(rounds: Seq<Round>, n: nat, i: int, k: int, l: int)
    requires
        consecutive(rounds, n),
        0 <= i < n,
        0 <= k < l < rounds.len(),
        chosen_in(rounds, k, i),
    ensures
        rounds[l].field[i].last_selected >= rounds[k].epoch,
    decreases l,
{
    assert(rounds[l - 1].field[i].last_selected < rounds[l - 1].epoch);
    if k < l - 1 {
        lemma_chosen_is_recent(rounds, n, i, k, l - 1);
    }
    assert(rounds[(l - 1) + 1].field[i].last_selected == rounds[l].field[i].last_selected);
}

/// A claimant is chosen.
pub proof fn lemma_claimant_chosen(round: Round)
    requires
        round.field.len() <= usize::MAX,
        round.want >= 1,
        claimant(round.field, round.want, round.epoch) is Some,
    ensures
        ({
            let c = claimant(round.field, round.want, round.epoch)->0;
            &&& c < round.field.len()
            &&& starved(round.field, round.epoch, c as int)
            &&& chosen(round.field, round.want, round.epoch).contains((c as int) as usize)
        }),
{
    lemma_chosen_places(round.field, round.want, round.epoch);
    let c = claimant(round.field, round.want, round.epoch)->0;
    let places = chosen(round.field, round.want, round.epoch);
    assert(places[places.len() - 1] == c);
    assert((c as int) as usize == c);
}

/// In how many of the rounds from `from` up to `to` the `i`-th contender is chosen.
pub open spec fn times_chosen(rounds: Seq<Round>, from: int, to: int, i: int) -> nat
    decreases to - from,
{
    if to <= from {
        0
    } else {
        times_chosen(rounds, from, to - 1, i) + (if chosen_in(rounds, to - 1, i) {
            1nat
        } else {
            0
        })
    }
}

/// Whether there is one slot in each round, and the same contender always leads.
pub open spec fn one_slot_led_by(rounds: Seq<Round>, best: int) -> bool {
    forall|k: int|
        0 <= k < rounds.len() ==> (#[trigger] rounds[k]).want == 1 && leads(rounds[k].field, best)
}

/// A contender that always leads is chosen in every round that has more than one slot.
pub proof fn the_best_is_always_chosen(rounds: Seq<Round>, n: nat, best: int, k: int)
    requires
        consecutive(rounds, n),
        0 <= k < rounds.len(),
        rounds[k].want > 1,
        leads(rounds[k].field, best),
    ensures
        chosen_in(rounds, k, best),
{
    let r = rounds[k];
    assert(r.field.len() == n);
    assert((best as usize) as int == best);
    if claimant(r.field, r.want, r.epoch) == Some(best as usize) {
        lemma_claimant_chosen(r);
    } else {
        the_best_measured_peer_leads(r.field, r.want, r.epoch, best as usize);
        assert(chosen(r.field, r.want, r.epoch)[0] == best as usize);
    }
}

proof fn lemma_one_slot(rounds: Seq<Round>, n: nat, best: int, k: int)
    requires
        consecutive(rounds, n),
        one_slot_led_by(rounds, best),
        0 <= k < rounds.len(),
    ensures
        forall|i: int|
            0 <= i < n && #[trigger] chosen_in(rounds, k, i) ==> i == best || (starved(
                rounds[k].field,
                rounds[k].epoch,
                i,
            ) && claimant(rounds[k].field, rounds[k].want, rounds[k].epoch) == Some(i as usize)),
        !chosen_in(rounds, k, best) ==> ({
            let c = claimant(rounds[k].field, rounds[k].want, rounds[k].epoch);
            &&& c is Some
            &&& 0 <= (c->0 as int) < n
            &&& c->0 as int != best
            &&& chosen_in(rounds, k, c->0 as int)
        }),
{
    let r = rounds[k];
    assert(r.want == 1 && leads(r.field, best) && r.field.len() == n);
    assert((best as usize) as int == best);
    lemma_chosen_places(r.field, r.want, r.epoch);
    let places = chosen(r.field, r.want, r.epoch);
    match claimant(r.field, r.want, r.epoch) {
        Some(c) => {
            lemma_claimant_chosen(r);
            assert(regulars(r.field, r.want, r.epoch).len() == 0);
            assert(places =~= seq![c]);
            assert forall|i: int| 0 <= i < n && #[trigger] chosen_in(rounds, k, i) implies i
                == c as int by {
                assert(places.contains(i as usize));
                assert((i as usize) as int == i);
            }
            if c as int == best {
                assert(chosen_in(rounds, k, best));
            }
        },
        None => {
            the_best_measured_peer_leads(r.field, r.want, r.epoch, best as usize);
            assert(places =~= seq![best as usize]);
            assert(places[0] == best as usize);
            assert forall|i: int| 0 <= i < n && #[trigger] chosen_in(rounds, k, i) implies i
                == best by {
                assert(places.contains(i as usize));
                assert((i as usize) as int == i);
            }
        },
    }
}

proof fn lemma_not_again(rounds: Seq<Round>, n: nat, best: int, i: int, k: int, l: int)
    requires
        consecutive(rounds, n),
        one_slot_led_by(rounds, best),
        0 <= i < n,
        i != best,
        0 <= k < l < rounds.len(),
        l - k <= n,
        chosen_in(rounds, k, i),
    ensures
        !chosen_in(rounds, l, i),
{
    if chosen_in(rounds, l, i) {
        lemma_one_slot(rounds, n, best, l);
        lemma_chosen_is_recent(rounds, n, i, k, l);
        assert(rounds[l].epoch == rounds[0].epoch + l && rounds[k].epoch == rounds[0].epoch + k);
        assert(rounds[l].field.len() == n);
        assert(rounds[l].field[i].waited(rounds[l].epoch) <= n);
    }
}

/// With one slot, in any `n + 1` consecutive rounds of `n` contenders that one of them always leads,
/// that one is chosen at least twice and any other at most once.
pub proof fn the_best_is_chosen_twice_a_sweep(
    rounds: Seq<Round>,
    n: nat,
    best: int,
    from: int,
    other: int,
)
    requires
        consecutive(rounds, n),
        one_slot_led_by(rounds, best),
        0 <= from,
        from + n + 1 <= rounds.len(),
        0 <= other < n,
        other != best,
    ensures
        times_chosen(rounds, from, from + n + 1, best) >= 2,
        times_chosen(rounds, from, from + n + 1, other) <= 1,
{
    assert(rounds[from].field.len() == n && leads(rounds[from].field, best));
    lemma_at_most_once(rounds, n, best, other, from, from + n + 1);
    lemma_others_served(rounds, n, best, from, from + n + 1);
}

proof fn lemma_at_most_once(
    rounds: Seq<Round>,
    n: nat,
    best: int,
    other: int,
    from: int,
    to: int,
)
    requires
        consecutive(rounds, n),
        one_slot_led_by(rounds, best),
        0 <= from <= to <= rounds.len(),
        to - from <= n + 1,
        0 <= other < n,
        other != best,
    ensures
        times_chosen(rounds, from, to, other) <= 1,
        times_chosen(rounds, from, to, other) == 1 ==> exists|k: int|
            from <= k < to && #[trigger] chosen_in(rounds, k, other),
    decreases to - from,
{
    if from < to {
        lemma_at_most_once(rounds, n, best, other, from, to - 1);
        if chosen_in(rounds, to - 1, other) {
            if times_chosen(rounds, from, to - 1, other) == 1 {
                let k = choose|k: int| from <= k < to - 1 && #[trigger] chosen_in(rounds, k, other);
                lemma_not_again(rounds, n, best, other, k, to - 1);
            }
        }
    }
}

/// Who is served in the rounds from `from` up to `to` in which `best` is not chosen.
spec fn served_instead(rounds: Seq<Round>, best: int, from: int, to: int) -> Seq<int>
    decreases to - from,
{
    if to <= from {
        Seq::empty()
    } else if chosen_in(rounds, to - 1, best) {
        served_instead(rounds, best, from, to - 1)
    } else {
        let r = rounds[to - 1];
        served_instead(rounds, best, from, to - 1).push(
            claimant(r.field, r.want, r.epoch)->0 as int,
        )
    }
}

proof fn lemma_served_instead(rounds: Seq<Round>, n: nat, best: int, from: int, to: int)
    requires
        consecutive(rounds, n),
        one_slot_led_by(rounds, best),
        0 <= from <= to <= rounds.len(),
        to - from <= n + 1,
    ensures
        ({
            let served = served_instead(rounds, best, from, to);
            &&& served.no_duplicates()
            &&& served.len() + times_chosen(rounds, from, to, best) == to - from
            &&& forall|d: int|
                0 <= d < served.len() ==> 0 <= (#[trigger] served[d]) < n && served[d] != best
                    && exists|k: int| from <= k < to && #[trigger] chosen_in(rounds, k, served[d])
        }),
    decreases to - from,
{
    if from < to {
        lemma_served_instead(rounds, n, best, from, to - 1);
        lemma_one_slot(rounds, n, best, to - 1);
        let before = served_instead(rounds, best, from, to - 1);
        let served = served_instead(rounds, best, from, to);
        if !chosen_in(rounds, to - 1, best) {
            let c = served.last();
            assert(chosen_in(rounds, to - 1, c));
            if before.contains(c) {
                let d = choose|d: int| 0 <= d < before.len() && before[d] == c;
                let k = choose|k: int| from <= k < to - 1 && #[trigger] chosen_in(
                    rounds,
                    k,
                    before[d],
                );
                lemma_not_again(rounds, n, best, c, k, to - 1);
            }
            assert(served =~= before.push(c));
        }
        assert forall|d: int| 0 <= d < served.len() implies 0 <= (#[trigger] served[d]) < n
            && served[d] != best && exists|k: int|
            from <= k < to && #[trigger] chosen_in(rounds, k, served[d]) by {
            if d < before.len() {
                assert(served[d] == before[d]);
                let k = choose|k: int| from <= k < to - 1 && #[trigger] chosen_in(
                    rounds,
                    k,
                    before[d],
                );
                assert(chosen_in(rounds, k, served[d]));
            } else {
                assert(chosen_in(rounds, to - 1, served[d]));
            }
        }
    }
}

proof fn lemma_others_served(rounds: Seq<Round>, n: nat, best: int, from: int, to: int)
    requires
        consecutive(rounds, n),
        one_slot_led_by(rounds, best),
        0 <= best < n,
        0 <= from,
        to == from + n + 1,
        to <= rounds.len(),
    ensures
        times_chosen(rounds, from, to, best) >= 2,
{
    lemma_served_instead(rounds, n, best, from, to);
    let served = served_instead(rounds, best, from, to);
    let others = set_int_range(0, n as int).remove(best);
    lemma_int_range(0, n as int);
    served.unique_seq_to_set();
    assert(served.to_set().subset_of(others));
    lemma_len_subset(served.to_set(), others);
}

proof fn lemma_sweeps(rounds: Seq<Round>, n: nat, best: int, other: int, sweeps: nat)
    requires
        consecutive(rounds, n),
        one_slot_led_by(rounds, best),
        sweeps * (n + 1) <= rounds.len(),
        0 <= other < n,
        other != best,
    ensures
        times_chosen(rounds, 0, (sweeps * (n + 1)) as int, best) >= 2 * sweeps,
        times_chosen(rounds, 0, (sweeps * (n + 1)) as int, other) <= sweeps,
    decreases sweeps,
{
    if sweeps > 0 {
        let less = (sweeps - 1) as nat;
        assert(sweeps * (n + 1) == less * (n + 1) + (n + 1)) by (nonlinear_arith)
            requires
                sweeps == less + 1,
        ;
        lemma_sweeps(rounds, n, best, other, less);
        let from = (less * (n + 1)) as int;
        the_best_is_chosen_twice_a_sweep(rounds, n, best, from, other);
        lemma_times_add(rounds, 0, from, from + n + 1, best);
        lemma_times_add(rounds, 0, from, from + n + 1, other);
    } else {
        assert(0 * (n + 1) == 0) by (nonlinear_arith);
    }
}

proof fn lemma_times_add(rounds: Seq<Round>, from: int, mid: int, to: int, i: int)
    requires
        from <= mid <= to,
    ensures
        times_chosen(rounds, from, to, i) == times_chosen(rounds, from, mid, i) + times_chosen(
            rounds,
            mid,
            to,
            i,
        ),
    decreases to - mid,
{
    if mid < to {
        lemma_times_add(rounds, from, mid, to - 1, i);
    }
}

/// With one slot, a contender that always leads is chosen more often than any other, in any number
/// of consecutive rounds from `2 * n + 2` on.
pub proof fn the_best_gets_the_largest_share(
    rounds: Seq<Round>,
    n: nat,
    best: int,
    other: int,
)
    requires
        consecutive(rounds, n),
        one_slot_led_by(rounds, best),
        rounds.len() >= 2 * n + 2,
        0 <= other < n,
        other != best,
    ensures
        times_chosen(rounds, 0, rounds.len() as int, best) > times_chosen(
            rounds,
            0,
            rounds.len() as int,
            other,
        ),
{
    let sweep = (n + 1) as int;
    let total = rounds.len() as int;
    let sweeps = total / sweep;
    lemma_fundamental_div_mod(total, sweep);
    assert(sweep * sweeps == sweeps * sweep) by (nonlinear_arith);
    assert(sweeps >= 2) by (nonlinear_arith)
        requires
            total == sweep * sweeps + total % sweep,
            0 <= total % sweep < sweep,
            total >= 2 * sweep,
            sweep > 0,
    ;
    let whole = sweeps * sweep;
    lemma_sweeps(rounds, n, best, other, sweeps as nat);
    lemma_times_add(rounds, 0, whole, total, best);
    lemma_times_add(rounds, 0, whole, total, other);
    lemma_at_most_once(rounds, n, best, other, whole, total);
}

} // verus!
