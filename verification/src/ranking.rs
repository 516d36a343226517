//! Who of the judged peers is chosen, and in which order.
//!
//! The best scores come first. A saturated peer is passed over while another is not. Only so many
//! peers are taken along to be explored, and the peer that has waited longest gets the last slot once
//! it has waited more than a whole round of its rivals.

use vstd::prelude::*;

use crate::identity::PeerId;
use crate::scoring::{at_least_one, ScoredPeer};
use crate::types::{SelectedPeer, Selection};

verus! {

/// A judged peer that competes for a slot.
#[derive(Clone, Copy, Debug, PartialEq, Eq)]
pub struct Contender {
    /// The identity.
    pub peer_id: PeerId,
    /// The judgement.
    pub score: ScoredPeer,
    /// Whether it is at its saturation point, or past it.
    pub full: bool,
    /// In which round it was last chosen; zero for never.
    pub last_selected: u64,
    /// A number drawn for this round.
    pub jitter: u64,
}

impl Contender {
    /// Whether this contender ranks before another: by the better score; among unmeasured peers of
    /// equal score by the longer wait, then by the drawn number; among others by the tie-break.
    pub open spec fn precedes(self, other: Contender) -> bool {
        if self.score.effective_score != other.score.effective_score {
            self.score.effective_score > other.score.effective_score
        } else if self.score.exploratory && other.score.exploratory {
            self.last_selected < other.last_selected || (self.last_selected == other.last_selected
                && self.jitter < other.jitter)
        } else {
            self.score.tie_break < other.score.tie_break
        }
    }

    /// For how many rounds the contender was not chosen.
    pub open spec fn waited(self, epoch: u64) -> int {
        if epoch < self.last_selected {
            0
        } else {
            epoch - self.last_selected
        }
    }

    fn ranks_before(&self, other: &Contender) -> (r: bool)
        ensures
            r == self.precedes(*other),
    {
        if self.score.effective_score != other.score.effective_score {
            self.score.effective_score > other.score.effective_score
        } else if self.score.exploratory && other.score.exploratory {
            self.last_selected < other.last_selected || (self.last_selected == other.last_selected
                && self.jitter < other.jitter)
        } else {
            self.score.tie_break < other.score.tie_break
        }
    }
}

/// The order with `i` put in, behind everyone it does not precede, counted from the end.
pub open spec fn slotted(field: Seq<Contender>, order: Seq<usize>, i: usize) -> Seq<usize>
    decreases order.len(),
{
    if order.len() == 0 || !field[i as int].precedes(field[order.last() as int]) {
        order.push(i)
    } else {
        slotted(field, order.drop_last(), i).push(order.last())
    }
}

/// The order of the first `n` contenders: each is put in after those before it. Where the comparison
/// is a proper order this is the one stable arrangement by it.
pub open spec fn ranking(field: Seq<Contender>, n: nat) -> Seq<usize>
    decreases n,
{
    if n == 0 {
        Seq::empty()
    } else {
        slotted(field, ranking(field, (n - 1) as nat), (n - 1) as usize)
    }
}

/// Whether a contender is below its saturation point.
pub open spec fn roomy(field: Seq<Contender>, i: int) -> bool {
    0 <= i < field.len() && !field[i].full
}

/// Whether anybody is below its saturation point.
pub open spec fn some_room(field: Seq<Contender>) -> bool {
    exists|i: int| #[trigger] roomy(field, i)
}

/// Whether a contender is passed over: it is saturated, and another is not.
pub open spec fn passed_over(field: Seq<Contender>, i: int) -> bool {
    field[i].full && some_room(field)
}

/// Whether the contender has waited for more than one round of the field, is not passed over, and is
/// no bad source.
pub open spec fn starved(field: Seq<Contender>, epoch: u64, i: int) -> bool {
    &&& 0 <= i < field.len()
    &&& !field[i].score.bad()
    &&& !passed_over(field, i)
    &&& field[i].waited(epoch) > field.len()
}

/// Whether the `i`-th contender has the better claim by waiting: the longer wait, then the smaller
/// tie-break, then the later place.
pub open spec fn outwaits(field: Seq<Contender>, epoch: u64, i: int, j: int) -> bool {
    let (a, b) = (field[i], field[j]);
    if a.waited(epoch) != b.waited(epoch) {
        a.waited(epoch) > b.waited(epoch)
    } else if a.score.tie_break != b.score.tie_break {
        a.score.tie_break < b.score.tie_break
    } else {
        i >= j
    }
}

/// Whether the `i`-th contender is owed a slot: there are fewer slots than contenders, it is starved,
/// and nobody starved has the better claim.
pub open spec fn owed(field: Seq<Contender>, want: usize, epoch: u64, i: int) -> bool {
    &&& want < field.len()
    &&& starved(field, epoch, i)
    &&& forall|j: int| #[trigger] starved(field, epoch, j) ==> outwaits(field, epoch, i, j)
}

/// Who is owed a slot, if anybody.
pub open spec fn claimant(field: Seq<Contender>, want: usize, epoch: u64) -> Option<usize> {
    if exists|i: usize| owed(field, want, epoch, i as int) {
        Some(choose|i: usize| owed(field, want, epoch, i as int))
    } else {
        None
    }
}

/// How many of a selection of `want` may be there to be explored: a third, rounded up, and at least
/// one.
pub open spec fn exploration_cap(want: usize) -> nat {
    if want == 0 {
        1
    } else {
        ((want + 2) / 3) as nat
    }
}

/// The contenders taken in `order`, up to `slots` of them and `budget` unmeasured ones, without
/// `apart` and those passed over.
pub open spec fn picks(
    field: Seq<Contender>,
    order: Seq<usize>,
    apart: Option<usize>,
    slots: nat,
    budget: nat,
) -> Seq<usize>
    decreases order.len(),
{
    if order.len() == 0 || slots == 0 {
        Seq::empty()
    } else {
        let i = order[0];
        let rest = order.drop_first();
        let unmeasured = field[i as int].score.exploratory;
        if apart == Some(i) || passed_over(field, i as int) || (unmeasured && budget == 0) {
            picks(field, rest, apart, slots, budget)
        } else {
            seq![i] + picks(
                field,
                rest,
                apart,
                (slots - 1) as nat,
                if unmeasured {
                    (budget - 1) as nat
                } else {
                    budget
                },
            )
        }
    }
}

/// How many unmeasured peers may be taken on top of the claimant, who is one to be explored too.
pub open spec fn exploration_budget(field: Seq<Contender>, want: usize, epoch: u64) -> nat {
    match claimant(field, want, epoch) {
        Some(_) => (exploration_cap(want) - 1) as nat,
        None => exploration_cap(want),
    }
}

/// Who is chosen on merit or to be explored: everybody chosen but the claimant.
pub open spec fn regulars(field: Seq<Contender>, want: usize, epoch: u64) -> Seq<usize> {
    let apart = claimant(field, want, epoch);
    picks(
        field,
        ranking(field, field.len()),
        apart,
        if apart is Some {
            (want - 1) as nat
        } else {
            want as nat
        },
        exploration_budget(field, want, epoch),
    )
}

/// Who is chosen, in order: the claimant comes last.
pub open spec fn chosen(field: Seq<Contender>, want: usize, epoch: u64) -> Seq<usize> {
    match claimant(field, want, epoch) {
        Some(i) => regulars(field, want, epoch).push(i),
        None => regulars(field, want, epoch),
    }
}

/// The selection that choosing gives.
pub open spec fn lineup(field: Seq<Contender>, want: usize, epoch: u64) -> Seq<SelectedPeer> {
    let places = chosen(field, want, epoch);
    Seq::new(
        places.len(),
        |k: int|
            SelectedPeer {
                peer_id: field[places[k] as int].peer_id,
                rank: k as u32,
                max_concurrency: at_least_one(field[places[k] as int].score.headroom),
                exploratory: field[places[k] as int].score.exploratory || claimant(
                    field,
                    want,
                    epoch,
                ) == Some(places[k]),
            },
    )
}

/// Where a newcomer to an order goes: behind `k` of it, if it precedes everyone from there on and
/// does not precede the one before.
proof fn lemma_slotted(field: Seq<Contender>, order: Seq<usize>, i: usize, k: int)
    requires
        0 <= k <= order.len(),
        forall|j: int|
            k <= j < order.len() ==> field[i as int].precedes(field[#[trigger] order[j] as int]),
        k > 0 ==> !field[i as int].precedes(field[order[k - 1] as int]),
    ensures
        slotted(field, order, i) == order.insert(k, i),
    decreases order.len(),
{
    if k == order.len() {
        assert(order.insert(k, i) =~= order.push(i));
    } else {
        assert(order.last() == order[order.len() - 1]);
        lemma_slotted(field, order.drop_last(), i, k);
        assert(order.insert(k, i) =~= order.drop_last().insert(k, i).push(order.last()));
    }
}

/// There is such a place.
pub proof fn lemma_slot(field: Seq<Contender>, order: Seq<usize>, i: usize) -> (k: int)
    ensures
        0 <= k <= order.len(),
        forall|j: int|
            k <= j < order.len() ==> field[i as int].precedes(field[#[trigger] order[j] as int]),
        k > 0 ==> !field[i as int].precedes(field[order[k - 1] as int]),
        slotted(field, order, i) == order.insert(k, i),
    decreases order.len(),
{
    if order.len() == 0 || !field[i as int].precedes(field[order.last() as int]) {
        lemma_slotted(field, order, i, order.len() as int);
        order.len() as int
    } else {
        let k = lemma_slot(field, order.drop_last(), i);
        assert forall|j: int| k <= j < order.len() implies field[i as int].precedes(
            field[#[trigger] order[j] as int],
        ) by {
            if j < order.len() - 1 {
                assert(order[j] == order.drop_last()[j]);
            }
        }
        if k > 0 {
            assert(order[k - 1] == order.drop_last()[k - 1]);
        }
        lemma_slotted(field, order, i, k);
        k
    }
}

/// A ranking holds every contender once.
pub proof fn lemma_ranking_complete(field: Seq<Contender>, n: nat)
    requires
        n <= field.len(),
        field.len() <= usize::MAX,
    ensures
        ranking(field, n).len() == n,
        forall|j: int| 0 <= j < n ==> (#[trigger] ranking(field, n)[j]) < n,
        ranking(field, n).no_duplicates(),
        forall|i: usize| i < n ==> #[trigger] ranking(field, n).contains(i),
    decreases n,
{
    if n > 0 {
        let before = ranking(field, (n - 1) as nat);
        let i = (n - 1) as usize;
        lemma_ranking_complete(field, (n - 1) as nat);
        let k = lemma_slot(field, before, i);
        let after = before.insert(k, i);
        assert forall|m: usize| m < n implies #[trigger] after.contains(m) by {
            if m == i {
                assert(after[k] == m);
            } else {
                assert(before.contains(m));
                let j = choose|j: int| 0 <= j < before.len() && before[j] == m;
                assert(after[if j < k {
                    j
                } else {
                    j + 1
                }] == m);
            }
        }
    }
}

/// The order of the contenders, as indices.
fn rank(field: &Vec<Contender>) -> (order: Vec<usize>)
    ensures
        order@ == ranking(field@, field@.len()),
{
    let mut order: Vec<usize> = Vec::new();
    let mut i: usize = 0;
    while i < field.len()
        invariant
            i <= field@.len(),
            order@ == ranking(field@, i as nat),
        decreases field@.len() - i,
    {
        proof {
            lemma_ranking_complete(field@, i as nat);
        }
        let ghost before = order@;
        let mut k: usize = order.len();
        while k > 0 && field[i].ranks_before(&field[order[k - 1]])
            invariant
                i < field@.len(),
                k <= order@.len(),
                order@ == before,
                forall|j: int| 0 <= j < before.len() ==> (#[trigger] before[j]) < i,
                forall|j: int|
                    k <= j < before.len() ==> field@[i as int].precedes(
                        field@[#[trigger] before[j] as int],
                    ),
            decreases k,
        {
            k = k - 1;
        }
        proof {
            lemma_slotted(field@, before, i, k as int);
        }
        order.insert(k, i);
        i = i + 1;
    }
    order
}

/// Whether anybody is below its saturation point.
fn anybody_has_room(field: &Vec<Contender>) -> (r: bool)
    ensures
        r == some_room(field@),
{
    let mut i: usize = 0;
    while i < field.len()
        invariant
            i <= field@.len(),
            forall|j: int| 0 <= j < i ==> !#[trigger] roomy(field@, j),
        decreases field@.len() - i,
    {
        if !field[i].full {
            assert(roomy(field@, i as int));
            return true;
        }
        i = i + 1;
    }
    false
}

/// Who is owed a slot.
fn most_starved(field: &Vec<Contender>, want: usize, epoch: u64, room: bool) -> (r: Option<usize>)
    requires
        room == some_room(field@),
    ensures
        r == claimant(field@, want, epoch),
        r matches Some(i) ==> i < field@.len() && owed(field@, want, epoch, i as int),
{
    if want >= field.len() {
        return None;
    }
    let threshold: usize = field.len();
    let mut best: Option<usize> = None;
    let mut i: usize = 0;
    while i < field.len()
        invariant
            i <= field@.len(),
            threshold == field@.len(),
            room == some_room(field@),
            best is None ==> forall|j: int| 0 <= j < i ==> !#[trigger] starved(field@, epoch, j),
            best matches Some(b) ==> b < i && starved(field@, epoch, b as int) && forall|j: int|
                0 <= j < i && #[trigger] starved(field@, epoch, j) ==> outwaits(
                    field@,
                    epoch,
                    b as int,
                    j,
                ),
        decreases field@.len() - i,
    {
        let waited: u64 = epoch.saturating_sub(field[i].last_selected);
        let passed = room && field[i].full;
        if field[i].score.effective_score >= 0 && !passed && waited > threshold as u64 {
            assert(starved(field@, epoch, i as int));
            match best {
                None => {
                    best = Some(i);
                },
                Some(b) => {
                    let longest: u64 = epoch.saturating_sub(field[b].last_selected);
                    if waited > longest || (waited == longest && field[i].score.tie_break
                        <= field[b].score.tie_break) {
                        best = Some(i);
                    }
                },
            }
        }
        i = i + 1;
    }
    proof {
        match best {
            Some(b) => {
                assert(owed(field@, want, epoch, b as int));
                lemma_one_claimant(field@, want, epoch, b);
            },
            None => {
                assert forall|j: usize| !owed(field@, want, epoch, j as int) by {
                    assert(!starved(field@, epoch, j as int));
                }
            },
        }
    }
    best
}

proof fn lemma_one_claimant(field: Seq<Contender>, want: usize, epoch: u64, i: usize)
    requires
        owed(field, want, epoch, i as int),
    ensures
        claimant(field, want, epoch) == Some(i),
{
    let c = choose|c: usize| owed(field, want, epoch, c as int);
    assert(starved(field, epoch, i as int) && starved(field, epoch, c as int));
    assert(outwaits(field, epoch, i as int, c as int) && outwaits(field, epoch, c as int, i as int));
}

/// How many of a selection of `want` may be there to be explored.
pub fn explore_slots(want: usize) -> (r: usize)
    ensures
        r == exploration_cap(want),
        r >= 1,
{
    if want == 0 {
        1
    } else {
        (want - 1) / 3 + 1
    }
}

fn take_in_order(
    field: &Vec<Contender>,
    order: &Vec<usize>,
    apart: Option<usize>,
    slots: usize,
    budget: usize,
    room: bool,
) -> (taken: Vec<usize>)
    requires
        room == some_room(field@),
        forall|j: int| 0 <= j < order@.len() ==> (#[trigger] order@[j]) < field@.len(),
    ensures
        taken@ == picks(field@, order@, apart, slots as nat, budget as nat),
{
    let mut taken: Vec<usize> = Vec::new();
    let mut explored: usize = 0;
    let mut k: usize = 0;
    assert(order@.skip(0) =~= order@);
    assert(taken@ + picks(field@, order@, apart, slots as nat, budget as nat) =~= picks(
        field@,
        order@,
        apart,
        slots as nat,
        budget as nat,
    ));
    while k < order.len() && taken.len() < slots
        invariant
            k <= order@.len(),
            taken@.len() <= slots,
            explored <= budget,
            room == some_room(field@),
            forall|j: int| 0 <= j < order@.len() ==> (#[trigger] order@[j]) < field@.len(),
            taken@ + picks(
                field@,
                order@.skip(k as int),
                apart,
                (slots - taken@.len()) as nat,
                (budget - explored) as nat,
            ) == picks(field@, order@, apart, slots as nat, budget as nat),
        decreases order@.len() - k,
    {
        let i: usize = order[k];
        let ghost rest = order@.skip(k as int);
        assert(rest[0] == i);
        assert(rest.drop_first() =~= order@.skip(k + 1));
        let unmeasured = field[i].score.exploratory;
        let reserved = match apart {
            Some(a) => a == i,
            None => false,
        };
        let passed = room && field[i].full;
        if !reserved && !passed && !(unmeasured && explored >= budget) {
            let ghost before = taken@;
            if unmeasured {
                explored = explored + 1;
            }
            taken.push(i);
            proof {
                let tail = picks(
                    field@,
                    order@.skip(k + 1),
                    apart,
                    (slots - taken@.len()) as nat,
                    (budget - explored) as nat,
                );
                assert(before + (seq![i] + tail) =~= taken@ + tail);
            }
        }
        k = k + 1;
    }
    proof {
        let tail = picks(
            field@,
            order@.skip(k as int),
            apart,
            (slots - taken@.len()) as nat,
            (budget - explored) as nat,
        );
        assert(taken@ + tail =~= taken@);
    }
    taken
}

/// Chooses up to `want` of the contenders, in round `epoch`.
pub fn choose_peers(field: &Vec<Contender>, want: usize, epoch: u64) -> (r: Selection)
    requires
        want >= 1,
    ensures
        r.peers@ == lineup(field@, want, epoch),
{
    let order = rank(field);
    proof {
        assert(field@.len() == field.len());
        lemma_ranking_complete(field@, field@.len());
    }
    let room = anybody_has_room(field);
    let apart = most_starved(field, want, epoch, room);
    let cap: usize = explore_slots(want);
    let mut slots: usize = want;
    let mut budget: usize = cap;
    match apart {
        Some(_) => {
            slots = want - 1;
            budget = cap - 1;
        },
        None => {},
    }
    let mut places = take_in_order(field, &order, apart, slots, budget, room);
    match apart {
        Some(i) => {
            places.push(i);
        },
        None => {},
    }
    proof {
        lemma_chosen_places(field@, want, epoch);
    }
    let mut peers: Vec<SelectedPeer> = Vec::new();
    let mut k: usize = 0;
    while k < places.len()
        invariant
            k <= places@.len(),
            places@ == chosen(field@, want, epoch),
            apart == claimant(field@, want, epoch),
            forall|j: int| 0 <= j < places@.len() ==> (#[trigger] places@[j]) < field@.len(),
            peers@ == lineup(field@, want, epoch).take(k as int),
        decreases places@.len() - k,
    {
        let i: usize = places[k];
        let reserved = match apart {
            Some(a) => a == i,
            None => false,
        };
        let headroom: u32 = field[i].score.headroom;
        peers.push(
            SelectedPeer {
                peer_id: field[i].peer_id,
                rank: k as u32,
                max_concurrency: if headroom == 0 {
                    1
                } else {
                    headroom
                },
                exploratory: field[i].score.exploratory || reserved,
            },
        );
        k = k + 1;
        assert(peers@ =~= lineup(field@, want, epoch).take(k as int));
    }
    assert(lineup(field@, want, epoch).take(k as int) =~= lineup(field@, want, epoch));
    Selection { peers }
}

proof fn lemma_picks_from_order(
    field: Seq<Contender>,
    order: Seq<usize>,
    apart: Option<usize>,
    slots: nat,
    budget: nat,
)
    ensures
        forall|j: int|
            0 <= j < picks(field, order, apart, slots, budget).len() ==> order.contains(
                #[trigger] picks(field, order, apart, slots, budget)[j],
            ) && apart != Some(picks(field, order, apart, slots, budget)[j]) && !passed_over(
                field,
                picks(field, order, apart, slots, budget)[j] as int,
            ),
        picks(field, order, apart, slots, budget).len() <= slots,
        order.no_duplicates() ==> picks(field, order, apart, slots, budget).no_duplicates(),
    decreases order.len(),
{
    if order.len() > 0 && slots > 0 {
        let i = order[0];
        let rest = order.drop_first();
        let unmeasured = field[i as int].score.exploratory;
        assert forall|m: usize| rest.contains(m) implies order.contains(m) by {
            let j = choose|j: int| 0 <= j < rest.len() && rest[j] == m;
            assert(order[j + 1] == m);
        }
        if order.no_duplicates() {
            assert(rest.no_duplicates());
            assert(!rest.contains(i));
        }
        if apart == Some(i) || passed_over(field, i as int) || (unmeasured && budget == 0) {
            lemma_picks_from_order(field, rest, apart, slots, budget);
        } else {
            let left = if unmeasured {
                (budget - 1) as nat
            } else {
                budget
            };
            lemma_picks_from_order(field, rest, apart, (slots - 1) as nat, left);
            let tail = picks(field, rest, apart, (slots - 1) as nat, left);
            assert(order.contains(i));
            assert forall|j: int| 0 <= j < (seq![i] + tail).len() implies order.contains(
                #[trigger] (seq![i] + tail)[j],
            ) && apart != Some((seq![i] + tail)[j]) && !passed_over(
                field,
                (seq![i] + tail)[j] as int,
            ) by {
                if j > 0 {
                    assert((seq![i] + tail)[j] == tail[j - 1]);
                }
            }
        }
    }
}

/// The chosen are contenders, nobody twice, no more than wanted, and nobody who is passed over.
pub proof fn lemma_chosen_places(field: Seq<Contender>, want: usize, epoch: u64)
    requires
        field.len() <= usize::MAX,
        want >= 1,
    ensures
        chosen(field, want, epoch).len() <= want,
        chosen(field, want, epoch).no_duplicates(),
        forall|j: int|
            0 <= j < chosen(field, want, epoch).len() ==> (#[trigger] chosen(
                field,
                want,
                epoch,
            )[j]) < field.len() && !passed_over(field, chosen(field, want, epoch)[j] as int),
        claimant(field, want, epoch) matches Some(i) ==> owed(field, want, epoch, i as int) && i
            < field.len(),
{
    lemma_ranking_complete(field, field.len());
    let apart = claimant(field, want, epoch);
    let order = ranking(field, field.len());
    let slots = if apart is Some {
        (want - 1) as nat
    } else {
        want as nat
    };
    let budget = exploration_budget(field, want, epoch);
    lemma_picks_from_order(field, order, apart, slots, budget);
    let taken = picks(field, order, apart, slots, budget);
    assert forall|j: int| 0 <= j < taken.len() implies (#[trigger] taken[j]) < field.len() by {
        assert(order.contains(taken[j]));
    }
}

} // verus!
