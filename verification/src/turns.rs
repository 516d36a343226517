//! That everybody gets a turn, in whatever order the contenders of a round are named.

use vstd::prelude::*;
use vstd::set_lib::{lemma_int_range, lemma_len_subset, set_int_range};

use crate::ranking::{
    chosen, claimant, lemma_chosen_places, outwaits, passed_over, starved, Contender,
};
use crate::ranking_laws::{
    chosen_in, consecutive, lemma_claimant_chosen, passed_in, somebody_is_chosen,
    the_starved_are_served, Round,
};

verus! {

/// One round of choosing among numbered peers.
pub struct Sitting {
    /// The round.
    pub round: Round,
    /// At which place of the field each peer is.
    pub seat: Seq<int>,
    /// Which peer is at each place of the field.
    pub guest: Seq<int>,
}

impl Sitting {
    /// The contender of a peer.
    pub open spec fn of(self, i: int) -> Contender {
        self.round.field[self.seat[i]]
    }
}

/// Whether each of `n` peers has a place of its own.
pub open spec fn seated(sitting: Sitting, n: nat) -> bool {
    &&& sitting.round.field.len() == n
    &&& forall|i: int|
        0 <= i < n ==> 0 <= (#[trigger] sitting.seat[i]) < n && sitting.guest[sitting.seat[i]] == i
    &&& forall|j: int|
        0 <= j < n ==> 0 <= (#[trigger] sitting.guest[j]) < n && sitting.seat[sitting.guest[j]] == j
}

/// Whether the `i`-th peer is chosen in the `k`-th sitting.
pub open spec fn served_in(sittings: Seq<Sitting>, k: int, i: int) -> bool {
    let round = sittings[k].round;
    chosen(round.field, round.want, round.epoch).contains(sittings[k].seat[i] as usize)
}

/// Whether the `i`-th peer is passed over in the `k`-th sitting.
pub open spec fn skipped_in(sittings: Seq<Sitting>, k: int, i: int) -> bool {
    passed_over(sittings[k].round.field, sittings[k].seat[i])
}

/// Whether sittings of the same peers follow each other: slots are short, nobody is a bad source, and
/// whoever is chosen has that round noted.
pub open spec fn in_succession(sittings: Seq<Sitting>, n: nat) -> bool {
    &&& n <= usize::MAX
    &&& forall|k: int|
        #![trigger sittings[k]]
        0 <= k < sittings.len() ==> {
            &&& seated(sittings[k], n)
            &&& 1 <= sittings[k].round.want < n
            &&& sittings[k].round.epoch == sittings[0].round.epoch + k
        }
    &&& forall|k: int, i: int|
        #![trigger sittings[k].of(i)]
        0 <= k < sittings.len() && 0 <= i < n ==> {
            &&& !sittings[k].of(i).score.bad()
            &&& sittings[k].of(i).last_selected < sittings[k].round.epoch
            &&& k + 1 < sittings.len() ==> sittings[k + 1].of(i).last_selected == (if served_in(
                sittings,
                k,
                i,
            ) {
                sittings[k].round.epoch
            } else {
                sittings[k].of(i).last_selected
            })
        }
}

proof fn lemma_wait_grows(sittings: Seq<Sitting>, n: nat, i: int, k: int)
    requires
        in_succession(sittings, n),
        0 <= i < n,
        0 <= k < sittings.len(),
        forall|m: int| 0 <= m < k ==> !#[trigger] served_in(sittings, m, i),
    ensures
        sittings[k].of(i).waited(sittings[k].round.epoch) >= k + 1,
        sittings[k].of(i).last_selected == sittings[0].of(i).last_selected,
    decreases k,
{
    assert(sittings[k].of(i).last_selected < sittings[k].round.epoch);
    if k > 0 {
        lemma_wait_grows(sittings, n, i, k - 1);
        assert(!served_in(sittings, k - 1, i));
        assert(sittings[k - 1].of(i).last_selected < sittings[k - 1].round.epoch);
        assert(sittings[(k - 1) + 1].of(i).last_selected == sittings[k - 1].of(i).last_selected);
    }
}

proof fn lemma_served_is_recent(sittings: Seq<Sitting>, n: nat, i: int, k: int, l: int)
    requires
        in_succession(sittings, n),
        0 <= i < n,
        0 <= k < l < sittings.len(),
        served_in(sittings, k, i),
    ensures
        sittings[l].of(i).last_selected >= sittings[k].round.epoch,
    decreases l,
{
    assert(sittings[l - 1].of(i).last_selected < sittings[l - 1].round.epoch);
    if k < l - 1 {
        lemma_served_is_recent(sittings, n, i, k, l - 1);
    }
    assert(sittings[(l - 1) + 1].of(i).last_selected == sittings[l].of(i).last_selected);
}

/// Who is served in place of a peer that waits: the guest whose turn it is.
spec fn served_first(sitting: Sitting) -> int {
    let round = sitting.round;
    sitting.guest[claimant(round.field, round.want, round.epoch)->0 as int]
}

proof fn lemma_served_first(sittings: Seq<Sitting>, n: nat, i: int, k: int)
    requires
        in_succession(sittings, n),
        0 <= i < n,
        n <= k < sittings.len(),
        !skipped_in(sittings, k, i),
        forall|m: int| 0 <= m <= k ==> !#[trigger] served_in(sittings, m, i),
    ensures
        ({
            let c = served_first(sittings[k]);
            &&& 0 <= c < n
            &&& c != i
            &&& served_in(sittings, k, c)
            &&& sittings[k].of(c).waited(sittings[k].round.epoch) >= sittings[k].of(i).waited(
                sittings[k].round.epoch,
            )
        }),
{
    lemma_wait_grows(sittings, n, i, k);
    let sitting = sittings[k];
    let r = sitting.round;
    let place = sitting.seat[i];
    assert(!sitting.of(i).score.bad());
    assert(starved(r.field, r.epoch, place));
    the_starved_are_served(r.field, r.want, r.epoch, place);
    lemma_claimant_chosen(r);
    let c = claimant(r.field, r.want, r.epoch)->0;
    assert(outwaits(r.field, r.epoch, c as int, place));
    let guest = sitting.guest[c as int];
    assert(sitting.seat[guest] == c as int);
    assert(served_in(sittings, k, guest));
    assert(!served_in(sittings, k, i));
}

/// Nobody starves: of `n` peers that compete round after round, in whatever order, each is chosen at
/// least once in any `2 * n - 1` consecutive rounds in none of which it is passed over for being
/// saturated.
pub proof fn everybody_is_served(sittings: Seq<Sitting>, n: nat, i: int)
    requires
        in_succession(sittings, n),
        sittings.len() >= 2 * n - 1,
        0 <= i < n,
        forall|k: int| 0 <= k < 2 * n - 1 ==> !#[trigger] skipped_in(sittings, k, i),
    ensures
        exists|k: int| 0 <= k < 2 * n - 1 && #[trigger] served_in(sittings, k, i),
{
    if forall|k: int| 0 <= k < 2 * n - 1 ==> !#[trigger] served_in(sittings, k, i) {
        assert(1 <= sittings[0].round.want < n);
        let served = Seq::new((n - 1) as nat, |d: int| served_first(sittings[n + d]));
        assert forall|d: int| 0 <= d < n - 1 implies {
            &&& 0 <= #[trigger] served[d] < n
            &&& served[d] != i
            &&& served_in(sittings, n + d, served[d])
            &&& sittings[n + d].of(served[d]).waited(sittings[n + d].round.epoch)
                >= sittings[n + d].of(i).waited(sittings[n + d].round.epoch)
        } by {
            lemma_served_first(sittings, n, i, n + d);
        }
        assert forall|d: int, e: int| 0 <= d < e < n - 1 implies #[trigger] served[d]
            != #[trigger] served[e] by {
            if served[d] == served[e] {
                lemma_served_is_recent(sittings, n, served[d], n + d, n + e);
                lemma_wait_grows(sittings, n, i, n + e);
                assert(sittings[n + e].round.epoch == sittings[0].round.epoch + n + e);
                assert(sittings[n + d].round.epoch == sittings[0].round.epoch + n + d);
            }
        }
        let first = sittings[0].round;
        somebody_is_chosen(first.field, first.want, first.epoch);
        lemma_chosen_places(first.field, first.want, first.epoch);
        let place = chosen(first.field, first.want, first.epoch)[0];
        let j = sittings[0].guest[place as int];
        assert(sittings[0].seat[j] == place as int);
        assert(chosen(first.field, first.want, first.epoch).contains(place));
        assert(served_in(sittings, 0, j));
        assert(!served_in(sittings, 0, i));
        assert forall|d: int| 0 <= d < n - 1 implies #[trigger] served[d] != j by {
            if served[d] == j {
                lemma_served_is_recent(sittings, n, j, 0, n + d);
                lemma_wait_grows(sittings, n, i, n + d);
                assert(sittings[n + d].round.epoch == sittings[0].round.epoch + n + d);
            }
        }
        let others = set_int_range(0, n as int).remove(i).remove(j);
        lemma_int_range(0, n as int);
        served.unique_seq_to_set();
        assert(served.to_set().subset_of(others));
        lemma_len_subset(served.to_set(), others);
    }
}

/// Nobody starves: of `n` contenders that compete round after round, each is chosen at least once
/// in any `2 * n - 1` consecutive rounds in none of which it is passed over for being saturated.
pub proof fn everybody_gets_a_turn(rounds: Seq<Round>, n: nat, i: int)
    requires
        consecutive(rounds, n),
        rounds.len() >= 2 * n - 1,
        0 <= i < n,
        forall|k: int| 0 <= k < 2 * n - 1 ==> !#[trigger] passed_in(rounds, k, i),
    ensures
        exists|k: int| 0 <= k < 2 * n - 1 && #[trigger] chosen_in(rounds, k, i),
{
    let row = Seq::new(n, |j: int| j);
    let sittings = Seq::new(
        rounds.len(),
        |k: int| Sitting { round: rounds[k], seat: row, guest: row },
    );
    assert(in_succession(sittings, n)) by {
        assert forall|k: int| #![trigger sittings[k]] 0 <= k < sittings.len() implies {
            &&& seated(sittings[k], n)
            &&& 1 <= sittings[k].round.want < n
            &&& sittings[k].round.epoch == sittings[0].round.epoch + k
        } by {
            assert(rounds[k].field.len() == n);
        }
        assert forall|k: int, i: int|
            #![trigger sittings[k].of(i)]
            0 <= k < sittings.len() && 0 <= i < n implies {
            &&& !sittings[k].of(i).score.bad()
            &&& sittings[k].of(i).last_selected < sittings[k].round.epoch
            &&& k + 1 < sittings.len() ==> sittings[k + 1].of(i).last_selected == (if served_in(
                sittings,
                k,
                i,
            ) {
                sittings[k].round.epoch
            } else {
                sittings[k].of(i).last_selected
            })
        } by {
            assert(sittings[k].of(i) == rounds[k].field[i]);
        }
    }
    assert forall|k: int| 0 <= k < 2 * n - 1 implies !#[trigger] skipped_in(sittings, k, i) by {
        assert(!passed_in(rounds, k, i));
    }
    everybody_is_served(sittings, n, i);
    let k = choose|k: int| 0 <= k < 2 * n - 1 && #[trigger] served_in(sittings, k, i);
    assert(chosen_in(rounds, k, i));
}

} // verus!
