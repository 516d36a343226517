//! The calls of a selector, and that equal histories give equal answers.

use vstd::prelude::*;

use crate::address::TraversalKind;
use crate::config::ClockSource;
use crate::determinism::{
    choices_are_determined, learning_is_determined, newcomers_are_determined,
    selections_are_determined,
};
use crate::formula::steady;
use crate::identity::PeerId;
use crate::measure::Arithmetic;
use crate::pool_event::PoolEvent;
use crate::registry::Peer;
use crate::state::SelectorState;
use crate::types::{Candidate, Provenance, SelectedPeer, TransferOutcome};

verus! {

/// A call of a selector.
pub enum Call {
    /// Sources are selected.
    Select {
        /// Among whom.
        candidates: Seq<Candidate>,
        /// How many.
        want: usize,
    },
    /// Sources are asked for again.
    Rebalance {
        /// Who is busy already.
        active: Seq<PeerId>,
        /// How many are wanted.
        want: usize,
        /// For how many ranges.
        need: nat,
    },
    /// An outcome is recorded.
    Record {
        /// The outcome.
        outcome: TransferOutcome,
    },
    /// The pool reports.
    Hear {
        /// What.
        event: PoolEvent,
    },
    /// The path of a link is reported.
    Classify {
        /// To whom.
        peer_id: PeerId,
        /// The path.
        class: TraversalKind,
    },
    /// A peer is removed.
    Remove {
        /// Who.
        peer_id: PeerId,
    },
    /// Ranges are dispatched outside of a selection.
    Dispatch {
        /// To whom.
        peer_id: PeerId,
        /// How many.
        count: u32,
    },
    /// A candidate of the host's is taken in.
    Upsert {
        /// Who.
        candidate: Candidate,
    },
    /// Another clock is put in.
    SetClock {
        /// The clock.
        clock: ClockSource,
    },
}

impl Call {
    /// Whether sources are chosen.
    pub open spec fn chooses(self) -> bool {
        self is Select || self is Rebalance
    }

    /// Whether the call is one that a selector in this state takes: somebody is wanted, and no more
    /// peers are named or registered than can be counted.
    pub open spec fn fits(self, state: SelectorState) -> bool {
        match self {
            Call::Select { candidates, want } => want >= 1 && candidates.len() <= usize::MAX,
            Call::Rebalance { want, .. } => want >= 1 && state.peers.len() <= usize::MAX,
            _ => true,
        }
    }

    /// Whether `after` is what the call leaves of `before`, and `answer` what it gives: nobody, where
    /// it does not choose.
    pub open spec fn leads<A: Arithmetic>(
        self,
        kit: &A,
        before: SelectorState,
        answer: Seq<SelectedPeer>,
        after: SelectorState,
    ) -> bool {
        &&& self.chooses() || answer == Seq::<SelectedPeer>::empty()
        &&& match self {
            Call::Select { candidates, want } => exists|now: u64| #[trigger]
                before.clock.reads(now) && before.selects(
                    kit,
                    candidates,
                    want,
                    now,
                    answer,
                    after,
                ),
            Call::Rebalance { active, want, need } => exists|now: u64| #[trigger]
                before.clock.reads(now) && before.rebalances(
                    kit,
                    active,
                    want,
                    need,
                    now,
                    answer,
                    after,
                ),
            Call::Record { outcome } => exists|now: u64| #[trigger]
                before.clock.reads(now) && before.records(kit, outcome, now, after),
            Call::Hear { event } => exists|now: u64| #[trigger]
                before.clock.reads(now) && before.hears(kit, event, now, after),
            Call::Classify { peer_id, class } => exists|now: u64| #[trigger]
                before.clock.reads(now) && before.classes(kit, peer_id, class, now, after),
            Call::Remove { peer_id } => after == before.removed(peer_id),
            Call::Dispatch { peer_id, count } => exists|now: u64| #[trigger]
                before.clock.reads(now) && after == before.loaded(peer_id, count, now),
            Call::Upsert { candidate } => exists|now: u64| #[trigger]
                before.clock.reads(now) && before.upserts(
                    kit,
                    candidate,
                    Provenance::Manual,
                    now,
                    after,
                ),
            Call::SetClock { clock } => after == (SelectorState { clock, ..before }),
        }
    }
}

/// Whether a selector that goes through these states gives these answers to these calls.
pub open spec fn runs<A: Arithmetic>(
    kit: &A,
    calls: Seq<Call>,
    states: Seq<SelectorState>,
    answers: Seq<Seq<SelectedPeer>>,
) -> bool {
    &&& states.len() == calls.len() + 1
    &&& answers.len() == calls.len()
    &&& forall|k: int|
        0 <= k < calls.len() ==> (#[trigger] calls[k]).leads(
            kit,
            states[k],
            answers[k],
            states[k + 1],
        )
}

/// Whether a selector starts on a manual clock and is never given another kind.
pub open spec fn on_manual_clocks(calls: Seq<Call>, states: Seq<SelectorState>) -> bool {
    &&& states[0].clock is Manual
    &&& forall|k: int|
        0 <= k < calls.len() ==> ((#[trigger] calls[k]) matches Call::SetClock { clock } ==> clock is
            Manual)
}

proof fn lemma_dispatched_clock(state: SelectorState, selected: Seq<SelectedPeer>, now: u64)
    ensures
        state.dispatched_all(selected, now).clock == state.clock,
    decreases selected.len(),
{
    if selected.len() > 0 {
        lemma_dispatched_clock(state, selected.drop_last(), now);
    }
}

proof fn lemma_chosen_clock<A: Arithmetic>(
    kit: &A,
    before: SelectorState,
    pool: Seq<PeerId>,
    active: Seq<PeerId>,
    want: usize,
    now: u64,
    answer: Seq<SelectedPeer>,
    after: SelectorState,
)
    requires
        before.chooses(kit, pool, active, want, now, answer, after),
    ensures
        after.clock == before.clock,
{
    let calm = before.calmed(now);
    lemma_dispatched_clock(calm.next_round(calm.contestants(pool).len()), answer, now);
}

proof fn lemma_upserted_clock<A: Arithmetic>(
    kit: &A,
    before: SelectorState,
    candidates: Seq<Candidate>,
    now: u64,
    after: SelectorState,
)
    requires
        before.upserts_all(kit, candidates, now, after),
    ensures
        after.clock == before.clock,
    decreases candidates.len(),
{
    if candidates.len() > 0 {
        let mid = choose|mid: SelectorState|
            before.upserts_all(kit, candidates.drop_last(), now, mid) && #[trigger] mid.upserts(
                kit,
                candidates.last(),
                Provenance::Dht,
                now,
                after,
            );
        lemma_upserted_clock(kit, before, candidates.drop_last(), now, mid);
    }
}

/// The clock stays, unless another is put in.
proof fn lemma_clock<A: Arithmetic>(
    kit: &A,
    call: Call,
    before: SelectorState,
    answer: Seq<SelectedPeer>,
    after: SelectorState,
)
    requires
        call.leads(kit, before, answer, after),
    ensures
        after.clock == (match call {
            Call::SetClock { clock } => clock,
            _ => before.clock,
        }),
{
    match call {
        Call::Select { candidates, want } => {
            let now = choose|now: u64| #[trigger]
                before.clock.reads(now) && before.selects(
                    kit,
                    candidates,
                    want,
                    now,
                    answer,
                    after,
                );
            let pool = candidates.map_values(|c: Candidate| c.peer_id);
            let mid = choose|mid: SelectorState| #[trigger]
                before.upserts_all(kit, candidates, now, mid) && mid.chooses(
                    kit,
                    pool,
                    Seq::empty(),
                    want,
                    now,
                    answer,
                    after,
                );
            lemma_upserted_clock(kit, before, candidates, now, mid);
            lemma_chosen_clock(kit, mid, pool, Seq::empty(), want, now, answer, after);
        },
        Call::Rebalance { active, want, need } => {
            let now = choose|now: u64| #[trigger]
                before.clock.reads(now) && before.rebalances(
                    kit,
                    active,
                    want,
                    need,
                    now,
                    answer,
                    after,
                );
            let slots: usize = if need == 0 {
                1
            } else if need < want {
                need as usize
            } else {
                want
            };
            lemma_chosen_clock(kit, before, before.everyone(), active, slots, now, answer, after);
        },
        _ => {},
    }
}

proof fn lemma_manual<A: Arithmetic>(
    kit: &A,
    calls: Seq<Call>,
    states: Seq<SelectorState>,
    answers: Seq<Seq<SelectedPeer>>,
    k: int,
)
    requires
        runs(kit, calls, states, answers),
        on_manual_clocks(calls, states),
        0 <= k < states.len(),
    ensures
        states[k].clock is Manual,
    decreases k,
{
    if k > 0 {
        lemma_manual(kit, calls, states, answers, k - 1);
        assert(calls[k - 1].leads(kit, states[k - 1], answers[k - 1], states[(k - 1) + 1]));
        lemma_clock(kit, calls[k - 1], states[k - 1], answers[k - 1], states[k]);
    }
}

proof fn lemma_one_answer<A: Arithmetic>(
    kit: &A,
    call: Call,
    before: SelectorState,
    answer: Seq<SelectedPeer>,
    after: SelectorState,
    other_answer: Seq<SelectedPeer>,
    other_after: SelectorState,
)
    requires
        steady(kit),
        before.clock is Manual,
        call.leads(kit, before, answer, after),
        call.leads(kit, before, other_answer, other_after),
    ensures
        answer == other_answer,
        after == other_after,
{
    let now = before.clock->Manual_0;
    match call {
        Call::Select { candidates, want } => {
            assert(before.selects(kit, candidates, want, now, answer, after));
            assert(before.selects(kit, candidates, want, now, other_answer, other_after));
            selections_are_determined(
                kit,
                before,
                candidates,
                want,
                now,
                answer,
                after,
                other_answer,
                other_after,
            );
        },
        Call::Rebalance { active, want, need } => {
            assert(before.rebalances(kit, active, want, need, now, answer, after));
            assert(before.rebalances(kit, active, want, need, now, other_answer, other_after));
            choices_are_determined(
                kit,
                before,
                before.everyone(),
                active,
                if need == 0 {
                    1
                } else if need < want {
                    need as usize
                } else {
                    want
                },
                now,
                answer,
                after,
                other_answer,
                other_after,
            );
        },
        Call::Record { outcome } => {
            assert(before.records(kit, outcome, now, after));
            assert(before.records(kit, outcome, now, other_after));
            learning_is_determined(kit, before, outcome, now, after, other_after);
        },
        Call::Hear { event } => {
            assert(before.hears(kit, event, now, after));
            assert(before.hears(kit, event, now, other_after));
            if let PoolEvent::PeerAdded { peer_id, .. } = event {
                if !before.knows(peer_id) {
                    let newcomer = Peer::linked(peer_id, Provenance::Gossip, now);
                    newcomers_are_determined(kit, before, newcomer, now, after, other_after);
                }
            }
        },
        Call::Classify { peer_id, class } => {
            assert(before.classes(kit, peer_id, class, now, after));
            assert(before.classes(kit, peer_id, class, now, other_after));
            if !before.knows(peer_id) {
                let newcomer = Peer::reported(peer_id, class, now);
                newcomers_are_determined(kit, before, newcomer, now, after, other_after);
            }
        },
        Call::Upsert { candidate } => {
            assert(before.upserts(kit, candidate, Provenance::Manual, now, after));
            assert(before.upserts(kit, candidate, Provenance::Manual, now, other_after));
            if !before.knows(candidate.peer_id) {
                let newcomer = Peer::introduced(candidate, Provenance::Manual, now);
                newcomers_are_determined(kit, before, newcomer, now, after, other_after);
            }
        },
        Call::Remove { .. } => {},
        Call::Dispatch { .. } => {},
        Call::SetClock { .. } => {},
    }
}

proof fn lemma_same_prefix<A: Arithmetic>(
    kit: &A,
    calls: Seq<Call>,
    states: Seq<SelectorState>,
    answers: Seq<Seq<SelectedPeer>>,
    other_states: Seq<SelectorState>,
    other_answers: Seq<Seq<SelectedPeer>>,
    n: int,
)
    requires
        steady(kit),
        runs(kit, calls, states, answers),
        runs(kit, calls, other_states, other_answers),
        states[0] == other_states[0],
        on_manual_clocks(calls, states),
        0 <= n <= calls.len(),
    ensures
        forall|k: int| 0 <= k <= n ==> #[trigger] states[k] == other_states[k],
        forall|k: int| 0 <= k < n ==> #[trigger] answers[k] == other_answers[k],
    decreases n,
{
    if n > 0 {
        lemma_same_prefix(kit, calls, states, answers, other_states, other_answers, n - 1);
        let call = calls[n - 1];
        assert(states[n - 1] == other_states[n - 1]);
        lemma_manual(kit, calls, states, answers, n - 1);
        lemma_one_answer(
            kit,
            call,
            states[n - 1],
            answers[n - 1],
            states[n],
            other_answers[n - 1],
            other_states[n],
        );
    }
}

/// Equal histories give equal answers: two selectors that start from the same state, run on manual
/// clocks and receive the same calls answer each of them alike, be it a selection or a rebalancing,
/// and go through the same states. The arithmetic is to be steady.
pub proof fn equal_histories_give_equal_answers<A: Arithmetic>(
    kit: &A,
    calls: Seq<Call>,
    states: Seq<SelectorState>,
    answers: Seq<Seq<SelectedPeer>>,
    other_states: Seq<SelectorState>,
    other_answers: Seq<Seq<SelectedPeer>>,
)
    requires
        steady(kit),
        runs(kit, calls, states, answers),
        runs(kit, calls, other_states, other_answers),
        states[0] == other_states[0],
        on_manual_clocks(calls, states),
    ensures
        answers == other_answers,
        states == other_states,
{
    lemma_same_prefix(
        kit,
        calls,
        states,
        answers,
        other_states,
        other_answers,
        calls.len() as int,
    );
    assert(answers =~= other_answers);
    assert(states =~= other_states);
}

} // verus!
