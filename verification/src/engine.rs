//! The selector: it chooses sources, and learns from what they deliver.

use vstd::prelude::*;

use crate::address::TraversalKind;
use crate::config::{ClockSource, SelectorConfig};
use crate::dial::{is_target, peer_target, PeerTarget};
use crate::doubles::Doubles;
use crate::draw::{number_at, position_after};
use crate::formula::Term;
use crate::identity::PeerId;
use crate::judging::{exploration_bonus, finish};
use crate::measure::{Arithmetic, Measure, ZERO};
use crate::observe::{PeerSnapshot, SelectorSnapshot};
use crate::peer_table::PeerTable;
use crate::pool_event::{PoolEvent, PoolRemovalReason};
use crate::quality::PeerQuality;
use crate::ranking::{choose_peers, chosen, lemma_chosen_places, Contender};
use crate::registry::{
    bounded, distinct, lemma_place, place, registered, sound, views, Peer, Registry,
};
use crate::registry_laws::{lemma_settled_places, the_bound_is_hard};
use crate::scoring::{
    is_judgement, score_peer, PeerClass, RelayModel, SaturationModel, ScoredPeer, BAD_SOURCE_DROP,
};
use crate::state::{absorbs, without, DispatchRecord, SelectorState};
use crate::types::{
    Candidate, ContentRequest, OutcomeResult, Provenance, RangePlanDelta, SelectedPeer, Selection,
    TransferOutcome,
};

verus! {

/// A selector, with the arithmetic it computes with.
pub struct PeerSelector<A: Arithmetic = Doubles> {
    config: SelectorConfig,
    arithmetic: A,
    registry: Registry,
    saturation: SaturationModel,
    relay: RelayModel,
    drawn: u128,
    epoch: u64,
    last_selected: PeerTable<u64>,
    dispatched: PeerTable<DispatchRecord>,
}

impl<A: Arithmetic> View for PeerSelector<A> {
    type V = SelectorState;

    closed spec fn view(&self) -> SelectorState {
        SelectorState {
            clock: self.config.clock,
            seed: self.config.seed(),
            drawn: self.drawn,
            bound: self.registry.bound(),
            peers: self.registry.peers(),
            saturation: self.saturation,
            relay: self.relay,
            epoch: self.epoch,
            last_selected: self.last_selected@,
            dispatched: self.dispatched@,
        }
    }
}

/// Folds one measured outcome into what was learned of a peer.
fn apply_outcome<A: Arithmetic>(
    quality: &mut PeerQuality,
    outcome: &TransferOutcome,
    throughput: Option<Measure>,
    kit: &A,
)
    ensures
        absorbs(kit, *old(quality), *outcome, throughput, *final(quality)),
{
    match outcome.result {
        OutcomeResult::Success => {
            match throughput {
                Some(bps) => {
                    quality.observe_throughput(bps, kit);
                },
                None => {},
            }
            match outcome.rtt_ms {
                Some(ms) => {
                    let latency = Term::count(ms, kit).value;
                    quality.observe_rtt(latency, kit);
                },
                None => {},
            }
            quality.observe_result(true, false, kit);
        },
        OutcomeResult::Failure { reason } => {
            if reason.blames_peer() {
                quality.observe_result(false, reason.is_hard(), kit);
            }
        },
        OutcomeResult::Interrupted { .. } => {
            quality.observe_result(false, false, kit);
        },
    }
    quality.bump_samples();
}

impl PeerSelector<Doubles> {
    /// A selector that knows nobody and computes in doubles.
    pub fn new(config: SelectorConfig) -> (r: PeerSelector<Doubles>)
        ensures
            r.wf(),
            r@ == SelectorState::initial(
                config.clock,
                config.seed(),
                if config.registry_capacity == 0 {
                    1
                } else {
                    config.registry_capacity as nat
                },
            ),
    {
        PeerSelector::with_arithmetic(config, Doubles)
    }
}

impl<A: Arithmetic> PeerSelector<A> {
    /// The arithmetic.
    pub closed spec fn kit(&self) -> &A {
        &self.arithmetic
    }

    /// Whether the parts agree, and nobody who left is still to be forgotten.
    pub closed spec fn intact(&self) -> bool {
        &&& self.registry.wf()
        &&& self.registry.departed() == Seq::<PeerId>::empty()
        &&& self.last_selected.wf()
        &&& self.dispatched.wf()
    }

    /// Whether the selector is sound.
    pub open spec fn wf(&self) -> bool {
        self.intact() && self@.coherent()
    }

    /// A selector that knows nobody, with another arithmetic.
    pub fn with_arithmetic(config: SelectorConfig, arithmetic: A) -> (r: PeerSelector<A>)
        ensures
            r.wf(),
            *r.kit() == arithmetic,
            r@ == SelectorState::initial(
                config.clock,
                config.seed(),
                if config.registry_capacity == 0 {
                    1
                } else {
                    config.registry_capacity as nat
                },
            ),
    {
        let registry = Registry::new(config.registry_capacity);
        PeerSelector {
            config,
            arithmetic,
            registry,
            saturation: SaturationModel::default(),
            relay: RelayModel::default(),
            drawn: 0,
            epoch: 0,
            last_selected: PeerTable::new(),
            dispatched: PeerTable::new(),
        }
    }

    /// The clock.
    pub fn clock(&self) -> (r: &ClockSource)
        ensures
            *r == self@.clock,
    {
        &self.config.clock
    }

    /// Puts another clock in.
    pub fn set_clock(&mut self, clock: ClockSource)
        requires
            old(self).wf(),
        ensures
            final(self).wf(),
            final(self).kit() == old(self).kit(),
            final(self)@ == (SelectorState { clock, ..old(self)@ }),
    {
        self.config.clock = clock;
    }

    fn now(&self) -> (r: u64)
        ensures
            self@.clock.reads(r),
    {
        self.config.clock.now()
    }

    /// Forgets whoever left the registry.
    fn prune(&mut self)
        requires
            old(self).registry.wf(),
            old(self).last_selected.wf(),
            old(self).dispatched.wf(),
        ensures
            final(self).intact(),
            final(self).kit() == old(self).kit(),
            final(self)@ == (SelectorState {
                last_selected: without(old(self)@.last_selected, old(self).registry.departed()),
                dispatched: without(old(self)@.dispatched, old(self).registry.departed()),
                ..old(self)@
            }),
    {
        let gone = self.registry.drain_evicted();
        let mut i: usize = 0;
        assert(gone@.take(0).to_set() =~= Set::<PeerId>::empty());
        assert(without(self.last_selected@, gone@.take(0)) =~= self.last_selected@);
        assert(without(self.dispatched@, gone@.take(0)) =~= self.dispatched@);
        while i < gone.len()
            invariant
                i <= gone@.len(),
                self.intact(),
                self.kit() == old(self).kit(),
                self.registry.peers() == old(self).registry.peers(),
                self.registry.bound() == old(self).registry.bound(),
                self@ == (SelectorState {
                    last_selected: without(old(self)@.last_selected, gone@.take(i as int)),
                    dispatched: without(old(self)@.dispatched, gone@.take(i as int)),
                    ..old(self)@
                }),
            decreases gone@.len() - i,
        {
            let ghost last_selected = self.last_selected@;
            let ghost dispatched = self.dispatched@;
            let _ = self.last_selected.remove(&gone[i]);
            let _ = self.dispatched.remove(&gone[i]);
            proof {
                let before = gone@.take(i as int);
                let after = gone@.take(i + 1);
                assert(after =~= before.push(gone@[i as int]));
                before.lemma_push_to_set_commute(gone@[i as int]);
                assert(without(old(self)@.last_selected, after) =~= last_selected.remove(
                    gone@[i as int],
                ));
                assert(without(old(self)@.dispatched, after) =~= dispatched.remove(
                    gone@[i as int],
                ));
            }
            i = i + 1;
        }
        assert(gone@.take(i as int) =~= gone@);
    }

    fn upsert_from(&mut self, candidate: &Candidate, provenance: Provenance, now: u64)
        requires
            old(self).wf(),
        ensures
            final(self).wf(),
            final(self).kit() == old(self).kit(),
            old(self)@.upserts(old(self).kit(), *candidate, provenance, now, final(self)@),
    {
        let ghost before = self@;
        let _ = self.registry.upsert_candidate(candidate, provenance, now, &self.arithmetic);
        let ghost gone = self.registry.departed();
        let ghost peers = self.registry.peers();
        self.prune();
        proof {
            if before.knows(candidate.peer_id) {
                lemma_nobody_forgotten(before);
                lemma_replaced_coherent(
                    before,
                    before.peer(candidate.peer_id).refreshed(*candidate, provenance),
                );
                assert(self@ =~= before.with_peer(
                    before.peer(candidate.peer_id).refreshed(*candidate, provenance),
                ));
            } else {
                let newcomer = Peer::introduced(*candidate, provenance, now);
                lemma_departed(
                    self.kit(),
                    before.peers.push(newcomer),
                    before.bound,
                    now,
                    peers,
                    gone,
                );
                lemma_taken_in_coherent(self.kit(), before, newcomer, now, self@, gone);
            }
        }
    }

    /// Chooses sources for a request among the candidates, who are registered first, and notes that
    /// they are dispatched to.
    pub fn select(&mut self, req: &ContentRequest, candidates: &[Candidate]) -> (r: Selection)
        requires
            old(self).wf(),
        ensures
            final(self).wf(),
            final(self).kit() == old(self).kit(),
            exists|now: u64| #[trigger]
                old(self)@.clock.reads(now) && old(self)@.selects(
                    old(self).kit(),
                    candidates@,
                    req.wanted(),
                    now,
                    r.peers@,
                    final(self)@,
                ),
    {
        let now: u64 = self.now();
        let ghost before = self@;
        let ghost kit = self.kit();
        let mut pool: Vec<PeerId> = Vec::new();
        let mut i: usize = 0;
        assert(candidates@.take(0).len() == 0);
        while i < candidates.len()
            invariant
                i <= candidates@.len(),
                self.wf(),
                self.kit() == kit,
                before.upserts_all(kit, candidates@.take(i as int), now, self@),
                pool@ == candidates@.take(i as int).map_values(|c: Candidate| c.peer_id),
            decreases candidates@.len() - i,
        {
            let ghost mid = self@;
            self.upsert_from(&candidates[i], Provenance::Dht, now);
            pool.push(candidates[i].peer_id);
            proof {
                let after = candidates@.take(i + 1);
                assert(after.drop_last() =~= candidates@.take(i as int));
                assert(after.last() == candidates@[i as int]);
                assert(mid.upserts(kit, after.last(), Provenance::Dht, now, self@));
                assert(before.upserts_all(kit, after, now, self@));
                assert(pool@ =~= after.map_values(|c: Candidate| c.peer_id));
            }
            i = i + 1;
        }
        assert(candidates@.take(i as int) =~= candidates@);
        let nobody: Vec<PeerId> = Vec::new();
        assert(nobody@ =~= Seq::<PeerId>::empty());
        self.select_over(&pool, nobody.as_slice(), req.effective_parallelism(), now)
    }

    /// Chooses sources for the ranges that still need one, among everyone registered. The active are
    /// discounted.
    pub fn rebalance(&mut self, req: &ContentRequest, active: &[PeerId], need: &RangePlanDelta) -> (r:
        Selection)
        requires
            old(self).wf(),
        ensures
            final(self).wf(),
            final(self).kit() == old(self).kit(),
            exists|now: u64| #[trigger]
                old(self)@.clock.reads(now) && old(self)@.rebalances(
                    old(self).kit(),
                    active@,
                    req.wanted(),
                    need.needed_ranges@.len(),
                    now,
                    r.peers@,
                    final(self)@,
                ),
    {
        let now: u64 = self.now();
        let entries = self.registry.iter();
        let ghost views_of = views(entries@);
        let mut pool: Vec<PeerId> = Vec::new();
        let mut i: usize = 0;
        while i < entries.len()
            invariant
                i <= entries@.len(),
                views_of == views(entries@),
                pool@ == views_of.take(i as int).map_values(|p: Peer| p.peer_id),
            decreases entries@.len() - i,
        {
            pool.push(entries[i].peer_id);
            assert(pool@ =~= views_of.take(i + 1).map_values(|p: Peer| p.peer_id));
            i = i + 1;
        }
        assert(views_of.take(i as int) =~= views_of);
        let wanted: usize = req.effective_parallelism();
        let needed: usize = need.len();
        let want: usize = if needed == 0 {
            1
        } else if needed < wanted {
            needed
        } else {
            wanted
        };
        self.select_over(&pool, active, want, now)
    }

    fn select_over(&mut self, pool: &Vec<PeerId>, active: &[PeerId], want: usize, now: u64) -> (r:
        Selection)
        requires
            old(self).wf(),
            want >= 1,
        ensures
            final(self).wf(),
            final(self).kit() == old(self).kit(),
            old(self)@.chooses(
                old(self).kit(),
                pool@,
                active@,
                want,
                now,
                r.peers@,
                final(self)@,
            ),
    {
        let ghost before = self@;
        self.registry.reclaim_stale_in_flight(now);
        let ghost calm = self@;
        proof {
            lemma_settled_places(before.peers, now);
            assert(calm =~= before.calmed(now));
            assert(calm.coherent());
        }
        let ids = self.contestants(pool);
        if ids.len() == 0 {
            return Selection::empty();
        }
        proof {
            lemma_contestants(calm, pool@);
        }
        let marks = self.judge(&ids);
        let bonus = exploration_bonus(&marks, &self.arithmetic);
        let field = self.field(&ids, active, &marks, bonus);
        self.epoch = self.epoch.wrapping_add(1);
        self.drawn = self.drawn.wrapping_add(ids.len() as u128);
        let ghost round = self@;
        proof {
            assert(ids@.len() == ids.len());
            assert(round =~= calm.next_round(ids@.len()));
            assert(calm.makes_field(self.kit(), ids@, active@, marks@, bonus, field@));
            assert(calm.is_field(self.kit(), ids@, active@, field@));
        }
        let selection = choose_peers(&field, want, self.epoch);
        proof {
            assert(field@.len() == field.len());
            lemma_chosen_places(field@, want, self.epoch);
            assert forall|k: int| 0 <= k < selection.peers@.len() implies round.knows(
                (#[trigger] selection.peers@[k]).peer_id,
            ) by {
                let place = chosen(field@, want, self.epoch)[k];
                assert(field@[place as int].peer_id == ids@[place as int]);
                assert(calm.eligible(ids@[place as int]));
            }
        }
        self.dispatch(&selection, now);
        selection
    }

    /// Those of the pool who may be chosen, each once.
    fn contestants(&self, pool: &Vec<PeerId>) -> (r: Vec<PeerId>)
        requires
            self.wf(),
        ensures
            r@ == self@.contestants(pool@),
    {
        let mut ids: Vec<PeerId> = Vec::new();
        let mut i: usize = 0;
        while i < pool.len()
            invariant
                i <= pool@.len(),
                self.wf(),
                ids@ == self@.contestants(pool@.take(i as int)),
            decreases pool@.len() - i,
        {
            assert(pool@.take(i + 1).drop_last() =~= pool@.take(i as int));
            assert(pool@.take(i + 1).last() == pool@[i as int]);
            match self.registry.get(&pool[i]) {
                Some(entry) => {
                    if entry.is_eligible() && !contains(ids.as_slice(), &pool[i]) {
                        ids.push(pool[i]);
                    }
                },
                None => {},
            }
            i = i + 1;
        }
        assert(pool@.take(i as int) =~= pool@);
        ids
    }

    /// The judgements on registered peers, before exploring is weighed in.
    fn judge(&self, ids: &Vec<PeerId>) -> (marks: Vec<ScoredPeer>)
        requires
            self.wf(),
            forall|i: int| 0 <= i < ids@.len() ==> self@.knows(#[trigger] ids@[i]),
        ensures
            self@.judged(self.kit(), ids@, marks@),
            forall|i: int|
                0 <= i < marks@.len() ==> (#[trigger] marks@[i]).wf() && marks@[i].effective_score
                    >= -BAD_SOURCE_DROP,
    {
        let mut marks: Vec<ScoredPeer> = Vec::new();
        let mut i: usize = 0;
        while i < ids.len()
            invariant
                i <= ids@.len(),
                self.wf(),
                forall|j: int| 0 <= j < ids@.len() ==> self@.knows(#[trigger] ids@[j]),
                marks@.len() == i,
                forall|j: int|
                    0 <= j < i ==> (#[trigger] marks@[j]).wf() && marks@[j].effective_score
                        >= -BAD_SOURCE_DROP && is_judgement(
                        self.kit(),
                        self@.peer(ids@[j]),
                        self@.saturation,
                        self@.relay,
                        Measure { bits: ZERO },
                        marks@[j],
                    ),
            decreases ids@.len() - i,
        {
            assert(self@.knows(ids@[i as int]));
            match self.registry.get(&ids[i]) {
                Some(entry) => {
                    let mark = score_peer(
                        entry,
                        &self.saturation,
                        &self.relay,
                        Measure { bits: ZERO },
                        &self.arithmetic,
                    );
                    marks.push(mark);
                },
                None => {},
            }
            i = i + 1;
        }
        marks
    }

    /// The contenders of a round.
    fn field(
        &self,
        ids: &Vec<PeerId>,
        active: &[PeerId],
        marks: &Vec<ScoredPeer>,
        bonus: Measure,
    ) -> (field: Vec<Contender>)
        requires
            self.wf(),
            marks@.len() == ids@.len(),
            forall|i: int|
                0 <= i < marks@.len() ==> (#[trigger] marks@[i]).wf() && marks@[i].effective_score
                    >= -BAD_SOURCE_DROP,
        ensures
            self@.makes_field(self.kit(), ids@, active@, marks@, bonus, field@),
    {
        let mut field: Vec<Contender> = Vec::new();
        let mut position: u128 = self.drawn;
        let seed: u64 = self.config.effective_seed();
        let mut i: usize = 0;
        while i < ids.len()
            invariant
                i <= ids@.len(),
                self.wf(),
                seed == self@.seed,
                position == position_after(self@.drawn, i as nat),
                marks@.len() == ids@.len(),
                forall|j: int|
                    0 <= j < marks@.len() ==> (#[trigger] marks@[j]).wf()
                        && marks@[j].effective_score >= -BAD_SOURCE_DROP,
                field@.len() == i,
                forall|j: int|
                    0 <= j < i ==> self@.enters(
                        self.kit(),
                        ids@[j],
                        j as nat,
                        marks@[j],
                        bonus,
                        active@.contains(ids@[j]),
                        #[trigger] field@[j],
                    ),
            decreases ids@.len() - i,
        {
            let score = finish(marks[i], bonus, contains(active, &ids[i]), &self.arithmetic);
            let last_selected: u64 = match self.last_selected.get(&ids[i]) {
                Some(round) => round,
                None => 0,
            };
            let jitter: u64 = number_at(seed, position);
            let full = marks[i].headroom == 0;
            field.push(Contender { peer_id: ids[i], score, full, last_selected, jitter });
            position = position.wrapping_add(1);
            i = i + 1;
        }
        field
    }

    /// Notes that the chosen are dispatched to.
    fn dispatch(&mut self, selection: &Selection, now: u64)
        requires
            old(self).wf(),
            forall|k: int|
                0 <= k < selection.peers@.len() ==> old(self)@.knows(
                    (#[trigger] selection.peers@[k]).peer_id,
                ),
        ensures
            final(self).wf(),
            final(self).kit() == old(self).kit(),
            final(self)@ == old(self)@.dispatched_all(selection.peers@, now),
    {
        let ghost before = self@;
        let mut k: usize = 0;
        assert(selection.peers@.take(0).len() == 0);
        while k < selection.peers.len()
            invariant
                k <= selection.peers@.len(),
                self.wf(),
                self.kit() == old(self).kit(),
                self@ == before.dispatched_all(selection.peers@.take(k as int), now),
                forall|j: int|
                    0 <= j < selection.peers@.len() ==> self@.knows(
                        (#[trigger] selection.peers@[j]).peer_id,
                    ),
            decreases selection.peers@.len() - k,
        {
            let selected = selection.peers[k];
            let ghost mid = self@;
            let ghost id = selected.peer_id;
            proof {
                assert(mid.knows(selection.peers@[k as int].peer_id));
                lemma_known_stamped(mid, id);
                lemma_replaced_coherent(mid, mid.peer(id).busier(selected.max_concurrency, now));
            }
            let record = match self.registry.get(&selected.peer_id) {
                Some(entry) => DispatchRecord {
                    in_flight_at_dispatch: entry.quality.in_flight,
                    class: PeerClass::of(entry.connection_class),
                },
                None => DispatchRecord { in_flight_at_dispatch: 0, class: PeerClass::Unknown },
            };
            self.registry.add_in_flight(&selected.peer_id, selected.max_concurrency, now);
            self.dispatched.insert(selected.peer_id, record);
            self.last_selected.insert(selected.peer_id, self.epoch);
            proof {
                let taken = selection.peers@.take(k + 1);
                assert(taken.drop_last() =~= selection.peers@.take(k as int));
                assert(taken.last() == selected);
                assert(self@ =~= mid.dispatched_one(selected, now));
                let loaded = mid.with_peer(mid.peer(id).busier(selected.max_concurrency, now));
                assert(self@.peers == loaded.peers);
                assert forall|other: PeerId| #[trigger] self@.knows(other) <==> mid.knows(
                    other,
                ) by {
                    assert(loaded.knows(other) <==> mid.knows(other));
                }
                assert forall|other: PeerId| #[trigger] self@.last_selected.contains_key(
                    other,
                ) implies registered(self@.peers, other) by {
                    assert(other == id || mid.last_selected.contains_key(other));
                    assert(self@.knows(other) <==> mid.knows(other));
                }
                assert forall|other: PeerId| #[trigger] self@.dispatched.contains_key(
                    other,
                ) implies registered(self@.peers, other) by {
                    assert(other == id || mid.dispatched.contains_key(other));
                    assert(self@.knows(other) <==> mid.knows(other));
                }
            }
            k = k + 1;
        }
        assert(selection.peers@.take(k as int) =~= selection.peers@);
    }

    /// Folds a measured outcome into what was learned, and notes that one range settled. A peer not
    /// known yet is registered first.
    pub fn record_outcome(&mut self, outcome: &TransferOutcome)
        requires
            old(self).wf(),
        ensures
            final(self).wf(),
            final(self).kit() == old(self).kit(),
            exists|now: u64| #[trigger]
                old(self)@.clock.reads(now) && old(self)@.records(
                    old(self).kit(),
                    *outcome,
                    now,
                    final(self)@,
                ),
    {
        let now: u64 = self.now();
        let ghost before = self@;
        let ghost id = outcome.peer_id;
        if self.registry.get(&outcome.peer_id).is_none() {
            let candidate = Candidate::new(outcome.peer_id, Vec::new());
            self.upsert_from(&candidate, Provenance::Nat, now);
            assert(Peer::introduced(candidate, Provenance::Nat, now) =~= Peer::fresh(
                id,
                Provenance::Nat,
                now,
            ).with_even_odds());
        }
        let ghost mid = self@;
        let record = match self.dispatched.remove(&outcome.peer_id) {
            Some(record) => record,
            None => match self.registry.get(&outcome.peer_id) {
                Some(entry) => DispatchRecord {
                    in_flight_at_dispatch: entry.quality.in_flight,
                    class: PeerClass::of(entry.connection_class),
                },
                None => DispatchRecord { in_flight_at_dispatch: 1, class: PeerClass::Unknown },
            },
        };
        let throughput = outcome.throughput_bps(&self.arithmetic);
        match throughput {
            Some(bps) => {
                if outcome.is_success() {
                    self.saturation.observe(
                        record.class,
                        record.in_flight_at_dispatch,
                        bps,
                        &self.arithmetic,
                    );
                    self.relay.observe(record.class.is_relayed(), bps, &self.arithmetic);
                }
            },
            None => {},
        }
        let known_quality = match self.registry.get(&outcome.peer_id) {
            Some(entry) => Some(entry.quality),
            None => None,
        };
        match known_quality {
            Some(quality) => {
                let mut learned = quality;
                apply_outcome(&mut learned, outcome, throughput, &self.arithmetic);
                let at: u64 = if outcome.at < now {
                    now
                } else {
                    outcome.at
                };
                self.registry.learn(&outcome.peer_id, learned, Some(at));
                self.registry.release_in_flight(&outcome.peer_id, 1);
                proof {
                    assert(mid.knows(id));
                    lemma_known_stamped(mid, id);
                    let taught = mid.peer(id).taught(learned, Some(at));
                    lemma_replaced_coherent(mid, taught);
                    let told = mid.with_peer(taught);
                    lemma_known_stamped(told, id);
                    lemma_replaced_coherent(told, taught.relieved(1));
                    lemma_replaced_coherent(mid, taught.relieved(1));
                    assert(place(told.peers, id) == place(mid.peers, id)) by {
                        let p = place(mid.peers, id);
                        assert(told.peers[p].peer_id == id);
                        lemma_place(told.peers, p);
                    }
                    assert(self@.peers =~= mid.with_peer(taught.relieved(1)).peers);
                    assert(absorbs(self.kit(), mid.peer(id).quality, *outcome, throughput, learned));
                    assert forall|other: PeerId| #[trigger] mid.knows(other) implies registered(
                        self@.peers,
                        other,
                    ) by {
                        assert(mid.with_peer(taught.relieved(1)).knows(other));
                    }
                }
            },
            None => {},
        }
        proof {
            assert forall|other: PeerId| #[trigger] self@.last_selected.contains_key(
                other,
            ) implies registered(self@.peers, other) by {
                assert(mid.last_selected.contains_key(other) && mid.knows(other));
            }
            assert forall|other: PeerId| #[trigger] self@.dispatched.contains_key(
                other,
            ) implies registered(self@.peers, other) by {
                assert(mid.dispatched.contains_key(other) && mid.knows(other));
            }
            assert(mid.folds(self.kit(), *outcome, throughput, now, self@));
            assert(before.records(self.kit(), *outcome, now, self@));
        }
    }

    /// What is known of a peer.
    pub fn peer_snapshot(&self, peer: &PeerId) -> (r: Option<PeerSnapshot>)
        requires
            self.wf(),
        ensures
            r is Some <==> self@.knows(*peer),
            r matches Some(snapshot) ==> snapshot.shows(self.kit(), self@.peer(*peer)),
    {
        match self.registry.get(peer) {
            Some(entry) => Some(PeerSnapshot::of(entry, &self.arithmetic)),
            None => None,
        }
    }

    /// What was learned on the whole.
    pub fn snapshot(&self) -> (r: SelectorSnapshot)
        requires
            self.wf(),
        ensures
            r.shows(self.kit(), self@.peers, self@.saturation, self@.relay),
            self@.last_selected.dom().finite(),
            r.last_selected_len == self@.last_selected.dom().len(),
            self@.dispatched.dom().finite(),
            r.dispatched_len == self@.dispatched.dom().len(),
    {
        SelectorSnapshot::build(
            self.registry.iter(),
            &self.saturation,
            &self.relay,
            self.last_selected.len(),
            self.dispatched.len(),
            &self.arithmetic,
        )
    }

    /// How many peers are registered.
    pub fn registry_size(&self) -> (r: usize)
        ensures
            r == self@.peers.len(),
    {
        self.registry.len()
    }

    /// What to dial to reach a peer; nothing for a peer that is not registered.
    pub fn peer_target(&self, peer: &PeerId, network_id: &str) -> (r: Option<PeerTarget>)
        requires
            self.wf(),
        ensures
            r is Some <==> self@.knows(*peer),
            r matches Some(target) ==> is_target(
                target,
                *peer,
                self@.peer(*peer).addresses,
                network_id@,
            ),
    {
        match self.registry.get(peer) {
            Some(entry) => Some(peer_target(*peer, &entry.addresses, network_id)),
            None => None,
        }
    }

    /// What to dial for a selection, in its order. A chosen peer that is registered no more is left
    /// out.
    pub fn dial_plan(&self, selection: &Selection, network_id: &str) -> (r: Vec<
        (SelectedPeer, PeerTarget),
    >)
        requires
            self.wf(),
        ensures
            r@.map_values(|p: (SelectedPeer, PeerTarget)| p.0) == self@.diallable(selection.peers@),
            forall|k: int|
                0 <= k < r@.len() ==> is_target(
                    (#[trigger] r@[k]).1,
                    r@[k].0.peer_id,
                    self@.peer(r@[k].0.peer_id).addresses,
                    network_id@,
                ),
    {
        let mut plan: Vec<(SelectedPeer, PeerTarget)> = Vec::new();
        let mut i: usize = 0;
        assert(plan@.map_values(|p: (SelectedPeer, PeerTarget)| p.0) =~= Seq::empty());
        while i < selection.peers.len()
            invariant
                i <= selection.peers@.len(),
                self.wf(),
                plan@.map_values(|p: (SelectedPeer, PeerTarget)| p.0) == self@.diallable(
                    selection.peers@.take(i as int),
                ),
                forall|k: int|
                    0 <= k < plan@.len() ==> is_target(
                        (#[trigger] plan@[k]).1,
                        plan@[k].0.peer_id,
                        self@.peer(plan@[k].0.peer_id).addresses,
                        network_id@,
                    ),
            decreases selection.peers@.len() - i,
        {
            let selected = selection.peers[i];
            let ghost before = plan@;
            proof {
                let taken = selection.peers@.take(i + 1);
                assert(taken.drop_last() =~= selection.peers@.take(i as int));
                assert(taken.last() == selected);
            }
            match self.peer_target(&selected.peer_id, network_id) {
                Some(target) => {
                    plan.push((selected, target));
                    assert(plan@.map_values(|p: (SelectedPeer, PeerTarget)| p.0)
                        =~= before.map_values(|p: (SelectedPeer, PeerTarget)| p.0).push(selected));
                },
                None => {},
            }
            i = i + 1;
        }
        assert(selection.peers@.take(i as int) =~= selection.peers@);
        plan
    }

    /// Notes what the connected pool reports.
    pub fn on_pool_event(&mut self, event: &PoolEvent)
        requires
            old(self).wf(),
        ensures
            final(self).wf(),
            final(self).kit() == old(self).kit(),
            exists|now: u64| #[trigger]
                old(self)@.clock.reads(now) && old(self)@.hears(
                    old(self).kit(),
                    *event,
                    now,
                    final(self)@,
                ),
    {
        let now: u64 = self.now();
        let ghost before = self@;
        proof {
            lemma_nobody_forgotten(before);
        }
        match event {
            PoolEvent::PeerAdded { peer_id, .. } => {
                let _ = self.registry.mark_connected(
                    *peer_id,
                    Provenance::Gossip,
                    now,
                    &self.arithmetic,
                );
                let ghost gone = self.registry.departed();
                let ghost peers = self.registry.peers();
                self.prune();
                proof {
                    let id = *peer_id;
                    if before.knows(id) {
                        lemma_known_stamped(before, id);
                        lemma_replaced_coherent(before, before.peer(id).joined(Provenance::Gossip));
                        assert(self@ =~= before.with_peer(
                            before.peer(id).joined(Provenance::Gossip),
                        ));
                    } else {
                        let newcomer = Peer::linked(id, Provenance::Gossip, now);
                        lemma_departed(
                            self.kit(),
                            before.peers.push(newcomer),
                            before.bound,
                            now,
                            peers,
                            gone,
                        );
                        lemma_taken_in_coherent(self.kit(), before, newcomer, now, self@, gone);
                    }
                }
            },
            PoolEvent::PeerRemoved { peer_id, reason } => {
                let banned = matches!(reason, PoolRemovalReason::Banned);
                let _ = self.registry.mark_disconnected(peer_id, banned);
                proof {
                    let id = *peer_id;
                    if before.knows(id) {
                        lemma_known_stamped(before, id);
                        lemma_replaced_coherent(before, before.peer(id).left(banned));
                        assert(self@ =~= before.with_peer(before.peer(id).left(banned)));
                    } else {
                        assert(self@ =~= before);
                    }
                }
            },
        }
    }

    /// Notes the path of a link to a peer.
    pub fn on_connection_class(&mut self, peer: &PeerId, class: TraversalKind)
        requires
            old(self).wf(),
        ensures
            final(self).wf(),
            final(self).kit() == old(self).kit(),
            exists|now: u64| #[trigger]
                old(self)@.clock.reads(now) && old(self)@.classes(
                    old(self).kit(),
                    *peer,
                    class,
                    now,
                    final(self)@,
                ),
    {
        let now: u64 = self.now();
        let ghost before = self@;
        let _ = self.registry.set_connection_class(*peer, class, now, &self.arithmetic);
        let ghost gone = self.registry.departed();
        let ghost peers = self.registry.peers();
        self.prune();
        proof {
            lemma_nobody_forgotten(before);
            let id = *peer;
            if before.knows(id) {
                lemma_known_stamped(before, id);
                let told = before.peer(id).routed(class);
                lemma_replaced_coherent(before, told);
                assert(self@ =~= before.with_peer(told));
            } else {
                let newcomer = Peer::reported(id, class, now);
                lemma_departed(
                    self.kit(),
                    before.peers.push(newcomer),
                    before.bound,
                    now,
                    peers,
                    gone,
                );
                lemma_taken_in_coherent(self.kit(), before, newcomer, now, self@, gone);
            }
        }
    }

    /// Removes a peer, unless it is busy.
    pub fn remove_peer(&mut self, peer: &PeerId)
        requires
            old(self).wf(),
        ensures
            final(self).wf(),
            final(self).kit() == old(self).kit(),
            final(self)@ == old(self)@.removed(*peer),
    {
        let ghost before = self@;
        let _ = self.registry.remove(peer);
        let ghost gone = self.registry.departed();
        self.prune();
        proof {
            lemma_nobody_forgotten(before);
            if before.knows(*peer) && before.peer(*peer).quality.in_flight == 0 {
                assert(gone =~= seq![*peer]);
                lemma_removed_coherent(before, *peer);
            }
            assert(self@ =~= before.removed(*peer));
        }
    }

    /// Notes that `count` ranges were dispatched to a peer outside of a selection.
    pub fn on_dispatch(&mut self, peer: &PeerId, count: u32)
        requires
            old(self).wf(),
        ensures
            final(self).wf(),
            final(self).kit() == old(self).kit(),
            exists|now: u64| #[trigger]
                old(self)@.clock.reads(now) && final(self)@ == old(self)@.loaded(*peer, count, now),
    {
        let now: u64 = self.now();
        let ghost before = self@;
        self.registry.add_in_flight(peer, count, now);
        proof {
            if before.knows(*peer) {
                lemma_known_stamped(before, *peer);
                lemma_replaced_coherent(before, before.peer(*peer).busier(count, now));
            }
            assert(self@ =~= before.loaded(*peer, count, now));
        }
    }

    /// Takes a candidate of the host's in.
    pub fn upsert_candidate(&mut self, candidate: &Candidate)
        requires
            old(self).wf(),
        ensures
            final(self).wf(),
            final(self).kit() == old(self).kit(),
            exists|now: u64| #[trigger]
                old(self)@.clock.reads(now) && old(self)@.upserts(
                    old(self).kit(),
                    *candidate,
                    Provenance::Manual,
                    now,
                    final(self)@,
                ),
    {
        let now: u64 = self.now();
        self.upsert_from(candidate, Provenance::Manual, now);
    }
}

/// Whether a peer is among others.
fn contains(peers: &[PeerId], peer: &PeerId) -> (r: bool)
    ensures
        r == peers@.contains(*peer),
{
    let mut i: usize = 0;
    while i < peers.len()
        invariant
            i <= peers@.len(),
            forall|j: int| 0 <= j < i ==> #[trigger] peers@[j] != *peer,
        decreases peers@.len() - i,
    {
        if peers[i].same(peer) {
            assert(peers@[i as int] == *peer);
            return true;
        }
        i = i + 1;
    }
    false
}

/// Those who may be chosen are of the pool, and may be chosen; nobody is there twice.
pub proof fn lemma_contestants(state: SelectorState, pool: Seq<PeerId>)
    ensures
        state.contestants(pool).len() <= pool.len(),
        state.contestants(pool).no_duplicates(),
        forall|i: int|
            0 <= i < state.contestants(pool).len() ==> state.eligible(
                #[trigger] state.contestants(pool)[i],
            ) && pool.contains(state.contestants(pool)[i]),
    decreases pool.len(),
{
    if pool.len() > 0 {
        let front = pool.drop_last();
        lemma_contestants(state, front);
        assert forall|i: int| 0 <= i < state.contestants(pool).len() implies state.eligible(
            #[trigger] state.contestants(pool)[i],
        ) && pool.contains(state.contestants(pool)[i]) by {
            if i < state.contestants(front).len() {
                let id = state.contestants(front)[i];
                let j = choose|j: int| 0 <= j < front.len() && front[j] == id;
                assert(pool[j] == id);
            } else {
                assert(pool[pool.len() - 1] == state.contestants(pool)[i]);
            }
        }
    }
}

/// Where nobody left, the notes stay.
proof fn lemma_nobody_forgotten(state: SelectorState)
    ensures
        without(state.last_selected, Seq::<PeerId>::empty()) == state.last_selected,
        without(state.dispatched, Seq::<PeerId>::empty()) == state.dispatched,
{
    assert(Seq::<PeerId>::empty().to_set() =~= Set::<PeerId>::empty());
    assert(without(state.last_selected, Seq::<PeerId>::empty()) =~= state.last_selected);
    assert(without(state.dispatched, Seq::<PeerId>::empty()) =~= state.dispatched);
}

/// Another record of a registered peer leaves the state coherent.
pub proof fn lemma_replaced_coherent(state: SelectorState, peer: Peer)
    requires
        state.coherent(),
        state.knows(peer.peer_id),
        peer.stamped(),
    ensures
        state.with_peer(peer).coherent(),
        forall|id: PeerId| #[trigger] state.with_peer(peer).knows(id) <==> state.knows(id),
        state.with_peer(peer).peer(peer.peer_id) == peer,
        forall|id: PeerId|
            state.knows(id) && id != peer.peer_id ==> #[trigger] state.with_peer(peer).peer(id)
                == state.peer(id),
{
    let p = place(state.peers, peer.peer_id);
    let before = state.peers;
    let after = state.with_peer(peer).peers;
    assert(0 <= p < before.len() && before[p].peer_id == peer.peer_id);
    assert(forall|i: int| 0 <= i < after.len() ==> (#[trigger] after[i]).peer_id == before[i].peer_id);
    assert(sound(after)) by {
        assert forall|i: int, j: int| 0 <= i < j < after.len() implies (#[trigger] after[i]).peer_id
            != (#[trigger] after[j]).peer_id by {
            assert(before[i].peer_id != before[j].peer_id);
        }
        assert forall|i: int| 0 <= i < after.len() implies (#[trigger] after[i]).stamped() by {
            assert(before[i].stamped());
        }
    }
    assert forall|id: PeerId| registered(before, id) implies #[trigger] registered(after, id) by {
        let i = choose|i: int| 0 <= i < before.len() && (#[trigger] before[i]).peer_id == id;
        assert(after[i].peer_id == id);
    }
    assert forall|id: PeerId| #[trigger] registered(after, id) implies registered(before, id) by {
        let i = choose|i: int| 0 <= i < after.len() && (#[trigger] after[i]).peer_id == id;
        assert(before[i].peer_id == id);
    }
    lemma_place(after, p);
    assert forall|id: PeerId| state.knows(id) && id != peer.peer_id implies #[trigger] state.with_peer(
        peer,
    ).peer(id) == state.peer(id) by {
        let i = choose|i: int| 0 <= i < before.len() && (#[trigger] before[i]).peer_id == id;
        lemma_place(before, i);
        assert(after[i] == before[i]);
        lemma_place(after, i);
    }
}

/// Where nobody was still to be forgotten, those who left for a newcomer are all that are now.
proof fn lemma_departed<A: Arithmetic>(
    kit: &A,
    all: Seq<Peer>,
    bound: nat,
    now: u64,
    peers: Seq<Peer>,
    departed: Seq<PeerId>,
)
    requires
        exists|gone: Seq<PeerId>| #[trigger]
            bounded(kit, all, bound, now, peers, gone) && departed == Seq::<PeerId>::empty() + gone,
    ensures
        bounded(kit, all, bound, now, peers, departed),
{
    let gone = choose|gone: Seq<PeerId>| #[trigger]
        bounded(kit, all, bound, now, peers, gone) && departed == Seq::<PeerId>::empty() + gone;
    assert(gone =~= departed);
}

/// A registered peer is found under its identity, and stamped.
pub proof fn lemma_known_stamped(state: SelectorState, id: PeerId)
    requires
        state.coherent(),
        state.knows(id),
    ensures
        state.peer(id).peer_id == id,
        state.peer(id).stamped(),
{
    let p = place(state.peers, id);
    assert(0 <= p < state.peers.len() && state.peers[p].peer_id == id);
}

/// Removing a peer leaves the state coherent.
pub proof fn lemma_removed_coherent(state: SelectorState, id: PeerId)
    requires
        state.coherent(),
    ensures
        state.removed(id).coherent(),
{
    if state.knows(id) && state.peer(id).quality.in_flight == 0 {
        let p = place(state.peers, id);
        assert(0 <= p < state.peers.len() && state.peers[p].peer_id == id);
        let before = state.peers;
        let after = before.remove(p);
        assert(forall|j: int|
            0 <= j < after.len() ==> #[trigger] after[j] == before[if j < p {
                j
            } else {
                j + 1
            }]);
        assert(seq![id][0] == id);
        assert(seq![id].to_set().contains(id));
        assert forall|other: PeerId| registered(before, other) && other != id implies registered(
            after,
            other,
        ) by {
            let i = choose|i: int| 0 <= i < before.len() && (#[trigger] before[i]).peer_id == other;
            assert(after[if i < p {
                i
            } else {
                i - 1
            }].peer_id == other);
        }
        assert(sound(after));
    }
}

/// A newcomer leaves the state coherent.
pub proof fn lemma_taken_in_coherent<A: Arithmetic>(
    kit: &A,
    before: SelectorState,
    newcomer: Peer,
    now: u64,
    after: SelectorState,
    gone: Seq<PeerId>,
)
    requires
        before.coherent(),
        !before.knows(newcomer.peer_id),
        bounded(kit, before.peers.push(newcomer), before.bound, now, after.peers, gone),
        sound(after.peers),
        after == (SelectorState {
            peers: after.peers,
            last_selected: without(before.last_selected, gone),
            dispatched: without(before.dispatched, gone),
            ..before
        }),
    ensures
        after.coherent(),
        before.takes_in(kit, newcomer, now, after),
{
    let all = before.peers.push(newcomer);
    assert(distinct(all)) by {
        assert forall|i: int, j: int| 0 <= i < j < all.len() implies (#[trigger] all[i]).peer_id != (
        #[trigger] all[j]).peer_id by {
            assert(all[i] == before.peers[i]);
            if j < before.peers.len() {
                assert(all[j] == before.peers[j]);
            } else {
                assert(registered(before.peers, before.peers[i].peer_id));
            }
        }
    }
    the_bound_is_hard(kit, all, before.bound, now, after.peers, gone);
    assert forall|id: PeerId| registered(before.peers, id) && !gone.contains(id) implies registered(
        after.peers,
        id,
    ) by {
        let i = choose|i: int| 0 <= i < before.peers.len() && (#[trigger] before.peers[i]).peer_id == id;
        assert(all[i].peer_id == id);
        assert(registered(all, id));
    }
}

} // verus!
