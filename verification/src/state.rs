//! The state of a selector, and how each event moves it.

use vstd::prelude::*;

use crate::address::TraversalKind;
use crate::config::ClockSource;
use crate::draw::{pcg_number, position_after};
use crate::formula::Formula;
use crate::identity::PeerId;
use crate::judging::{is_bonus, is_final};
use crate::measure::{Arithmetic, Measure, ZERO};
use crate::pool_event::{PoolEvent, PoolRemovalReason};
use crate::quality::{one_more, PeerQuality};
use crate::ranking::{lineup, Contender};
use crate::registry::{bounded, known, place, registered, replaced, settled, sound, Peer};
use crate::scoring::{is_judgement, PeerClass, RelayModel, SaturationModel, ScoredPeer};
use crate::types::{
    Candidate, FailureReason, OutcomeResult, Provenance, SelectedPeer, TransferOutcome,
};

verus! {

/// What is noted of a dispatch, so that its outcome can be attributed.
#[derive(Clone, Copy, Debug, PartialEq, Eq, Structural)]
pub struct DispatchRecord {
    /// How many ranges the peer was busy with before.
    pub in_flight_at_dispatch: u32,
    /// The class of the path to it.
    pub class: PeerClass,
}

/// The state of a selector.
#[verifier::ext_equal]
pub struct SelectorState {
    /// The clock.
    pub clock: ClockSource,
    /// The seed of the draws.
    pub seed: u64,
    /// How many numbers were drawn.
    pub drawn: u128,
    /// How many peers are held at most, unless more are connected.
    pub bound: nat,
    /// The registered peers.
    pub peers: Seq<Peer>,
    /// The learned saturation points.
    pub saturation: SaturationModel,
    /// The learned handicap of relayed paths.
    pub relay: RelayModel,
    /// The number of the last round.
    pub epoch: u64,
    /// In which round each peer was last chosen.
    pub last_selected: Map<PeerId, u64>,
    /// The last unsettled dispatch to each peer.
    pub dispatched: Map<PeerId, DispatchRecord>,
}

/// A map without the given keys.
pub open spec fn without<V>(map: Map<PeerId, V>, gone: Seq<PeerId>) -> Map<PeerId, V> {
    map.remove_keys(gone.to_set())
}

/// Whether a peer is among an answer.
pub open spec fn picked(answer: Seq<SelectedPeer>, id: PeerId) -> bool {
    exists|k: int| 0 <= k < answer.len() && (#[trigger] answer[k]).peer_id == id
}

impl SelectorState {
    /// The state of a new selector.
    pub open spec fn initial(clock: ClockSource, seed: u64, bound: nat) -> SelectorState {
        SelectorState {
            clock,
            seed,
            drawn: 0,
            bound,
            peers: Seq::empty(),
            saturation: SaturationModel::initial(),
            relay: RelayModel::initial(),
            epoch: 0,
            last_selected: Map::empty(),
            dispatched: Map::empty(),
        }
    }

    /// Whether the registry is sound, the saturation points are in range, and nothing is noted of a
    /// peer that is not registered.
    pub open spec fn coherent(self) -> bool {
        &&& sound(self.peers)
        &&& self.bound >= 1
        &&& self.saturation.wf()
        &&& forall|id: PeerId| #[trigger]
            self.last_selected.contains_key(id) ==> registered(self.peers, id)
        &&& forall|id: PeerId| #[trigger]
            self.dispatched.contains_key(id) ==> registered(self.peers, id)
    }

    /// The state with another record of a registered peer.
    pub open spec fn with_peer(self, peer: Peer) -> SelectorState {
        SelectorState { peers: replaced(self.peers, peer), ..self }
    }

    /// The registered peer of an identity.
    pub open spec fn peer(self, id: PeerId) -> Peer {
        known(self.peers, id)
    }

    /// Whether a peer is registered.
    pub open spec fn knows(self, id: PeerId) -> bool {
        registered(self.peers, id)
    }

    /// Whether `after` is this state with a newcomer registered: whoever has to leave for it is
    /// forgotten altogether.
    pub open spec fn takes_in<A: Arithmetic>(
        self,
        kit: &A,
        newcomer: Peer,
        now: u64,
        after: SelectorState,
    ) -> bool {
        exists|gone: Seq<PeerId>| #[trigger]
            bounded(kit, self.peers.push(newcomer), self.bound, now, after.peers, gone) && after
                == (SelectorState {
                peers: after.peers,
                last_selected: without(self.last_selected, gone),
                dispatched: without(self.dispatched, gone),
                ..self
            })
    }

    /// Whether `after` is this state with a candidate taken in.
    pub open spec fn upserts<A: Arithmetic>(
        self,
        kit: &A,
        candidate: Candidate,
        provenance: Provenance,
        now: u64,
        after: SelectorState,
    ) -> bool {
        if self.knows(candidate.peer_id) {
            after == self.with_peer(self.peer(candidate.peer_id).refreshed(candidate, provenance))
        } else {
            self.takes_in(kit, Peer::introduced(candidate, provenance, now), now, after)
        }
    }

    /// Whether `after` is this state with candidates from provider records taken in, one by one.
    pub open spec fn upserts_all<A: Arithmetic>(
        self,
        kit: &A,
        candidates: Seq<Candidate>,
        now: u64,
        after: SelectorState,
    ) -> bool
        decreases candidates.len(),
    {
        if candidates.len() == 0 {
            after == self
        } else {
            exists|mid: SelectorState|
                self.upserts_all(kit, candidates.drop_last(), now, mid) && #[trigger] mid.upserts(
                    kit,
                    candidates.last(),
                    Provenance::Dht,
                    now,
                    after,
                )
        }
    }

    /// Whether `after` is this state after an event of the pool.
    pub open spec fn hears<A: Arithmetic>(
        self,
        kit: &A,
        event: PoolEvent,
        now: u64,
        after: SelectorState,
    ) -> bool {
        match event {
            PoolEvent::PeerAdded { peer_id, .. } => if self.knows(peer_id) {
                after == self.with_peer(self.peer(peer_id).joined(Provenance::Gossip))
            } else {
                self.takes_in(kit, Peer::linked(peer_id, Provenance::Gossip, now), now, after)
            },
            PoolEvent::PeerRemoved { peer_id, reason } => after == if self.knows(peer_id) {
                self.with_peer(self.peer(peer_id).left(reason == PoolRemovalReason::Banned))
            } else {
                self
            },
        }
    }

    /// Whether `after` is this state after the path of a link was reported.
    pub open spec fn classes<A: Arithmetic>(
        self,
        kit: &A,
        id: PeerId,
        class: TraversalKind,
        now: u64,
        after: SelectorState,
    ) -> bool {
        if self.knows(id) {
            after == self.with_peer(self.peer(id).routed(class))
        } else {
            self.takes_in(kit, Peer::reported(id, class, now), now, after)
        }
    }

    /// The state after a peer was to be removed: nothing happens to a busy peer, and any other is
    /// forgotten altogether.
    pub open spec fn removed(self, id: PeerId) -> SelectorState {
        if self.knows(id) && self.peer(id).quality.in_flight == 0 {
            SelectorState {
                peers: self.peers.remove(place(self.peers, id)),
                last_selected: without(self.last_selected, seq![id]),
                dispatched: without(self.dispatched, seq![id]),
                ..self
            }
        } else {
            self
        }
    }

    /// The state after `count` ranges were dispatched to a peer.
    pub open spec fn loaded(self, id: PeerId, count: u32, now: u64) -> SelectorState {
        if self.knows(id) {
            self.with_peer(self.peer(id).busier(count, now))
        } else {
            self
        }
    }

    /// Whether a peer may be chosen: it is registered and not banned.
    pub open spec fn eligible(self, id: PeerId) -> bool {
        self.knows(id) && !self.peer(id).banned
    }

    /// Those of the pool who may be chosen, each once.
    pub open spec fn contestants(self, pool: Seq<PeerId>) -> Seq<PeerId>
        decreases pool.len(),
    {
        if pool.len() == 0 {
            Seq::empty()
        } else if self.eligible(pool.last()) && !self.contestants(pool.drop_last()).contains(
            pool.last(),
        ) {
            self.contestants(pool.drop_last()).push(pool.last())
        } else {
            self.contestants(pool.drop_last())
        }
    }

    /// In which round a peer was last chosen; zero for never.
    pub open spec fn last_round(self, id: PeerId) -> u64 {
        if self.last_selected.contains_key(id) {
            self.last_selected[id]
        } else {
            0
        }
    }

    /// Whether these are the judgements on peers, before exploring is weighed in.
    pub open spec fn judged<A: Arithmetic>(
        self,
        kit: &A,
        ids: Seq<PeerId>,
        marks: Seq<ScoredPeer>,
    ) -> bool {
        &&& marks.len() == ids.len()
        &&& forall|i: int|
            0 <= i < ids.len() ==> is_judgement(
                kit,
                self.peer(ids[i]),
                self.saturation,
                self.relay,
                Measure { bits: ZERO },
                #[trigger] marks[i],
            )
    }

    /// Whether this is the `i`-th contender of a round, given its judgement and the bonus.
    pub open spec fn enters<A: Arithmetic>(
        self,
        kit: &A,
        id: PeerId,
        i: nat,
        mark: ScoredPeer,
        bonus: Measure,
        active: bool,
        contender: Contender,
    ) -> bool {
        &&& contender.peer_id == id
        &&& is_final(kit, mark, bonus, active, contender.score)
        &&& contender.full == (mark.headroom == 0)
        &&& contender.last_selected == self.last_round(id)
        &&& contender.jitter == pcg_number(self.seed, position_after(self.drawn, i))
    }

    /// Whether this is the field that judgements and a bonus make.
    pub open spec fn makes_field<A: Arithmetic>(
        self,
        kit: &A,
        ids: Seq<PeerId>,
        active: Seq<PeerId>,
        marks: Seq<ScoredPeer>,
        bonus: Measure,
        field: Seq<Contender>,
    ) -> bool {
        &&& field.len() == ids.len()
        &&& forall|i: int|
            0 <= i < ids.len() ==> self.enters(
                kit,
                ids[i],
                i as nat,
                marks[i],
                bonus,
                active.contains(ids[i]),
                #[trigger] field[i],
            )
    }

    /// Whether this is the field of a round over `ids`, of whom `active` are busy with it already.
    pub open spec fn is_field<A: Arithmetic>(
        self,
        kit: &A,
        ids: Seq<PeerId>,
        active: Seq<PeerId>,
        field: Seq<Contender>,
    ) -> bool {
        exists|marks: Seq<ScoredPeer>, bonus: Measure|
            self.judged(kit, ids, marks) && is_bonus(kit, marks, bonus) && #[trigger] self.makes_field(
                kit,
                ids,
                active,
                marks,
                bonus,
                field,
            )
    }

    /// The state with one chosen peer dispatched to: the round, the load before and the path are
    /// noted, and the peer is busier by what was asked of it.
    pub open spec fn dispatched_one(self, selected: SelectedPeer, now: u64) -> SelectorState {
        SelectorState {
            last_selected: self.last_selected.insert(selected.peer_id, self.epoch),
            dispatched: self.dispatched.insert(
                selected.peer_id,
                DispatchRecord {
                    in_flight_at_dispatch: self.peer(selected.peer_id).quality.in_flight,
                    class: PeerClass::class_of(self.peer(selected.peer_id).connection_class),
                },
            ),
            ..self.loaded(selected.peer_id, selected.max_concurrency, now)
        }
    }

    /// The state with all the chosen dispatched to, in order.
    pub open spec fn dispatched_all(self, selected: Seq<SelectedPeer>, now: u64) -> SelectorState
        decreases selected.len(),
    {
        if selected.len() == 0 {
            self
        } else {
            self.dispatched_all(selected.drop_last(), now).dispatched_one(selected.last(), now)
        }
    }

    /// The state with overdue dispatches written off.
    pub open spec fn calmed(self, now: u64) -> SelectorState {
        SelectorState { peers: settled(self.peers, now), ..self }
    }

    /// The state at the start of a round over `count` contenders.
    pub open spec fn next_round(self, count: nat) -> SelectorState {
        SelectorState {
            epoch: if self.epoch == u64::MAX {
                0
            } else {
                (self.epoch + 1) as u64
            },
            drawn: position_after(self.drawn, count),
            ..self
        }
    }

    /// Whether choosing `want` of a pool gives `chosen` and leaves `after`. Overdue dispatches are
    /// written off first. Where nobody may be chosen nothing else happens; otherwise a round is
    /// held, and the chosen are dispatched to.
    pub open spec fn chooses<A: Arithmetic>(
        self,
        kit: &A,
        pool: Seq<PeerId>,
        active: Seq<PeerId>,
        want: usize,
        now: u64,
        chosen: Seq<SelectedPeer>,
        after: SelectorState,
    ) -> bool {
        let calm = self.calmed(now);
        let ids = calm.contestants(pool);
        if ids.len() == 0 {
            chosen == Seq::<SelectedPeer>::empty() && after == calm
        } else {
            exists|field: Seq<Contender>| #[trigger]
                calm.is_field(kit, ids, active, field) && chosen == lineup(
                    field,
                    want,
                    calm.next_round(ids.len()).epoch,
                ) && after == calm.next_round(ids.len()).dispatched_all(chosen, now)
        }
    }

    /// Whether a request for `want` of the candidates gives `chosen` and leaves `after`.
    pub open spec fn selects<A: Arithmetic>(
        self,
        kit: &A,
        candidates: Seq<Candidate>,
        want: usize,
        now: u64,
        chosen: Seq<SelectedPeer>,
        after: SelectorState,
    ) -> bool {
        exists|mid: SelectorState| #[trigger]
            self.upserts_all(kit, candidates, now, mid) && mid.chooses(
                kit,
                candidates.map_values(|c: Candidate| c.peer_id),
                Seq::empty(),
                want,
                now,
                chosen,
                after,
            )
    }

    /// Those of a selection who are registered still.
    pub open spec fn diallable(self, selected: Seq<SelectedPeer>) -> Seq<SelectedPeer>
        decreases selected.len(),
    {
        if selected.len() == 0 {
            Seq::empty()
        } else if self.knows(selected.last().peer_id) {
            self.diallable(selected.drop_last()).push(selected.last())
        } else {
            self.diallable(selected.drop_last())
        }
    }

    /// Every registered peer, in the order of registration.
    pub open spec fn everyone(self) -> Seq<PeerId> {
        self.peers.map_values(|p: Peer| p.peer_id)
    }

    /// Whether asking for sources of `need` ranges, at most `want`, gives `chosen` and leaves
    /// `after`: anyone registered may be chosen, and the active are discounted.
    pub open spec fn rebalances<A: Arithmetic>(
        self,
        kit: &A,
        active: Seq<PeerId>,
        want: usize,
        need: nat,
        now: u64,
        chosen: Seq<SelectedPeer>,
        after: SelectorState,
    ) -> bool {
        self.chooses(
            kit,
            self.everyone(),
            active,
            if need == 0 {
                1
            } else if need < want {
                need as usize
            } else {
                want
            },
            now,
            chosen,
            after,
        )
    }

    /// What an outcome of a peer is attributed to: the noted dispatch, else what is known of the
    /// peer now, else one range on a path not known.
    pub open spec fn attribution(self, id: PeerId) -> DispatchRecord {
        if self.dispatched.contains_key(id) {
            self.dispatched[id]
        } else if self.knows(id) {
            DispatchRecord {
                in_flight_at_dispatch: self.peer(id).quality.in_flight,
                class: PeerClass::class_of(self.peer(id).connection_class),
            }
        } else {
            DispatchRecord { in_flight_at_dispatch: 1, class: PeerClass::Unknown }
        }
    }

    /// Whether `after` is this state with an outcome measured at `rate` folded in. The state knows
    /// the peer, unless everyone else is connected and fills the registry.
    pub open spec fn folds<A: Arithmetic>(
        self,
        kit: &A,
        outcome: TransferOutcome,
        rate: Option<Measure>,
        now: u64,
        after: SelectorState,
    ) -> bool {
        let id = outcome.peer_id;
        let record = self.attribution(id);
        &&& match rate {
            Some(throughput) if outcome.result is Success => self.saturation.learns(
                kit,
                record.class,
                record.in_flight_at_dispatch,
                throughput,
                after.saturation,
            ) && self.relay.learns(
                kit,
                record.class == PeerClass::RelayedPath,
                throughput,
                after.relay,
            ),
            _ => after.saturation == self.saturation && after.relay == self.relay,
        }
        &&& if self.knows(id) {
            exists|quality: PeerQuality| #[trigger]
                absorbs(kit, self.peer(id).quality, outcome, rate, quality) && after.peers
                    == replaced(
                    self.peers,
                    self.peer(id).taught(
                        quality,
                        Some(
                            if outcome.at < now {
                                now
                            } else {
                                outcome.at
                            },
                        ),
                    ).relieved(1),
                )
        } else {
            after.peers == self.peers
        }
        &&& after == SelectorState {
            peers: after.peers,
            saturation: after.saturation,
            relay: after.relay,
            dispatched: self.dispatched.remove(id),
            ..self
        }
    }

    /// Whether `after` is this state with an outcome recorded: a peer not known yet is registered
    /// first.
    pub open spec fn records<A: Arithmetic>(
        self,
        kit: &A,
        outcome: TransferOutcome,
        now: u64,
        after: SelectorState,
    ) -> bool {
        exists|mid: SelectorState, rate: Option<Measure>|
            (if self.knows(outcome.peer_id) {
                mid == self
            } else {
                self.takes_in(
                    kit,
                    Peer::fresh(outcome.peer_id, Provenance::Nat, now).with_even_odds(),
                    now,
                    mid,
                )
            }) && outcome.is_rate(kit, rate) && #[trigger] mid.folds(kit, outcome, rate, now, after)
    }
}

/// Whether `after` is a quality with an outcome measured at `rate` folded in. Throughput and latency
/// move on a success only; reliability moves on every result but a cancellation by the host.
pub open spec fn absorbs<A: Arithmetic>(
    kit: &A,
    before: PeerQuality,
    outcome: TransferOutcome,
    rate: Option<Measure>,
    after: PeerQuality,
) -> bool {
    &&& after.samples == one_more(before.samples)
    &&& after.in_flight == before.in_flight
    &&& match outcome.result {
        OutcomeResult::Success => {
            &&& match rate {
                Some(throughput) => before.throughput.folds(kit, throughput, after.throughput),
                None => after.throughput == before.throughput,
            }
            &&& match outcome.rtt_ms {
                Some(ms) => exists|latency: Measure|
                    Formula::Count(ms).gives(kit, latency) && #[trigger] before.rtt.folds(
                        kit,
                        latency,
                        after.rtt,
                    ),
                None => after.rtt == before.rtt,
            }
            &&& before.reliability.hears(kit, true, false, after.reliability)
        },
        OutcomeResult::Failure { reason } => {
            &&& after.throughput == before.throughput
            &&& after.rtt == before.rtt
            &&& if reason == FailureReason::Cancelled {
                after.reliability == before.reliability
            } else {
                before.reliability.hears(
                    kit,
                    false,
                    reason == FailureReason::VerificationFailed,
                    after.reliability,
                )
            }
        },
        OutcomeResult::Interrupted { .. } => {
            &&& after.throughput == before.throughput
            &&& after.rtt == before.rtt
            &&& before.reliability.hears(kit, false, false, after.reliability)
        },
    }
}

} // verus!
