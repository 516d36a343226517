//! How a peer is judged: the learned saturation point of its class, the learned handicap of relayed
//! paths, and the score made of these and of what was measured.

use vstd::prelude::*;

use crate::address::TraversalKind;
use crate::formula::{constant, Formula, Term};
use crate::identity::PeerId;
use crate::measure::{Arithmetic, Measure, FOUR, HALF, ONE, QUARTER, SIXTY_FOUR, THREE, TWO, ZERO};
use crate::quality::{
    confidence_in, confidence_term, move_by, moved_by, one_more, volatility, PeerQuality,
};
use crate::registry::{Peer, PeerEntry};

verus! {

/// The kinds of path that share a saturation point.
#[derive(Clone, Copy, Debug, PartialEq, Eq, Hash, Structural)]
pub enum PeerClass {
    /// The bytes run between the peers.
    DirectPath,
    /// A relay carries the bytes.
    RelayedPath,
    /// Not known yet.
    Unknown,
}

impl PeerClass {
    /// The class of a path.
    pub open spec fn class_of(path: Option<TraversalKind>) -> PeerClass {
        match path {
            Some(TraversalKind::Relayed) => PeerClass::RelayedPath,
            Some(_) => PeerClass::DirectPath,
            None => PeerClass::Unknown,
        }
    }

    /// The class of a path: every one but a relayed path is direct.
    pub fn of(class: Option<TraversalKind>) -> (r: PeerClass)
        ensures
            r == PeerClass::class_of(class),
    {
        match class {
            Some(TraversalKind::Relayed) => PeerClass::RelayedPath,
            Some(_) => PeerClass::DirectPath,
            None => PeerClass::Unknown,
        }
    }

    /// Whether a relay carries the bytes.
    pub fn is_relayed(self) -> (r: bool)
        ensures
            r == (self == PeerClass::RelayedPath),
    {
        matches!(self, PeerClass::RelayedPath)
    }
}

/// The bit pattern of `0.1`: the least weight of an observation.
pub const DRIFT_FLOOR: u64 = 0x3FB9_9999_9999_999A;

/// The bit pattern of `0.8`: a throughput below that share of the best is clearly worse.
pub const CLEARLY_WORSE: u64 = 0x3FE9_9999_9999_999A;

/// The bit pattern of `0.85`: the factor of relayed paths while there is nothing to compare.
pub const MILD_PENALTY: u64 = 0x3FEB_3333_3333_3333;

/// The bit pattern of `0.3`: what of its value an unsampled peer keeps.
pub const UNSAMPLED_SHARE: u64 = 0x3FD3_3333_3333_3333;

/// The bit pattern of `0.7`: what of its value a peer owes to confidence.
pub const CONFIDENT_SHARE: u64 = 0x3FE6_6666_6666_6666;

/// The bit pattern of `0.4`: what of its value a peer loses at its saturation point.
pub const PRESSURE_SHARE: u64 = 0x3FD9_9999_9999_999A;

/// The weight of the `samples`-th observation: its share, and never less than a tenth, so that a
/// changed capacity is noticed.
pub open spec fn drift(samples: u64) -> Formula {
    constant(ONE).over(Formula::Count(samples)).at_least(constant(DRIFT_FLOOR))
}

fn drift_term<A: Arithmetic>(samples: u64, kit: &A) -> (r: Term)
    ensures
        r.holds(kit),
        r.formula@ == drift(samples),
{
    let share = Term::constant(ONE, kit).over(&Term::count(samples, kit), kit);
    share.at_least(&Term::constant(DRIFT_FLOOR, kit), kit)
}

/// The larger of a count and one.
pub open spec fn at_least_one(count: u32) -> u32 {
    if count == 0 {
        1
    } else {
        count
    }
}

/// What was learned of the concurrency at which the throughput per range peaks.
#[derive(Clone, Copy, Debug, PartialEq, Eq, Structural)]
pub struct SaturationEstimate {
    /// The saturation point, between one and sixty-four.
    pub point: Measure,
    /// The saturation point in whole ranges, at least one.
    pub ranges: u32,
    /// The best throughput seen.
    pub best_throughput: Measure,
    /// The concurrency at which it was seen.
    pub best_concurrency: u32,
    /// How many transfers were observed.
    pub samples: u64,
}

/// The point of an estimate, moved towards the larger of itself and a concurrency.
pub open spec fn raised_point(estimate: SaturationEstimate, concurrency: u32) -> Formula {
    let point = Formula::Known(estimate.point);
    moved_by(
        drift(estimate.samples),
        point,
        Formula::Count(concurrency as u64).at_least(point),
    )
}

/// The point of an estimate, moved down towards the concurrency of its best throughput; it stays
/// where that concurrency is higher.
pub open spec fn pulled_point(estimate: SaturationEstimate) -> Formula {
    let point = Formula::Known(estimate.point);
    moved_by(
        drift(estimate.samples),
        point,
        Formula::Count(estimate.best_concurrency as u64).at_most(point),
    ).at_most(point)
}

impl SaturationEstimate {
    /// Whether the saturation point is in range.
    pub open spec fn wf(self) -> bool {
        self.ranges >= 1 && ONE <= self.point.bits <= SIXTY_FOUR
    }

    /// An estimate that starts from `point`.
    pub open spec fn starting(point: Measure, ranges: u32) -> SaturationEstimate {
        SaturationEstimate {
            point,
            ranges,
            best_throughput: Measure { bits: ZERO },
            best_concurrency: 1,
            samples: 0,
        }
    }

    fn seeded(point: Measure, ranges: u32) -> (r: SaturationEstimate)
        ensures
            r == SaturationEstimate::starting(point, ranges),
    {
        SaturationEstimate {
            point,
            ranges,
            best_throughput: Measure { bits: ZERO },
            best_concurrency: 1,
            samples: 0,
        }
    }

    /// Whether `after` is this estimate with its point moved to `point`, held in range, and rounded,
    /// as `kit` computes.
    pub open spec fn moved<A: Arithmetic>(
        self,
        kit: &A,
        point: Formula,
        after: SaturationEstimate,
    ) -> bool {
        &&& point.between(ONE, SIXTY_FOUR).gives(kit, after.point)
        &&& exists|whole: u32|
            call_ensures(A::nearest, (kit, after.point), whole) && after.ranges
                == #[trigger] at_least_one(whole)
        &&& after == SaturationEstimate { point: after.point, ranges: after.ranges, ..self }
    }

    /// Whether `after` is this estimate after a throughput below the best at a higher concurrency,
    /// where `limit` bounds what is clearly worse: then the point is pulled down to where the best
    /// was seen.
    pub open spec fn reacts<A: Arithmetic>(
        self,
        kit: &A,
        throughput: Measure,
        limit: Measure,
        after: SaturationEstimate,
    ) -> bool {
        if throughput.bits < limit.bits {
            self.moved(kit, pulled_point(self), after)
        } else {
            self.moved(kit, Formula::Known(self.point), after)
        }
    }

    /// Whether `after` is this estimate with a transfer folded in. A throughput as good as the best
    /// raises the point towards the concurrency it was seen at; a clearly worse one at a higher
    /// concurrency pulls it down to where the best was seen; any other leaves it.
    pub open spec fn learns<A: Arithmetic>(
        self,
        kit: &A,
        in_flight: u32,
        throughput: Measure,
        after: SaturationEstimate,
    ) -> bool {
        let concurrency = at_least_one(in_flight);
        let counted = SaturationEstimate { samples: one_more(self.samples), ..self };
        if throughput.bits == ZERO {
            after == counted
        } else if throughput.bits >= self.best_throughput.bits {
            let best = SaturationEstimate {
                best_throughput: throughput,
                best_concurrency: concurrency,
                ..counted
            };
            best.moved(kit, raised_point(counted, concurrency), after)
        } else if concurrency > self.best_concurrency {
            exists|limit: Measure|
                constant(CLEARLY_WORSE).times(Formula::Known(self.best_throughput)).gives(
                    kit,
                    limit,
                ) && #[trigger] counted.reacts(kit, throughput, limit, after)
        } else {
            counted.moved(kit, Formula::Known(self.point), after)
        }
    }

    fn move_to<A: Arithmetic>(&mut self, point: &Term, kit: &A)
        requires
            point.holds(kit),
        ensures
            old(self).moved(kit, point.formula@, *final(self)),
            final(self).wf(),
    {
        self.point = point.between(ONE, SIXTY_FOUR, kit).value;
        let whole: u32 = kit.nearest(self.point);
        self.ranges = if whole == 0 {
            1
        } else {
            whole
        };
        assert(self.ranges == at_least_one(whole));
    }

    fn observe<A: Arithmetic>(&mut self, in_flight_at_dispatch: u32, throughput: Measure, kit: &A)
        requires
            old(self).wf(),
        ensures
            final(self).wf(),
            old(self).learns(kit, in_flight_at_dispatch, throughput, *final(self)),
    {
        let concurrency: u32 = if in_flight_at_dispatch == 0 {
            1
        } else {
            in_flight_at_dispatch
        };
        self.samples = self.samples.saturating_add(1);
        if throughput.bits == ZERO {
            return ;
        }
        let point = Term::known(self.point, kit);
        if throughput.bits >= self.best_throughput.bits {
            self.best_throughput = throughput;
            self.best_concurrency = concurrency;
            let target = Term::count(concurrency as u64, kit).at_least(&point, kit);
            let raised = move_by(&drift_term(self.samples, kit), &point, &target, kit);
            self.move_to(&raised, kit);
        } else if concurrency > self.best_concurrency {
            let best = Term::known(self.best_throughput, kit);
            let limit = Term::constant(CLEARLY_WORSE, kit).times(&best, kit).value;
            if throughput.bits < limit.bits {
                let target = Term::count(self.best_concurrency as u64, kit).at_most(&point, kit);
                let moved = move_by(&drift_term(self.samples, kit), &point, &target, kit);
                let pulled = moved.at_most(&point, kit);
                self.move_to(&pulled, kit);
            } else {
                self.move_to(&point, kit);
            }
            assert(SaturationEstimate {
                samples: one_more(old(self).samples),
                ..*old(self)
            }.reacts(kit, throughput, limit, *self));
        } else {
            self.move_to(&point, kit);
        }
    }
}

/// The saturation points of the three classes.
#[derive(Clone, Copy, Debug, PartialEq, Eq, Structural)]
pub struct SaturationModel {
    /// Of direct paths.
    pub direct: SaturationEstimate,
    /// Of relayed paths.
    pub relayed: SaturationEstimate,
    /// Of paths not known yet.
    pub unknown: SaturationEstimate,
}

impl SaturationModel {
    /// Whether the saturation points are in range.
    pub open spec fn wf(self) -> bool {
        self.direct.wf() && self.relayed.wf() && self.unknown.wf()
    }

    /// The model before anything was observed: four ranges at once on a direct path, two on a
    /// relayed one, three where the path is not known.
    pub open spec fn initial() -> SaturationModel {
        SaturationModel {
            direct: SaturationEstimate::starting(Measure { bits: FOUR }, 4),
            relayed: SaturationEstimate::starting(Measure { bits: TWO }, 2),
            unknown: SaturationEstimate::starting(Measure { bits: THREE }, 3),
        }
    }

    /// What was learned of a class.
    pub open spec fn of(self, class: PeerClass) -> SaturationEstimate {
        match class {
            PeerClass::DirectPath => self.direct,
            PeerClass::RelayedPath => self.relayed,
            PeerClass::Unknown => self.unknown,
        }
    }

    /// How many ranges at once a peer of a class is good for: at least one.
    pub fn saturation_point(&self, class: PeerClass) -> (r: u32)
        ensures
            r == self.of(class).ranges,
            self.wf() ==> r >= 1,
    {
        match class {
            PeerClass::DirectPath => self.direct.ranges,
            PeerClass::RelayedPath => self.relayed.ranges,
            PeerClass::Unknown => self.unknown.ranges,
        }
    }

    /// Whether `after` is this model with a transfer of a class folded in.
    pub open spec fn learns<A: Arithmetic>(
        self,
        kit: &A,
        class: PeerClass,
        in_flight: u32,
        throughput: Measure,
        after: SaturationModel,
    ) -> bool {
        &&& self.of(class).learns(kit, in_flight, throughput, after.of(class))
        &&& forall|other: PeerClass| other != class ==> #[trigger] after.of(other) == self.of(other)
    }

    /// Folds in that a peer of a class with so many ranges in flight was measured at `throughput`.
    pub fn observe<A: Arithmetic>(
        &mut self,
        class: PeerClass,
        in_flight_at_dispatch: u32,
        throughput: Measure,
        kit: &A,
    )
        requires
            old(self).wf(),
        ensures
            final(self).wf(),
            old(self).learns(kit, class, in_flight_at_dispatch, throughput, *final(self)),
    {
        match class {
            PeerClass::DirectPath => {
                self.direct.observe(in_flight_at_dispatch, throughput, kit);
            },
            PeerClass::RelayedPath => {
                self.relayed.observe(in_flight_at_dispatch, throughput, kit);
            },
            PeerClass::Unknown => {
                self.unknown.observe(in_flight_at_dispatch, throughput, kit);
            },
        }
    }
}

impl Default for SaturationModel {
    fn default() -> (r: SaturationModel)
        ensures
            r == SaturationModel::initial(),
            r.wf(),
    {
        SaturationModel {
            direct: SaturationEstimate::seeded(Measure { bits: FOUR }, 4),
            relayed: SaturationEstimate::seeded(Measure { bits: TWO }, 2),
            unknown: SaturationEstimate::seeded(Measure { bits: THREE }, 3),
        }
    }
}

/// How relayed transfers measure against the others.
#[derive(Clone, Copy, Debug, PartialEq, Eq, Structural)]
pub struct RelayModel {
    /// The mean throughput of relayed transfers.
    pub relayed_mean: Option<Measure>,
    /// The mean throughput of the others.
    pub direct_mean: Option<Measure>,
    /// How many relayed transfers were observed.
    pub relayed_samples: u64,
    /// How many others were.
    pub direct_samples: u64,
}

/// Whether `after` is a running mean with its `samples`-th sample folded in, as `kit` computes: the
/// first is taken as it is; a later one moves the mean by its weight.
pub open spec fn averaged<A: Arithmetic>(
    kit: &A,
    mean: Option<Measure>,
    samples: u64,
    sample: Measure,
    after: Option<Measure>,
) -> bool {
    match mean {
        None => after == Some(sample),
        Some(before) => after is Some && moved_by(
            drift(samples),
            Formula::Known(before),
            Formula::Known(sample),
        ).gives(kit, after->0),
    }
}

fn average<A: Arithmetic>(mean: Option<Measure>, samples: u64, sample: Measure, kit: &A) -> (r:
    Option<Measure>)
    ensures
        averaged(kit, mean, samples, sample, r),
{
    match mean {
        None => Some(sample),
        Some(before) => {
            let moved = move_by(
                &drift_term(samples, kit),
                &Term::known(before, kit),
                &Term::known(sample, kit),
                kit,
            );
            Some(moved.value)
        },
    }
}

impl RelayModel {
    /// The model before anything was observed.
    pub open spec fn initial() -> RelayModel {
        RelayModel { relayed_mean: None, direct_mean: None, relayed_samples: 0, direct_samples: 0 }
    }

    /// Whether `after` is this model with a transfer folded in. A transfer that moved nothing does
    /// not count.
    pub open spec fn learns<A: Arithmetic>(
        self,
        kit: &A,
        relayed: bool,
        throughput: Measure,
        after: RelayModel,
    ) -> bool {
        if throughput.bits == ZERO {
            after == self
        } else if relayed {
            &&& averaged(
                kit,
                self.relayed_mean,
                one_more(self.relayed_samples),
                throughput,
                after.relayed_mean,
            )
            &&& after == RelayModel {
                relayed_mean: after.relayed_mean,
                relayed_samples: one_more(self.relayed_samples),
                ..self
            }
        } else {
            &&& averaged(
                kit,
                self.direct_mean,
                one_more(self.direct_samples),
                throughput,
                after.direct_mean,
            )
            &&& after == RelayModel {
                direct_mean: after.direct_mean,
                direct_samples: one_more(self.direct_samples),
                ..self
            }
        }
    }

    /// Folds one measured transfer in.
    pub fn observe<A: Arithmetic>(&mut self, relayed: bool, throughput: Measure, kit: &A)
        ensures
            old(self).learns(kit, relayed, throughput, *final(self)),
    {
        if throughput.bits == ZERO {
            return ;
        }
        if relayed {
            self.relayed_samples = self.relayed_samples.saturating_add(1);
            self.relayed_mean = average(self.relayed_mean, self.relayed_samples, throughput, kit);
        } else {
            self.direct_samples = self.direct_samples.saturating_add(1);
            self.direct_mean = average(self.direct_mean, self.direct_samples, throughput, kit);
        }
    }

    /// The factor on the score of a relayed peer: the ratio of the two means, between a quarter and
    /// one; a mild handicap while there is nothing to compare.
    pub open spec fn handicap(self) -> Formula {
        match (self.relayed_mean, self.direct_mean) {
            (Some(relayed), Some(direct)) if direct.bits > ZERO => Formula::Known(relayed).over(
                Formula::Known(direct),
            ).between(QUARTER, ONE),
            _ => constant(MILD_PENALTY),
        }
    }

    fn handicap_term<A: Arithmetic>(&self, kit: &A) -> (r: Term)
        ensures
            r.holds(kit),
            r.formula@ == self.handicap(),
            QUARTER <= r.value.bits <= ONE,
    {
        match (self.relayed_mean, self.direct_mean) {
            (Some(relayed), Some(direct)) => {
                if direct.bits > ZERO {
                    let ratio = Term::known(relayed, kit).over(&Term::known(direct, kit), kit);
                    ratio.between(QUARTER, ONE, kit)
                } else {
                    Term::constant(MILD_PENALTY, kit)
                }
            },
            _ => Term::constant(MILD_PENALTY, kit),
        }
    }

    /// The factor on the score of a relayed peer.
    pub fn penalty<A: Arithmetic>(&self, kit: &A) -> (r: Measure)
        ensures
            self.handicap().gives(kit, r),
            QUARTER <= r.bits <= ONE,
    {
        self.handicap_term(kit).value
    }
}

impl Default for RelayModel {
    fn default() -> (r: RelayModel)
        ensures
            r == RelayModel::initial(),
    {
        RelayModel { relayed_mean: None, direct_mean: None, relayed_samples: 0, direct_samples: 0 }
    }
}

/// How far the scores of bad sources lie below those of all others.
pub const BAD_SOURCE_DROP: i128 = 0x1_0000_0000_0000_0000;

/// A judged peer.
#[derive(Clone, Copy, Debug, PartialEq, Eq, Structural)]
pub struct ScoredPeer {
    /// The score; higher is better. Not negative, and then the bit pattern of a measure, but for a
    /// bad source.
    pub effective_score: i128,
    /// How many more ranges at once the peer is good for.
    pub headroom: u32,
    /// Whether nothing was measured of the peer.
    pub exploratory: bool,
    /// A number that orders peers of equal score.
    pub tie_break: u64,
}

impl ScoredPeer {
    /// Whether the score is one that judging gives.
    pub open spec fn wf(self) -> bool {
        -2 * BAD_SOURCE_DROP <= self.effective_score <= u64::MAX
    }

    /// Whether the peer is a bad source.
    pub open spec fn bad(self) -> bool {
        self.effective_score < 0
    }

    /// Whether the peer was measured and is no bad source.
    pub open spec fn proven(self) -> bool {
        !self.exploratory && !self.bad()
    }
}

/// The number that an identity's first eight bytes spell, the highest first.
pub open spec fn salt(id: PeerId) -> u64 {
    let b = id.bytes@;
    (b[0] * 0x100_0000_0000_0000 + b[1] * 0x1_0000_0000_0000 + b[2] * 0x100_0000_0000 + b[3]
        * 0x1_0000_0000 + b[4] * 0x100_0000 + b[5] * 0x1_0000 + b[6] * 0x100 + b[7]) as u64
}

/// Whether a peer served bytes that did not verify and fails more often than not.
pub open spec fn bad_source(quality: PeerQuality) -> bool {
    &&& quality.reliability.hard_failures > 0
    &&& quality.reliability.rate matches Some(rate)
    &&& rate.bits < HALF
}

/// How many more ranges at once a peer is good for.
pub open spec fn room(peer: Peer, saturation: SaturationModel) -> u32 {
    let ranges = saturation.of(PeerClass::class_of(peer.connection_class)).ranges;
    if ranges < peer.quality.in_flight {
        0
    } else {
        (ranges - peer.quality.in_flight) as u32
    }
}

/// What the path of a peer does to its score.
pub open spec fn path_factor(peer: Peer, relay: RelayModel) -> Formula {
    if PeerClass::class_of(peer.connection_class) == PeerClass::RelayedPath {
        relay.handicap()
    } else {
        constant(ONE)
    }
}

/// A measure, or a constant for want of one.
pub open spec fn or_constant(value: Option<Measure>, bits: u64) -> Formula {
    match value {
        Some(measure) => Formula::Known(measure),
        None => constant(bits),
    }
}

/// How close a peer is to its saturation point, between zero and one.
pub open spec fn pressure(in_flight: u32, ranges: u32) -> Formula {
    if ranges == 0 {
        constant(ONE)
    } else {
        Formula::Count(in_flight as u64).over(Formula::Count(ranges as u64)).between(ZERO, ONE)
    }
}

/// The discount for a heavy tail: for volatility, for unreliability and for queueing near the
/// saturation point.
pub open spec fn tail_discount(quality: PeerQuality, ranges: u32) -> Formula {
    let swings = volatility(quality.throughput.mean, quality.throughput.mad);
    let reliability = or_constant(quality.reliability.rate, HALF);
    constant(ONE).off(constant(HALF).times(swings)).times(
        constant(HALF).plus(constant(HALF).times(reliability)),
    ).times(constant(ONE).off(constant(PRESSURE_SHARE).times(pressure(quality.in_flight, ranges))))
}

/// The value of what was measured: throughput times reliability, trusted as far as it was sampled.
pub open spec fn confident_value(quality: PeerQuality) -> Formula {
    or_constant(quality.throughput.mean, ZERO).times(
        or_constant(quality.reliability.rate, HALF),
    ).times(
        constant(UNSAMPLED_SHARE).plus(
            constant(CONFIDENT_SHARE).times(confidence_in(quality.samples)),
        ),
    )
}

/// What a measured peer merits: its value, discounted for its tail, times the factor of its path.
pub open spec fn merit(peer: Peer, saturation: SaturationModel, relay: RelayModel) -> Formula {
    let ranges = saturation.of(PeerClass::class_of(peer.connection_class)).ranges;
    confident_value(peer.quality).times(tail_discount(peer.quality, ranges)).times(
        path_factor(peer, relay),
    )
}

/// Whether `score` is what a measured peer merits, as `kit` computes.
pub open spec fn is_merit<A: Arithmetic>(
    kit: &A,
    peer: Peer,
    saturation: SaturationModel,
    relay: RelayModel,
    score: i128,
) -> bool {
    exists|value: Measure| #[trigger]
        merit(peer, saturation, relay).gives(kit, value) && score == value.bits
}

/// A measure, or a constant for want of one.
pub fn known_or<A: Arithmetic>(value: Option<Measure>, bits: u64, kit: &A) -> (r: Term)
    ensures
        r.holds(kit),
        r.formula@ == or_constant(value, bits),
{
    match value {
        Some(measure) => Term::known(measure, kit),
        None => Term::constant(bits, kit),
    }
}

fn pressure_term<A: Arithmetic>(in_flight: u32, ranges: u32, kit: &A) -> (r: Term)
    ensures
        r.holds(kit),
        r.formula@ == pressure(in_flight, ranges),
{
    if ranges == 0 {
        Term::constant(ONE, kit)
    } else {
        let load = Term::count(in_flight as u64, kit);
        load.over(&Term::count(ranges as u64, kit), kit).between(ZERO, ONE, kit)
    }
}

fn tail_discount_term<A: Arithmetic>(quality: &PeerQuality, ranges: u32, kit: &A) -> (r: Term)
    ensures
        r.holds(kit),
        r.formula@ == tail_discount(*quality, ranges),
{
    let one = Term::constant(ONE, kit);
    let half = Term::constant(HALF, kit);
    let swings = quality.throughput.volatility_term(kit);
    let reliability = known_or(quality.reliability.rate, HALF, kit);
    let queueing = Term::constant(PRESSURE_SHARE, kit).times(
        &pressure_term(quality.in_flight, ranges, kit),
        kit,
    );
    let steadiness = one.off(&half.times(&swings, kit), kit);
    let dependability = half.plus(&half.times(&reliability, kit), kit);
    steadiness.times(&dependability, kit).times(&one.off(&queueing, kit), kit)
}

fn confident_value_term<A: Arithmetic>(quality: &PeerQuality, kit: &A) -> (r: Term)
    ensures
        r.holds(kit),
        r.formula@ == confident_value(*quality),
{
    let throughput = known_or(quality.throughput.value(), ZERO, kit);
    let reliability = known_or(quality.reliability.rate, HALF, kit);
    let trust = Term::constant(CONFIDENT_SHARE, kit).times(
        &confidence_term(quality.samples, kit),
        kit,
    );
    let share = Term::constant(UNSAMPLED_SHARE, kit).plus(&trust, kit);
    throughput.times(&reliability, kit).times(&share, kit)
}

/// Whether `r` is the judgement on a peer. An unmeasured peer gets the bonus; a bad source is put
/// below everyone else; any other gets what it merits.
pub open spec fn is_judgement<A: Arithmetic>(
    kit: &A,
    peer: Peer,
    saturation: SaturationModel,
    relay: RelayModel,
    bonus: Measure,
    r: ScoredPeer,
) -> bool {
    &&& r.tie_break == salt(peer.peer_id)
    &&& r.exploratory == (peer.quality.samples == 0)
    &&& r.headroom == room(peer, saturation)
    &&& if peer.quality.samples == 0 {
        r.effective_score == bonus.bits
    } else if bad_source(peer.quality) {
        r.effective_score == salt(peer.peer_id) - BAD_SOURCE_DROP
    } else {
        is_merit(kit, peer, saturation, relay, r.effective_score)
    }
}

fn is_bad_source(quality: &PeerQuality) -> (r: bool)
    ensures
        r == bad_source(*quality),
{
    match quality.reliability.rate {
        Some(rate) => quality.reliability.hard_failures() > 0 && rate.bits < HALF,
        None => false,
    }
}

fn tie_break_salt(id: &PeerId) -> (r: u64)
    ensures
        r == salt(*id),
{
    let b = id.as_bytes();
    b[0] as u64 * 0x100_0000_0000_0000 + b[1] as u64 * 0x1_0000_0000_0000 + b[2] as u64
        * 0x100_0000_0000 + b[3] as u64 * 0x1_0000_0000 + b[4] as u64 * 0x100_0000 + b[5] as u64
        * 0x1_0000 + b[6] as u64 * 0x100 + b[7] as u64
}

/// Judges a peer by what was measured of it and by the learned models.
pub fn score_peer<A: Arithmetic>(
    entry: &PeerEntry,
    saturation: &SaturationModel,
    relay: &RelayModel,
    exploration_bonus: Measure,
    kit: &A,
) -> (r: ScoredPeer)
    ensures
        is_judgement(kit, entry@, *saturation, *relay, exploration_bonus, r),
        r.wf(),
{
    let class = PeerClass::of(entry.connection_class);
    let ranges: u32 = saturation.saturation_point(class);
    let headroom: u32 = ranges.saturating_sub(entry.quality.in_flight);
    let tie_break: u64 = tie_break_salt(&entry.peer_id);
    if entry.quality.is_cold() {
        return ScoredPeer {
            effective_score: exploration_bonus.bits as i128,
            headroom,
            exploratory: true,
            tie_break,
        };
    }
    if is_bad_source(&entry.quality) {
        return ScoredPeer {
            effective_score: tie_break as i128 - BAD_SOURCE_DROP,
            headroom,
            exploratory: false,
            tie_break,
        };
    }
    let factor = if class.is_relayed() {
        relay.handicap_term(kit)
    } else {
        Term::constant(ONE, kit)
    };
    let value = confident_value_term(&entry.quality, kit).times(
        &tail_discount_term(&entry.quality, ranges, kit),
        kit,
    ).times(&factor, kit).value;
    assert(merit(entry@, *saturation, *relay).gives(kit, value));
    ScoredPeer { effective_score: value.bits as i128, headroom, exploratory: false, tie_break }
}

} // verus!
