//! The learned quality of one peer, moved by measured outcomes alone.

use vstd::prelude::*;

use crate::formula::{constant, Formula, Term};
use crate::measure::{Arithmetic, Measure, EPSILON, FOUR, ONE, QUARTER, ZERO};

verus! {

/// One more than a count, which stays at its largest value.
pub open spec fn one_more(count: u64) -> u64 {
    if count == u64::MAX {
        count
    } else {
        (count + 1) as u64
    }
}

/// The bit pattern of `0.15`: the weight of a sample in a steady stream.
pub const STEADY_WEIGHT: u64 = 0x3FC3_3333_3333_3333;

/// The bit pattern of `0.60 - 0.15`: what full volatility adds to that weight.
pub const VOLATILITY_LIFT: u64 = 0x3FDC_CCCC_CCCC_CCCC;

/// A deviation relative to a mean, between zero and one; zero without a mean that is distinguishable
/// from zero.
pub open spec fn volatility(mean: Option<Measure>, mad: Measure) -> Formula {
    match mean {
        Some(mean) if mean.bits > EPSILON => Formula::Known(mad).over(Formula::Known(mean)).between(
            ZERO,
            ONE,
        ),
        _ => constant(ZERO),
    }
}

/// The share of one more thing among `samples`.
pub open spec fn newest_share(samples: u64) -> Formula {
    constant(ONE).over(Formula::Count(samples).plus(constant(ONE)))
}

/// The weight of a sample: its share, or what the volatility calls for where that is more.
pub open spec fn sample_weight(mean: Measure, mad: Measure, samples: u64) -> Formula {
    newest_share(samples).at_least(
        constant(STEADY_WEIGHT).plus(constant(VOLATILITY_LIFT).times(volatility(Some(mean), mad))),
    ).between(ZERO, ONE)
}

/// `old` moved towards `new` by a weight.
pub open spec fn moved_by(weight: Formula, old: Formula, new: Formula) -> Formula {
    constant(ONE).off(weight).times(old).plus(weight.times(new))
}

/// `old` moved towards `new` by a weight.
pub fn move_by<A: Arithmetic>(weight: &Term, old: &Term, new: &Term, kit: &A) -> (r: Term)
    requires
        weight.holds(kit),
        old.holds(kit),
        new.holds(kit),
    ensures
        r.holds(kit),
        r.formula@ == moved_by(weight.formula@, old.formula@, new.formula@),
{
    let rest = Term::constant(ONE, kit).off(weight, kit);
    rest.times(old, kit).plus(&weight.times(new, kit), kit)
}

fn newest_share_of<A: Arithmetic>(samples: u64, kit: &A) -> (r: Term)
    ensures
        r.holds(kit),
        r.formula@ == newest_share(samples),
{
    let one = Term::constant(ONE, kit);
    one.over(&Term::count(samples, kit).plus(&one, kit), kit)
}

/// A recency-weighted estimate of one quantity: its mean, its volatility and its sample count.
#[derive(Clone, Copy, Debug, PartialEq, Eq, Structural)]
pub struct Estimate {
    /// The mean, once there is a sample or a prior.
    pub mean: Option<Measure>,
    /// The recency-weighted mean absolute deviation from the mean.
    pub mad: Measure,
    /// How many measured samples were folded in.
    pub samples: u64,
}

impl Estimate {
    /// An estimate without samples.
    pub fn new() -> (r: Estimate)
        ensures
            r == Estimate::fresh(),
    {
        Estimate { mean: None, mad: Measure { bits: ZERO }, samples: 0 }
    }

    /// The estimate without samples.
    pub open spec fn fresh() -> Estimate {
        Estimate { mean: None, mad: Measure { bits: ZERO }, samples: 0 }
    }

    /// The mean of what was measured: a prior is none.
    pub open spec fn measured(self) -> Option<Measure> {
        if self.samples == 0 {
            None
        } else {
            self.mean
        }
    }

    /// The estimated value: nothing before the first sample or prior.
    pub fn value(&self) -> (r: Option<Measure>)
        ensures
            r == self.mean,
    {
        self.mean
    }

    /// How many measured samples were folded in.
    pub fn samples(&self) -> (r: u64)
        ensures
            r == self.samples,
    {
        self.samples
    }

    /// The observed deviation relative to the mean, between zero and one.
    pub fn relative_volatility<A: Arithmetic>(&self, kit: &A) -> (r: Measure)
        ensures
            volatility(self.mean, self.mad).gives(kit, r),
            r.bits <= ONE,
    {
        self.volatility_term(kit).value
    }

    /// The observed deviation relative to the mean.
    pub fn volatility_term<A: Arithmetic>(&self, kit: &A) -> (r: Term)
        ensures
            r.holds(kit),
            r.formula@ == volatility(self.mean, self.mad),
            r.value.bits <= ONE,
    {
        match self.mean {
            Some(mean) => {
                if mean.bits > EPSILON {
                    Term::known(self.mad, kit).over(&Term::known(mean, kit), kit).between(
                        ZERO,
                        ONE,
                        kit,
                    )
                } else {
                    Term::constant(ZERO, kit)
                }
            },
            None => Term::constant(ZERO, kit),
        }
    }

    /// Whether `after` is this estimate with `sample` folded in, as `kit` computes: the first sample
    /// is taken as it is; a later one moves the mean towards it, and the deviation towards its
    /// distance from the mean, both by the weight of the sample.
    pub open spec fn folds<A: Arithmetic>(self, kit: &A, sample: Measure, after: Estimate) -> bool {
        &&& after.samples == one_more(self.samples)
        &&& match self.mean {
            None => after.mean == Some(sample) && after.mad.bits == ZERO,
            Some(mean) => {
                let weight = sample_weight(mean, self.mad, self.samples);
                let (old, new) = (Formula::Known(mean), Formula::Known(sample));
                &&& after.mean is Some
                &&& moved_by(weight, old, new).gives(kit, after.mean->0)
                &&& moved_by(weight, Formula::Known(self.mad), new.off(old)).gives(kit, after.mad)
            },
        }
    }

    fn next_weight<A: Arithmetic>(&self, mean: Measure, kit: &A) -> (r: Term)
        requires
            self.mean == Some(mean),
        ensures
            r.holds(kit),
            r.formula@ == sample_weight(mean, self.mad, self.samples),
    {
        let lift = Term::constant(VOLATILITY_LIFT, kit).times(&self.volatility_term(kit), kit);
        let driven = Term::constant(STEADY_WEIGHT, kit).plus(&lift, kit);
        newest_share_of(self.samples, kit).at_least(&driven, kit).between(ZERO, ONE, kit)
    }

    /// Folds a measured sample in.
    pub fn observe<A: Arithmetic>(&mut self, sample: Measure, kit: &A)
        ensures
            old(self).folds(kit, sample, *final(self)),
    {
        match self.mean {
            None => {
                self.mean = Some(sample);
                self.mad = Measure { bits: ZERO };
            },
            Some(mean) => {
                let weight = self.next_weight(mean, kit);
                let old_mean = Term::known(mean, kit);
                let new = Term::known(sample, kit);
                let deviation = new.off(&old_mean, kit);
                self.mad = move_by(&weight, &Term::known(self.mad, kit), &deviation, kit).value;
                self.mean = Some(move_by(&weight, &old_mean, &new, kit).value);
            },
        }
        self.samples = self.samples.saturating_add(1);
    }

    /// The estimate with `value` for a starting point, unless something was measured.
    pub open spec fn seeded(self, value: Measure) -> Estimate {
        if self.samples == 0 {
            Estimate { mean: Some(value), ..self }
        } else {
            self
        }
    }

    /// Sets a starting point that does not count as a sample; no effect once something was measured.
    pub fn seed_prior(&mut self, value: Measure)
        ensures
            *final(self) == old(self).seeded(value),
    {
        if self.samples == 0 {
            self.mean = Some(value);
        }
    }
}

impl Default for Estimate {
    fn default() -> (r: Estimate)
        ensures
            r == Estimate::fresh(),
    {
        Estimate::new()
    }
}

/// A recency-weighted success rate.
#[derive(Clone, Copy, Debug, PartialEq, Eq, Structural)]
pub struct Reliability {
    /// The success rate, once there is a result or a prior.
    pub rate: Option<Measure>,
    /// How many result weights were folded in.
    pub samples: u64,
    /// How many verification failures were observed.
    pub hard_failures: u64,
}

/// What a result is worth in a success rate.
pub open spec fn result_weight(ok: bool) -> Measure {
    if ok {
        Measure { bits: ONE }
    } else {
        Measure { bits: ZERO }
    }
}

/// The weight of a result: its share, and at least a quarter, so that recent results tell.
pub open spec fn result_share(samples: u64) -> Formula {
    newest_share(samples).at_least(constant(QUARTER))
}

/// A rate moved by a result: towards it, never away from it, and never above one.
pub open spec fn stepped(rate: Measure, samples: u64, ok: bool) -> Formula {
    let old = Formula::Known(rate);
    let moved = moved_by(result_share(samples), old, Formula::Known(result_weight(ok)));
    if ok {
        moved.at_least(old).at_most(constant(ONE))
    } else {
        moved.at_most(old)
    }
}

impl Reliability {
    /// A reliability without results.
    pub fn new() -> (r: Reliability)
        ensures
            r == Reliability::fresh(),
    {
        Reliability { rate: None, samples: 0, hard_failures: 0 }
    }

    /// The reliability without results.
    pub open spec fn fresh() -> Reliability {
        Reliability { rate: None, samples: 0, hard_failures: 0 }
    }

    /// The measured success rate: a prior is none.
    pub open spec fn measured(self) -> Option<Measure> {
        if self.samples == 0 {
            None
        } else {
            self.rate
        }
    }

    /// The success rate; nothing before the first result, whatever the prior is.
    pub fn rate(&self) -> (r: Option<Measure>)
        ensures
            r == self.measured(),
    {
        if self.samples == 0 {
            None
        } else {
            self.rate
        }
    }

    /// How many result weights were folded in.
    pub fn samples(&self) -> (r: u64)
        ensures
            r == self.samples,
    {
        self.samples
    }

    /// How many verification failures were observed.
    pub fn hard_failures(&self) -> (r: u64)
        ensures
            r == self.hard_failures,
    {
        self.hard_failures
    }

    /// Whether `after` is this rate with one result weight folded in, as `kit` computes: the first is
    /// taken as it is; a later one moves the rate by its share, or by a quarter where that is more.
    pub open spec fn steps<A: Arithmetic>(self, kit: &A, ok: bool, after: Reliability) -> bool {
        &&& after.samples == one_more(self.samples)
        &&& after.hard_failures == self.hard_failures
        &&& after.rate is Some
        &&& match self.rate {
            None => after.rate == Some(result_weight(ok)),
            Some(rate) => stepped(rate, self.samples, ok).gives(kit, after.rate->0),
        }
    }

    fn step<A: Arithmetic>(&mut self, ok: bool, kit: &A)
        ensures
            old(self).steps(kit, ok, *final(self)),
    {
        let target = if ok {
            Measure { bits: ONE }
        } else {
            Measure { bits: ZERO }
        };
        match self.rate {
            None => {
                self.rate = Some(target);
            },
            Some(rate) => {
                let weight = newest_share_of(self.samples, kit).at_least(
                    &Term::constant(QUARTER, kit),
                    kit,
                );
                let old_rate = Term::known(rate, kit);
                let moved = move_by(&weight, &old_rate, &Term::known(target, kit), kit);
                let bounded = if ok {
                    moved.at_least(&old_rate, kit).at_most(&Term::constant(ONE, kit), kit)
                } else {
                    moved.at_most(&old_rate, kit)
                };
                self.rate = Some(bounded.value);
            },
        }
        self.samples = self.samples.saturating_add(1);
    }

    /// Whether `after` is this reliability with a result folded in: three times, and counted, where
    /// it is a verification failure; once otherwise.
    pub open spec fn hears<A: Arithmetic>(
        self,
        kit: &A,
        ok: bool,
        hard: bool,
        after: Reliability,
    ) -> bool {
        if !ok && hard {
            exists|first: Reliability, second: Reliability, third: Reliability|
                #![trigger self.steps(kit, ok, first), first.steps(kit, ok, second), second.steps(kit, ok, third)]
                self.steps(kit, ok, first) && first.steps(kit, ok, second) && second.steps(
                    kit,
                    ok,
                    third,
                ) && after == (Reliability { hard_failures: one_more(self.hard_failures), ..third })
        } else {
            self.steps(kit, ok, after)
        }
    }

    /// Folds a success or a failure in. A verification failure weighs three failures.
    pub fn observe<A: Arithmetic>(&mut self, ok: bool, hard: bool, kit: &A)
        ensures
            old(self).hears(kit, ok, hard, *final(self)),
    {
        let ghost before = *self;
        self.step(ok, kit);
        if !ok && hard {
            let ghost first = *self;
            self.step(ok, kit);
            let ghost second = *self;
            self.step(ok, kit);
            let ghost third = *self;
            self.hard_failures = self.hard_failures.saturating_add(1);
            proof {
                assert(before.steps(kit, ok, first) && first.steps(kit, ok, second)
                    && second.steps(kit, ok, third));
                assert(*self == Reliability {
                    hard_failures: one_more(before.hard_failures),
                    ..third
                });
            }
        }
    }

    /// The reliability with `value` for a starting point, unless something was measured.
    pub open spec fn seeded(self, value: Measure) -> Reliability {
        if self.samples == 0 {
            Reliability {
                rate: Some(value.clamped(Measure { bits: ZERO }, Measure { bits: ONE })),
                ..self
            }
        } else {
            self
        }
    }

    /// Sets a starting rate, at most one, that does not count as a result; no effect once something
    /// was measured.
    pub fn seed_prior(&mut self, value: Measure)
        ensures
            *final(self) == old(self).seeded(value),
    {
        if self.samples == 0 {
            self.rate = Some(value.clamp(Measure { bits: ZERO }, Measure { bits: ONE }));
        }
    }
}

impl Default for Reliability {
    fn default() -> (r: Reliability)
        ensures
            r == Reliability::fresh(),
    {
        Reliability::new()
    }
}

/// The trust that a number of measured outcomes gives.
pub open spec fn confidence_in(samples: u64) -> Formula {
    Formula::Count(samples).over(Formula::Count(samples).plus(constant(FOUR)))
}

/// The trust that a number of measured outcomes gives.
pub fn confidence_term<A: Arithmetic>(samples: u64, kit: &A) -> (r: Term)
    ensures
        r.holds(kit),
        r.formula@ == confidence_in(samples),
{
    let n = Term::count(samples, kit);
    n.over(&n.plus(&Term::constant(FOUR, kit), kit), kit)
}

/// What was learned of a peer, and the ranges it is busy with.
#[derive(Clone, Copy, Debug, PartialEq, Eq, Structural)]
pub struct PeerQuality {
    /// Achievable throughput in bytes per second.
    pub throughput: Estimate,
    /// Time to first byte in milliseconds.
    pub rtt: Estimate,
    /// Success rate.
    pub reliability: Reliability,
    /// How many measured outcomes were folded in.
    pub samples: u64,
    /// Ranges currently assigned to the peer. Live, not learned.
    pub in_flight: u32,
}

impl PeerQuality {
    /// The quality of a peer of which nothing is known.
    pub open spec fn unknown() -> PeerQuality {
        PeerQuality {
            throughput: Estimate::fresh(),
            rtt: Estimate::fresh(),
            reliability: Reliability::fresh(),
            samples: 0,
            in_flight: 0,
        }
    }

    /// Whether two qualities agree in everything that is learned.
    pub open spec fn same_learning(self, other: PeerQuality) -> bool {
        &&& self.throughput == other.throughput
        &&& self.rtt == other.rtt
        &&& self.reliability == other.reliability
        &&& self.samples == other.samples
    }

    /// The quality of a peer of which nothing is known.
    pub fn cold() -> (r: PeerQuality)
        ensures
            r == PeerQuality::unknown(),
    {
        PeerQuality {
            throughput: Estimate::new(),
            rtt: Estimate::new(),
            reliability: Reliability::new(),
            samples: 0,
            in_flight: 0,
        }
    }

    /// Whether no outcome was measured yet.
    pub fn is_cold(&self) -> (r: bool)
        ensures
            r == (self.samples == 0),
    {
        self.samples == 0
    }

    /// The trust that the number of measured outcomes gives: none at first, half after four.
    pub fn confidence<A: Arithmetic>(&self, kit: &A) -> (r: Measure)
        ensures
            confidence_in(self.samples).gives(kit, r),
    {
        confidence_term(self.samples, kit).value
    }

    /// Folds one measured throughput in.
    pub fn observe_throughput<A: Arithmetic>(&mut self, bps: Measure, kit: &A)
        ensures
            old(self).throughput.folds(kit, bps, final(self).throughput),
            *final(self) == (PeerQuality { throughput: final(self).throughput, ..*old(self) }),
    {
        self.throughput.observe(bps, kit);
    }

    /// Folds one measured time to first byte in.
    pub fn observe_rtt<A: Arithmetic>(&mut self, ms: Measure, kit: &A)
        ensures
            old(self).rtt.folds(kit, ms, final(self).rtt),
            *final(self) == (PeerQuality { rtt: final(self).rtt, ..*old(self) }),
    {
        self.rtt.observe(ms, kit);
    }

    /// Folds one success or failure in.
    pub fn observe_result<A: Arithmetic>(&mut self, ok: bool, hard: bool, kit: &A)
        ensures
            old(self).reliability.hears(kit, ok, hard, final(self).reliability),
            *final(self) == (PeerQuality { reliability: final(self).reliability, ..*old(self) }),
    {
        self.reliability.observe(ok, hard, kit);
    }

    /// Counts one more measured outcome.
    pub fn bump_samples(&mut self)
        ensures
            *final(self) == (PeerQuality { samples: one_more(old(self).samples), ..*old(self) }),
    {
        self.samples = self.samples.saturating_add(1);
    }
}

impl Default for PeerQuality {
    fn default() -> (r: PeerQuality)
        ensures
            r == PeerQuality::unknown(),
    {
        PeerQuality::cold()
    }
}

/// A verification failure counts three result weights and one hard failure; any other result counts
/// one weight and no hard failure.
pub proof fn verification_failures_weigh_three<A: Arithmetic>(
    kit: &A,
    before: Reliability,
    ok: bool,
    hard: bool,
    after: Reliability,
)
    requires
        before.hears(kit, ok, hard, after),
        before.samples <= u64::MAX - 3,
        before.hard_failures < u64::MAX,
    ensures
        after.samples == before.samples + (if !ok && hard { 3int } else { 1 }),
        after.hard_failures == before.hard_failures + (if !ok && hard { 1int } else { 0 }),
        after.rate is Some,
{
}

/// A starting point is taken while nothing was measured, never counts as a sample, and never
/// replaces what was measured.
pub proof fn priors_yield_to_measurements(estimate: Estimate, reliability: Reliability, value: Measure)
    ensures
        estimate.samples == 0 ==> estimate.seeded(value).mean == Some(value),
        estimate.samples > 0 ==> estimate.seeded(value) == estimate,
        estimate.seeded(value).samples == estimate.samples,
        reliability.samples > 0 ==> reliability.seeded(value) == reliability,
        reliability.seeded(value).samples == reliability.samples,
{
}

} // verus!
