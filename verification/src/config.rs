//! The wiring of a selector: a clock, a seed and a resource bound. None of it changes how peers are
//! judged; every trade-off is learned.

use std::time::{Duration, SystemTime, SystemTimeError, UNIX_EPOCH};

use vstd::prelude::*;

verus! {

/// `std::time::SystemTime`, carried from reading the clock to subtracting the epoch.
#[verifier::external_type_specification]
#[verifier::external_body]
pub struct ExSystemTime(SystemTime);

/// `std::time::SystemTimeError`, which a time before the epoch gives.
#[verifier::external_type_specification]
#[verifier::external_body]
pub struct ExSystemTimeError(SystemTimeError);

/// `std::time::SystemTime::now`: some time, whatever the machine says.
#[verifier::external_body]
fn system_time() -> SystemTime {
    SystemTime::now()
}

/// `std::time::SystemTime::duration_since`, from the epoch. Which of the two results comes, and what
/// it holds, depends on what the machine said; nothing is claimed of it.
#[verifier::external_body]
fn since_epoch(time: SystemTime) -> Result<Duration, SystemTimeError> {
    time.duration_since(UNIX_EPOCH)
}

/// The whole seconds of a duration.
pub uninterp spec fn seconds_in(elapsed: Duration) -> u64;

/// `std::time::Duration::as_secs`: the whole seconds of a duration, which depend on it alone and are
/// given a name.
#[verifier::external_body]
fn whole_seconds(elapsed: Duration) -> (r: u64)
    ensures
        r == seconds_in(elapsed),
{
    elapsed.as_secs()
}

/// The seconds of a reading of the machine's clock: those since the epoch, or zero before it.
pub fn seconds_of(reading: Result<Duration, SystemTimeError>) -> (r: u64)
    ensures
        reading matches Ok(elapsed) ==> r == seconds_in(elapsed),
        reading is Err ==> r == 0,
{
    match reading {
        Ok(elapsed) => whole_seconds(elapsed),
        Err(_) => 0,
    }
}

/// A source of the current time in seconds since the epoch.
#[derive(Debug, PartialEq, Eq, Structural)]
pub enum ClockSource {
    /// The machine's clock.
    System,
    /// A clock that shows the given time until it is moved.
    Manual(u64),
}

impl ClockSource {
    /// Whether the clock may show `now`: any time for the machine's clock, the set time for a manual
    /// one.
    pub open spec fn reads(self, now: u64) -> bool {
        match self {
            ClockSource::System => true,
            ClockSource::Manual(time) => now == time,
        }
    }

    /// The machine's clock.
    pub fn system() -> (r: ClockSource)
        ensures
            r == ClockSource::System,
    {
        ClockSource::System
    }

    /// A manual clock that shows `start`.
    pub fn manual(start: u64) -> (r: ClockSource)
        ensures
            r == ClockSource::Manual(start),
    {
        ClockSource::Manual(start)
    }

    /// The current time in seconds since the epoch; zero where the machine's clock is before it.
    pub fn now(&self) -> (r: u64)
        ensures
            self.reads(r),
    {
        match self {
            ClockSource::System => seconds_of(since_epoch(system_time())),
            ClockSource::Manual(time) => *time,
        }
    }

    /// Moves a manual clock forward, around the end of its range; leaves the machine's clock alone.
    pub fn advance(&mut self, secs: u64)
        ensures
            *final(self) == match *old(self) {
                ClockSource::System => ClockSource::System,
                ClockSource::Manual(time) => ClockSource::Manual(
                    if time + secs > u64::MAX {
                        (time + secs - u64::MAX - 1) as u64
                    } else {
                        (time + secs) as u64
                    },
                ),
            },
    {
        match *self {
            ClockSource::System => {},
            ClockSource::Manual(time) => {
                *self = ClockSource::Manual(time.wrapping_add(secs));
            },
        }
    }

    /// Sets a manual clock; leaves the machine's clock alone.
    pub fn set(&mut self, secs: u64)
        ensures
            *final(self) == match *old(self) {
                ClockSource::System => ClockSource::System,
                ClockSource::Manual(_) => ClockSource::Manual(secs),
            },
    {
        match *self {
            ClockSource::System => {},
            ClockSource::Manual(_) => {
                *self = ClockSource::Manual(secs);
            },
        }
    }
}

impl Default for ClockSource {
    fn default() -> (r: ClockSource)
        ensures
            r == ClockSource::System,
    {
        ClockSource::system()
    }
}

/// How many peers a registry holds unless told otherwise.
pub const DEFAULT_REGISTRY_CAPACITY: usize = 4096;

/// The seed used where none is configured.
pub const DEFAULT_SEED: u64 = 0x5EED_D16C_0DE0;

/// What a selector is wired with.
#[derive(Debug, PartialEq, Eq, Structural)]
pub struct SelectorConfig {
    /// The clock.
    pub clock: ClockSource,
    /// The seed of the exploration tie-breaks.
    pub rng_seed: Option<u64>,
    /// How many peers the registry holds.
    pub registry_capacity: usize,
}

impl SelectorConfig {
    /// The configured seed, or the default one.
    pub open spec fn seed(self) -> u64 {
        match self.rng_seed {
            Some(seed) => seed,
            None => DEFAULT_SEED,
        }
    }

    /// A manual clock that shows `start`, a fixed seed and the default capacity.
    pub fn deterministic(start: u64, seed: u64) -> (r: SelectorConfig)
        ensures
            r == (SelectorConfig {
                clock: ClockSource::Manual(start),
                rng_seed: Some(seed),
                registry_capacity: DEFAULT_REGISTRY_CAPACITY,
            }),
    {
        SelectorConfig {
            clock: ClockSource::manual(start),
            rng_seed: Some(seed),
            registry_capacity: DEFAULT_REGISTRY_CAPACITY,
        }
    }

    /// The configured seed, or a fixed default, so that a run can be repeated either way.
    pub fn effective_seed(&self) -> (r: u64)
        ensures
            r == self.seed(),
    {
        match self.rng_seed {
            Some(seed) => seed,
            None => DEFAULT_SEED,
        }
    }
}

impl Default for SelectorConfig {
    fn default() -> (r: SelectorConfig)
        ensures
            r == (SelectorConfig {
                clock: ClockSource::System,
                rng_seed: None,
                registry_capacity: DEFAULT_REGISTRY_CAPACITY,
            }),
    {
        SelectorConfig {
            clock: ClockSource::system(),
            rng_seed: None,
            registry_capacity: DEFAULT_REGISTRY_CAPACITY,
        }
    }
}

} // verus!
