//! Measured quantities, and the arithmetic done on them.
//!
//! Throughputs, latencies, rates and scores are non-negative doubles. The library stores each as its
//! bit pattern: on non-negative doubles the order of the bit patterns, read as unsigned integers, is
//! the order of the numbers, so every comparison and every bound is decided here on integers. What
//! needs floating-point arithmetic proper is asked of an [`Arithmetic`]. The library has one of its
//! own, which works on the bit patterns; a host may put in another.

use vstd::prelude::*;

verus! {

/// A non-negative double, by its bit pattern.
#[derive(Clone, Copy, Debug, PartialEq, Eq, Structural)]
pub struct Measure {
    /// The bit pattern.
    pub bits: u64,
}

/// The bit pattern of `0.0`.
pub const ZERO: u64 = 0;

/// The bit pattern of `0.25`.
pub const QUARTER: u64 = 0x3FD0_0000_0000_0000;

/// The bit pattern of `0.5`.
pub const HALF: u64 = 0x3FE0_0000_0000_0000;

/// The bit pattern of `1.0`.
pub const ONE: u64 = 0x3FF0_0000_0000_0000;

/// The bit pattern of `2.0`.
pub const TWO: u64 = 0x4000_0000_0000_0000;

/// The bit pattern of `3.0`.
pub const THREE: u64 = 0x4008_0000_0000_0000;

/// The bit pattern of `4.0`.
pub const FOUR: u64 = 0x4010_0000_0000_0000;

/// The bit pattern of `64.0`.
pub const SIXTY_FOUR: u64 = 0x4050_0000_0000_0000;

/// The bit pattern of `1000.0`.
pub const THOUSAND: u64 = 0x408F_4000_0000_0000;

/// The bit pattern of the difference between `1.0` and the next larger double.
pub const EPSILON: u64 = 0x3CB0_0000_0000_0000;

/// The bit pattern of infinity. The larger ones stand for no measure.
pub const INFINITY: u64 = 0x7FF0_0000_0000_0000;

/// The larger of two measures.
pub open spec fn larger(a: Measure, b: Measure) -> Measure {
    if a.bits < b.bits {
        b
    } else {
        a
    }
}

/// The smaller of two measures.
pub open spec fn smaller(a: Measure, b: Measure) -> Measure {
    if b.bits < a.bits {
        b
    } else {
        a
    }
}

impl Measure {
    /// `self` held between `low` and `high`.
    pub open spec fn clamped(self, low: Measure, high: Measure) -> Measure {
        if self.bits < low.bits {
            low
        } else if high.bits < self.bits {
            high
        } else {
            self
        }
    }

    /// `self`, or the nearer of the two bounds where it lies outside them.
    pub fn clamp(self, low: Measure, high: Measure) -> (r: Measure)
        ensures
            r == self.clamped(low, high),
    {
        if self.bits < low.bits {
            low
        } else if high.bits < self.bits {
            high
        } else {
            self
        }
    }
}

/// The operations on doubles that the learned models are made of. The library decides what to
/// compute; comparing and bounding it does itself, on bit patterns.
pub trait Arithmetic {
    /// The number `count`.
    fn count(&self, count: u64) -> Measure;

    /// `a + b`.
    fn sum(&self, a: Measure, b: Measure) -> Measure;

    /// The larger of `a - b` and `b - a`.
    fn gap(&self, a: Measure, b: Measure) -> Measure;

    /// `a * b`.
    fn product(&self, a: Measure, b: Measure) -> Measure;

    /// `a / b`.
    fn quotient(&self, a: Measure, b: Measure) -> Measure;

    /// The whole number nearest to `a`.
    fn nearest(&self, a: Measure) -> u32;
}

} // verus!
