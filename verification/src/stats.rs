//! Aggregate statistics, settings and errors shared by all histograms.

use crate::float64::{finite, negative, zero};
use crate::mapping::Scale;
use crate::width::Width;
use vstd::prelude::*;

verus! {

/// Compact histogram configuration.
#[derive(Debug, Clone, Copy, PartialEq, Eq, Structural)]
pub struct Settings {
    scale: Scale,
    width: Width,
}

impl Settings {
    /// The scale, as the contracts see it.
    pub closed spec fn scale_of(self) -> Scale {
        self.scale
    }

    /// The counter width, as the contracts see it.
    pub closed spec fn width_of(self) -> Width {
        self.width
    }

    /// Creates settings from a scale and width.
    pub fn new(scale: Scale, width: Width) -> (r: Self)
        ensures
            r.scale_of() == scale,
            r.width_of() == width,
    {
        Settings { scale, width }
    }

    /// Returns the scale.
    pub fn scale(&self) -> (r: Scale)
        ensures
            r == self.scale_of(),
    {
        self.scale
    }

    /// Returns the width.
    pub fn width(&self) -> (r: Width)
        ensures
            r == self.width_of(),
    {
        self.width
    }
}

/// Why an update or a merge was refused.
#[derive(Debug, Clone, Copy, PartialEq, Eq, Structural)]
pub enum Error {
    /// The total count would exceed `u64::MAX`.
    Overflow,
    /// A value that cannot be recorded: an infinity, NaN, or a sign that is not supported.
    Extreme,
    /// Two histograms of fixed, different scales.
    ScaleMismatch,
}

impl Error {
    /// Message that describes the error.
    pub fn message(&self) -> (r: &'static str)
        ensures
            self is Overflow ==> r@ == "histogram total count overflow"@,
            self is Extreme ==> r@ == "invalid extreme value received"@,
            self is ScaleMismatch ==> r@ == "histogram scales do not match"@,
    {
        match self {
            Error::Overflow => "histogram total count overflow",
            Error::Extreme => "invalid extreme value received",
            Error::ScaleMismatch => "histogram scales do not match",
        }
    }
}

/// Aggregate statistics of a histogram: count, sum, min, max.
///
/// The last three are bit patterns of floating-point values. The sum of a histogram is a
/// floating-point sum, which the caller computes and hands in with each update.
#[derive(Debug, Clone, Copy, PartialEq, Eq, Structural)]
pub struct Stats {
    /// Total number of observations.
    pub count: u64,
    /// Sum of all observed values.
    pub sum: u64,
    /// Minimum observed value.
    pub min: u64,
    /// Maximum observed value.
    pub max: u64,
}

/// Statistics of an empty histogram: no count, sum 0, and the extremes at infinity.
pub open spec fn empty_stats() -> Stats {
    Stats { count: 0, sum: 0, min: 0x7ff0_0000_0000_0000, max: 0xfff0_0000_0000_0000 }
}

/// `stats` after `incr` observations of the non-zero value `bits`.
pub open spec fn observed(stats: Stats, bits: u64, incr: u64, sum: u64) -> Stats {
    Stats {
        count: (stats.count + incr) as u64,
        sum,
        min: crate::float64::least(stats.min, bits),
        max: crate::float64::greatest(stats.max, bits),
    }
}

/// `stats` and `other` combined.
pub open spec fn combined(stats: Stats, other: Stats, sum: u64) -> Stats {
    Stats {
        count: (stats.count + other.count) as u64,
        sum,
        min: crate::float64::least(stats.min, other.min),
        max: crate::float64::greatest(stats.max, other.max),
    }
}

/// `stats` with `incr` more zero observations.
pub open spec fn with_zeros(stats: Stats, incr: u64) -> Stats {
    Stats { count: (stats.count + incr) as u64, ..stats }
}

impl Stats {
    /// Empty statistics.
    pub fn empty() -> (r: Self)
        ensures
            r == empty_stats(),
    {
        Stats { count: 0, sum: 0, min: crate::float64::INFINITY, max: crate::float64::NEG_INFINITY }
    }

    /// Adds `incr` observations of a non-zero value.
    pub fn observe(&mut self, bits: u64, incr: u64, sum: u64)
        requires
            old(self).count + incr <= u64::MAX,
        ensures
            *final(self) == observed(*old(self), bits, incr, sum),
    {
        self.count = self.count + incr;
        self.sum = sum;
        self.min = crate::float64::min_of(self.min, bits);
        self.max = crate::float64::max_of(self.max, bits);
    }

    /// Adds `incr` observations of zero, which leave the sum and the extremes alone.
    pub fn observe_zeros(&mut self, incr: u64)
        requires
            old(self).count + incr <= u64::MAX,
        ensures
            *final(self) == with_zeros(*old(self), incr),
    {
        self.count = self.count + incr;
    }

    /// Combines with the statistics of another histogram.
    pub fn combine(&mut self, other: &Stats, sum: u64)
        requires
            old(self).count + other.count <= u64::MAX,
        ensures
            *final(self) == combined(*old(self), *other, sum),
    {
        self.count = self.count + other.count;
        self.sum = sum;
        self.min = crate::float64::min_of(self.min, other.min);
        self.max = crate::float64::max_of(self.max, other.max);
    }
}

/// A value that a histogram of non-negative values refuses: an infinity, NaN, or negative.
pub open spec fn refused(bits: u64) -> bool {
    !zero(bits) && (!finite(bits) || negative(bits))
}

} // verus!
