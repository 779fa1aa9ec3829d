//! Fixed-scale collapse-left histogram for values of any sign.
//!
//! [`SketchPN`] pairs two sketches, one for positive values and one for the magnitudes of
//! negative values, with a count of zeros. Both ranges share one fixed scale.

use crate::float64::{
    finite, get_biased_exponent, get_significand, greatest, is_sign_negative, least, max_of, min_of,
    negative, zero, INFINITY, NAN_INF_BIASED, NEG_INFINITY,
};
use crate::lookup::TABLE_SCALE;
use crate::mapping::{ScaleError, MIN_SCALE};
use crate::sketch::{
    coarsest, merge_outcome, proper_fraction, recorded, scale_for_relative_error, Sketch,
};
use crate::sketch_view::SketchBucketView;
use crate::stats::{empty_stats, Error, Stats};
use crate::width::Width;
use vstd::prelude::*;

verus! {

/// A fixed-scale exponential histogram for values of any sign.
///
/// `K` and `L` are the pool sizes of the positive and the negative range, in words.
#[derive(Debug, Clone, Copy)]
pub struct SketchPN<const K: usize, const L: usize> {
    positive: Sketch<K>,
    negative: Sketch<L>,
    sum: u64,
    min: u64,
    max: u64,
    zero_count: u64,
}

/// The magnitude of a value.
pub open spec fn absolute(bits: u64) -> u64 {
    if negative(bits) {
        (bits - 0x8000_0000_0000_0000) as u64
    } else {
        bits
    }
}

/// The outcome of recording the value with pattern `bits`, `incr` times.
pub open spec fn recorded_pn<const K: usize, const L: usize>(
    before: SketchPN<K, L>,
    after: SketchPN<K, L>,
    bits: u64,
    incr: u64,
    sum: u64,
    side_sum: u64,
    r: Result<(), Error>,
) -> bool {
    if before.total() + incr > u64::MAX {
        r == Err::<(), Error>(Error::Overflow) && after == before
    } else if !finite(bits) {
        r == Err::<(), Error>(Error::Extreme) && after == before
    } else {
        &&& r.is_ok()
        &&& after.wf()
        &&& after.total() == before.total() + incr
        &&& if zero(bits) {
            &&& after.positive_of() == before.positive_of()
            &&& after.negative_of() == before.negative_of()
            &&& after.zeros() == before.zeros() + incr
            &&& after.sum_of() == before.sum_of()
            &&& after.min_of() == least(before.min_of(), 0)
            &&& after.max_of() == greatest(before.max_of(), 0)
        } else {
            &&& after.zeros() == before.zeros()
            &&& after.sum_of() == sum
            &&& after.min_of() == least(before.min_of(), bits)
            &&& after.max_of() == greatest(before.max_of(), bits)
            &&& if negative(bits) {
                &&& after.positive_of() == before.positive_of()
                &&& recorded(
                    before.negative_of(),
                    after.negative_of(),
                    absolute(bits),
                    incr,
                    side_sum,
                    r,
                )
            } else {
                &&& after.negative_of() == before.negative_of()
                &&& recorded(before.positive_of(), after.positive_of(), bits, incr, side_sum, r)
            }
        }
    }
}

/// The outcome of merging `other` into `before`.
pub open spec fn merged_pn<const K: usize, const L: usize, const K2: usize, const L2: usize>(
    before: SketchPN<K, L>,
    other: SketchPN<K2, L2>,
    after: SketchPN<K, L>,
    sums: (u64, u64, u64),
    r: Result<(), Error>,
) -> bool {
    if other.total() == 0 {
        r.is_ok() && after == before
    } else if before.scale_of() != other.scale_of() {
        r == Err::<(), Error>(Error::ScaleMismatch) && after == before
    } else if before.total() + other.total() > u64::MAX {
        r == Err::<(), Error>(Error::Overflow) && after == before
    } else {
        &&& r.is_ok()
        &&& after.wf()
        &&& after.total() == before.total() + other.total()
        &&& merge_outcome(
            before.positive_of(),
            other.positive_of(),
            after.positive_of(),
            sums.1,
            Ok::<(), Error>(()),
        )
        &&& merge_outcome(
            before.negative_of(),
            other.negative_of(),
            after.negative_of(),
            sums.2,
            Ok::<(), Error>(()),
        )
        &&& after.zeros() == before.zeros() + other.zeros()
        &&& after.sum_of() == sums.0
        &&& after.min_of() == least(before.min_of(), other.min_of())
        &&& after.max_of() == greatest(before.max_of(), other.max_of())
    }
}

impl<const K: usize, const L: usize> SketchPN<K, L> {
    /// The positive range.
    pub closed spec fn positive_of(self) -> Sketch<K> {
        self.positive
    }

    /// The magnitudes of the negative range.
    pub closed spec fn negative_of(self) -> Sketch<L> {
        self.negative
    }

    /// The count of zeros.
    pub closed spec fn zeros(self) -> nat {
        self.zero_count as nat
    }

    /// The sum of all values.
    pub closed spec fn sum_of(self) -> u64 {
        self.sum
    }

    /// The least value, positive infinity when there is none.
    pub closed spec fn min_of(self) -> u64 {
        self.min
    }

    /// The greatest value, negative infinity when there is none.
    pub closed spec fn max_of(self) -> u64 {
        self.max
    }

    /// The scale of both ranges.
    pub open spec fn scale_of(self) -> int {
        self.positive_of().scale_of()
    }

    /// The total count over both ranges and zeros.
    pub open spec fn total(self) -> nat {
        (self.positive_of().stats_of().count + self.negative_of().stats_of().count
            + self.zeros()) as nat
    }

    /// The sketch is valid: both ranges are, at one scale, and the total count fits.
    pub open spec fn wf(self) -> bool {
        &&& self.positive_of().wf()
        &&& self.negative_of().wf()
        &&& self.positive_of().scale_of() == self.negative_of().scale_of()
        &&& self.total() <= u64::MAX
    }

    /// Statistics as they are reported: 0 in place of extremes that nobody observed.
    pub open spec fn reported(self) -> Stats {
        if self.total() == 0 {
            Stats { count: 0, sum: 0, min: 0, max: 0 }
        } else {
            Stats {
                count: self.total() as u64,
                sum: self.sum_of(),
                min: if self.min_of() == INFINITY {
                    0
                } else {
                    self.min_of()
                },
                max: if self.max_of() == NEG_INFINITY {
                    0
                } else {
                    self.max_of()
                },
            }
        }
    }

    /// Equal statistics, of each range and of all values.
    pub open spec fn same_statistics(self, other: Self) -> bool {
        &&& self.positive_of().stats_of() == other.positive_of().stats_of()
        &&& self.negative_of().stats_of() == other.negative_of().stats_of()
        &&& self.zeros() == other.zeros()
        &&& self.sum_of() == other.sum_of()
        &&& self.min_of() == other.min_of()
        &&& self.max_of() == other.max_of()
    }

    /// No value and no statistics, and 1-bit counters.
    pub open spec fn is_blank(self) -> bool {
        &&& self.total() == 0
        &&& self.positive_of().stats_of() == empty_stats()
        &&& self.negative_of().stats_of() == empty_stats()
        &&& self.positive_of().live() == 0
        &&& self.positive_of().width_of() == Width::B1
        &&& self.positive_of().min_level() == 0
        &&& !self.positive_of().has_collapsed()
        &&& self.negative_of().live() == 0
        &&& self.negative_of().width_of() == Width::B1
        &&& self.negative_of().min_level() == 0
        &&& !self.negative_of().has_collapsed()
        &&& self.sum_of() == 0
        &&& self.min_of() == INFINITY
        &&& self.max_of() == NEG_INFINITY
    }

    /// Creates a new sketch at the finest scale with 1-bit counters.
    pub fn new() -> (r: Self)
        requires
            1 <= K <= 250,
            1 <= L <= 250,
        ensures
            r.wf(),
            r.is_blank(),
            r.scale_of() == TABLE_SCALE,
    {
        SketchPN {
            positive: Sketch::new(),
            negative: Sketch::new(),
            sum: 0,
            min: INFINITY,
            max: NEG_INFINITY,
            zero_count: 0,
        }
    }

    /// Sets the fixed scale of both ranges of an empty sketch.
    pub fn with_scale(self, scale: i32) -> (r: Result<Self, ScaleError>)
        requires
            self.wf(),
        ensures
            r.is_ok() <==> MIN_SCALE <= scale <= TABLE_SCALE,
            r.is_err() ==> r->Err_0 == ScaleError::InvalidScale,
            r.is_ok() ==> {
                &&& r.unwrap().wf()
                &&& r.unwrap().scale_of() == scale
                &&& r.unwrap().positive_of().same_but_scale(self.positive_of())
                &&& r.unwrap().negative_of().same_but_scale(self.negative_of())
                &&& r.unwrap().same_statistics(self)
            },
    {
        match (self.positive.with_scale(scale), self.negative.with_scale(scale)) {
            (Ok(positive), Ok(negative)) => Ok(SketchPN { positive, negative, ..self }),
            _ => Err(ScaleError::InvalidScale),
        }
    }

    /// Sets, for both ranges, the coarsest scale whose relative error is at most `target`, where
    /// `errors` lists the relative error of every supported scale, from the coarsest up.
    ///
    /// # Errors
    ///
    /// Returns [`ScaleError::InvalidScale`] if `target` is not in the open interval `(0, 1)`, or
    /// if no supported scale is fine enough to meet it.
    pub fn with_relative_error(self, target: u64, errors: &[u64]) -> (r: Result<Self, ScaleError>)
        requires
            self.wf(),
            errors@.len() == TABLE_SCALE - MIN_SCALE + 1,
        ensures
            r.is_ok() <==> proper_fraction(target) && exists|s: int| coarsest(s, target, errors@),
            r.is_err() ==> r->Err_0 == ScaleError::InvalidScale,
            r.is_ok() ==> {
                &&& r.unwrap().wf()
                &&& coarsest(r.unwrap().scale_of(), target, errors@)
                &&& r.unwrap().positive_of().same_but_scale(self.positive_of())
                &&& r.unwrap().negative_of().same_but_scale(self.negative_of())
                &&& r.unwrap().same_statistics(self)
            },
    {
        match scale_for_relative_error(target, errors) {
            Ok(scale) => self.with_scale(scale),
            Err(e) => Err(e),
        }
    }

    /// Sets the minimum counter width of both ranges of an empty sketch.
    pub fn with_min_width(self, width: Width) -> (r: Self)
        requires
            self.wf(),
            self.positive_of().live() == 0,
            self.negative_of().live() == 0,
        ensures
            r.wf(),
            r.scale_of() == self.scale_of(),
            r.positive_of().width_of() == width,
            r.negative_of().width_of() == width,
            r.positive_of().min_level() == width.level(),
            r.negative_of().min_level() == width.level(),
            r.positive_of().live() == 0,
            r.negative_of().live() == 0,
            !r.positive_of().has_collapsed(),
            !r.negative_of().has_collapsed(),
            r.same_statistics(self),
    {
        SketchPN {
            positive: self.positive.with_min_width(width),
            negative: self.negative.with_min_width(width),
            ..self
        }
    }

    /// Returns the fixed scale, shared by both ranges.
    pub fn scale(&self) -> (r: i32)
        ensures
            r == self.scale_of(),
    {
        self.positive.scale()
    }

    /// Returns the total observation count: positive, negative and zero.
    pub fn count(&self) -> (r: u64)
        requires
            self.wf(),
        ensures
            r == self.total(),
    {
        self.total_count()
    }

    /// Returns the minimum observed value, 0 if empty.
    pub fn min(&self) -> (r: u64)
        requires
            self.wf(),
        ensures
            r == self.reported().min,
    {
        self.aggregate_stats().min
    }

    /// Returns the maximum observed value, 0 if empty.
    pub fn max(&self) -> (r: u64)
        requires
            self.wf(),
        ensures
            r == self.reported().max,
    {
        self.aggregate_stats().max
    }

    /// Returns the sum of the observed values.
    pub fn sum(&self) -> (r: u64)
        requires
            self.wf(),
        ensures
            r == self.reported().sum,
    {
        self.aggregate_stats().sum
    }

    /// Returns a read-only view.
    pub fn view(&self) -> (r: SketchPNView<'_, K, L>)
        ensures
            r.of() == *self,
    {
        SketchPNView { pn: self }
    }

    /// Returns the positive range.
    pub fn positive(&self) -> (r: &Sketch<K>)
        ensures
            *r == self.positive_of(),
    {
        &self.positive
    }

    /// Returns the negative range, whose buckets describe the magnitudes of negative values.
    pub fn negative(&self) -> (r: &Sketch<L>)
        ensures
            *r == self.negative_of(),
    {
        &self.negative
    }

    /// Records a single value of any sign; see [`record_incr`](Self::record_incr).
    pub fn update(&mut self, bits: u64, sum: u64, side_sum: u64) -> (r: Result<(), Error>)
        requires
            old(self).wf(),
        ensures
            recorded_pn(*old(self), *final(self), bits, 1, sum, side_sum, r),
    {
        self.record_incr(bits, 1, sum, side_sum)
    }

    /// Records the value with pattern `bits`, `incr` times.
    ///
    /// `sum` is the new sum of all values, `side_sum` the new sum of the magnitudes on the
    /// value's side.
    ///
    /// # Errors
    ///
    /// Returns [`Error::Overflow`] if the total count would exceed `u64::MAX`, and
    /// [`Error::Extreme`] if the value is NaN or infinite.
    pub fn record_incr(&mut self, bits: u64, incr: u64, sum: u64, side_sum: u64) -> (r: Result<
        (),
        Error,
    >)
        requires
            old(self).wf(),
        ensures
            recorded_pn(*old(self), *final(self), bits, incr, sum, side_sum, r),
    {
        let biased_exp = get_biased_exponent(bits);
        let sig = get_significand(bits);
        if self.total_count() > u64::MAX - incr {
            return Err(Error::Overflow);
        }
        if biased_exp == 0 && sig == 0 {
            // Positive and negative zero alike.
            self.zero_count = self.zero_count + incr;
            self.min = min_of(self.min, 0);
            self.max = max_of(self.max, 0);
            return Ok(());
        }
        if biased_exp == NAN_INF_BIASED {
            return Err(Error::Extreme);
        }
        if is_sign_negative(bits) {
            match self.negative.record_incr(bits - 0x8000_0000_0000_0000, incr, side_sum) {
                Ok(()) => {},
                Err(e) => {
                    return Err(e);
                },
            }
        } else {
            match self.positive.record_incr(bits, incr, side_sum) {
                Ok(()) => {},
                Err(e) => {
                    return Err(e);
                },
            }
        }
        self.sum = sum;
        self.min = min_of(self.min, bits);
        self.max = max_of(self.max, bits);
        Ok(())
    }

    /// Merges another sketch into this one. Pool sizes may differ.
    ///
    /// `sums` holds the new sum of all values, and those of the magnitudes of the positive and
    /// the negative range.
    ///
    /// # Errors
    ///
    /// Returns [`Error::ScaleMismatch`] if the scales differ, and [`Error::Overflow`] if the
    /// combined total count would exceed `u64::MAX`.
    pub fn merge_from<const K2: usize, const L2: usize>(
        &mut self,
        other: &SketchPN<K2, L2>,
        sums: (u64, u64, u64),
    ) -> (r: Result<(), Error>)
        requires
            old(self).wf(),
            other.wf(),
        ensures
            merged_pn(*old(self), *other, *final(self), sums, r),
    {
        let other_total = other.total_count();
        if other_total == 0 {
            return Ok(());
        }
        if self.scale() != other.scale() {
            return Err(Error::ScaleMismatch);
        }
        if self.total_count() > u64::MAX - other_total {
            return Err(Error::Overflow);
        }
        match self.positive.merge_from(&other.positive, sums.1) {
            Ok(()) => {},
            Err(e) => {
                return Err(e);
            },
        }
        match self.negative.merge_from(&other.negative, sums.2) {
            Ok(()) => {},
            Err(e) => {
                return Err(e);
            },
        }
        self.sum = sums.0;
        self.zero_count = self.zero_count + other.zero_count;
        self.min = min_of(self.min, other.min);
        self.max = max_of(self.max, other.max);
        Ok(())
    }

    /// Total count over both ranges and zeros.
    fn total_count(&self) -> (r: u64)
        requires
            self.wf(),
        ensures
            r == self.total(),
    {
        self.positive.count() + self.negative.count() + self.zero_count
    }

    /// Statistics over both ranges and zeros.
    fn aggregate_stats(&self) -> (r: Stats)
        requires
            self.wf(),
        ensures
            r == self.reported(),
    {
        let count = self.total_count();
        if count == 0 {
            return Stats { count: 0, sum: 0, min: 0, max: 0 };
        }
        Stats {
            count,
            sum: self.sum,
            min: if self.min == INFINITY {
                0
            } else {
                self.min
            },
            max: if self.max == NEG_INFINITY {
                0
            } else {
                self.max
            },
        }
    }
}

/// Read-only view of a [`SketchPN`].
#[derive(Debug)]
pub struct SketchPNView<'a, const K: usize, const L: usize> {
    pn: &'a SketchPN<K, L>,
}

impl<const K: usize, const L: usize> SketchPNView<'_, K, L> {
    /// The sketch behind the view.
    pub closed spec fn of(self) -> SketchPN<K, L> {
        *self.pn
    }

    /// Returns the scale, 0 when no non-zero value is recorded.
    pub fn scale(&self) -> (r: i32)
        ensures
            r == if self.of().positive_of().live() == 0 && self.of().negative_of().live() == 0 {
                0
            } else {
                self.of().scale_of()
            },
    {
        if self.pn.positive.buckets_empty() && self.pn.negative.buckets_empty() {
            0
        } else {
            self.pn.scale()
        }
    }

    /// Returns the aggregate statistics; all 0 when the sketch is empty.
    pub fn stats(&self) -> (r: Stats)
        requires
            self.of().wf(),
        ensures
            r == self.of().reported(),
    {
        self.pn.aggregate_stats()
    }

    /// Returns the count of exactly-zero observations.
    pub fn zero_count(&self) -> (r: u64)
        ensures
            r == self.of().zeros(),
    {
        self.pn.zero_count
    }

    /// Returns a view of the positive buckets.
    pub fn positive(&self) -> (r: SketchBucketView<'_, K>)
        ensures
            r.of() == self.of().positive_of(),
    {
        self.pn.positive.buckets()
    }

    /// Returns a view of the negative buckets, whose indices describe magnitudes.
    pub fn negative(&self) -> (r: SketchBucketView<'_, L>)
        ensures
            r.of() == self.of().negative_of(),
    {
        self.pn.negative.buckets()
    }

    /// Returns true if either range has collapsed.
    pub fn collapsed(&self) -> (r: bool)
        ensures
            r <==> self.of().positive_of().has_collapsed() || self.of().negative_of().has_collapsed(),
    {
        self.pn.positive.collapsed() || self.pn.negative.collapsed()
    }
}

impl<const K: usize, const L: usize> Default for SketchPN<K, L> {
    fn default() -> (r: Self)
        ensures
            1 <= K <= 250 && 1 <= L <= 250 ==> r.wf() && r.is_blank() && r.scale_of()
                == TABLE_SCALE,
    {
        SketchPN {
            positive: Sketch::default(),
            negative: Sketch::default(),
            sum: 0,
            min: INFINITY,
            max: NEG_INFINITY,
            zero_count: 0,
        }
    }
}

} // verus!
