//! Auto-scaling exponential histogram for values of any sign.
//!
//! [`HistogramPN`] pairs a histogram of positive values with one of the magnitudes of negative
//! values. Once both hold values, they are kept at one scale.

use crate::counts::{
    bottom, coarsen, lemma_coarsen_twice, lemma_coarsen_zero, no_counts, top, total,
};
use crate::float64::{
    finite, get_biased_exponent, get_significand, greatest, is_sign_negative, least, max_of, min_of,
    negative, zero, INFINITY, NAN_INF_BIASED, NEG_INFINITY,
};
use crate::histogram::{fitted, merge_outcome, recorded, BucketView, Histogram};
use crate::lookup::TABLE_SCALE;
use crate::mapping::{ScaleError, MIN_SCALE};
use crate::sketch_pn::absolute;
use crate::stats::{empty_stats, Error, Settings, Stats};
use crate::width::Width;
use vstd::prelude::*;

verus! {

/// An exponential histogram for values of any sign.
///
/// `K` and `L` are the pool sizes of the positive and the negative range, in words.
#[derive(Debug, Clone, Copy)]
pub struct HistogramPN<const K: usize, const L: usize> {
    positive: Histogram<K>,
    negative: Histogram<L>,
    sum: u64,
    min: u64,
    max: u64,
    zero_count: u64,
}

/// `after` is `before` with its scale decreased by at least `change` steps.
pub open spec fn downscaled<const N: usize>(
    before: Histogram<N>,
    after: Histogram<N>,
    change: nat,
) -> bool {
    &&& after.wf()
    &&& after.initial_of() == before.initial_of()
    &&& after.stats_of() == before.stats_of()
    &&& fitted(before, after, before.counts(), change)
    &&& after.scale_of() <= before.scale_of() - change
    &&& total(after.counts(), bottom(), top()) == total(before.counts(), bottom(), top())
}

/// Both ranges hold values but at different scales.
pub open spec fn out_of_sync<const K: usize, const L: usize>(
    pair: (Histogram<K>, Histogram<L>),
) -> bool {
    &&& pair.0.counts() != no_counts()
    &&& pair.1.counts() != no_counts()
    &&& pair.0.scale_of() != pair.1.scale_of()
}

/// One step of synchronization: the finer range is downscaled by the difference.
pub open spec fn sync_step<const K: usize, const L: usize>(
    before: (Histogram<K>, Histogram<L>),
    after: (Histogram<K>, Histogram<L>),
) -> bool {
    &&& out_of_sync(before)
    &&& if before.0.scale_of() < before.1.scale_of() {
        &&& after.0 == before.0
        &&& downscaled(
            before.1,
            after.1,
            (before.1.scale_of() - before.0.scale_of()) as nat,
        )
    } else {
        &&& after.1 == before.1
        &&& downscaled(
            before.0,
            after.0,
            (before.0.scale_of() - before.1.scale_of()) as nat,
        )
    }
}

/// `path` leads step by step from `before` to `after`, where both ranges share one scale.
pub open spec fn is_sync_path<const K: usize, const L: usize>(
    path: Seq<(Histogram<K>, Histogram<L>)>,
    before: (Histogram<K>, Histogram<L>),
    after: (Histogram<K>, Histogram<L>),
) -> bool {
    &&& path.len() > 0
    &&& path[0] == before
    &&& path.last() == after
    &&& !out_of_sync(after)
    &&& forall|i: int| 0 <= i < path.len() - 1 ==> sync_step(#[trigger] path[i], path[i + 1])
}

/// The ranges after synchronization of their scales.
pub open spec fn synced<const K: usize, const L: usize>(
    before: (Histogram<K>, Histogram<L>),
    after: (Histogram<K>, Histogram<L>),
) -> bool {
    &&& exists|path: Seq<(Histogram<K>, Histogram<L>)>| is_sync_path(path, before, after)
    &&& same_mass(before.0, after.0)
    &&& same_mass(before.1, after.1)
}

/// `after` holds the buckets of `before` at its own scale, and the same statistics.
pub open spec fn same_mass<const N: usize>(before: Histogram<N>, after: Histogram<N>) -> bool {
    &&& after.stats_of() == before.stats_of()
    &&& after.initial_of() == before.initial_of()
    &&& after.scale_of() <= before.scale_of()
    &&& after.counts() == coarsen(before.counts(), (before.scale_of() - after.scale_of()) as nat)
    &&& total(after.counts(), bottom(), top()) == total(before.counts(), bottom(), top())
}

/// The scale that a range starts with.
pub open spec fn start_scale<const N: usize>(h: Histogram<N>) -> int {
    h.initial_of().scale_of().value()
}

/// A range is no finer than it started, and at its start scale while it holds no value.
pub open spec fn keeps_start<const N: usize>(h: Histogram<N>) -> bool {
    &&& h.scale_of() <= start_scale(h)
    &&& h.counts() == no_counts() ==> h.scale_of() == start_scale(h)
}

/// Ranges that need no synchronization stay as they are.
proof fn lemma_in_sync<const K: usize, const L: usize>(
    before: (Histogram<K>, Histogram<L>),
    after: (Histogram<K>, Histogram<L>),
)
    requires
        synced(before, after),
        !out_of_sync(before),
    ensures
        after == before,
{
    let path = choose|path: Seq<(Histogram<K>, Histogram<L>)>| is_sync_path(path, before, after);
    if path.len() > 1 {
        assert(sync_step(path[0int], path[0int + 1]));
    }
}

/// Synchronization keeps the start of both ranges.
proof fn lemma_sync_starts<const K: usize, const L: usize>(
    before: (Histogram<K>, Histogram<L>),
    after: (Histogram<K>, Histogram<L>),
)
    requires
        before.0.wf(),
        before.1.wf(),
        after.0.wf(),
        after.1.wf(),
        synced(before, after),
        keeps_start(before.0),
        keeps_start(before.1),
    ensures
        keeps_start(after.0),
        keeps_start(after.1),
{
    if !out_of_sync(before) {
        lemma_in_sync(before, after);
    } else {
        before.0.lemma_wf();
        before.1.lemma_wf();
        after.0.lemma_wf();
        after.1.lemma_wf();
    }
}

/// The outcome of recording the value with pattern `bits`, `incr` times.
pub open spec fn recorded_pn<const K: usize, const L: usize>(
    before: HistogramPN<K, L>,
    after: HistogramPN<K, L>,
    bits: u64,
    incr: u64,
    sum: u64,
    side_sum: u64,
    r: Result<(), Error>,
) -> bool {
    if before.total() + incr > u64::MAX {
        r == Err::<(), Error>(Error::Overflow) && after == before
    } else if !finite(bits) {
        r == Err::<(), Error>(Error::Extreme) && after == before
    } else {
        &&& r.is_ok()
        &&& after.wf()
        &&& after.total() == before.total() + incr
        &&& if zero(bits) {
            &&& after.ranges() == before.ranges()
            &&& after.zeros() == before.zeros() + incr
            &&& after.sum_of() == before.sum_of()
            &&& after.min_of() == least(before.min_of(), 0)
            &&& after.max_of() == greatest(before.max_of(), 0)
        } else {
            &&& after.zeros() == before.zeros()
            &&& after.sum_of() == sum
            &&& after.min_of() == least(before.min_of(), bits)
            &&& after.max_of() == greatest(before.max_of(), bits)
            &&& if negative(bits) {
                exists|side: Histogram<L>|
                    #[trigger] recorded(before.ranges().1, side, absolute(bits), incr, side_sum, r)
                        && synced((before.ranges().0, side), after.ranges())
            } else {
                exists|side: Histogram<K>|
                    #[trigger] recorded(before.ranges().0, side, bits, incr, side_sum, r) && synced(
                        (side, before.ranges().1),
                        after.ranges(),
                    )
            }
        }
    }
}

/// The outcome of merging `other` into `before`.
pub open spec fn merged_pn<const K: usize, const L: usize, const K2: usize, const L2: usize>(
    before: HistogramPN<K, L>,
    other: HistogramPN<K2, L2>,
    after: HistogramPN<K, L>,
    sums: (u64, u64, u64),
    r: Result<(), Error>,
) -> bool {
    if other.total() == 0 {
        r.is_ok() && after == before
    } else if before.total() + other.total() > u64::MAX {
        r == Err::<(), Error>(Error::Overflow) && after == before
    } else {
        &&& r.is_ok()
        &&& after.wf()
        &&& after.total() == before.total() + other.total()
        &&& exists|p: Histogram<K>, n: Histogram<L>|
            #![trigger synced((p, n), after.ranges())]
            merge_outcome(before.ranges().0, other.ranges().0, p, sums.1, Ok::<(), Error>(()))
                && merge_outcome(before.ranges().1, other.ranges().1, n, sums.2, Ok::<(), Error>(()))
                && synced((p, n), after.ranges())
        &&& after.zeros() == before.zeros() + other.zeros()
        &&& after.sum_of() == sums.0
        &&& after.min_of() == least(before.min_of(), other.min_of())
        &&& after.max_of() == greatest(before.max_of(), other.max_of())
    }
}

impl<const K: usize, const L: usize> HistogramPN<K, L> {
    /// The positive range, and the magnitudes of the negative range.
    pub closed spec fn ranges(self) -> (Histogram<K>, Histogram<L>) {
        (self.positive, self.negative)
    }

    /// The count of zeros.
    pub closed spec fn zeros(self) -> nat {
        self.zero_count as nat
    }

    /// The sum of all values.
    pub closed spec fn sum_of(self) -> u64 {
        self.sum
    }

    /// The least value, positive infinity when there is none.
    pub closed spec fn min_of(self) -> u64 {
        self.min
    }

    /// The greatest value, negative infinity when there is none.
    pub closed spec fn max_of(self) -> u64 {
        self.max
    }

    /// The total count over both ranges and zeros.
    pub open spec fn total(self) -> nat {
        (self.ranges().0.stats_of().count + self.ranges().1.stats_of().count + self.zeros()) as nat
    }

    /// The lower of the two scales.
    pub open spec fn scale_of(self) -> int {
        if self.ranges().0.scale_of() <= self.ranges().1.scale_of() {
            self.ranges().0.scale_of()
        } else {
            self.ranges().1.scale_of()
        }
    }

    /// The histogram is valid: both ranges are, at one scale once both hold values, and the
    /// total count fits. Both start at one scale, which a range without values keeps.
    pub open spec fn wf(self) -> bool {
        &&& self.ranges().0.wf()
        &&& self.ranges().1.wf()
        &&& !out_of_sync(self.ranges())
        &&& self.total() <= u64::MAX
        &&& start_scale(self.ranges().0) == start_scale(self.ranges().1)
        &&& keeps_start(self.ranges().0)
        &&& keeps_start(self.ranges().1)
    }

    /// Statistics as they are reported: 0 in place of extremes that nobody observed.
    pub open spec fn reported(self) -> Stats {
        if self.total() == 0 {
            Stats { count: 0, sum: 0, min: 0, max: 0 }
        } else {
            Stats {
                count: self.total() as u64,
                sum: self.sum_of(),
                min: if self.min_of() == INFINITY {
                    0
                } else {
                    self.min_of()
                },
                max: if self.max_of() == NEG_INFINITY {
                    0
                } else {
                    self.max_of()
                },
            }
        }
    }

    /// Equal statistics, of each range and of all values.
    pub open spec fn same_statistics(self, other: Self) -> bool {
        &&& self.ranges().0.stats_of() == other.ranges().0.stats_of()
        &&& self.ranges().1.stats_of() == other.ranges().1.stats_of()
        &&& self.zeros() == other.zeros()
        &&& self.sum_of() == other.sum_of()
        &&& self.min_of() == other.min_of()
        &&& self.max_of() == other.max_of()
    }

    /// The histogram starts, and starts again when it is cleared, at these scales and widths.
    pub open spec fn starts_at(self, scales: (int, int), widths: (Width, Width)) -> bool {
        &&& self.ranges().0.scale_of() == scales.0
        &&& self.ranges().1.scale_of() == scales.1
        &&& self.ranges().0.width_of() == widths.0
        &&& self.ranges().1.width_of() == widths.1
        &&& self.ranges().0.initial_of().scale_of().value() == scales.0
        &&& self.ranges().1.initial_of().scale_of().value() == scales.1
        &&& self.ranges().0.initial_of().width_of() == widths.0
        &&& self.ranges().1.initial_of().width_of() == widths.1
    }

    /// No value and no statistics.
    pub open spec fn is_blank(self) -> bool {
        &&& self.total() == 0
        &&& self.ranges().0.counts() == no_counts()
        &&& self.ranges().1.counts() == no_counts()
        &&& self.ranges().0.stats_of() == empty_stats()
        &&& self.ranges().1.stats_of() == empty_stats()
        &&& self.sum_of() == 0
        &&& self.min_of() == INFINITY
        &&& self.max_of() == NEG_INFINITY
    }

    /// Creates a new histogram at the finest scale with 1-bit counters.
    pub fn new() -> (r: Self)
        requires
            2 <= K <= 250,
            2 <= L <= 250,
        ensures
            r.wf(),
            r.is_blank(),
            r.starts_at((TABLE_SCALE as int, TABLE_SCALE as int), (Width::B1, Width::B1)),
    {
        HistogramPN {
            positive: Histogram::new(),
            negative: Histogram::new(),
            sum: 0,
            min: INFINITY,
            max: NEG_INFINITY,
            zero_count: 0,
        }
    }

    /// Sets the maximum scale of both ranges of a histogram that holds no value but zeros.
    pub fn with_scale(self, scale: i32) -> (r: Result<Self, ScaleError>)
        requires
            self.wf(),
            self.ranges().0.counts() == no_counts(),
            self.ranges().1.counts() == no_counts(),
        ensures
            r.is_ok() <==> MIN_SCALE <= scale <= TABLE_SCALE,
            r.is_err() ==> r->Err_0 == ScaleError::InvalidScale,
            r.is_ok() ==> {
                &&& r.unwrap().wf()
                &&& r.unwrap().same_statistics(self)
                &&& r.unwrap().ranges().0.counts() == no_counts()
                &&& r.unwrap().ranges().1.counts() == no_counts()
                &&& r.unwrap().ranges().0.scale_of() == scale
                &&& r.unwrap().ranges().1.scale_of() == scale
                &&& r.unwrap().ranges().0.width_of() == self.ranges().0.width_of()
                &&& r.unwrap().ranges().1.width_of() == self.ranges().1.width_of()
                &&& r.unwrap().ranges().0.initial_of().scale_of().value() == scale
                &&& r.unwrap().ranges().1.initial_of().scale_of().value() == scale
                &&& r.unwrap().ranges().0.initial_of().width_of()
                    == self.ranges().0.initial_of().width_of()
                &&& r.unwrap().ranges().1.initial_of().width_of()
                    == self.ranges().1.initial_of().width_of()
            },
    {
        match (self.positive.with_scale(scale), self.negative.with_scale(scale)) {
            (Ok(positive), Ok(negative)) => Ok(HistogramPN { positive, negative, ..self }),
            _ => Err(ScaleError::InvalidScale),
        }
    }

    /// Sets the minimum counter width of both ranges of a histogram that holds no value but zeros.
    pub fn with_min_width(self, width: Width) -> (r: Self)
        requires
            self.wf(),
            self.ranges().0.counts() == no_counts(),
            self.ranges().1.counts() == no_counts(),
        ensures
            r.wf(),
            r.same_statistics(self),
            r.ranges().0.counts() == no_counts(),
            r.ranges().1.counts() == no_counts(),
            r.ranges().0.width_of() == width,
            r.ranges().1.width_of() == width,
            r.ranges().0.scale_of() == self.ranges().0.scale_of(),
            r.ranges().1.scale_of() == self.ranges().1.scale_of(),
            r.ranges().0.initial_of().width_of() == width,
            r.ranges().1.initial_of().width_of() == width,
            r.ranges().0.initial_of().scale_of() == self.ranges().0.initial_of().scale_of(),
            r.ranges().1.initial_of().scale_of() == self.ranges().1.initial_of().scale_of(),
    {
        HistogramPN {
            positive: self.positive.with_min_width(width),
            negative: self.negative.with_min_width(width),
            ..self
        }
    }

    /// Returns the lower of the two scales.
    pub fn scale(&self) -> (r: i32)
        ensures
            r == self.scale_of(),
    {
        let p = self.positive.current_settings().scale().scale();
        let n = self.negative.current_settings().scale().scale();
        if p <= n {
            p
        } else {
            n
        }
    }

    /// Returns a read-only view of the histogram.
    pub fn view(&self) -> (r: HistogramPNView<'_, K, L>)
        ensures
            r.of() == *self,
    {
        HistogramPNView { hist: self }
    }

    /// Returns the settings at construction.
    pub fn initial_settings(&self) -> (r: Settings)
        ensures
            r == self.ranges().0.initial_of(),
    {
        self.positive.initial_settings()
    }

    /// Returns the current settings of the positive range.
    pub fn positive_settings(&self) -> (r: Settings)
        ensures
            r.scale_of().value() == self.ranges().0.scale_of(),
            r.width_of() == self.ranges().0.width_of(),
    {
        self.positive.current_settings()
    }

    /// Returns the current settings of the negative range.
    pub fn negative_settings(&self) -> (r: Settings)
        ensures
            r.scale_of().value() == self.ranges().1.scale_of(),
            r.width_of() == self.ranges().1.width_of(),
    {
        self.negative.current_settings()
    }

    /// Swaps contents with another histogram.
    pub fn swap(&mut self, other: &mut Self)
        ensures
            *final(self) == *old(other),
            *final(other) == *old(self),
    {
        let mine = *self;
        *self = *other;
        *other = mine;
    }

    /// Resets the histogram to its initial state.
    pub fn clear(&mut self)
        requires
            old(self).wf(),
        ensures
            final(self).wf(),
            final(self).is_blank(),
            final(self).ranges().0.initial_of() == old(self).ranges().0.initial_of(),
            final(self).ranges().1.initial_of() == old(self).ranges().1.initial_of(),
            final(self).starts_at(
                (
                    old(self).ranges().0.initial_of().scale_of().value(),
                    old(self).ranges().1.initial_of().scale_of().value(),
                ),
                (
                    old(self).ranges().0.initial_of().width_of(),
                    old(self).ranges().1.initial_of().width_of(),
                ),
            ),
    {
        self.positive.clear();
        self.negative.clear();
        self.sum = 0;
        self.min = INFINITY;
        self.max = NEG_INFINITY;
        self.zero_count = 0;
    }

    /// Records a single value of any sign; see [`record_incr`](Self::record_incr).
    pub fn update(&mut self, bits: u64, sum: u64, side_sum: u64) -> (r: Result<(), Error>)
        requires
            old(self).wf(),
        ensures
            recorded_pn(*old(self), *final(self), bits, 1, sum, side_sum, r),
    {
        self.record_incr(bits, 1, sum, side_sum)
    }

    /// Records the value with pattern `bits`, `incr` times.
    ///
    /// `sum` is the new sum of all values, `side_sum` the new sum of the magnitudes on the
    /// value's side.
    ///
    /// # Errors
    ///
    /// Returns [`Error::Overflow`] if the total count would exceed `u64::MAX`, and
    /// [`Error::Extreme`] if the value is NaN or infinite.
    pub fn record_incr(&mut self, bits: u64, incr: u64, sum: u64, side_sum: u64) -> (r: Result<
        (),
        Error,
    >)
        requires
            old(self).wf(),
        ensures
            recorded_pn(*old(self), *final(self), bits, incr, sum, side_sum, r),
    {
        let biased_exp = get_biased_exponent(bits);
        let sig = get_significand(bits);
        if self.total_count() > u64::MAX - incr {
            return Err(Error::Overflow);
        }
        if biased_exp == 0 && sig == 0 {
            // Positive and negative zero alike.
            self.zero_count = self.zero_count + incr;
            self.min = min_of(self.min, 0);
            self.max = max_of(self.max, 0);
            return Ok(());
        }
        if biased_exp == NAN_INF_BIASED {
            return Err(Error::Extreme);
        }
        if is_sign_negative(bits) {
            match self.negative.record_incr(bits - 0x8000_0000_0000_0000, incr, side_sum) {
                Ok(()) => {},
                Err(e) => {
                    return Err(e);
                },
            }
        } else {
            match self.positive.record_incr(bits, incr, side_sum) {
                Ok(()) => {},
                Err(e) => {
                    return Err(e);
                },
            }
        }
        let ghost mid = self.ranges();
        self.sum = sum;
        self.min = min_of(self.min, bits);
        self.max = max_of(self.max, bits);
        self.sync_scales();
        proof {
            old(self).ranges().0.lemma_wf();
            old(self).ranges().1.lemma_wf();
            mid.0.lemma_wf();
            mid.1.lemma_wf();
            lemma_sync_starts(mid, self.ranges());
            if negative(bits) {
                assert(recorded(
                    old(self).ranges().1,
                    mid.1,
                    absolute(bits),
                    incr,
                    side_sum,
                    Ok::<(), Error>(()),
                ));
            } else {
                assert(recorded(
                    old(self).ranges().0,
                    mid.0,
                    bits,
                    incr,
                    side_sum,
                    Ok::<(), Error>(()),
                ));
            }
        }
        Ok(())
    }

    /// Brings both ranges to the same scale once both hold values.
    fn sync_scales(&mut self)
        requires
            old(self).ranges().0.wf(),
            old(self).ranges().1.wf(),
        ensures
            final(self).ranges().0.wf(),
            final(self).ranges().1.wf(),
            !out_of_sync(final(self).ranges()),
            synced(old(self).ranges(), final(self).ranges()),
            final(self).zeros() == old(self).zeros(),
            final(self).sum_of() == old(self).sum_of(),
            final(self).min_of() == old(self).min_of(),
            final(self).max_of() == old(self).max_of(),
    {
        let ghost first = self.ranges();
        let ghost mut path: Seq<(Histogram<K>, Histogram<L>)> = seq![first];
        proof {
            lemma_coarsen_zero(first.0.counts());
            lemma_coarsen_zero(first.1.counts());
        }
        loop
            invariant
                self.positive.wf(),
                self.negative.wf(),
                path.len() > 0,
                path[0] == first,
                path.last() == self.ranges(),
                forall|i: int|
                    0 <= i < path.len() - 1 ==> sync_step(#[trigger] path[i], path[i + 1]),
                same_mass(first.0, self.positive),
                same_mass(first.1, self.negative),
                self.zeros() == old(self).zeros(),
                self.sum_of() == old(self).sum_of(),
                self.min_of() == old(self).min_of(),
                self.max_of() == old(self).max_of(),
                first == old(self).ranges(),
            ensures
                self.positive.wf(),
                self.negative.wf(),
                !out_of_sync(self.ranges()),
                is_sync_path(path, first, self.ranges()),
                same_mass(first.0, self.positive),
                same_mass(first.1, self.negative),
                self.zeros() == old(self).zeros(),
                self.sum_of() == old(self).sum_of(),
                self.min_of() == old(self).min_of(),
                self.max_of() == old(self).max_of(),
            decreases self.positive.scale_of() + self.negative.scale_of() + 40,
        {
            let ghost here = self.ranges();
            proof {
                self.positive.lemma_wf();
                self.negative.lemma_wf();
            }
            if self.positive.buckets_empty() || self.negative.buckets_empty() {
                break;
            }
            let p = self.positive.current_settings().scale().scale();
            let n = self.negative.current_settings().scale().scale();
            if p < n {
                self.negative.downscale_by((n - p) as u32);
            } else if n < p {
                self.positive.downscale_by((p - n) as u32);
            } else {
                break;
            }
            proof {
                self.positive.lemma_wf();
                self.negative.lemma_wf();
                assert(sync_step(here, self.ranges()));
                lemma_same_mass_twice(first.0, here.0, self.positive);
                lemma_same_mass_twice(first.1, here.1, self.negative);
                let ghost old_path = path;
                path = path.push(self.ranges());
                assert forall|i: int| 0 <= i < path.len() - 1 implies sync_step(
                    #[trigger] path[i],
                    path[i + 1],
                ) by {
                    if i < old_path.len() - 1 {
                        assert(sync_step(old_path[i], old_path[i + 1]));
                    }
                }
            }
        }
        proof {
            assert(is_sync_path(path, first, self.ranges()));
        }
    }

    /// Merges another histogram into this one. Pool sizes may differ.
    ///
    /// `sums` holds the new sum of all values, and those of the magnitudes of the positive and
    /// the negative range.
    ///
    /// # Errors
    ///
    /// Returns [`Error::Overflow`] if the combined total count would exceed `u64::MAX`.
    pub fn merge_from<const K2: usize, const L2: usize>(
        &mut self,
        other: &HistogramPN<K2, L2>,
        sums: (u64, u64, u64),
    ) -> (r: Result<(), Error>)
        requires
            old(self).wf(),
            other.wf(),
        ensures
            merged_pn(*old(self), *other, *final(self), sums, r),
    {
        let other_total = other.total_count();
        if other_total == 0 {
            return Ok(());
        }
        if self.total_count() > u64::MAX - other_total {
            return Err(Error::Overflow);
        }
        match self.positive.merge_from(&other.positive, sums.1) {
            Ok(()) => {},
            Err(e) => {
                return Err(e);
            },
        }
        match self.negative.merge_from(&other.negative, sums.2) {
            Ok(()) => {},
            Err(e) => {
                return Err(e);
            },
        }
        let ghost mid = self.ranges();
        self.sum = sums.0;
        self.zero_count = self.zero_count + other.zero_count;
        self.min = min_of(self.min, other.min);
        self.max = max_of(self.max, other.max);
        self.sync_scales();
        proof {
            old(self).ranges().0.lemma_wf();
            old(self).ranges().1.lemma_wf();
            other.ranges().0.lemma_wf();
            other.ranges().1.lemma_wf();
            mid.0.lemma_wf();
            mid.1.lemma_wf();
            lemma_sync_starts(mid, self.ranges());
            assert(synced((mid.0, mid.1), self.ranges()));
        }
        Ok(())
    }

    /// Total count over both ranges and zeros.
    fn total_count(&self) -> (r: u64)
        requires
            self.wf(),
        ensures
            r == self.total(),
    {
        self.positive.raw_stats().count + self.negative.raw_stats().count + self.zero_count
    }

    /// Statistics over both ranges and zeros.
    fn aggregate_stats(&self) -> (r: Stats)
        requires
            self.wf(),
        ensures
            r == self.reported(),
    {
        let count = self.total_count();
        if count == 0 {
            return Stats { count: 0, sum: 0, min: 0, max: 0 };
        }
        Stats {
            count,
            sum: self.sum,
            min: if self.min == INFINITY {
                0
            } else {
                self.min
            },
            max: if self.max == NEG_INFINITY {
                0
            } else {
                self.max
            },
        }
    }
}

/// Two drops of the scale make one.
proof fn lemma_same_mass_twice<const N: usize>(a: Histogram<N>, b: Histogram<N>, c: Histogram<N>)
    requires
        same_mass(a, b),
        c == b || (c.stats_of() == b.stats_of() && c.initial_of() == b.initial_of() && c.scale_of()
            <= b.scale_of() && c.counts() == coarsen(
            b.counts(),
            (b.scale_of() - c.scale_of()) as nat,
        ) && total(c.counts(), bottom(), top()) == total(b.counts(), bottom(), top())),
    ensures
        same_mass(a, c),
{
    if c != b {
        lemma_coarsen_twice(
            a.counts(),
            (a.scale_of() - b.scale_of()) as nat,
            (b.scale_of() - c.scale_of()) as nat,
        );
    }
}

/// Read-only view of a [`HistogramPN`].
#[derive(Debug)]
pub struct HistogramPNView<'a, const K: usize, const L: usize> {
    hist: &'a HistogramPN<K, L>,
}

impl<const K: usize, const L: usize> HistogramPNView<'_, K, L> {
    /// The histogram behind the view.
    pub closed spec fn of(self) -> HistogramPN<K, L> {
        *self.hist
    }

    /// Returns the current scale, 0 when no non-zero values have been recorded.
    pub fn scale(&self) -> (r: i32)
        requires
            self.of().wf(),
        ensures
            r == if self.of().ranges().0.counts() == no_counts() && self.of().ranges().1.counts()
                == no_counts() {
                0
            } else {
                self.of().scale_of()
            },
            // The scale of each range that holds a count.
            self.of().ranges().0.counts() != no_counts() ==> r == self.of().ranges().0.scale_of(),
            self.of().ranges().1.counts() != no_counts() ==> r == self.of().ranges().1.scale_of(),
    {
        if self.hist.positive.buckets_empty() && self.hist.negative.buckets_empty() {
            0
        } else {
            self.hist.scale()
        }
    }

    /// Returns the aggregate statistics; all 0 when the histogram is empty.
    pub fn stats(&self) -> (r: Stats)
        requires
            self.of().wf(),
        ensures
            r == self.of().reported(),
    {
        self.hist.aggregate_stats()
    }

    /// Returns a view of the positive buckets.
    pub fn positive(&self) -> (r: BucketView<'_, K>)
        ensures
            r.of() == self.of().ranges().0,
    {
        self.hist.positive.buckets()
    }

    /// Returns a view of the negative buckets, whose indices describe magnitudes.
    pub fn negative(&self) -> (r: BucketView<'_, L>)
        ensures
            r.of() == self.of().ranges().1,
    {
        self.hist.negative.buckets()
    }

    /// Returns the count of exactly-zero observations.
    pub fn zero_count(&self) -> (r: u64)
        ensures
            r == self.of().zeros(),
    {
        self.hist.zero_count
    }
}

impl<const K: usize, const L: usize> Default for HistogramPN<K, L> {
    fn default() -> (r: Self)
        ensures
            2 <= K <= 250 && 2 <= L <= 250 ==> {
                &&& r.wf()
                &&& r.is_blank()
                &&& r.starts_at((TABLE_SCALE as int, TABLE_SCALE as int), (Width::B1, Width::B1))
            },
    {
        HistogramPN {
            positive: Histogram::default(),
            negative: Histogram::default(),
            sum: 0,
            min: INFINITY,
            max: NEG_INFINITY,
            zero_count: 0,
        }
    }
}

} // verus!
