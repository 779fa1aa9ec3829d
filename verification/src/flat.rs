//! Exponential histogram in a flat pool of words, which holds the first values as they are.
//!
//! A new histogram keeps up to `N` raw values. The value that would exceed the pool promotes it:
//! the values are replayed into bucket counters. Readers promote as well, so that the first
//! phase is invisible to callers.

use crate::bucket_width::BucketWidth;
use crate::buckets::Buckets;
use crate::counts::{bottom, lemma_total_zero, no_counts, top, total};
use crate::float64::{greatest, is_zero, least, max_of, min_of, zero};
use crate::layout::{empty_layout, lemma_side, slots, Layout, MAX_WORDS};
use crate::lookup::TABLE_SCALE;
use crate::mapping::{Scale, MIN_SCALE};
use crate::replay::{
    all_countable, countable, import_runs_out, importable, imported, is_importable, key_of,
    lemma_imported, lemma_replay_still_out, lemma_replayed, lemma_replayed_push, replay_runs_out,
    replayed, sum_of,
};
use crate::stats::Stats;
use crate::width::{capacity, lanes, lemma_lanes};
use vstd::prelude::*;

verus! {

/// Error returned when a histogram operation would overflow.
#[derive(Debug, Clone, Copy, PartialEq, Eq, Structural)]
pub struct Overflow;

impl Overflow {
    /// Message that describes the error.
    pub fn message(&self) -> (r: &'static str)
        ensures
            r@ == "histogram counter overflow"@,
    {
        "histogram counter overflow"
    }
}

/// Describes the bucket layout of an exponential histogram.
#[derive(Debug, Clone, Copy, PartialEq, Eq, Structural)]
pub struct BucketDescriptor {
    /// Exponential histogram scale.
    pub scale: i32,
    /// Index of the first bucket.
    pub offset: i32,
    /// Number of contiguous buckets.
    pub len: u32,
}

/// Statistics of a histogram with no observation: all zeros.
pub open spec fn no_stats() -> Stats {
    Stats { count: 0, sum: 0, min: 0, max: 0 }
}

/// Statistics after more observations between `min` and `max`.
pub open spec fn committed(stats: Stats, sum: u64, count: int, min: u64, max: u64) -> Stats {
    Stats {
        count: (stats.count + count) as u64,
        sum,
        min: if stats.count == 0 {
            min
        } else {
            least(stats.min, min)
        },
        max: if stats.count == 0 {
            max
        } else {
            greatest(stats.max, max)
        },
    }
}

/// A value that can be recorded: not negative, and not NaN.
pub open spec fn acceptable(bits: u64) -> bool {
    zero(bits) || countable(bits)
}

/// What the pool of words holds.
#[derive(Debug, Clone, Copy)]
enum Pool<const N: usize> {
    /// The first values, as bit patterns.
    Literals { values: [u64; N], count: usize },
    /// Bucket counters.
    Counters(Buckets<N>),
}

/// An allocation-free exponential histogram for non-negative values.
///
/// `N` is the number of words in the data pool, from 2 to [`MAX_WORDS`]. At the lowest scale it
/// takes two counters to hold values on both sides of 1.
#[derive(Debug, Clone, Copy)]
pub struct Histogram<const N: usize> {
    limit_scale: Scale,
    min_bucket_width: BucketWidth,
    literal_enabled: bool,
    stats: Stats,
    pool: Pool<N>,
}

impl<const N: usize> Histogram<N> {
    /// The histogram holds raw values.
    pub closed spec fn literal(self) -> bool {
        self.pool is Literals
    }

    /// The raw values, oldest first; none once the pool holds counters.
    pub closed spec fn literals(self) -> Seq<u64> {
        match self.pool {
            Pool::Literals { values, count } => values@.take(count as int),
            Pool::Counters(_) => Seq::empty(),
        }
    }

    /// The scale that the histogram starts with.
    pub closed spec fn limit(self) -> int {
        self.limit_scale.value()
    }

    /// Level of the counter width that the histogram starts with.
    pub closed spec fn min_level(self) -> nat {
        self.min_bucket_width.counter().level()
    }

    /// Whether the histogram starts with raw values.
    pub closed spec fn starts_literal(self) -> bool {
        self.literal_enabled
    }

    /// Aggregate statistics.
    pub closed spec fn stats_of(self) -> Stats {
        self.stats
    }

    /// The layout of the counters, without the raw values.
    pub closed spec fn counters(self) -> Layout {
        match self.pool {
            Pool::Literals { .. } => empty_layout(self.limit(), self.min_level()),
            Pool::Counters(b) => b.layout(),
        }
    }

    /// The layout that a reader sees: the raw values, if any, replayed into counters.
    pub open spec fn layout(self) -> Layout {
        replayed(self.counters(), N as int, self.literals())
    }

    /// Replaying the raw values needs a scale below the lowest one.
    pub open spec fn replay_out(self) -> bool {
        replay_runs_out(self.counters(), N as int, self.literals())
    }

    /// Recording `incr` observations of `bits` needs a scale below the lowest one. Raw values that
    /// fit the pool need none.
    pub open spec fn update_runs_out(self, bits: u64, incr: u64) -> bool {
        &&& !zero(bits)
        &&& !self.literal() || self.literals().len() + incr > N
        &&& self.replay_out() || self.layout().record_runs_out(
            N as int,
            key_of(bits),
            TABLE_SCALE as int,
            incr as nat,
        )
    }

    /// No positive value is held.
    pub open spec fn holds_none(self) -> bool {
        self.counters().vacant() && self.literals().len() == 0
    }

    /// The settings of two histograms are the same.
    pub open spec fn same_settings(self, other: Self) -> bool {
        &&& self.limit() == other.limit()
        &&& self.min_level() == other.min_level()
        &&& self.starts_literal() == other.starts_literal()
    }

    /// The histogram is valid.
    pub closed spec fn wf(self) -> bool {
        &&& 2 <= N <= MAX_WORDS
        &&& self.limit_scale.wf()
        &&& self.min_bucket_width !is B0
        &&& match self.pool {
            Pool::Literals { values, count } => {
                &&& count <= N
                &&& values@.len() == N
                &&& count <= self.stats.count
                &&& all_countable(values@.take(count as int))
            },
            Pool::Counters(b) => {
                &&& b.wf()
                &&& total(b.layout().counts, bottom(), top()) <= self.stats.count
            },
        }
    }

    /// What validity means to a caller.
    pub proof fn lemma_wf(self)
        requires
            self.wf(),
        ensures
            2 <= N <= MAX_WORDS,
            MIN_SCALE <= self.limit() <= TABLE_SCALE,
            self.min_level() <= 6,
            self.counters().valid(N as int),
            self.layout().valid(N as int),
            all_countable(self.literals()),
            self.literals().len() <= N,
            self.literal() ==> self.counters() == empty_layout(self.limit(), self.min_level()),
            !self.literal() ==> self.literals().len() == 0 && self.layout() == self.counters(),
            total(self.layout().counts, bottom(), top()) <= self.stats_of().count,
            total(self.counters().counts, bottom(), top()) + self.literals().len()
                <= self.stats_of().count,
            self.holds_none() <==> self.layout().vacant(),
            self.literal() ==> self.layout().inside(),
    {
        lemma_empty_layout(self.limit(), self.min_level(), N as int);
        lemma_total_zero(no_counts(), bottom(), top());
        match self.pool {
            Pool::Literals { values, count } => {
                assert(values@.take(count as int).len() == count);
            },
            Pool::Counters(b) => {
                b.lemma_wf();
            },
        }
        lemma_replayed(self.counters(), N as int, self.literals());
    }
}

/// An empty layout is valid.
pub proof fn lemma_empty_layout(scale: int, level: nat, n: int)
    requires
        MIN_SCALE <= scale <= TABLE_SCALE,
        level <= 6,
        2 <= n <= MAX_WORDS,
    ensures
        empty_layout(scale, level).valid(n),
        empty_layout(scale, level).vacant(),
        empty_layout(scale, level).inside(),
{
    lemma_side(scale);
    lemma_lanes(level);
    lemma_total_zero(no_counts(), bottom(), top());
    assert(slots(n, level) >= 1) by (nonlinear_arith)
        requires
            slots(n, level) == n * lanes(level),
            n >= 2,
            lanes(level) >= 1,
    ;
}

impl<const N: usize> Histogram<N> {
    fn new_at_scale(scale: Scale) -> (r: Self)
        requires
            2 <= N <= MAX_WORDS,
            scale.wf(),
        ensures
            r.wf(),
            r.literal(),
            r.starts_literal(),
            r.literals().len() == 0,
            r.limit() == scale.value(),
            r.min_level() == 0,
            r.stats_of() == no_stats(),
    {
        let r = Histogram {
            limit_scale: scale,
            min_bucket_width: BucketWidth::B1,
            literal_enabled: true,
            stats: Stats { count: 0, sum: 0, min: 0, max: 0 },
            pool: Pool::Literals { values: [0u64;N], count: 0 },
        };
        assert(r.literals().len() == 0);
        r
    }

    /// Creates a new histogram at the maximum supported scale.
    pub fn new() -> (r: Self)
        requires
            2 <= N <= MAX_WORDS,
        ensures
            r.wf(),
            r.literal(),
            r.starts_literal(),
            r.literals().len() == 0,
            r.limit() == TABLE_SCALE,
            r.min_level() == 0,
            r.stats_of() == no_stats(),
    {
        Self::new_at_scale(Scale::finest())
    }

    /// Creates a new histogram with an upper bound on scale, at most the maximum supported scale.
    pub fn with_max_scale(scale: i32) -> (r: Self)
        requires
            2 <= N <= MAX_WORDS,
            scale >= MIN_SCALE,
        ensures
            r.wf(),
            r.literal(),
            r.starts_literal(),
            r.literals().len() == 0,
            r.limit() == if scale <= TABLE_SCALE {
                scale
            } else {
                TABLE_SCALE
            },
            r.min_level() == 0,
            r.stats_of() == no_stats(),
    {
        let top_scale = crate::mapping::max_scale();
        Self::with_scale(
            if scale <= top_scale {
                scale
            } else {
                top_scale
            },
        )
    }

    /// Creates a new histogram at the specified scale.
    pub fn with_scale(scale: i32) -> (r: Self)
        requires
            2 <= N <= MAX_WORDS,
            MIN_SCALE <= scale <= TABLE_SCALE,
        ensures
            r.wf(),
            r.literal(),
            r.starts_literal(),
            r.literals().len() == 0,
            r.limit() == scale,
            r.min_level() == 0,
            r.stats_of() == no_stats(),
    {
        match Scale::new(scale) {
            Ok(s) => Self::new_at_scale(s),
            Err(_) => Self::new(),
        }
    }

    /// Sets the width that bucket counters start with, also after [`Self::clear`]. A wider start
    /// trades buckets for fewer changes of width.
    pub fn with_min_bucket_width(self, width: BucketWidth) -> (r: Self)
        requires
            self.wf(),
            self.holds_none(),
            width !is B0,
        ensures
            r.wf(),
            r.holds_none(),
            r.literal() == self.literal(),
            r.limit() == self.limit(),
            r.starts_literal() == self.starts_literal(),
            r.min_level() == width.counter().level(),
            r.stats_of() == self.stats_of(),
            r.counters() == empty_layout(self.limit(), width.counter().level()),
    {
        let mut h = self;
        h.min_bucket_width = width;
        h.reset_pool(self.is_literal());
        h
    }

    /// Enables or disables the phase with raw values, also after [`Self::clear`].
    pub fn with_literal_mode(self, enabled: bool) -> (r: Self)
        requires
            self.wf(),
            self.holds_none(),
        ensures
            r.wf(),
            r.holds_none(),
            r.literal() == enabled,
            r.starts_literal() == enabled,
            r.limit() == self.limit(),
            r.min_level() == self.min_level(),
            r.stats_of() == self.stats_of(),
            r.counters() == empty_layout(self.limit(), self.min_level()),
    {
        let mut h = self;
        h.literal_enabled = enabled;
        h.reset_pool(enabled);
        h
    }

    /// Empties the pool.
    fn reset_pool(&mut self, literal: bool)
        requires
            2 <= N <= MAX_WORDS,
            old(self).limit_scale.wf(),
            old(self).min_bucket_width !is B0,
        ensures
            final(self).wf(),
            final(self).same_settings(*old(self)),
            final(self).stats_of() == old(self).stats_of(),
            final(self).literal() == literal,
            final(self).literals().len() == 0,
            final(self).counters() == empty_layout(old(self).limit(), old(self).min_level()),
            final(self).holds_none(),
    {
        if literal {
            self.pool = Pool::Literals { values: [0u64;N], count: 0 };
            assert(self.literals().len() == 0);
        } else {
            self.pool = Pool::Counters(Buckets::new(self.limit_scale, self.min_bucket_width));
        }
        proof {
            lemma_total_zero(no_counts(), bottom(), top());
        }
    }

    /// Returns true if the histogram holds raw values.
    pub fn is_literal(&self) -> (r: bool)
        ensures
            r == self.literal(),
    {
        matches!(self.pool, Pool::Literals { .. })
    }

    /// Returns the sum of all recorded values.
    pub fn sum(&self) -> (r: u64)
        ensures
            r == self.stats_of().sum,
    {
        self.stats.sum
    }

    /// Returns the count of all recorded values.
    pub fn count(&self) -> (r: u64)
        ensures
            r == self.stats_of().count,
    {
        self.stats.count
    }

    /// Returns the minimum recorded value, or 0 if empty.
    pub fn min(&self) -> (r: u64)
        ensures
            r == self.stats_of().min,
    {
        self.stats.min
    }

    /// Returns the maximum recorded value, or 0 if empty.
    pub fn max(&self) -> (r: u64)
        ensures
            r == self.stats_of().max,
    {
        self.stats.max
    }

    /// Returns the configured scale limit.
    pub fn limit_scale(&self) -> (r: i32)
        ensures
            r == self.limit(),
    {
        self.limit_scale.scale()
    }

    /// Returns the current bucket counter width.
    pub fn bucket_width(&self) -> (r: BucketWidth)
        requires
            self.wf(),
        ensures
            r !is B0,
            r.counter().level() == self.counters().level,
    {
        match &self.pool {
            Pool::Literals { .. } => self.min_bucket_width,
            Pool::Counters(b) => b.bucket_width(),
        }
    }

    /// Number of logical buckets available at the current width.
    pub fn bucket_capacity(&self) -> (r: usize)
        requires
            self.wf(),
        ensures
            r == slots(N as int, self.counters().level),
    {
        self.bucket_width().capacity(N)
    }

    /// Returns true if no buckets have been used.
    pub fn buckets_empty(&self) -> (r: bool)
        requires
            self.wf(),
        ensures
            r <==> self.holds_none(),
    {
        proof {
            self.lemma_wf();
            lemma_empty_layout(self.limit(), self.min_level(), N as int);
        }
        match &self.pool {
            Pool::Literals { values, count } => {
                assert(self.literals().len() == *count);
                *count == 0
            },
            Pool::Counters(b) => b.is_effectively_empty(),
        }
    }

    /// Clears the histogram, resetting to its initial state.
    pub fn clear(&mut self)
        requires
            old(self).wf(),
        ensures
            final(self).wf(),
            final(self).same_settings(*old(self)),
            final(self).stats_of() == no_stats(),
            final(self).literal() == old(self).starts_literal(),
            final(self).holds_none(),
            final(self).counters() == empty_layout(old(self).limit(), old(self).min_level()),
    {
        self.stats = Stats { count: 0, sum: 0, min: 0, max: 0 };
        self.reset_pool(self.literal_enabled);
    }

    /// Swaps contents with another histogram.
    pub fn swap(&mut self, other: &mut Self)
        ensures
            *final(self) == *old(other),
            *final(other) == *old(self),
    {
        core::mem::swap(self, other);
    }

    /// Adds observations to the statistics.
    fn commit_stats(&mut self, sum: u64, count: u64, min: u64, max: u64)
        requires
            old(self).stats_of().count + count <= u64::MAX,
        ensures
            final(self).stats_of() == committed(old(self).stats_of(), sum, count as int, min, max),
            final(self).same_settings(*old(self)),
            final(self).pool == old(self).pool,
            final(self).limit_scale == old(self).limit_scale,
            final(self).min_bucket_width == old(self).min_bucket_width,
    {
        self.stats.sum = sum;
        if self.stats.count == 0 {
            self.stats.min = min;
            self.stats.max = max;
        } else {
            self.stats.min = min_of(self.stats.min, min);
            self.stats.max = max_of(self.stats.max, max);
        }
        self.stats.count = self.stats.count + count;
    }
}

/// What recording `incr` observations of `bits` does to a histogram.
pub open spec fn updated<const N: usize>(
    before: Histogram<N>,
    after: Histogram<N>,
    bits: u64,
    incr: u64,
    sum: u64,
) -> bool {
    let n = N as int;
    &&& after.same_settings(before)
    &&& after.stats_of() == committed(before.stats_of(), sum, incr as int, bits, bits)
    &&& if zero(bits) {
        &&& after.literal() == before.literal()
        &&& after.literals() == before.literals()
        &&& after.counters() == before.counters()
    } else if before.literal() && before.literals().len() + incr <= N {
        &&& after.literal()
        &&& after.literals() == before.literals() + Seq::new(incr as nat, |i: int| bits)
        &&& after.counters() == before.counters()
    } else {
        &&& !after.literal()
        &&& after.counters() == before.layout().recorded(
            n,
            key_of(bits),
            TABLE_SCALE as int,
            incr as nat,
        )
    }
}

impl<const N: usize> Histogram<N> {
    /// Replays the raw values into counters. Does nothing once that has been done. Returns false if
    /// the scale runs out; the counters then take their widest form at the lowest scale.
    fn promote(&mut self) -> (r: bool)
        requires
            old(self).wf(),
        ensures
            final(self).wf(),
            !final(self).literal(),
            final(self).literals().len() == 0,
            final(self).same_settings(*old(self)),
            final(self).stats_of() == old(self).stats_of(),
            final(self).limit_scale == old(self).limit_scale,
            final(self).min_bucket_width == old(self).min_bucket_width,
            final(self).counters() == old(self).layout(),
            r <==> !old(self).replay_out(),
    {
        let ghost before = *self;
        proof {
            before.lemma_wf();
        }
        match self.pool {
            Pool::Counters(_) => true,
            Pool::Literals { values, count } => {
                let mut in_scale = true;
                let mut b: Buckets<N> = Buckets::new(self.limit_scale, self.min_bucket_width);
                let ghost p = b.layout();
                let ghost n = N as int;
                let ghost all = values@.take(count as int);
                let mut i: usize = 0;
                proof {
                    assert(all.take(0) =~= Seq::empty());
                    lemma_total_zero(no_counts(), bottom(), top());
                    lemma_empty_layout(self.limit(), self.min_level(), n);
                }
                while i < count
                    invariant
                        b.wf(),
                        b.layout().inside(),
                        n == N,
                        i <= count <= N,
                        N <= MAX_WORDS,
                        values@.len() == N,
                        all == values@.take(count as int),
                        all_countable(all),
                        b.layout() == replayed(p, n, all.take(i as int)),
                        in_scale <==> !replay_runs_out(p, n, all.take(i as int)),
                        total(b.layout().counts, bottom(), top()) == i,
                    decreases count - i,
                {
                    proof {
                        assert(all[i as int] == values@[i as int]);
                        assert(countable(all[i as int]));
                        assert(all.take(i + 1) =~= all.take(i as int).push(all[i as int]));
                        lemma_replayed_push(p, n, all.take(i as int), all[i as int]);
                    }
                    let counted = b.update_buckets(values[i], 1);
                    in_scale = in_scale && counted;
                    i = i + 1;
                }
                assert(all.take(count as int) =~= all);
                self.pool = Pool::Counters(b);
                in_scale
            },
        }
    }

    /// Counts observations of a positive value in counters, replaying the raw values first. Returns
    /// false if the scale runs out.
    fn promote_with(&mut self, bits: u64, incr: u64) -> (r: bool)
        requires
            old(self).wf(),
            countable(bits),
            incr > 0,
            old(self).stats_of().count + incr <= u64::MAX,
        ensures
            final(self).limit_scale == old(self).limit_scale,
            final(self).min_bucket_width == old(self).min_bucket_width,
            final(self).same_settings(*old(self)),
            final(self).stats_of() == old(self).stats_of(),
            !final(self).literal(),
            r ==> final(self).counters() == old(self).layout().recorded(
                N as int,
                key_of(bits),
                TABLE_SCALE as int,
                incr as nat,
            ),
            r ==> (final(self).pool matches Pool::Counters(b) && b.wf() && total(
                b.layout().counts,
                bottom(),
                top(),
            ) <= old(self).stats_of().count + incr),
            r <==> !(old(self).replay_out() || old(self).layout().record_runs_out(
                N as int,
                key_of(bits),
                TABLE_SCALE as int,
                incr as nat,
            )),
    {
        let ghost before = *self;
        proof {
            before.lemma_wf();
        }
        let promoted = self.promote();
        proof {
            self.lemma_wf();
        }
        let mut b: Buckets<N> = match self.pool {
            Pool::Counters(b) => b,
            Pool::Literals { .. } => Buckets::new(self.limit_scale, self.min_bucket_width),
        };
        let counted = b.update_buckets(bits, incr);
        self.pool = Pool::Counters(b);
        promoted && counted
    }

    /// Keeps raw values, or promotes the histogram when they would exceed the pool. Returns false if
    /// the scale runs out.
    fn update_literal(&mut self, bits: u64, incr: u64) -> (r: bool)
        requires
            old(self).wf(),
            old(self).literal(),
            countable(bits),
            incr > 0,
            old(self).stats_of().count + incr <= u64::MAX,
        ensures
            final(self).limit_scale == old(self).limit_scale,
            final(self).min_bucket_width == old(self).min_bucket_width,
            final(self).same_settings(*old(self)),
            final(self).stats_of() == old(self).stats_of(),
            r <==> !old(self).update_runs_out(bits, incr),
            old(self).literals().len() + incr <= N ==> {
                &&& final(self).literal()
                &&& final(self).literals() == old(self).literals() + Seq::new(
                    incr as nat,
                    |i: int| bits,
                )
                &&& all_countable(final(self).literals())
                &&& final(self).counters() == old(self).counters()
                &&& final(self).pool matches Pool::Literals { values, count } && count <= N
                    && values@.len() == N && count == final(self).literals().len()
            },
            r && old(self).literals().len() + incr > N ==> {
                &&& !final(self).literal()
                &&& final(self).counters() == old(self).layout().recorded(
                    N as int,
                    key_of(bits),
                    TABLE_SCALE as int,
                    incr as nat,
                )
                &&& final(self).pool matches Pool::Counters(b) && b.wf() && total(
                    b.layout().counts,
                    bottom(),
                    top(),
                ) <= old(self).stats_of().count + incr
            },
    {
        let ghost before = *self;
        proof {
            crate::float64::lemma_parts(bits);
        }
        match self.pool {
            Pool::Counters(_) => true,
            Pool::Literals { values, count } => {
                assert(self.literals().len() == count);
                if incr > (N - count) as u64 {
                    return self.promote_with(bits, incr);
                }
                let mut held: [u64; N] = values;
                let mut at: usize = count;
                let needed: usize = count + incr as usize;
                while at < needed
                    invariant
                        count <= at <= needed <= N,
                        held@.len() == N,
                        forall|i: int| 0 <= i < count ==> #[trigger] held@[i] == values@[i],
                        forall|i: int| count <= i < at ==> #[trigger] held@[i] == bits,
                    decreases needed - at,
                {
                    held[at] = bits;
                    at = at + 1;
                }
                self.pool = Pool::Literals { values: held, count: needed };
                proof {
                    assert(self.literals() =~= before.literals() + Seq::new(
                        incr as nat,
                        |i: int| bits,
                    ));
                    assert forall|i: int| 0 <= i < self.literals().len() implies countable(
                        #[trigger] self.literals()[i],
                    ) by {
                        if i < count {
                            assert(before.literals()[i] == self.literals()[i]);
                            assert(countable(before.literals()[i]));
                        }
                    }
                }
                true
            },
        }
    }

    /// Records a single value. The argument `sum` is the new sum of all values.
    ///
    /// Returns an error if the total count would overflow, or if a counter would and cannot widen
    /// any more because the scale runs out; the histogram is then unchanged.
    pub fn update(&mut self, bits: u64, sum: u64) -> (r: Result<(), Overflow>)
        requires
            old(self).wf(),
            acceptable(bits),
        ensures
            final(self).wf(),
            r.is_ok() <==> old(self).stats_of().count < u64::MAX && !old(self).update_runs_out(
                bits,
                1,
            ),
            r.is_ok() ==> updated(*old(self), *final(self), bits, 1, sum),
            r.is_err() ==> *final(self) == *old(self),
    {
        self.update_by_incr(bits, 1, sum)
    }

    /// Records a value with a specified increment. The argument `sum` is the new sum of all
    /// values.
    ///
    /// Returns an error if the total count would overflow, or if a counter would and cannot widen
    /// any more because the scale runs out; the histogram is then unchanged.
    pub fn update_by_incr(&mut self, bits: u64, incr: u64, sum: u64) -> (r: Result<(), Overflow>)
        requires
            old(self).wf(),
            acceptable(bits),
        ensures
            final(self).wf(),
            r.is_ok() <==> incr == 0 || (old(self).stats_of().count + incr <= u64::MAX && !old(
                self,
            ).update_runs_out(bits, incr)),
            r.is_ok() && incr > 0 ==> updated(*old(self), *final(self), bits, incr, sum),
            r.is_err() || incr == 0 ==> *final(self) == *old(self),
    {
        if incr == 0 {
            return Ok(());
        }
        if incr > u64::MAX - self.stats.count {
            return Err(Overflow);
        }
        let ghost before = *self;
        let snapshot = *self;
        proof {
            before.lemma_wf();
        }
        if !is_zero(bits) {
            let in_scale = if self.is_literal() {
                self.update_literal(bits, incr)
            } else {
                self.promote_with(bits, incr)
            };
            if !in_scale {
                *self = snapshot;
                return Err(Overflow);
            }
        }
        self.commit_stats(sum, incr, bits, bits);
        Ok(())
    }
}

/// What merging foreign buckets does to a histogram whose layout was `start`.
pub open spec fn absorbed_into<const N: usize>(
    before: Histogram<N>,
    after: Histogram<N>,
    start: Layout,
    stats: Stats,
    scale: int,
    offset: int,
    counts: Seq<u64>,
    sum: u64,
) -> bool {
    &&& after.same_settings(before)
    &&& after.stats_of() == committed(before.stats_of(), sum, stats.count as int, stats.min, stats.max)
    &&& if counts.len() > 0 {
        !after.literal() && after.counters() == imported(start, N as int, scale, offset, counts)
    } else {
        &&& after.literal() == before.literal()
        &&& after.literals() == before.literals()
        &&& before.literal() ==> after.counters() == before.counters()
        &&& !before.literal() ==> after.counters() == before.counters().trimmed()
    }
}

/// Merging foreign buckets into a histogram whose layout was `start` needs a scale below the lowest
/// one.
pub open spec fn absorb_out<const N: usize>(
    before: Histogram<N>,
    start: Layout,
    scale: int,
    offset: int,
    counts: Seq<u64>,
) -> bool {
    counts.len() > 0 && (before.replay_out() || import_runs_out(
        start,
        N as int,
        scale,
        offset,
        counts,
    ))
}

/// The layout that takes the buckets of another histogram. An empty histogram adopts the
/// counter width of another of its size, so that it need not widen step by step.
pub open spec fn receiving<const N: usize, const M: usize>(
    before: Histogram<N>,
    other: Histogram<M>,
    adopt_width: bool,
) -> Layout {
    let p = before.layout();
    if adopt_width && before.holds_none() && !other.counters().vacant() && other.counters().level
        > p.level {
        Layout { level: other.counters().level, ..p }
    } else {
        p
    }
}

/// What merging another histogram does.
pub open spec fn joined<const N: usize, const M: usize>(
    before: Histogram<N>,
    after: Histogram<N>,
    other: Histogram<M>,
    adopt_width: bool,
    sum: u64,
) -> bool {
    let stats = other.stats_of();
    if other.literal() {
        &&& after.same_settings(before)
        &&& after.stats_of() == committed(
            before.stats_of(),
            sum,
            stats.count as int,
            stats.min,
            stats.max,
        )
        &&& !after.literal()
        &&& after.counters() == replayed(before.layout(), N as int, other.literals())
    } else {
        absorbed_into(
            before,
            after,
            receiving(before, other, adopt_width),
            stats,
            other.counters().scale,
            other.counters().low,
            other.counters().live(),
            sum,
        )
    }
}

/// Merging another histogram needs a scale below the lowest one.
pub open spec fn join_runs_out<const N: usize, const M: usize>(
    before: Histogram<N>,
    other: Histogram<M>,
    adopt_width: bool,
) -> bool {
    if other.literal() {
        before.replay_out() || replay_runs_out(before.layout(), N as int, other.literals())
    } else {
        absorb_out(
            before,
            receiving(before, other, adopt_width),
            other.counters().scale,
            other.counters().low,
            other.counters().live(),
        )
    }
}

/// The live counts add up to all counts.
pub proof fn lemma_live_sum(p: Layout, n: int)
    requires
        p.valid(n),
    ensures
        sum_of(p.live(), p.live().len() as int) == total(p.counts, bottom(), top()),
{
    p.lemma_any(n);
    p.lemma_counts(n);
    if p.vacant() {
        p.lemma_vacant_coarser(n, 0);
        lemma_total_zero(no_counts(), bottom(), top());
    } else {
        lemma_live_part(p, n, p.live().len() as int);
        crate::counts::lemma_total_within(p.counts, p.low, p.high + 1, bottom(), top());
    }
}

proof fn lemma_live_part(p: Layout, n: int, k: int)
    requires
        p.valid(n),
        !p.vacant(),
        0 <= k <= p.live().len(),
    ensures
        sum_of(p.live(), k) == total(p.counts, p.low, p.low + k),
    decreases k,
{
    if k > 0 {
        lemma_live_part(p, n, k - 1);
        assert((p.counts)(p.low + (k - 1)) <= capacity(p.level));
        assert(p.live()[k - 1] == (p.counts)(p.low + (k - 1)));
    }
}

/// The live buckets of a valid layout can be merged.
pub proof fn lemma_live_importable(p: Layout, n: int)
    requires
        p.valid(n),
    ensures
        importable(p.scale, p.low, p.live().len() as int),
{
}

impl<const N: usize> Histogram<N> {
    /// Merges foreign buckets into a pool of counters, and the statistics that go with them.
    /// Returns false if the scale runs out.
    fn absorb(&mut self, stats: &Stats, scale: i32, offset: i32, counts: &Vec<u64>, sum: u64) -> (r:
        bool)
        requires
            old(self).wf(),
            old(self).stats_of().count + stats.count <= u64::MAX,
            sum_of(counts@, counts@.len() as int) <= stats.count,
            counts@.len() > 0 ==> importable(scale as int, offset as int, counts@.len() as int),
        ensures
            r ==> final(self).wf() && absorbed_into(
                *old(self),
                *final(self),
                old(self).layout(),
                *stats,
                scale as int,
                offset as int,
                counts@,
                sum,
            ),
            r <==> !absorb_out(
                *old(self),
                old(self).layout(),
                scale as int,
                offset as int,
                counts@,
            ),
    {
        let ghost before = *self;
        proof {
            before.lemma_wf();
        }
        if counts.len() > 0 {
            if !self.promote() {
                return false;
            }
            proof {
                self.lemma_wf();
            }
            let mut b: Buckets<N> = match self.pool {
                Pool::Counters(b) => b,
                Pool::Literals { .. } => Buckets::new(self.limit_scale, self.min_bucket_width),
            };
            if !b.import(scale, offset, counts) {
                return false;
            }
            proof {
                lemma_imported(
                    before.layout(),
                    N as int,
                    scale as int,
                    offset as int,
                    counts@,
                );
            }
            self.pool = Pool::Counters(b);
        } else {
            match self.pool {
                Pool::Literals { .. } => {},
                Pool::Counters(old_buckets) => {
                    let mut b: Buckets<N> = old_buckets;
                    b.trim_bucket_range();
                    proof {
                        before.counters().lemma_trimmed(N as int);
                    }
                    self.pool = Pool::Counters(b);
                },
            }
        }
        self.commit_stats(sum, stats.count, stats.min, stats.max);
        true
    }

    /// Merges from raw histogram data, enabling cross-size merging. `counts` holds the count of
    /// each described bucket, lowest first, and `sum` is the sum of all values of both.
    ///
    /// Returns an error if the total count would overflow, if a counter would and cannot widen any
    /// more because the scale runs out, or if the described buckets have no index at a supported
    /// scale; the histogram is then unchanged.
    pub fn merge_from_raw(
        &mut self,
        stats: &Stats,
        buckets: &BucketDescriptor,
        counts: &Vec<u64>,
        sum: u64,
    ) -> (r: Result<(), Overflow>)
        requires
            old(self).wf(),
            counts@.len() == buckets.len,
            sum_of(counts@, counts@.len() as int) <= stats.count,
        ensures
            final(self).wf(),
            r.is_ok() <==> stats.count == 0 || (old(self).stats_of().count + stats.count <= u64::MAX
                && (counts@.len() > 0 ==> importable(
                buckets.scale as int,
                buckets.offset as int,
                counts@.len() as int,
            )) && !absorb_out(
                *old(self),
                old(self).layout(),
                buckets.scale as int,
                buckets.offset as int,
                counts@,
            )),
            r.is_err() || stats.count == 0 ==> *final(self) == *old(self),
            r.is_ok() && stats.count > 0 ==> absorbed_into(
                *old(self),
                *final(self),
                old(self).layout(),
                *stats,
                buckets.scale as int,
                buckets.offset as int,
                counts@,
                sum,
            ),
    {
        if stats.count == 0 {
            return Ok(());
        }
        if stats.count > u64::MAX - self.stats.count {
            return Err(Overflow);
        }
        if counts.len() > 0 && !is_importable(buckets.scale, buckets.offset, counts.len()) {
            return Err(Overflow);
        }
        let snapshot = *self;
        if !self.absorb(stats, buckets.scale, buckets.offset, counts, sum) {
            *self = snapshot;
            return Err(Overflow);
        }
        Ok(())
    }

    /// Merges the raw values of another histogram. Returns false if the scale runs out.
    fn merge_literal_from<const M: usize>(&mut self, other: &Histogram<M>, sum: u64) -> (r: bool)
        requires
            old(self).wf(),
            other.wf(),
            other.literal(),
            old(self).stats_of().count + other.stats_of().count <= u64::MAX,
        ensures
            r ==> final(self).wf() && joined(*old(self), *final(self), *other, false, sum),
            r <==> !join_runs_out(*old(self), *other, false),
    {
        let ghost before = *self;
        proof {
            before.lemma_wf();
            other.lemma_wf();
        }
        if !self.promote() {
            return false;
        }
        proof {
            self.lemma_wf();
        }
        let mut b: Buckets<N> = match self.pool {
            Pool::Counters(b) => b,
            Pool::Literals { .. } => Buckets::new(self.limit_scale, self.min_bucket_width),
        };
        match &other.pool {
            Pool::Counters(_) => {},
            Pool::Literals { values, count } => {
                let ghost p = b.layout();
                let ghost n = N as int;
                let ghost all = values@.take(*count as int);
                let ghost held = total(p.counts, bottom(), top());
                let mut i: usize = 0;
                proof {
                    assert(all.take(0) =~= Seq::empty());
                    assert(all.len() == *count);
                }
                while i < *count
                    invariant
                        b.wf(),
                        n == N,
                        i <= *count <= M,
                        values@.len() == M,
                        all == values@.take(*count as int),
                        all_countable(all),
                        held + *count <= u64::MAX,
                        b.layout() == replayed(p, n, all.take(i as int)),
                        !replay_runs_out(p, n, all.take(i as int)),
                        total(b.layout().counts, bottom(), top()) == held + i,
                        replay_runs_out(p, n, all) ==> join_runs_out(*old(self), *other, false),
                    decreases *count - i,
                {
                    proof {
                        assert(all[i as int] == values@[i as int]);
                        assert(countable(all[i as int]));
                        assert(all.take(i + 1) =~= all.take(i as int).push(all[i as int]));
                        lemma_replayed_push(p, n, all.take(i as int), all[i as int]);
                    }
                    if !b.update_buckets(values[i], 1) {
                        proof {
                            lemma_replay_still_out(p, n, all, i + 1);
                        }
                        return false;
                    }
                    i = i + 1;
                }
                assert(all.take(*count as int) =~= all);
            },
        }
        self.pool = Pool::Counters(b);
        self.commit_stats(sum, other.stats.count, other.stats.min, other.stats.max);
        true
    }

    /// Merges another histogram. An empty histogram adopts the width of the counters if
    /// `adopt_width` is set.
    fn merge_from_impl<const M: usize>(
        &mut self,
        other: &Histogram<M>,
        adopt_width: bool,
        sum: u64,
    ) -> (r: Result<(), Overflow>)
        requires
            old(self).wf(),
            other.wf(),
        ensures
            final(self).wf(),
            r.is_ok() <==> other.stats_of().count == 0 || (old(self).stats_of().count
                + other.stats_of().count <= u64::MAX && !join_runs_out(*old(self), *other, adopt_width)),
            r.is_err() || other.stats_of().count == 0 ==> *final(self) == *old(self),
            r.is_ok() && other.stats_of().count > 0 ==> joined(
                *old(self),
                *final(self),
                *other,
                adopt_width,
                sum,
            ),
    {
        let ghost before = *self;
        if other.stats.count == 0 {
            return Ok(());
        }
        if other.stats.count > u64::MAX - self.stats.count {
            return Err(Overflow);
        }
        let snapshot = *self;
        proof {
            before.lemma_wf();
            other.lemma_wf();
        }
        let in_scale = match &other.pool {
            Pool::Literals { .. } => self.merge_literal_from(other, sum),
            Pool::Counters(theirs) => {
                proof {
                    lemma_live_sum(theirs.layout(), M as int);
                    lemma_live_importable(theirs.layout(), M as int);
                }
                if adopt_width && !theirs.is_effectively_empty() && self.buckets_empty() {
                    let _ = self.promote();
                    proof {
                        self.lemma_wf();
                    }
                    let mut b: Buckets<N> = match self.pool {
                        Pool::Counters(b) => b,
                        Pool::Literals { .. } => Buckets::new(
                            self.limit_scale,
                            self.min_bucket_width,
                        ),
                    };
                    b.adopt_width(theirs.bucket_width());
                    self.pool = Pool::Counters(b);
                }
                let counts = theirs.live_counts();
                let stats = other.stats;
                proof {
                    assert(self.counters() == receiving(before, *other, adopt_width) || !adopt_width
                        || theirs.layout().vacant() || !before.holds_none());
                    self.lemma_wf();
                }
                self.absorb(&stats, theirs.scale().scale(), theirs.start(), &counts, sum)
            },
        };
        if !in_scale {
            *self = snapshot;
            return Err(Overflow);
        }
        Ok(())
    }

    /// Merges another histogram of the same size into this one. The argument `sum` is the sum of
    /// all values of both.
    pub fn merge_from(&mut self, other: &Self, sum: u64) -> (r: Result<(), Overflow>)
        requires
            old(self).wf(),
            other.wf(),
        ensures
            final(self).wf(),
            r.is_ok() <==> other.stats_of().count == 0 || (old(self).stats_of().count
                + other.stats_of().count <= u64::MAX && !join_runs_out(*old(self), *other, true)),
            r.is_err() || other.stats_of().count == 0 ==> *final(self) == *old(self),
            r.is_ok() && other.stats_of().count > 0 ==> joined(
                *old(self),
                *final(self),
                *other,
                true,
                sum,
            ),
    {
        self.merge_from_impl(other, true, sum)
    }

    /// Merges a histogram of a different size into this one.
    pub fn merge_from_other<const M: usize>(&mut self, other: &Histogram<M>, sum: u64) -> (r: Result<
        (),
        Overflow,
    >)
        requires
            old(self).wf(),
            other.wf(),
        ensures
            final(self).wf(),
            r.is_ok() <==> other.stats_of().count == 0 || (old(self).stats_of().count
                + other.stats_of().count <= u64::MAX && !join_runs_out(*old(self), *other, false)),
            r.is_err() || other.stats_of().count == 0 ==> *final(self) == *old(self),
            r.is_ok() && other.stats_of().count > 0 ==> joined(
                *old(self),
                *final(self),
                *other,
                false,
                sum,
            ),
    {
        self.merge_from_impl(other, false, sum)
    }
}

/// Reading a histogram replays its raw values into counters and changes nothing else.
pub open spec fn same_contents<const N: usize>(before: Histogram<N>, after: Histogram<N>) -> bool {
    &&& after.same_settings(before)
    &&& after.stats_of() == before.stats_of()
    &&& !after.literal()
    &&& after.counters() == before.layout()
}

/// Read-only view of bucket data in a histogram.
///
/// The histogram has been promoted when there is a view of it.
#[derive(Debug)]
pub struct BucketView<'a, const N: usize> {
    hist: &'a Histogram<N>,
}

/// Cursor over bucket counts.
#[derive(Debug)]
pub struct BucketsIter<'a, const N: usize> {
    hist: &'a Histogram<N>,
    pos: u32,
    len: u32,
}

impl<const N: usize> Histogram<N> {
    /// Returns the current scale. Returns 0 when no positive value has been recorded.
    pub fn scale(&mut self) -> (r: i32)
        requires
            old(self).wf(),
        ensures
            final(self).wf(),
            r == if old(self).holds_none() {
                0
            } else {
                old(self).layout().scale
            },
            old(self).literal() && old(self).literals().len() == 0 ==> *final(self) == *old(self),
            !(old(self).literal() && old(self).literals().len() == 0) ==> same_contents(
                *old(self),
                *final(self),
            ),
    {
        let ghost before = *self;
        proof {
            before.lemma_wf();
        }
        if self.buckets_empty() && self.is_literal() {
            return 0;
        }
        let _ = self.promote();
        proof {
            self.lemma_wf();
        }
        match &self.pool {
            Pool::Counters(b) => if b.is_effectively_empty() {
                0
            } else {
                b.scale().scale()
            },
            Pool::Literals { .. } => 0,
        }
    }

    /// Returns the number of buckets in use.
    pub fn bucket_len(&mut self) -> (r: u32)
        requires
            old(self).wf(),
        ensures
            final(self).wf(),
            same_contents(*old(self), *final(self)),
            r == old(self).layout().live().len(),
    {
        let _ = self.promote();
        proof {
            self.lemma_wf();
        }
        match &self.pool {
            Pool::Counters(b) => b.bucket_range_len(),
            Pool::Literals { .. } => 0,
        }
    }

    /// Returns the bucket offset (smallest index).
    pub fn bucket_offset(&mut self) -> (r: i32)
        requires
            old(self).wf(),
        ensures
            final(self).wf(),
            same_contents(*old(self), *final(self)),
            r == old(self).layout().low,
    {
        let _ = self.promote();
        match &self.pool {
            Pool::Counters(b) => b.start(),
            Pool::Literals { .. } => 0,
        }
    }

    /// Returns the count at position `pos`, counted from the offset.
    pub fn bucket_at(&mut self, pos: u32) -> (r: u64)
        requires
            old(self).wf(),
            pos < old(self).layout().live().len(),
        ensures
            final(self).wf(),
            same_contents(*old(self), *final(self)),
            r == (old(self).layout().counts)(old(self).layout().low + pos),
    {
        proof {
            self.lemma_wf();
            self.layout().lemma_counts(N as int);
        }
        let _ = self.promote();
        match &self.pool {
            Pool::Counters(b) => b.get(b.start() + pos as i32),
            Pool::Literals { .. } => 0,
        }
    }

    /// Lowers the scale of the buckets by at least `change` steps.
    ///
    /// Returns an error if the scale runs out; the histogram is then unchanged.
    pub fn do_downscale(&mut self, change: i32) -> (r: Result<(), Overflow>)
        requires
            old(self).wf(),
            !old(self).literal(),
        ensures
            final(self).wf(),
            r.is_ok() <==> !old(self).counters().lower_runs_out(N as int, change as int),
            r.is_err() ==> *final(self) == *old(self),
            final(self).same_settings(*old(self)),
            final(self).stats_of() == old(self).stats_of(),
            !final(self).literal(),
            r.is_ok() ==> final(self).counters() == old(self).counters().lowered(
                N as int,
                change as int,
            ),
    {
        let ghost before = *self;
        if change <= 0 {
            return Ok(());
        }
        match self.pool {
            Pool::Literals { .. } => {},
            Pool::Counters(old_buckets) => {
                let mut b: Buckets<N> = old_buckets;
                proof {
                    before.lemma_wf();
                    let p = before.counters();
                    p.lemma_lowered(N as int, change as int);
                    p.lemma_counts(N as int);
                    crate::downscale::lemma_coarsen_inside(
                        p.counts,
                        (p.scale - p.lowered(N as int, change as int).scale) as nat,
                        top(),
                    );
                }
                if !b.do_downscale(change as u32) {
                    return Err(Overflow);
                }
                self.pool = Pool::Counters(b);
            },
        }
        Ok(())
    }

    /// Widens the counters by `steps` steps, each of which merges pairs of buckets. Returns the
    /// number of steps by which the scale dropped, or `None` when the counters would exceed 64
    /// bits; the histogram is then unchanged.
    pub fn bucket_widen(&mut self, steps: i32) -> (r: Option<i32>)
        requires
            old(self).wf(),
            !old(self).literal(),
        ensures
            final(self).wf(),
            final(self).same_settings(*old(self)),
            final(self).stats_of() == old(self).stats_of(),
            !final(self).literal(),
            r.is_some() <==> old(self).counters().widened_by(N as int, steps as int).is_some(),
            r.is_some() ==> Some(final(self).counters()) == old(self).counters().widened_by(
                N as int,
                steps as int,
            ) && r.unwrap() == old(self).counters().scale - final(self).counters().scale,
            r.is_none() ==> *final(self) == *old(self),
    {
        match self.pool {
            Pool::Literals { .. } => None,
            Pool::Counters(old_buckets) => {
                let mut b: Buckets<N> = old_buckets;
                let r = b.bucket_widen(steps);
                self.pool = Pool::Counters(b);
                r
            },
        }
    }

    /// Bucket of the first counter, 0 while the histogram holds raw values.
    pub fn index_base(&self) -> (r: i32)
        ensures
            r == self.counters().base,
    {
        match &self.pool {
            Pool::Literals { .. } => 0,
            Pool::Counters(b) => b.base(),
        }
    }

    /// Number of words available for bucket data.
    pub fn bucket_word_count(&self) -> (r: usize)
        ensures
            r == N,
    {
        N
    }

    /// Returns a read-only view of the positive buckets.
    pub fn positive(&mut self) -> (r: BucketView<'_, N>)
        requires
            old(self).wf(),
        ensures
            final(self).wf(),
            same_contents(*old(self), *final(self)),
            r.of() == *final(self),
    {
        let _ = self.promote();
        BucketView { hist: self }
    }
}

impl<const N: usize> BucketView<'_, N> {
    /// The histogram behind the view.
    pub closed spec fn of(self) -> Histogram<N> {
        *self.hist
    }

    /// The view is of a valid histogram that has been promoted.
    pub open spec fn wf(self) -> bool {
        self.of().wf() && !self.of().literal()
    }

    /// Returns the offset (smallest index).
    pub fn offset(&self) -> (r: i32)
        requires
            self.wf(),
        ensures
            r == self.of().counters().low,
    {
        match &self.hist.pool {
            Pool::Counters(b) => b.start(),
            Pool::Literals { .. } => 0,
        }
    }

    /// Number of logical buckets in use.
    pub fn len(&self) -> (r: u32)
        requires
            self.wf(),
        ensures
            r == self.of().counters().live().len(),
            r <= 0x7c00_0000,
    {
        proof {
            self.hist.lemma_wf();
            self.hist.counters().lemma_counts(N as int);
        }
        match &self.hist.pool {
            Pool::Counters(b) => b.bucket_range_len(),
            Pool::Literals { .. } => 0,
        }
    }

    /// Returns the current counter width.
    pub fn width(&self) -> (r: BucketWidth)
        requires
            self.wf(),
        ensures
            r !is B0,
            r.counter().level() == self.of().counters().level,
    {
        self.hist.bucket_width()
    }

    /// Returns true if no buckets are in use.
    pub fn is_empty(&self) -> (r: bool)
        requires
            self.wf(),
        ensures
            r <==> self.of().counters().vacant(),
    {
        proof {
            self.hist.lemma_wf();
        }
        self.len() == 0
    }

    /// Number of logical buckets available at the current width.
    pub fn capacity(&self) -> (r: usize)
        requires
            self.wf(),
        ensures
            r == slots(N as int, self.of().counters().level),
    {
        self.hist.bucket_capacity()
    }

    /// Returns the count at position `pos`, counted from the offset.
    pub fn at(&self, pos: u32) -> (r: u64)
        requires
            self.wf(),
            pos < self.of().counters().live().len(),
        ensures
            r == (self.of().counters().counts)(self.of().counters().low + pos),
    {
        proof {
            self.hist.lemma_wf();
            self.hist.counters().lemma_counts(N as int);
        }
        match &self.hist.pool {
            Pool::Counters(b) => b.get(b.start() + pos as i32),
            Pool::Literals { .. } => 0,
        }
    }

    /// Returns a cursor over the bucket counts.
    pub fn iter(&self) -> (r: BucketsIter<'_, N>)
        requires
            self.wf(),
        ensures
            r.wf(),
            r.of() == self.of(),
            r.position() == 0,
            r.left() == self.of().counters().live().len(),
    {
        BucketsIter { hist: self.hist, pos: 0, len: self.len() }
    }
}

impl<const N: usize> BucketsIter<'_, N> {
    /// The histogram behind the cursor.
    pub closed spec fn of(self) -> Histogram<N> {
        *self.hist
    }

    /// Position of the next bucket, counted from the offset.
    pub closed spec fn position(self) -> int {
        self.pos as int
    }

    /// Number of buckets that are left.
    pub closed spec fn left(self) -> nat {
        (self.len - self.pos) as nat
    }

    /// The cursor is valid.
    pub closed spec fn wf(self) -> bool {
        &&& self.of().wf()
        &&& !self.of().literal()
        &&& self.pos <= self.len
        &&& self.len == self.of().counters().live().len()
    }

    /// Returns the next count, or `None` at the end.
    pub fn next(&mut self) -> (r: Option<u64>)
        requires
            old(self).wf(),
        ensures
            final(self).wf(),
            final(self).of() == old(self).of(),
            r.is_none() <==> old(self).left() == 0,
            r.is_none() ==> *final(self) == *old(self),
            r.is_some() ==> {
                &&& r.unwrap() == (old(self).of().counters().counts)(
                    old(self).of().counters().low + old(self).position(),
                )
                &&& final(self).position() == old(self).position() + 1
                &&& final(self).left() == old(self).left() - 1
            },
    {
        if self.pos >= self.len {
            return None;
        }
        let view = BucketView { hist: self.hist };
        let count = view.at(self.pos);
        self.pos = self.pos + 1;
        Some(count)
    }

    /// Number of counts that are left.
    pub fn len(&self) -> (r: usize)
        requires
            self.wf(),
        ensures
            r == self.left(),
    {
        (self.len - self.pos) as usize
    }
}

impl<const N: usize> Default for Histogram<N> {
    fn default() -> (r: Self)
        ensures
            2 <= N <= MAX_WORDS ==> r.wf() && r.literal() && r.starts_literal() && r.literals().len() == 0
                && r.limit() == TABLE_SCALE && r.min_level() == 0 && r.stats_of() == no_stats(),
    {
        let r = Histogram {
            limit_scale: Scale::finest(),
            min_bucket_width: BucketWidth::B1,
            literal_enabled: true,
            stats: Stats { count: 0, sum: 0, min: 0, max: 0 },
            pool: Pool::Literals { values: [0u64;N], count: 0 },
        };
        assert(r.literals().len() == 0);
        r
    }
}

} // verus!
