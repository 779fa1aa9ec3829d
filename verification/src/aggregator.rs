//! Runtime-configurable exponential histogram with three resolution levels and automatic counter
//! widening.
//!
//! An [`ExpoHistogram`] has a fixed number of buckets, chosen when it is created. Counters start
//! at 16 bits and widen to 32 and 64 bits when a bucket would overflow; widening leaves the scale
//! alone.

use crate::arith::{
    lemma_div_bracket, lemma_div_mono, lemma_div_parts, lemma_div_unique, lemma_mod_injective, shr,
};
use crate::counts::{
    bottom, both, coarsen, lemma_coarsen_plus, lemma_coarsen_within, lemma_coarsen_zero,
    lemma_total_both, lemma_total_le, lemma_total_member, lemma_total_plus, lemma_total_zero,
    no_counts, plus, top, total, within, Counts,
};
use crate::downscale::lemma_coarsen_bounded;
use crate::flat::acceptable;
use crate::float64::{greatest, is_zero, least, max_of, min_of, zero};
use crate::layout::{
    lemma_change_exists, lemma_change_unique, lemma_side, lemma_side_div, side, steps_to_fit,
};
use crate::lookup::TABLE_SCALE;
use crate::mapping::{index_of, Scale, MIN_SCALE};
use crate::replay::{countable, finest_bucket, key_of, lemma_key_of};
use crate::settle::{is_change, HighLow};
use crate::width::ring_index;
use crate::window::reach;
use crate::window_ops::at_most;
use vstd::arithmetic::power2::{lemma_pow2_pos, pow2};
use vstd::prelude::*;

verus! {

/// Number of buckets for the [`Resolution::Small`] variant.
pub const SMALL_SIZE: usize = 16;

/// Number of buckets for the [`Resolution::Large`] variant.
pub const LARGE_SIZE: usize = 160;

/// Minimum statistics without bucket resolution (min, max, sum, count).
#[derive(Debug, Clone, Copy, PartialEq, Eq, Structural)]
pub struct MMSC {
    sum: u64,
    count: u64,
    zero_count: u64,
    min: u64,
    max: u64,
}

impl MMSC {
    /// The sum, as the contracts see it.
    pub closed spec fn sum_of(self) -> u64 {
        self.sum
    }

    /// The count, as the contracts see it.
    pub closed spec fn count_of(self) -> u64 {
        self.count
    }

    /// The count of zeros, as the contracts see it.
    pub closed spec fn zeros_of(self) -> u64 {
        self.zero_count
    }

    /// The minimum, as the contracts see it.
    pub closed spec fn min_of(self) -> u64 {
        self.min
    }

    /// The maximum, as the contracts see it.
    pub closed spec fn max_of(self) -> u64 {
        self.max
    }

    /// Zeros are among the observations.
    pub open spec fn wf(self) -> bool {
        self.zeros_of() <= self.count_of()
    }

    /// No observation.
    pub open spec fn is_new(self) -> bool {
        &&& self.sum_of() == 0
        &&& self.count_of() == 0
        &&& self.zeros_of() == 0
        &&& self.min_of() == 0
        &&& self.max_of() == 0
    }

    /// These statistics after `incr` observations of `bits`; `sum` is the new sum of all values.
    pub open spec fn observed(self, after: Self, bits: u64, incr: u64, sum: u64) -> bool {
        &&& after.count_of() == self.count_of() + incr
        &&& after.min_of() == if self.count_of() == 0 {
            bits
        } else {
            least(self.min_of(), bits)
        }
        &&& after.max_of() == if self.count_of() == 0 {
            bits
        } else {
            greatest(self.max_of(), bits)
        }
        &&& after.zeros_of() == self.zeros_of() + if zero(bits) {
            incr as int
        } else {
            0
        }
        &&& after.sum_of() == if zero(bits) {
            self.sum_of()
        } else {
            sum
        }
    }

    /// These statistics combined with others; `sum` is the sum of all values of both.
    pub open spec fn combined(self, after: Self, other: Self, sum: u64) -> bool {
        if other.count_of() == 0 {
            after == self
        } else {
            &&& after.count_of() == self.count_of() + other.count_of()
            &&& after.zeros_of() == self.zeros_of() + other.zeros_of()
            &&& after.min_of() == if self.count_of() == 0 {
                other.min_of()
            } else {
                least(self.min_of(), other.min_of())
            }
            &&& after.max_of() == if self.count_of() == 0 {
                other.max_of()
            } else {
                greatest(self.max_of(), other.max_of())
            }
            &&& after.sum_of() == sum
        }
    }

    /// Creates an empty MMSC.
    pub fn new() -> (r: Self)
        ensures
            r.is_new(),
            r.wf(),
    {
        MMSC { sum: 0, count: 0, zero_count: 0, min: 0, max: 0 }
    }

    /// Returns the sum of all recorded values.
    pub fn sum(&self) -> (r: u64)
        ensures
            r == self.sum_of(),
    {
        self.sum
    }

    /// Returns the count of all recorded values.
    pub fn count(&self) -> (r: u64)
        ensures
            r == self.count_of(),
    {
        self.count
    }

    /// Returns the count of zero values.
    pub fn zero_count(&self) -> (r: u64)
        ensures
            r == self.zeros_of(),
    {
        self.zero_count
    }

    /// Returns the minimum recorded value, or 0 if empty.
    pub fn min(&self) -> (r: u64)
        ensures
            r == self.min_of(),
    {
        self.min
    }

    /// Returns the maximum recorded value, or 0 if empty.
    pub fn max(&self) -> (r: u64)
        ensures
            r == self.max_of(),
    {
        self.max
    }

    /// Records a value with a specified increment. The argument `sum` is the new sum of all
    /// values.
    ///
    /// Returns `false`, and changes nothing, if the count would overflow.
    pub fn update_by_incr(&mut self, bits: u64, incr: u64, sum: u64) -> (r: bool)
        requires
            old(self).wf(),
            acceptable(bits),
        ensures
            final(self).wf(),
            r <==> old(self).count_of() + incr <= u64::MAX,
            r ==> old(self).observed(*final(self), bits, incr, sum),
            !r ==> *final(self) == *old(self),
    {
        if incr > u64::MAX - self.count {
            return false;
        }
        if self.count == 0 {
            self.min = bits;
            self.max = bits;
        } else {
            self.min = min_of(self.min, bits);
            self.max = max_of(self.max, bits);
        }
        self.count = self.count + incr;
        if is_zero(bits) {
            self.zero_count = self.zero_count + incr;
        } else {
            self.sum = sum;
        }
        true
    }

    /// Clears all statistics.
    pub fn clear(&mut self)
        ensures
            final(self).is_new(),
            final(self).wf(),
    {
        *self = Self::new();
    }

    /// Merges the statistics of another source. Returns `false`, and changes nothing, if the
    /// count would overflow.
    pub fn merge_stats(&mut self, other: &MMSC, sum: u64) -> (r: bool)
        requires
            old(self).wf(),
            other.wf(),
        ensures
            final(self).wf(),
            r <==> old(self).count_of() + other.count_of() <= u64::MAX,
            r ==> old(self).combined(*final(self), *other, sum),
            !r ==> *final(self) == *old(self),
    {
        if other.count == 0 {
            return true;
        }
        if other.count > u64::MAX - self.count {
            return false;
        }
        if self.count == 0 {
            self.min = other.min;
            self.max = other.max;
        } else {
            self.min = min_of(self.min, other.min);
            self.max = max_of(self.max, other.max);
        }
        self.count = self.count + other.count;
        self.zero_count = self.zero_count + other.zero_count;
        self.sum = sum;
        true
    }
}

impl Default for MMSC {
    fn default() -> (r: Self)
        ensures
            r.is_new(),
            r.wf(),
    {
        Self::new()
    }
}

/// Desired bucket resolution for an [`ExpoHistogram`].
#[derive(Debug, Clone, Copy, PartialEq, Eq, Structural)]
pub enum Resolution {
    /// No buckets: only min, max, sum, count, zero_count.
    Empty,
    /// 16 buckets.
    Small,
    /// 160 buckets.
    Large,
}

/// The current counter width of a bucketed variant.
#[derive(Debug, Clone, Copy, PartialEq, Eq, Structural)]
pub enum CounterWidth {
    /// 16-bit counters (max 65,535 per bucket).
    U16,
    /// 32-bit counters (max 4,294,967,295 per bucket).
    U32,
    /// 64-bit counters.
    U64,
}

impl CounterWidth {
    /// Largest count of one counter.
    pub open spec fn max_count(self) -> nat {
        match self {
            CounterWidth::U16 => 0xffff,
            CounterWidth::U32 => 0xffff_ffff,
            CounterWidth::U64 => 0xffff_ffff_ffff_ffff,
        }
    }

    /// The narrowest width, from this one up, whose counters hold `f`.
    pub open spec fn holding(self, f: Counts) -> CounterWidth {
        if self is U16 && at_most(f, CounterWidth::U16.max_count()) {
            CounterWidth::U16
        } else if !(self is U64) && at_most(f, CounterWidth::U32.max_count()) {
            CounterWidth::U32
        } else {
            CounterWidth::U64
        }
    }

    /// The narrowest width, from this one up, whose counters hold `value`.
    fn at_least(self, value: u64) -> (r: CounterWidth)
        ensures
            r == if self is U16 && value <= CounterWidth::U16.max_count() {
                CounterWidth::U16
            } else if !(self is U64) && value <= CounterWidth::U32.max_count() {
                CounterWidth::U32
            } else {
                CounterWidth::U64
            },
            value <= r.max_count(),
            self.max_count() <= r.max_count(),
    {
        match self {
            CounterWidth::U16 => if value <= 0xffff {
                CounterWidth::U16
            } else if value <= 0xffff_ffff {
                CounterWidth::U32
            } else {
                CounterWidth::U64
            },
            CounterWidth::U32 => if value <= 0xffff_ffff {
                CounterWidth::U32
            } else {
                CounterWidth::U64
            },
            CounterWidth::U64 => CounterWidth::U64,
        }
    }
}

/// Counters of one of three widths.
#[derive(Debug, Clone, Copy)]
enum Cells<const SIZE: usize> {
    /// 16-bit counters.
    U16([u16; SIZE]),
    /// 32-bit counters.
    U32([u32; SIZE]),
    /// 64-bit counters.
    U64([u64; SIZE]),
}

impl<const SIZE: usize> Cells<SIZE> {
    spec fn width_of(self) -> CounterWidth {
        match self {
            Cells::U16(_) => CounterWidth::U16,
            Cells::U32(_) => CounterWidth::U32,
            Cells::U64(_) => CounterWidth::U64,
        }
    }

    spec fn cell(self, slot: int) -> nat {
        match self {
            Cells::U16(c) => c@[slot] as nat,
            Cells::U32(c) => c@[slot] as nat,
            Cells::U64(c) => c@[slot] as nat,
        }
    }

    fn zeros(width: CounterWidth) -> (r: Self)
        ensures
            r.width_of() == width,
            forall|s: int| 0 <= s < SIZE ==> #[trigger] r.cell(s) == 0,
    {
        match width {
            CounterWidth::U16 => Cells::U16([0u16;SIZE]),
            CounterWidth::U32 => Cells::U32([0u32;SIZE]),
            CounterWidth::U64 => Cells::U64([0u64;SIZE]),
        }
    }

    fn width(&self) -> (r: CounterWidth)
        ensures
            r == self.width_of(),
    {
        match self {
            Cells::U16(_) => CounterWidth::U16,
            Cells::U32(_) => CounterWidth::U32,
            Cells::U64(_) => CounterWidth::U64,
        }
    }

    fn get(&self, slot: usize) -> (r: u64)
        requires
            slot < SIZE,
        ensures
            r == self.cell(slot as int),
            r <= self.width_of().max_count(),
    {
        match self {
            Cells::U16(c) => c[slot] as u64,
            Cells::U32(c) => c[slot] as u64,
            Cells::U64(c) => c[slot],
        }
    }

    fn set(&mut self, slot: usize, value: u64)
        requires
            slot < SIZE,
            value <= old(self).width_of().max_count(),
        ensures
            final(self).width_of() == old(self).width_of(),
            forall|s: int|
                0 <= s < SIZE ==> #[trigger] final(self).cell(s) == if s == slot {
                    value as nat
                } else {
                    old(self).cell(s)
                },
    {
        match *self {
            Cells::U16(old_cells) => {
                let mut c: [u16; SIZE] = old_cells;
                c[slot] = value as u16;
                *self = Cells::U16(c);
            },
            Cells::U32(old_cells) => {
                let mut c: [u32; SIZE] = old_cells;
                c[slot] = value as u32;
                *self = Cells::U32(c);
            },
            Cells::U64(old_cells) => {
                let mut c: [u64; SIZE] = old_cells;
                c[slot] = value;
                *self = Cells::U64(c);
            },
        }
    }
}

/// A fixed number of buckets, of which the live range `low..=high` is in use.
#[verifier::ext_equal]
pub struct Range {
    /// Scale of the buckets.
    pub scale: int,
    /// Lowest live bucket.
    pub low: int,
    /// Highest live bucket; below `low` when no bucket is live.
    pub high: int,
    /// The count of each bucket.
    pub counts: Counts,
}

impl Range {
    /// No bucket is live.
    pub open spec fn vacant(self) -> bool {
        self.low > self.high
    }

    /// The live buckets fit and start and end with a count.
    pub open spec fn valid(self, size: int) -> bool {
        &&& MIN_SCALE <= self.scale <= TABLE_SCALE
        &&& within(self.counts, self.low, self.high + 1)
        &&& total(self.counts, bottom(), top()) <= u64::MAX
        &&& self.high - self.low < size
        &&& !self.vacant() ==> {
            &&& -side(self.scale) <= self.low
            &&& self.high < side(self.scale)
            &&& (self.counts)(self.low) != 0
            &&& (self.counts)(self.high) != 0
        }
    }

    /// Lowest live bucket at the lower scale `m`, together with bucket `i` of that scale.
    pub open spec fn low_with(self, m: int, i: int) -> int {
        let own = self.low / pow2((self.scale - m) as nat) as int;
        if self.vacant() || i <= own {
            i
        } else {
            own
        }
    }

    /// Highest live bucket, likewise.
    pub open spec fn high_with(self, m: int, i: int) -> int {
        let own = self.high / pow2((self.scale - m) as nat) as int;
        if self.vacant() || i >= own {
            i
        } else {
            own
        }
    }

    /// The range after `incr` observations of bucket `i`: the scale drops by as little as makes
    /// all live buckets fit.
    pub open spec fn recorded(self, size: int, i: int, incr: nat) -> Range {
        let low = self.low_with(self.scale, i);
        let high = self.high_with(self.scale, i);
        let c = steps_to_fit(low, high, size);
        let p = pow2(c) as int;
        Range {
            scale: self.scale - c,
            low: low / p,
            high: high / p,
            counts: plus(coarsen(self.counts, c), i / p, incr),
        }
    }

    /// The range merged with another: at the lower of the two scales, or as far below as makes
    /// all live buckets fit.
    pub open spec fn merged(self, size: int, other: Range) -> Range {
        if other.vacant() {
            self
        } else {
            let m = if self.scale <= other.scale {
                self.scale
            } else {
                other.scale
            };
            let p = pow2((other.scale - m) as nat) as int;
            let low = self.low_with(m, other.low / p);
            let high = self.high_with(m, other.high / p);
            let c = steps_to_fit(low, high, size);
            let q = pow2(c) as int;
            Range {
                scale: m - c,
                low: low / q,
                high: high / q,
                counts: both(
                    coarsen(self.counts, (self.scale - (m - c)) as nat),
                    coarsen(other.counts, (other.scale - (m - c)) as nat),
                ),
            }
        }
    }
}

/// A range of indices fits at a supported scale.
pub proof fn lemma_fit(low: int, high: int, size: int, scale: int)
    requires
        MIN_SCALE <= scale <= TABLE_SCALE,
        -side(scale) <= low <= high < side(scale),
        size >= 2,
    ensures
        is_change(low, high, size, steps_to_fit(low, high, size)),
        steps_to_fit(low, high, size) <= scale - MIN_SCALE,
        -side(scale - steps_to_fit(low, high, size)) <= low / pow2(
            steps_to_fit(low, high, size),
        ) as int,
        high / (pow2(steps_to_fit(low, high, size)) as int) < side(
            scale - steps_to_fit(low, high, size),
        ),
        low / pow2(steps_to_fit(low, high, size)) as int <= high / pow2(
            steps_to_fit(low, high, size),
        ) as int,
        -0x4_0000 <= low,
        high < 0x4_0000,
{
    lemma_side(scale);
    let w = lemma_change_exists(low, high, size);
    let c = steps_to_fit(low, high, size);
    let room = (scale - MIN_SCALE) as nat;
    if c > room {
        lemma_side_div(low, scale, room);
        lemma_side_div(high, scale, room);
        assert(scale - room == MIN_SCALE);
        lemma_side(MIN_SCALE as int);
        assert((high / pow2(room) as int) - (low / pow2(room) as int) >= size);
    }
    lemma_side_div(low, scale, c);
    lemma_side_div(high, scale, c);
    lemma_pow2_pos(c);
    lemma_div_mono(low, high, pow2(c) as int);
}

impl Range {
    /// The counts of a valid range lie well inside the range of bucket indices.
    pub proof fn lemma_bounds(self, size: int)
        requires
            self.valid(size),
        ensures
            within(self.counts, -reach(), reach()),
            !self.vacant() ==> -0x4_0000 <= self.low <= self.high < 0x4_0000,
            self.vacant() ==> self.counts == no_counts(),
    {
        lemma_side(self.scale);
        if self.vacant() {
            assert(self.counts =~= no_counts()) by {
                assert forall|i: int| #[trigger] (self.counts)(i) == no_counts()(i) by {}
            }
        }
    }

    /// The counts at a lower scale.
    pub proof fn lemma_lower(self, size: int, d: nat)
        requires
            self.valid(size),
            d <= self.scale - MIN_SCALE,
        ensures
            total(coarsen(self.counts, d), bottom(), top()) == total(self.counts, bottom(), top()),
            at_most(coarsen(self.counts, d), total(self.counts, bottom(), top())),
            within(coarsen(self.counts, d), -reach(), reach()),
            self.vacant() ==> coarsen(self.counts, d) == no_counts(),
            !self.vacant() ==> {
                let p = pow2(d) as int;
                &&& within(coarsen(self.counts, d), self.low / p, self.high / p + 1)
                &&& -side(self.scale - d) <= self.low / p <= self.high / p
                &&& self.high / p < side(self.scale - d)
                &&& coarsen(self.counts, d)(self.low / p) != 0
                &&& coarsen(self.counts, d)(self.high / p) != 0
            },
    {
        self.lemma_bounds(size);
        lemma_coarsen_bounded(self.counts, d);
        lemma_pow2_pos(d);
        if self.vacant() {
            assert(coarsen(self.counts, d) =~= no_counts()) by {
                assert forall|i: int| #[trigger] coarsen(self.counts, d)(i) == no_counts()(i) by {
                    lemma_total_zero(self.counts, i * pow2(d), (i + 1) * pow2(d));
                }
            }
        } else {
            lemma_coarsen_within(self.counts, d, self.low, self.high + 1);
            lemma_side(self.scale);
            lemma_side_div(self.low, self.scale, d);
            lemma_side_div(self.high, self.scale, d);
            lemma_div_mono(self.low, self.high, pow2(d) as int);
            crate::counts::lemma_coarsen_member(self.counts, d, self.low);
            crate::counts::lemma_coarsen_member(self.counts, d, self.high);
        }
    }

    /// Recording keeps the range valid and adds to the total.
    pub proof fn lemma_recorded(self, size: int, i: int, incr: nat)
        requires
            self.valid(size),
            size >= 2,
            incr > 0,
            -side(self.scale) <= i < side(self.scale),
            total(self.counts, bottom(), top()) + incr <= u64::MAX,
        ensures
            self.recorded(size, i, incr).valid(size),
            self.recorded(size, i, incr).scale <= self.scale,
            total(self.recorded(size, i, incr).counts, bottom(), top()) == total(
                self.counts,
                bottom(),
                top(),
            ) + incr,
            !self.recorded(size, i, incr).vacant(),
    {
        let low = self.low_with(self.scale, i);
        let high = self.high_with(self.scale, i);
        vstd::arithmetic::power2::lemma2_to64();
        assert(pow2(0) == 1);
        assert(self.low / 1 == self.low && self.high / 1 == self.high);
        lemma_fit(low, high, size, self.scale);
        let c = steps_to_fit(low, high, size);
        let p = pow2(c) as int;
        lemma_pow2_pos(c);
        self.lemma_bounds(size);
        self.lemma_lower(size, c);
        lemma_div_mono(low, i, p);
        lemma_div_mono(i, high, p);
        lemma_side(self.scale);
        lemma_side(self.scale - c);
        lemma_total_plus(coarsen(self.counts, c), i / p, incr, bottom(), top());
        let r = self.recorded(size, i, incr);
        let g = coarsen(self.counts, c);
        if !self.vacant() {
            lemma_div_mono(low, self.low, p);
            lemma_div_mono(self.high, high, p);
        }
        assert forall|j: int| #[trigger] (r.counts)(j) != 0 implies r.low <= j < r.high + 1 by {
            if j != i / p {
                assert(g(j) != 0);
            }
        }
    }

    /// Merging keeps the range valid and adds the totals.
    pub proof fn lemma_merged(self, size: int, other: Range, other_size: int)
        requires
            self.valid(size),
            other.valid(other_size),
            size >= 2,
            total(self.counts, bottom(), top()) + total(other.counts, bottom(), top()) <= u64::MAX,
        ensures
            self.merged(size, other).valid(size),
            self.merged(size, other).scale <= self.scale,
            total(self.merged(size, other).counts, bottom(), top()) == total(
                self.counts,
                bottom(),
                top(),
            ) + total(other.counts, bottom(), top()),
    {
        self.lemma_bounds(size);
        other.lemma_bounds(other_size);
        if other.vacant() {
            lemma_total_zero(no_counts(), bottom(), top());
        } else {
            let m = if self.scale <= other.scale {
                self.scale
            } else {
                other.scale
            };
            let d = (self.scale - m) as nat;
            let e = (other.scale - m) as nat;
            let p = pow2(e) as int;
            self.lemma_lower(size, d);
            other.lemma_lower(other_size, e);
            assert(self.scale - d == m && other.scale - e == m);
            let low = self.low_with(m, other.low / p);
            let high = self.high_with(m, other.high / p);
            lemma_fit(low, high, size, m);
            let c = steps_to_fit(low, high, size);
            let q = pow2(c) as int;
            lemma_pow2_pos(c);
            let t = m - c;
            lemma_side(t);
            self.lemma_lower(size, (self.scale - t) as nat);
            other.lemma_lower(other_size, (other.scale - t) as nat);
            crate::arith::lemma_shift_twice(other.low, e, c);
            crate::arith::lemma_shift_twice(other.high, e, c);
            assert(e + c == (other.scale - t) as nat);
            lemma_div_mono(low, other.low / p, q);
            lemma_div_mono(other.high / p, high, q);
            let f = coarsen(self.counts, (self.scale - t) as nat);
            let g = coarsen(other.counts, (other.scale - t) as nat);
            lemma_total_both(f, g, bottom(), top());
            if !self.vacant() {
                crate::arith::lemma_shift_twice(self.low, d, c);
                crate::arith::lemma_shift_twice(self.high, d, c);
                assert(d + c == (self.scale - t) as nat);
                lemma_div_mono(low, self.low / pow2(d) as int, q);
                lemma_div_mono(self.high / pow2(d) as int, high, q);
            }
            let r = self.merged(size, other);
            assert forall|j: int| #[trigger] (r.counts)(j) != 0 implies r.low <= j < r.high + 1 by {
                assert(f(j) != 0 || g(j) != 0);
            }
        }
    }
}

/// A histogram of `SIZE` buckets.
#[derive(Debug, Clone, Copy)]
pub struct Bucketed<const SIZE: usize> {
    scale: Scale,
    limit: Scale,
    start: i32,
    end: i32,
    cells: Cells<SIZE>,
    stats: MMSC,
}

/// The counts below an index.
spec fn below(h: Counts, index: int) -> Counts {
    |i: int|
        if i < index {
            h(i)
        } else {
            0
        }
}

impl<const SIZE: usize> Bucketed<SIZE> {
    /// The counter at the ring position of bucket `i`.
    spec fn at(self, i: int) -> nat {
        self.cells.cell(i % (SIZE as int))
    }

    spec fn counts(self) -> Counts {
        |i: int|
            if self.start <= i <= self.end {
                self.at(i)
            } else {
                0
            }
    }

    /// The live buckets.
    pub closed spec fn range(self) -> Range {
        Range {
            scale: self.scale.value(),
            low: self.start as int,
            high: self.end as int,
            counts: self.counts(),
        }
    }

    /// Width of the counters.
    pub closed spec fn width_of(self) -> CounterWidth {
        self.cells.width_of()
    }

    /// The scale that the histogram starts with.
    pub closed spec fn limit_of(self) -> int {
        self.limit.value()
    }

    /// Aggregate statistics.
    pub closed spec fn stats_of(self) -> MMSC {
        self.stats
    }

    /// The counters outside the live range are zero.
    spec fn packed(self) -> bool {
        &&& 2 <= SIZE <= 1000
        &&& self.end - self.start < SIZE
        &&& self.end >= self.start - 1
        &&& forall|i: int|
            #![trigger self.at(i)]
            self.end - SIZE < i < self.start + SIZE && !(self.start <= i <= self.end) ==> self.at(i)
                == 0
    }

    /// The histogram is valid.
    pub closed spec fn wf(self) -> bool {
        &&& self.packed()
        &&& -0x4_0000 <= self.start <= 0x4_0000
        &&& self.range().valid(SIZE as int)
        &&& self.limit.wf()
        &&& self.scale.value() <= self.limit.value()
        &&& self.stats.wf()
        &&& total(self.counts(), bottom(), top()) + self.stats.zero_count <= self.stats.count
    }

    /// What validity means to a caller.
    pub proof fn lemma_wf(self)
        requires
            self.wf(),
        ensures
            2 <= SIZE <= 1000,
            self.range().valid(SIZE as int),
            self.stats_of().wf(),
            total(self.range().counts, bottom(), top()) + self.stats_of().zeros_of()
                <= self.stats_of().count_of(),
            MIN_SCALE <= self.limit_of() <= TABLE_SCALE,
    {
    }

    fn with_scale(scale: Scale) -> (r: Self)
        requires
            2 <= SIZE <= 1000,
            scale.wf(),
        ensures
            r.wf(),
            r.range().vacant(),
            r.range().low == 0,
            r.range().high == -1,
            r.range().scale == scale.value(),
            r.limit_of() == scale.value(),
            r.width_of() == CounterWidth::U16,
            r.stats_of().is_new(),
    {
        let r = Bucketed {
            scale,
            limit: scale,
            start: 0,
            end: -1,
            cells: Cells::zeros(CounterWidth::U16),
            stats: MMSC::new(),
        };
        proof {
            assert forall|i: int| #[trigger] r.at(i) == 0 by {
                assert(0 <= i % (SIZE as int) < SIZE);
            }
            assert(r.counts() =~= no_counts());
            lemma_total_zero(no_counts(), bottom(), top());
        }
        r
    }

    /// The count of a bucket, 0 outside the live range.
    fn get(&self, index: i32) -> (r: u64)
        requires
            self.wf(),
        ensures
            r == (self.range().counts)(index as int),
    {
        if index < self.start || index > self.end {
            return 0;
        }
        self.cells.get(ring_index(index, SIZE, 0))
    }

    /// Adds the counts, with groups of `2^by` buckets merged, to `out`, whose first element
    /// stands for bucket `low`.
    fn add_into(&self, by: u32, low: i32, out: &mut Vec<u64>)
        requires
            self.wf(),
            by <= self.range().scale - MIN_SCALE,
            -0x4_0000 <= low < 0x4_0000,
            !self.range().vacant() ==> low <= self.range().low / pow2(by as nat) as int
                && self.range().high / (pow2(by as nat) as int) < low + old(out)@.len(),
            forall|j: int|
                0 <= j < old(out)@.len() ==> #[trigger] old(out)@[j] + coarsen(
                    self.range().counts,
                    by as nat,
                )(low + j) <= u64::MAX,
        ensures
            final(out)@.len() == old(out)@.len(),
            forall|j: int|
                0 <= j < final(out)@.len() ==> #[trigger] final(out)@[j] == old(out)@[j] + coarsen(
                    self.range().counts,
                    by as nat,
                )(low + j),
    {
        let ghost d = by as nat;
        let ghost p = pow2(d) as int;
        let ghost h = self.counts();
        let ghost first = out@;
        proof {
            lemma_pow2_pos(d);
            self.range().lemma_bounds(SIZE as int);
            lemma_side(self.range().scale);
        }
        let mut index: i32 = self.start;
        let ghost part = below(h, index as int);
        proof {
            assert forall|j: int| 0 <= j < out@.len() implies #[trigger] out@[j] == first[j] + coarsen(
                part,
                d,
            )(low + j) by {
                assert forall|t: int| (low + j) * p <= t < (low + j + 1) * p implies #[trigger] part(t)
                    == 0 by {}
                lemma_total_zero(part, (low + j) * p, (low + j + 1) * p);
            }
        }
        while index <= self.end
            invariant
                self.wf(),
                d == by,
                p == pow2(d),
                p >= 1,
                by <= 18,
                h == self.range().counts,
                part == below(h, index as int),
                -0x4_0000 <= low < 0x4_0000,
                -0x4_0000 <= self.start <= index <= self.end + 1 <= 0x4_0000,
                index <= self.end ==> low <= self.start as int / p && self.end as int / p < low
                    + out@.len(),
                out@.len() == first.len(),
                forall|j: int|
                    0 <= j < first.len() ==> #[trigger] first[j] + coarsen(h, d)(low + j)
                        <= u64::MAX,
                forall|j: int|
                    0 <= j < out@.len() ==> #[trigger] out@[j] == first[j] + coarsen(part, d)(
                        low + j,
                    ),
            decreases self.end + 1 - index,
        {
            let val = self.get(index);
            proof {
                lemma_div_mono(self.start as int, index as int, p);
                lemma_div_mono(index as int, self.end as int, p);
                lemma_div_bracket(index as int, p, index as int / p);
                let q = index as int / p;
                assert(-0x4_0000 <= q < 0x4_0000) by (nonlinear_arith)
                    requires
                        p >= 1,
                        q * p <= index < (q + 1) * p,
                        -0x4_0000 <= index < 0x4_0000,
                ;
            }
            let at: usize = (shr(index, by) - low) as usize;
            let ghost next = below(h, index + 1);
            proof {
                assert(next =~= plus(part, index as int, val as nat));
                lemma_coarsen_plus(part, index as int, val as nat, d);
                let q = low + at;
                assert(coarsen(next, d)(q) == coarsen(part, d)(q) + val);
                assert(coarsen(next, d)(q) <= coarsen(h, d)(q)) by {
                    lemma_total_le(next, h, q * p, (q + 1) * p);
                }
                assert(first[at as int] + coarsen(h, d)(low + at) <= u64::MAX);
                assert(out@[at as int] == first[at as int] + coarsen(part, d)(low + at));
            }
            let sum: u64 = out[at] + val;
            out.set(at, sum);
            index = index + 1;
            proof {
                part = next;
            }
        }
        proof {
            assert(part =~= h) by {
                assert forall|t: int| #[trigger] part(t) == h(t) by {
                    if t >= index && h(t) != 0 {
                        assert(self.range().low <= t < self.range().high + 1);
                    }
                }
            }
        }
    }

    /// Replaces the buckets by `sums`, whose first element stands for bucket `low`, at the
    /// narrowest width from the current one up that holds them.
    fn rewrite(&mut self, scale: Scale, low: i32, sums: &Vec<u64>, Ghost(after): Ghost<Range>)
        requires
            2 <= SIZE <= 1000,
            after.valid(SIZE as int),
            !after.vacant(),
            after.scale == scale.value(),
            after.low == low,
            sums@.len() == after.high - after.low + 1,
            forall|j: int|
                0 <= j < sums@.len() ==> #[trigger] sums@[j] == (after.counts)(low + j),
        ensures
            final(self).packed(),
            final(self).range() == after,
            final(self).width_of() == old(self).width_of().holding(after.counts),
            final(self).stats == old(self).stats,
            final(self).limit == old(self).limit,
            -0x4_0000 <= final(self).start <= 0x4_0000,
    {
        let ghost c = SIZE as int;
        let ghost before = *self;
        proof {
            after.lemma_bounds(c);
        }
        let count = sums.len();
        let mut width = self.cells.width();
        let ghost first = width;
        let mut j: usize = 0;
        while j < count
            invariant
                j <= count,
                count == sums@.len(),
                first.max_count() <= width.max_count(),
                width == first || (width is U32 && first is U16 && exists|m: int|
                    0 <= m < j && #[trigger] sums@[m] > 0xffff) || (width is U64 && exists|m: int|
                    0 <= m < j && #[trigger] sums@[m] > 0xffff_ffff),
                forall|m: int| 0 <= m < j ==> #[trigger] sums@[m] <= width.max_count(),
            decreases count - j,
        {
            width = width.at_least(sums[j]);
            j = j + 1;
        }
        proof {
            assert(at_most(after.counts, width.max_count())) by {
                assert forall|i: int| #[trigger] (after.counts)(i) <= width.max_count() by {
                    if (after.counts)(i) != 0 {
                        assert(sums@[i - low] == (after.counts)(low + (i - low)));
                    }
                }
            }
            if exists|m: int| 0 <= m < count && #[trigger] sums@[m] > 0xffff {
                let m = choose|m: int| 0 <= m < count && #[trigger] sums@[m] > 0xffff;
                assert(!((after.counts)(low + m) <= CounterWidth::U16.max_count()));
            }
            if exists|m: int| 0 <= m < count && #[trigger] sums@[m] > 0xffff_ffff {
                let m = choose|m: int| 0 <= m < count && #[trigger] sums@[m] > 0xffff_ffff;
                assert(!((after.counts)(low + m) <= CounterWidth::U32.max_count()));
            }
            if width is U16 {
                assert(first is U16);
            }
            assert(width == first.holding(after.counts));
        }
        self.cells = Cells::zeros(width);
        self.scale = scale;
        self.start = low;
        self.end = low + (count as i32 - 1);
        proof {
            assert forall|i: int| #[trigger] self.at(i) == 0 by {
                assert(0 <= i % c < c);
            }
        }
        let mut k: usize = 0;
        while k < count
            invariant
                2 <= SIZE <= 1000,
                c == SIZE,
                self.cells.width_of() == width,
                self.scale == scale,
                self.start == low,
                self.end == low + count - 1,
                -0x4_0000 <= low,
                low + count <= 0x4_0000,
                0 < count <= SIZE,
                count == sums@.len(),
                k <= count,
                self.stats == before.stats,
                self.limit == before.limit,
                forall|m: int| 0 <= m < count ==> #[trigger] sums@[m] <= width.max_count(),
                forall|i: int|
                    #![trigger self.at(i)]
                    self.end - c < i < low + c ==> self.at(i) == if low <= i < low + k {
                        sums@[i - low] as nat
                    } else {
                        0
                    },
            decreases count - k,
        {
            let ghost prev = *self;
            let index: i32 = low + k as i32;
            let slot = ring_index(index, SIZE, 0);
            self.cells.set(slot, sums[k]);
            proof {
                assert forall|i: int| #![trigger self.at(i)]
                    self.end - c < i < low + c implies self.at(i) == if low <= i < low + k + 1 {
                    sums@[i - low] as nat
                } else {
                    0
                } by {
                    assert(0 <= i % c < c);
                    assert(prev.at(i) == prev.cells.cell(i % c));
                    if i % c == slot {
                        lemma_mod_injective(i, index as int, c);
                    }
                }
            }
            k = k + 1;
        }
        proof {
            assert forall|i: int| #[trigger] self.counts()(i) == (after.counts)(i) by {
                if low <= i <= self.end {
                    assert(sums@[i - low] == (after.counts)(low + (i - low)));
                } else if (after.counts)(i) != 0 {
                    assert(after.low <= i < after.high + 1);
                }
            }
            assert(self.counts() =~= after.counts);
            assert(self.range() =~= after);
        }
    }
}

/// Buckets and statistics after `incr` observations of `bits`.
pub open spec fn updated(
    size: int,
    range: Range,
    width: CounterWidth,
    stats: MMSC,
    range2: Range,
    width2: CounterWidth,
    stats2: MMSC,
    bits: u64,
    incr: u64,
    sum: u64,
) -> bool {
    &&& stats.observed(stats2, bits, incr, sum)
    &&& if zero(bits) {
        range2 == range && width2 == width
    } else {
        &&& range2 == range.recorded(size, index_of(bits, range.scale), incr as nat)
        &&& width2 == width.holding(range2.counts)
    }
}

/// Buckets and statistics after a merge with others.
pub open spec fn merged_into(
    size: int,
    range: Range,
    width: CounterWidth,
    stats: MMSC,
    range2: Range,
    width2: CounterWidth,
    stats2: MMSC,
    other: Range,
    other_stats: MMSC,
    sum: u64,
) -> bool {
    &&& stats.combined(stats2, other_stats, sum)
    &&& range2 == range.merged(size, other)
    &&& width2 == if other.vacant() {
        width
    } else {
        width.holding(range2.counts)
    }
}

impl<const SIZE: usize> Bucketed<SIZE> {
    /// Counts observations in place: the live range grows to the bucket, whose counter holds the
    /// sum.
    fn count_in_place(&mut self, index: i32, incr: u64, Ghost(after): Ghost<Range>)
        requires
            old(self).wf(),
            incr > 0,
            -side(old(self).range().scale) <= index < side(old(self).range().scale),
            old(self).range().high_with(old(self).range().scale, index as int)
                - old(self).range().low_with(old(self).range().scale, index as int) < SIZE,
            (old(self).range().counts)(index as int) + incr <= old(self).width_of().max_count(),
            after == (Range {
                scale: old(self).range().scale,
                low: old(self).range().low_with(old(self).range().scale, index as int),
                high: old(self).range().high_with(old(self).range().scale, index as int),
                counts: plus(old(self).range().counts, index as int, incr as nat),
            }),
        ensures
            final(self).packed(),
            final(self).range() == after,
            final(self).width_of() == old(self).width_of(),
            final(self).width_of() == old(self).width_of().holding(after.counts),
            final(self).stats == old(self).stats,
            final(self).limit == old(self).limit,
            final(self).scale == old(self).scale,
            -0x4_0000 <= final(self).start <= 0x4_0000,
    {
        let ghost before = *self;
        let ghost c = SIZE as int;
        proof {
            lemma_side(before.range().scale);
            vstd::arithmetic::power2::lemma2_to64();
            assert(before.range().low / 1 == before.range().low);
            assert(before.range().high / 1 == before.range().high);
            before.range().lemma_bounds(c);
        }
        let held = self.get(index);
        if self.start > self.end {
            self.start = index;
            self.end = index;
        } else if index < self.start {
            self.start = index;
        } else if index > self.end {
            self.end = index;
        }
        let slot = ring_index(index, SIZE, 0);
        proof {
            assert(before.at(index as int) == held) by {
                if before.range().vacant() {
                    before.lemma_vacant_zero(index as int);
                } else if !(before.start <= index <= before.end) {
                    assert(before.at(index as int) == 0);
                }
            }
        }
        self.cells.set(slot, held + incr);
        proof {
            assert forall|i: int| #![trigger self.at(i)] -c < i - index < c && i != index implies self.at(
                i,
            ) == before.at(i) by {
                assert(0 <= i % c < c);
                if i % c == slot {
                    lemma_mod_injective(i, index as int, c);
                }
            }
            assert(self.at(index as int) == held + incr);
            assert forall|i: int| #[trigger] self.counts()(i) == (after.counts)(i) by {
                if self.start <= i <= self.end && i != index {
                    assert(self.at(i) == before.at(i));
                    if before.range().vacant() {
                        before.lemma_vacant_zero(i);
                    } else if !(before.start <= i <= before.end) {
                        assert(before.at(i) == 0);
                    }
                }
            }
            assert(self.counts() =~= after.counts);
            assert forall|i: int| #![trigger self.at(i)]
                self.end - SIZE < i < self.start + SIZE && !(self.start <= i <= self.end) implies self.at(
                i,
            ) == 0 by {
                assert(self.at(i) == before.at(i));
                if before.range().vacant() {
                    before.lemma_vacant_zero(i);
                } else {
                    assert(before.at(i) == 0);
                }
            }
            assert(self.range() =~= after);
            let w = before.width_of();
            assert(at_most(after.counts, w.max_count())) by {
                assert forall|i: int| #[trigger] (after.counts)(i) <= w.max_count() by {
                    before.lemma_cell_bound(i);
                }
            }
        }
    }

    /// All counters of a vacant histogram are zero.
    proof fn lemma_vacant_zero(self, i: int)
        requires
            self.wf(),
            self.range().vacant(),
        ensures
            self.at(i) == 0,
    {
        let c = SIZE as int;
        // Some bucket next to the empty range has the same ring position.
        let x = self.start as int;
        let t = (i - x) % c;
        let q = (i - x) / c;
        lemma_div_parts(i - x, c);
        lemma_div_parts(i, c);
        let j = x + t;
        assert(j == (i / c - q) * c + i % c) by (nonlinear_arith)
            requires
                i - x == q * c + t,
                i == (i / c) * c + i % c,
                j == x + t,
        ;
        lemma_div_unique(j, c, i / c - q, i % c);
        assert(self.at(j) == 0);
    }

    /// No count exceeds its counter.
    proof fn lemma_cell_bound(self, i: int)
        requires
            self.wf(),
        ensures
            (self.range().counts)(i) <= self.width_of().max_count(),
    {
        assert(0 <= i % (SIZE as int) < SIZE);
    }

    /// Counts `incr` observations of a positive value. The scale drops when the live buckets
    /// would not fit, and the counters widen when a sum exceeds them.
    fn update_buckets(&mut self, bits: u64, incr: u64)
        requires
            old(self).wf(),
            countable(bits),
            incr > 0,
            total(old(self).range().counts, bottom(), top()) + incr <= u64::MAX,
        ensures
            final(self).packed(),
            final(self).range() == old(self).range().recorded(
                SIZE as int,
                index_of(bits, old(self).range().scale),
                incr as nat,
            ),
            final(self).width_of() == old(self).width_of().holding(final(self).range().counts),
            final(self).stats == old(self).stats,
            final(self).limit == old(self).limit,
            -0x4_0000 <= final(self).start <= 0x4_0000,
    {
        let ghost before = *self;
        let ghost p = self.range();
        let ghost c = SIZE as int;
        let scale = self.scale.scale();
        proof {
            lemma_key_of(bits, p.scale);
            lemma_key_of(bits, TABLE_SCALE as int);
            lemma_side_div(key_of(bits), TABLE_SCALE as int, (TABLE_SCALE - p.scale) as nat);
            assert(TABLE_SCALE - (TABLE_SCALE - p.scale) == p.scale);
            p.lemma_bounds(c);
            lemma_side(p.scale);
            vstd::arithmetic::power2::lemma2_to64();
            assert(p.low / 1 == p.low && p.high / 1 == p.high);
        }
        let index = shr(finest_bucket(bits), (TABLE_SCALE - scale) as u32);
        let hl = HighLow { low: self.start, high: self.end }.merge(
            HighLow { low: index, high: index },
        );
        let ghost i = index as int;
        let ghost after = p.recorded(c, i, incr as nat);
        proof {
            assert(hl.low == p.low_with(p.scale, i));
            assert(hl.high == p.high_with(p.scale, i));
            lemma_fit(hl.low as int, hl.high as int, c, p.scale);
            p.lemma_recorded(c, i, incr as nat);
        }
        let change = hl.change_steps(SIZE);
        let ghost d = change as nat;
        proof {
            lemma_change_unique(
                hl.low as int,
                hl.high as int,
                c,
                d,
                steps_to_fit(hl.low as int, hl.high as int, c),
            );
            lemma_total_member(p.counts, bottom(), top(), i);
        }
        let sum: u64 = self.get(index) + incr;
        if change == 0 && self.cells.width().at_least(sum) == self.cells.width() {
            proof {
                lemma_coarsen_zero(p.counts);
                assert(i / 1 == i && hl.low as int / 1 == hl.low && hl.high as int / 1 == hl.high);
                assert(after =~= Range {
                    scale: p.scale,
                    low: hl.low as int,
                    high: hl.high as int,
                    counts: plus(p.counts, i, incr as nat),
                });
            }
            self.count_in_place(index, incr, Ghost(after));
            return;
        }
        let low = shr(hl.low, change);
        let high = shr(hl.high, change);
        let target = match Scale::new(scale - change as i32) {
            Ok(t) => t,
            Err(_) => self.scale,
        };
        proof {
            after.lemma_bounds(c);
            lemma_pow2_pos(d);
            p.lemma_lower(c, d);
            let q = pow2(d) as int;
            lemma_div_mono(hl.low as int, i, q);
            lemma_div_mono(i, hl.high as int, q);
            if !p.vacant() {
                lemma_div_mono(hl.low as int, p.low, q);
                lemma_div_mono(p.high, hl.high as int, q);
            }
        }
        let len: usize = (high - low + 1) as usize;
        let mut sums: Vec<u64> = vec![0u64;len];
        proof {
            assert forall|j: int| 0 <= j < sums@.len() implies #[trigger] sums@[j] + coarsen(
                p.counts,
                d,
            )(low + j) <= u64::MAX by {
                assert(coarsen(p.counts, d)(low + j) <= total(p.counts, bottom(), top()));
            }
        }
        self.add_into(change, low, &mut sums);
        let at: usize = (shr(index, change) - low) as usize;
        proof {
            assert(coarsen(p.counts, d)(low + at) <= total(p.counts, bottom(), top()));
            assert(sums@[at as int] == coarsen(p.counts, d)(low + at));
        }
        let ghost plain = sums@;
        let grown: u64 = sums[at] + incr;
        sums.set(at, grown);
        proof {
            assert forall|j: int| 0 <= j < sums@.len() implies #[trigger] sums@[j] == (after.counts)(
                low + j,
            ) by {
                assert(plain[j] == coarsen(p.counts, d)(low + j));
            }
        }
        self.rewrite(target, low, &sums, Ghost(after));
    }

    /// Records a value with a specified increment.
    fn update_by_incr(&mut self, bits: u64, incr: u64, sum: u64) -> (r: bool)
        requires
            old(self).wf(),
            acceptable(bits),
        ensures
            final(self).wf(),
            final(self).limit_of() == old(self).limit_of(),
            r <==> old(self).stats_of().count_of() + incr <= u64::MAX,
            !r || incr == 0 ==> *final(self) == *old(self),
            r && incr > 0 ==> updated(
                SIZE as int,
                old(self).range(),
                old(self).width_of(),
                old(self).stats_of(),
                final(self).range(),
                final(self).width_of(),
                final(self).stats_of(),
                bits,
                incr,
                sum,
            ),
    {
        if incr == 0 {
            return true;
        }
        if incr > u64::MAX - self.stats.count {
            return false;
        }
        proof {
            if !zero(bits) {
                self.lemma_update(bits, incr);
            }
        }
        if !is_zero(bits) {
            self.update_buckets(bits, incr);
        }
        let ghost mid = *self;
        let r = self.stats.update_by_incr(bits, incr, sum);
        proof {
            self.lemma_same_buckets(mid);
        }
        r
    }

    /// New statistics leave the buckets alone.
    proof fn lemma_same_buckets(self, before: Self)
        requires
            before.packed(),
            self.scale == before.scale,
            self.start == before.start,
            self.end == before.end,
            self.cells == before.cells,
        ensures
            self.packed(),
            self.range() == before.range(),
            self.counts() == before.counts(),
    {
        assert forall|i: int| #[trigger] self.at(i) == before.at(i) by {}
        assert forall|i: int| #[trigger] self.counts()(i) == before.counts()(i) by {}
        assert(self.counts() =~= before.counts());
    }

    /// The range after an update.
    proof fn lemma_update(self, bits: u64, incr: u64)
        requires
            self.wf(),
            countable(bits),
            incr > 0,
            self.stats.count + incr <= u64::MAX,
        ensures
            ({
                let after = self.range().recorded(
                    SIZE as int,
                    index_of(bits, self.range().scale),
                    incr as nat,
                );
                &&& after.valid(SIZE as int)
                &&& after.scale <= self.range().scale
                &&& total(after.counts, bottom(), top()) == total(
                    self.range().counts,
                    bottom(),
                    top(),
                ) + incr
            }),
    {
        let p = self.range();
        lemma_key_of(bits, p.scale);
        lemma_key_of(bits, TABLE_SCALE as int);
        lemma_side_div(key_of(bits), TABLE_SCALE as int, (TABLE_SCALE - p.scale) as nat);
        assert(TABLE_SCALE - (TABLE_SCALE - p.scale) == p.scale);
        p.lemma_recorded(SIZE as int, index_of(bits, p.scale), incr as nat);
    }

    /// Merges the live buckets of another histogram.
    fn merge_buckets<const M: usize>(&mut self, other: &Bucketed<M>)
        requires
            old(self).wf(),
            other.wf(),
            !other.range().vacant(),
            total(old(self).range().counts, bottom(), top()) + total(
                other.range().counts,
                bottom(),
                top(),
            ) <= u64::MAX,
        ensures
            final(self).packed(),
            final(self).range() == old(self).range().merged(SIZE as int, other.range()),
            final(self).width_of() == old(self).width_of().holding(final(self).range().counts),
            final(self).stats == old(self).stats,
            final(self).limit == old(self).limit,
            -0x4_0000 <= final(self).start <= 0x4_0000,
    {
        let ghost c = SIZE as int;
        let ghost p = self.range();
        let ghost o = other.range();
        let ghost after = p.merged(c, o);
        let own = self.scale.scale();
        let theirs = other.scale.scale();
        proof {
            p.lemma_merged(c, o, M as int);
            p.lemma_bounds(c);
            o.lemma_bounds(M as int);
        }
        let m: i32 = if own <= theirs {
            own
        } else {
            theirs
        };
        proof {
            p.lemma_lower(c, (p.scale - m) as nat);
            o.lemma_lower(M as int, (o.scale - m) as nat);
            assert(p.scale - (p.scale - m) == m && o.scale - (o.scale - m) == m);
            lemma_side(m as int);
        }
        let mut hl = HighLow {
            low: shr(other.start, (theirs - m) as u32),
            high: shr(other.end, (theirs - m) as u32),
        };
        if self.start <= self.end {
            hl = HighLow {
                low: shr(self.start, (own - m) as u32),
                high: shr(self.end, (own - m) as u32),
            }.merge(hl);
        }
        let ghost e = pow2((o.scale - m) as nat) as int;
        proof {
            assert(hl.low == p.low_with(m as int, o.low / e));
            assert(hl.high == p.high_with(m as int, o.high / e));
            lemma_fit(hl.low as int, hl.high as int, c, m as int);
        }
        let change = hl.change_steps(SIZE);
        let ghost d = change as nat;
        proof {
            lemma_change_unique(
                hl.low as int,
                hl.high as int,
                c,
                d,
                steps_to_fit(hl.low as int, hl.high as int, c),
            );
            after.lemma_bounds(c);
        }
        let low = shr(hl.low, change);
        let high = shr(hl.high, change);
        let target = match Scale::new(m - change as i32) {
            Ok(t) => t,
            Err(_) => self.scale,
        };
        let ghost t = m - change;
        let ghost f = coarsen(p.counts, (p.scale - t) as nat);
        let ghost g = coarsen(o.counts, (o.scale - t) as nat);
        proof {
            p.lemma_lower(c, (p.scale - t) as nat);
            o.lemma_lower(M as int, (o.scale - t) as nat);
            assert forall|j: int| #[trigger] (after.counts)(j) != 0 implies low <= j <= high by {
                assert(after.low <= j < after.high + 1);
            }
            if !p.vacant() {
                let x = p.low / pow2((p.scale - t) as nat) as int;
                let y = p.high / pow2((p.scale - t) as nat) as int;
                assert(f(x) != 0 && f(y) != 0);
                assert((after.counts)(x) != 0 && (after.counts)(y) != 0);
            }
            let x = o.low / pow2((o.scale - t) as nat) as int;
            let y = o.high / pow2((o.scale - t) as nat) as int;
            assert((after.counts)(x) != 0 && (after.counts)(y) != 0);
        }
        let len: usize = (high - low + 1) as usize;
        let mut sums: Vec<u64> = vec![0u64;len];
        proof {
            assert forall|j: int| 0 <= j < sums@.len() implies #[trigger] sums@[j] + f(low + j)
                <= u64::MAX by {
                assert(f(low + j) <= total(p.counts, bottom(), top()));
            }
        }
        self.add_into((own - (m - change as i32)) as u32, low, &mut sums);
        proof {
            assert forall|j: int| 0 <= j < sums@.len() implies #[trigger] sums@[j] + g(low + j)
                <= u64::MAX by {
                assert(f(low + j) <= total(p.counts, bottom(), top()));
                assert(g(low + j) <= total(o.counts, bottom(), top()));
            }
        }
        let ghost mid = sums@;
        other.add_into((theirs - (m - change as i32)) as u32, low, &mut sums);
        proof {
            assert forall|j: int| 0 <= j < sums@.len() implies #[trigger] sums@[j] == (after.counts)(
                low + j,
            ) by {
                assert(mid[j] == f(low + j));
            }
        }
        self.rewrite(target, low, &sums, Ghost(after));
    }

    /// Merges another histogram, of any size.
    fn merge_hist<const M: usize>(&mut self, other: &Bucketed<M>, sum: u64) -> (r: bool)
        requires
            old(self).wf(),
            other.wf(),
        ensures
            final(self).wf(),
            final(self).limit_of() == old(self).limit_of(),
            r <==> old(self).stats_of().count_of() + other.stats_of().count_of() <= u64::MAX,
            !r ==> *final(self) == *old(self),
            r ==> merged_into(
                SIZE as int,
                old(self).range(),
                old(self).width_of(),
                old(self).stats_of(),
                final(self).range(),
                final(self).width_of(),
                final(self).stats_of(),
                other.range(),
                other.stats_of(),
                sum,
            ),
    {
        if other.stats.count > u64::MAX - self.stats.count {
            return false;
        }
        proof {
            self.range().lemma_merged(SIZE as int, other.range(), M as int);
            other.range().lemma_bounds(M as int);
            if other.stats.count == 0 && !other.range().vacant() {
                lemma_total_member(other.range().counts, bottom(), top(), other.range().low);
            }
        }
        if other.start <= other.end {
            self.merge_buckets(other);
        }
        let ghost mid = *self;
        let r = self.stats.merge_stats(&other.stats, sum);
        proof {
            self.lemma_same_buckets(mid);
        }
        r
    }

    /// Merges statistics that come without buckets.
    fn merge_mmsc(&mut self, other: &MMSC, sum: u64) -> (r: bool)
        requires
            old(self).wf(),
            other.wf(),
        ensures
            final(self).wf(),
            final(self).limit_of() == old(self).limit_of(),
            final(self).range() == old(self).range(),
            final(self).width_of() == old(self).width_of(),
            r <==> old(self).stats_of().count_of() + other.count_of() <= u64::MAX,
            !r ==> *final(self) == *old(self),
            r ==> old(self).stats_of().combined(final(self).stats_of(), *other, sum),
    {
        let ghost mid = *self;
        let r = self.stats.merge_stats(other, sum);
        proof {
            self.lemma_same_buckets(mid);
        }
        r
    }
}

impl<const SIZE: usize> Bucketed<SIZE> {
    fn clear(&mut self)
        requires
            old(self).wf(),
        ensures
            final(self).wf(),
            final(self).range().vacant(),
            final(self).range().low == 0,
            final(self).range().high == -1,
            final(self).range().scale == old(self).limit_of(),
            final(self).limit_of() == old(self).limit_of(),
            final(self).width_of() == CounterWidth::U16,
            final(self).stats_of().is_new(),
    {
        *self = Self::with_scale(self.limit);
    }

    fn bucket_len(&self) -> (r: u32)
        requires
            self.wf(),
        ensures
            r == self.range().high - self.range().low + 1,
    {
        (self.end - self.start + 1) as u32
    }

    fn bucket_at(&self, pos: u32) -> (r: u64)
        requires
            self.wf(),
            pos <= self.range().high - self.range().low,
        ensures
            r == (self.range().counts)(self.range().low + pos),
    {
        proof {
            self.range().lemma_bounds(SIZE as int);
        }
        self.get(self.start + pos as i32)
    }
}

/// Runtime-configurable exponential histogram.
///
/// Two fixed bucket sizes (16, 160) with automatic counter widening. Counters start at 16 bits
/// and widen to 32 and 64 bits when a bucket overflow occurs during an update or a merge.
///
/// The [`Resolution::Empty`] variant tracks only min/max/sum/count with no buckets at all.
#[derive(Debug)]
pub enum ExpoHistogram {
    /// Statistics only, no bucket resolution.
    Empty(MMSC),
    /// 16 buckets.
    Small(Box<Bucketed<SMALL_SIZE>>),
    /// 160 buckets.
    Large(Box<Bucketed<LARGE_SIZE>>),
}

impl Clone for ExpoHistogram {
    fn clone(&self) -> (r: Self)
        ensures
            r == *self,
    {
        match self {
            ExpoHistogram::Empty(m) => ExpoHistogram::Empty(*m),
            ExpoHistogram::Small(h) => ExpoHistogram::Small(Box::new(**h)),
            ExpoHistogram::Large(h) => ExpoHistogram::Large(Box::new(**h)),
        }
    }
}

/// No live bucket.
pub open spec fn no_range() -> Range {
    Range { scale: 0, low: 0, high: -1, counts: no_counts() }
}

impl ExpoHistogram {
    /// The resolution, as the contracts see it.
    pub open spec fn resolution_of(self) -> Resolution {
        match self {
            ExpoHistogram::Empty(_) => Resolution::Empty,
            ExpoHistogram::Small(_) => Resolution::Small,
            ExpoHistogram::Large(_) => Resolution::Large,
        }
    }

    /// Number of buckets.
    pub open spec fn size(self) -> int {
        match self {
            ExpoHistogram::Empty(_) => 0,
            ExpoHistogram::Small(_) => SMALL_SIZE as int,
            ExpoHistogram::Large(_) => LARGE_SIZE as int,
        }
    }

    /// The live buckets.
    pub open spec fn range(self) -> Range {
        match self {
            ExpoHistogram::Empty(_) => no_range(),
            ExpoHistogram::Small(h) => h.range(),
            ExpoHistogram::Large(h) => h.range(),
        }
    }

    /// Width of the counters, as the contracts see it.
    pub open spec fn width_of(self) -> CounterWidth {
        match self {
            ExpoHistogram::Empty(_) => CounterWidth::U16,
            ExpoHistogram::Small(h) => h.width_of(),
            ExpoHistogram::Large(h) => h.width_of(),
        }
    }

    /// Aggregate statistics.
    pub open spec fn stats_of(self) -> MMSC {
        match self {
            ExpoHistogram::Empty(m) => m,
            ExpoHistogram::Small(h) => h.stats_of(),
            ExpoHistogram::Large(h) => h.stats_of(),
        }
    }

    /// The scale that the histogram starts with, 0 without buckets.
    pub open spec fn limit_of(self) -> int {
        match self {
            ExpoHistogram::Empty(_) => 0,
            ExpoHistogram::Small(h) => h.limit_of(),
            ExpoHistogram::Large(h) => h.limit_of(),
        }
    }

    /// The histogram is valid.
    pub open spec fn wf(self) -> bool {
        match self {
            ExpoHistogram::Empty(m) => m.wf(),
            ExpoHistogram::Small(h) => h.wf(),
            ExpoHistogram::Large(h) => h.wf(),
        }
    }

    /// The live buckets of a valid histogram, and its observations.
    pub proof fn lemma_wf(self)
        requires
            self.wf(),
        ensures
            self.resolution_of() !is Empty ==> self.range().valid(self.size()),
            self.stats_of().wf(),
            total(self.range().counts, bottom(), top()) + self.stats_of().zeros_of()
                <= self.stats_of().count_of(),
    {
        match self {
            ExpoHistogram::Empty(_) => {
                lemma_total_zero(no_counts(), bottom(), top());
            },
            ExpoHistogram::Small(h) => {
                h.lemma_wf();
            },
            ExpoHistogram::Large(h) => {
                h.lemma_wf();
            },
        }
    }

    /// Creates a new histogram with the given resolution at the maximum supported scale.
    pub fn new(resolution: Resolution) -> (r: Self)
        ensures
            r.wf(),
            r.resolution_of() == resolution,
            r.stats_of().is_new(),
            r.width_of() == CounterWidth::U16,
            r.range().vacant(),
            r.range().low == 0,
            r.range().high == -1,
            resolution !is Empty ==> r.limit_of() == TABLE_SCALE && r.range().scale == TABLE_SCALE,
    {
        Self::at_scale(resolution, Scale::finest())
    }

    fn at_scale(resolution: Resolution, scale: Scale) -> (r: Self)
        requires
            scale.wf(),
        ensures
            r.wf(),
            r.resolution_of() == resolution,
            r.stats_of().is_new(),
            r.width_of() == CounterWidth::U16,
            r.range().vacant(),
            r.range().low == 0,
            r.range().high == -1,
            resolution !is Empty ==> r.limit_of() == scale.value() && r.range().scale
                == scale.value(),
    {
        match resolution {
            Resolution::Empty => ExpoHistogram::Empty(MMSC::new()),
            Resolution::Small => ExpoHistogram::Small(Box::new(Bucketed::with_scale(scale))),
            Resolution::Large => ExpoHistogram::Large(Box::new(Bucketed::with_scale(scale))),
        }
    }

    /// Creates a new histogram with the given resolution and an upper bound on scale, at most the
    /// maximum supported scale.
    pub fn with_max_scale(resolution: Resolution, max_scale: i32) -> (r: Self)
        requires
            resolution !is Empty ==> max_scale >= MIN_SCALE,
        ensures
            r.wf(),
            r.resolution_of() == resolution,
            r.stats_of().is_new(),
            r.width_of() == CounterWidth::U16,
            r.range().vacant(),
            r.range().low == 0,
            r.range().high == -1,
            resolution !is Empty ==> r.range().scale == r.limit_of() && r.limit_of() == (if max_scale
                <= TABLE_SCALE {
                max_scale
            } else {
                TABLE_SCALE
            }),
    {
        match Scale::new(max_scale) {
            Ok(scale) => Self::at_scale(resolution, scale),
            Err(_) => Self::at_scale(resolution, Scale::finest()),
        }
    }

    /// Returns which resolution this histogram was created with.
    pub fn resolution(&self) -> (r: Resolution)
        ensures
            r == self.resolution_of(),
    {
        match self {
            ExpoHistogram::Empty(_) => Resolution::Empty,
            ExpoHistogram::Small(_) => Resolution::Small,
            ExpoHistogram::Large(_) => Resolution::Large,
        }
    }

    /// Returns the current counter width, or `None` without buckets.
    pub fn counter_width(&self) -> (r: Option<CounterWidth>)
        ensures
            r == if self.resolution_of() is Empty {
                None
            } else {
                Some(self.width_of())
            },
    {
        match self {
            ExpoHistogram::Empty(_) => None,
            ExpoHistogram::Small(h) => Some(h.cells.width()),
            ExpoHistogram::Large(h) => Some(h.cells.width()),
        }
    }

    fn stats(&self) -> (r: &MMSC)
        ensures
            *r == self.stats_of(),
    {
        match self {
            ExpoHistogram::Empty(m) => m,
            ExpoHistogram::Small(h) => &h.stats,
            ExpoHistogram::Large(h) => &h.stats,
        }
    }

    /// Returns the sum of all recorded values.
    pub fn sum(&self) -> (r: u64)
        ensures
            r == self.stats_of().sum_of(),
    {
        self.stats().sum()
    }

    /// Returns the count of all recorded values.
    pub fn count(&self) -> (r: u64)
        ensures
            r == self.stats_of().count_of(),
    {
        self.stats().count()
    }

    /// Returns the count of zero values.
    pub fn zero_count(&self) -> (r: u64)
        ensures
            r == self.stats_of().zeros_of(),
    {
        self.stats().zero_count()
    }

    /// Returns the minimum recorded value, or 0 if empty.
    pub fn min(&self) -> (r: u64)
        ensures
            r == self.stats_of().min_of(),
    {
        self.stats().min()
    }

    /// Returns the maximum recorded value, or 0 if empty.
    pub fn max(&self) -> (r: u64)
        ensures
            r == self.stats_of().max_of(),
    {
        self.stats().max()
    }

    /// Returns the current scale, 0 without buckets.
    pub fn scale(&self) -> (r: i32)
        ensures
            r == self.range().scale,
    {
        match self {
            ExpoHistogram::Empty(_) => 0,
            ExpoHistogram::Small(h) => h.scale.scale(),
            ExpoHistogram::Large(h) => h.scale.scale(),
        }
    }

    /// Returns the maximum scale, which this histogram uses on reset; 0 without buckets.
    pub fn max_scale(&self) -> (r: i32)
        ensures
            r == self.limit_of(),
    {
        match self {
            ExpoHistogram::Empty(_) => 0,
            ExpoHistogram::Small(h) => h.limit.scale(),
            ExpoHistogram::Large(h) => h.limit.scale(),
        }
    }

    /// Returns the bucket offset (smallest bucket index).
    pub fn bucket_offset(&self) -> (r: i32)
        ensures
            r == self.range().low,
    {
        match self {
            ExpoHistogram::Empty(_) => 0,
            ExpoHistogram::Small(h) => h.start,
            ExpoHistogram::Large(h) => h.start,
        }
    }

    /// Returns the number of buckets in use.
    pub fn bucket_len(&self) -> (r: u32)
        requires
            self.wf(),
        ensures
            r == self.range().high - self.range().low + 1,
    {
        match self {
            ExpoHistogram::Empty(_) => 0,
            ExpoHistogram::Small(h) => h.bucket_len(),
            ExpoHistogram::Large(h) => h.bucket_len(),
        }
    }

    /// Returns the count in the bucket at position `pos`, counted from the offset; 0 without
    /// buckets.
    pub fn bucket_at(&self, pos: u32) -> (r: u64)
        requires
            self.wf(),
            self.resolution_of() !is Empty ==> pos <= self.range().high - self.range().low,
        ensures
            r == (self.range().counts)(self.range().low + pos),
    {
        match self {
            ExpoHistogram::Empty(_) => 0,
            ExpoHistogram::Small(h) => h.bucket_at(pos),
            ExpoHistogram::Large(h) => h.bucket_at(pos),
        }
    }

    /// Records a single value. The argument `sum` is the new sum of all values.
    pub fn update(&mut self, bits: u64, sum: u64) -> (r: bool)
        requires
            old(self).wf(),
            acceptable(bits),
        ensures
            final(self).wf(),
            final(self).resolution_of() == old(self).resolution_of(),
            final(self).limit_of() == old(self).limit_of(),
            r <==> old(self).stats_of().count_of() < u64::MAX,
            !r ==> *final(self) == *old(self),
            r && old(self).resolution_of() is Empty ==> old(self).stats_of().observed(
                final(self).stats_of(),
                bits,
                1,
                sum,
            ),
            r && old(self).resolution_of() !is Empty ==> updated(
                old(self).size(),
                old(self).range(),
                old(self).width_of(),
                old(self).stats_of(),
                final(self).range(),
                final(self).width_of(),
                final(self).stats_of(),
                bits,
                1,
                sum,
            ),
    {
        self.update_by_incr(bits, 1, sum)
    }

    /// Records a value with a specified increment. The argument `sum` is the new sum of all
    /// values.
    ///
    /// The counters widen as needed. Returns `false`, and changes nothing, if the total count
    /// would overflow.
    pub fn update_by_incr(&mut self, bits: u64, incr: u64, sum: u64) -> (r: bool)
        requires
            old(self).wf(),
            acceptable(bits),
        ensures
            final(self).wf(),
            final(self).resolution_of() == old(self).resolution_of(),
            final(self).limit_of() == old(self).limit_of(),
            r <==> old(self).stats_of().count_of() + incr <= u64::MAX,
            !r ==> *final(self) == *old(self),
            r && old(self).resolution_of() is Empty ==> old(self).stats_of().observed(
                final(self).stats_of(),
                bits,
                incr,
                sum,
            ),
            r && old(self).resolution_of() !is Empty && incr == 0 ==> *final(self) == *old(self),
            r && old(self).resolution_of() !is Empty && incr > 0 ==> updated(
                old(self).size(),
                old(self).range(),
                old(self).width_of(),
                old(self).stats_of(),
                final(self).range(),
                final(self).width_of(),
                final(self).stats_of(),
                bits,
                incr,
                sum,
            ),
    {
        match self {
            ExpoHistogram::Empty(m) => m.update_by_incr(bits, incr, sum),
            ExpoHistogram::Small(h) => h.update_by_incr(bits, incr, sum),
            ExpoHistogram::Large(h) => h.update_by_incr(bits, incr, sum),
        }
    }

    /// Clears the histogram, resetting to its initial state. The counters are 16 bits wide again.
    pub fn clear(&mut self)
        requires
            old(self).wf(),
        ensures
            final(self).wf(),
            final(self).resolution_of() == old(self).resolution_of(),
            final(self).limit_of() == old(self).limit_of(),
            final(self).stats_of().is_new(),
            final(self).width_of() == CounterWidth::U16,
            final(self).range().vacant(),
            final(self).range().low == 0,
            final(self).range().high == -1,
            final(self).range().scale == old(self).limit_of(),
    {
        match self {
            ExpoHistogram::Empty(m) => m.clear(),
            ExpoHistogram::Small(h) => h.clear(),
            ExpoHistogram::Large(h) => h.clear(),
        }
    }

    /// Swaps contents with another histogram (works across resolutions).
    pub fn swap(&mut self, other: &mut Self)
        ensures
            *final(self) == *old(other),
            *final(other) == *old(self),
    {
        core::mem::swap(self, other);
    }

    /// Merges another histogram, of any resolution or counter width. The argument `sum` is the
    /// sum of all values of both.
    ///
    /// The counters widen as needed. Returns `false`, and changes nothing, if the total count
    /// would overflow.
    pub fn merge_from(&mut self, other: &Self, sum: u64) -> (r: bool)
        requires
            old(self).wf(),
            other.wf(),
        ensures
            final(self).wf(),
            final(self).resolution_of() == old(self).resolution_of(),
            final(self).limit_of() == old(self).limit_of(),
            r <==> old(self).stats_of().count_of() + other.stats_of().count_of() <= u64::MAX,
            !r ==> *final(self) == *old(self),
            r && old(self).resolution_of() is Empty ==> old(self).stats_of().combined(
                final(self).stats_of(),
                other.stats_of(),
                sum,
            ),
            r && old(self).resolution_of() !is Empty ==> merged_into(
                old(self).size(),
                old(self).range(),
                old(self).width_of(),
                old(self).stats_of(),
                final(self).range(),
                final(self).width_of(),
                final(self).stats_of(),
                other.range(),
                other.stats_of(),
                sum,
            ),
    {
        proof {
            other.lemma_wf();
        }
        match self {
            ExpoHistogram::Empty(m) => m.merge_stats(other.stats(), sum),
            ExpoHistogram::Small(h) => h.merge_any(other, sum),
            ExpoHistogram::Large(h) => h.merge_any(other, sum),
        }
    }
}

impl<const SIZE: usize> Bucketed<SIZE> {
    /// Merges a histogram of any resolution.
    fn merge_any(&mut self, other: &ExpoHistogram, sum: u64) -> (r: bool)
        requires
            old(self).wf(),
            other.wf(),
        ensures
            final(self).wf(),
            final(self).limit_of() == old(self).limit_of(),
            r <==> old(self).stats_of().count_of() + other.stats_of().count_of() <= u64::MAX,
            !r ==> *final(self) == *old(self),
            r ==> merged_into(
                SIZE as int,
                old(self).range(),
                old(self).width_of(),
                old(self).stats_of(),
                final(self).range(),
                final(self).width_of(),
                final(self).stats_of(),
                other.range(),
                other.stats_of(),
                sum,
            ),
    {
        match other {
            ExpoHistogram::Empty(m) => self.merge_mmsc(m, sum),
            ExpoHistogram::Small(h) => self.merge_hist(&**h, sum),
            ExpoHistogram::Large(h) => self.merge_hist(&**h, sum),
        }
    }
}

/// Recording keeps every observation: the old ones, with buckets merged as far as the scale
/// dropped, and the new ones in the bucket of their value at the new scale.
pub proof fn law_update_keeps_counts(size: int, range: Range, bits: u64, incr: u64)
    requires
        size >= 2,
        range.valid(size),
        countable(bits),
        incr > 0,
        total(range.counts, bottom(), top()) + incr <= u64::MAX,
    ensures
        ({
            let after = range.recorded(size, index_of(bits, range.scale), incr as nat);
            &&& after.scale <= range.scale
            &&& after.counts == plus(
                coarsen(range.counts, (range.scale - after.scale) as nat),
                index_of(bits, after.scale),
                incr as nat,
            )
            &&& total(after.counts, bottom(), top()) == total(range.counts, bottom(), top()) + incr
        }),
{
    let i = index_of(bits, range.scale);
    let after = range.recorded(size, i, incr as nat);
    lemma_key_of(bits, range.scale);
    lemma_key_of(bits, TABLE_SCALE as int);
    lemma_side_div(key_of(bits), TABLE_SCALE as int, (TABLE_SCALE - range.scale) as nat);
    assert(TABLE_SCALE - (TABLE_SCALE - range.scale) == range.scale);
    range.lemma_recorded(size, i, incr as nat);
    lemma_key_of(bits, after.scale);
    crate::arith::lemma_shift_twice(
        key_of(bits),
        (TABLE_SCALE - range.scale) as nat,
        (range.scale - after.scale) as nat,
    );
}

/// Merging is the same in either order: the scale and the counts do not depend on which of two
/// histograms of the same size takes the other.
pub proof fn law_merge_commutes(size: int, a: Range, b: Range)
    requires
        size >= 2,
        a.valid(size),
        b.valid(size),
        !a.vacant(),
        !b.vacant(),
    ensures
        a.merged(size, b) == b.merged(size, a),
{
    let m = if a.scale <= b.scale {
        a.scale
    } else {
        b.scale
    };
    let p = a.low / pow2((a.scale - m) as nat) as int;
    let q = b.low / pow2((b.scale - m) as nat) as int;
    assert(a.low_with(m, q) == b.low_with(m, p));
    let x = a.high / pow2((a.scale - m) as nat) as int;
    let y = b.high / pow2((b.scale - m) as nat) as int;
    assert(a.high_with(m, y) == b.high_with(m, x));
    assert(a.merged(size, b).counts =~= b.merged(size, a).counts);
}

} // verus!
