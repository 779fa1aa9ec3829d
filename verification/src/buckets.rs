//! Packed bucket counters that follow the layout of a flat histogram.

use crate::arith::{
    lemma_div_bracket, lemma_div_mono, lemma_div_parts, lemma_div_unique, lemma_mod_injective, shr,
};
use crate::bucket_width::BucketWidth;
use crate::cells::{
    bucket_get, bucket_set, cell, lemma_cell_word, lemma_compact_cell, lemma_shift_cell,
    lemma_step_cell, lemma_zero_cell,
};
use crate::counts::{
    bottom, coarsen, lemma_coarsen_plus, lemma_total_le, lemma_total_zero, no_counts, plus, top,
    total, within, Counts,
};
use crate::lane::{lane, lane_count, lane_max};
use crate::layout::{
    bucket_at_scale, empty_layout, lemma_change_unique, lemma_side, side, slots, steps_to_fit,
    Layout, MAX_WORDS,
};
use crate::lookup::TABLE_SCALE;
use crate::mapping::{Scale, MIN_SCALE};
use crate::settle::HighLow;
use crate::swar::{swar_has_overflow, swar_narrow_compact, swar_shift_up_one, swar_step};
use crate::width::{capacity, lanes, lemma_lanes, lemma_word_of, ring_index, word_of};
use crate::window_ops::{at_most, lemma_coarsen_one};
use vstd::arithmetic::power2::{lemma2_to64, lemma_pow2_pos, pow2};
use vstd::prelude::*;

verus! {

/// Packed counters for the buckets `index_start..=index_end`, in a ring whose first counter
/// stands for bucket `index_base`.
#[derive(Debug, Clone, Copy)]
pub struct Buckets<const N: usize> {
    scale: Scale,
    width: BucketWidth,
    index_base: i32,
    index_start: i32,
    index_end: i32,
    data: [u64; N],
}

/// What came of an attempt to count observations.
pub enum IncrResult {
    /// They were counted.
    Counted,
    /// The live range cannot grow to their bucket.
    NeedsDownscale(HighLow),
    /// The counter of their bucket is too narrow.
    CounterOverflow,
}

/// A ring position belongs to exactly one of any `c` neighbouring buckets.
proof fn lemma_ring_cover(start: int, base: int, c: int, s: int) -> (i: int)
    requires
        0 <= s < c,
    ensures
        start <= i < start + c,
        (i - base) % c == s,
{
    let x = start - base;
    let t = (s - x) % c;
    let q = (s - x) / c;
    lemma_div_parts(s - x, c);
    assert(x + t == (-q) * c + s) by (nonlinear_arith)
        requires
            s - x == q * c + t,
    ;
    lemma_div_unique(x + t, c, -q, s);
    start + t
}

impl<const N: usize> Buckets<N> {
    /// Level of the counter width.
    pub closed spec fn level(self) -> nat {
        self.width.counter().level()
    }

    /// Number of counters.
    pub closed spec fn cap(self) -> int {
        slots(N as int, self.width.counter().level())
    }

    /// The counter at the ring position of bucket `i`.
    pub closed spec fn at(self, i: int) -> nat {
        cell(self.data@, self.level(), (i - self.index_base) % self.cap())
    }

    /// The count of each bucket.
    pub closed spec fn counts(self) -> Counts {
        |i: int|
            if self.index_start <= i <= self.index_end {
                self.at(i)
            } else {
                0
            }
    }

    /// The layout that the counters follow.
    pub closed spec fn layout(self) -> Layout {
        Layout {
            scale: self.scale.value(),
            level: self.level(),
            base: self.index_base as int,
            low: self.index_start as int,
            high: self.index_end as int,
            counts: self.counts(),
        }
    }

    /// The counters outside the live range are zero.
    spec fn packed(self) -> bool {
        &&& 2 <= N <= MAX_WORDS
        &&& self.data@.len() == N
        &&& self.width !is B0
        &&& self.index_end - self.index_start < self.cap()
        &&& forall|i: int|
            #![trigger self.at(i)]
            self.index_end - self.cap() < i < self.index_start + self.cap() && !(self.index_start
                <= i <= self.index_end) ==> self.at(i) == 0
    }

    /// The counters are those of a valid layout.
    pub closed spec fn wf(self) -> bool {
        self.packed() && self.layout().valid(N as int)
    }

    /// A well-formed pool has a valid layout.
    pub proof fn lemma_wf(self)
        requires
            self.wf(),
        ensures
            self.layout().valid(N as int),
    {
    }

    /// Number of counters of a pool.
    proof fn lemma_cap(self)
        requires
            self.packed(),
        ensures
            self.level() <= 6,
            2 <= self.cap() <= 0x7c00_0000,
            self.cap() == N * lanes(self.level()),
    {
        let d = lanes(self.level());
        lemma_lanes(self.level());
        assert(N <= N * d <= 0x7c00_0000) by (nonlinear_arith)
            requires
                1 <= d <= 64,
                2 <= N <= MAX_WORDS,
        ;
    }

    /// Bounds of the fields of a valid pool.
    proof fn lemma_bounds(self)
        requires
            self.wf(),
        ensures
            self.level() <= 6,
            2 <= self.cap() <= 0x7c00_0000,
            self.cap() == N * lanes(self.level()),
            self.index_start <= self.index_end,
    {
        self.layout().lemma_counts(N as int);
    }

    /// A vacant pool is all zeros.
    proof fn lemma_all_zero(self, s: int)
        requires
            self.wf(),
            self.layout().vacant(),
            0 <= s < self.cap(),
        ensures
            cell(self.data@, self.level(), s) == 0,
    {
        self.lemma_bounds();
        let i = lemma_ring_cover(self.index_start as int, self.index_base as int, self.cap(), s);
        if i == self.index_start {
            assert((self.layout().counts)(i) == self.at(i));
        } else {
            assert(self.at(i) == 0);
        }
    }

    /// Narrow counters stand in one line from the base up.
    proof fn lemma_linear(self, s: int)
        requires
            self.wf(),
            self.level() < 6,
            !self.layout().vacant(),
            0 <= s < self.cap(),
        ensures
            cell(self.data@, self.level(), s) == self.counts()(self.index_base + s),
    {
        self.lemma_bounds();
        let i = self.index_base + s;
        vstd::arithmetic::div_mod::lemma_small_mod(s as nat, self.cap() as nat);
        assert(self.at(i) == cell(self.data@, self.level(), s));
    }

    /// Counters in one line from the base up, with nothing outside the live range.
    proof fn lemma_from_line(self, h: Counts)
        requires
            2 <= N <= MAX_WORDS,
            self.data@.len() == N,
            self.width !is B0,
            self.index_base <= self.index_start <= self.index_end < self.index_base + self.cap(),
            within(h, self.index_start as int, self.index_end + 1),
            forall|s: int|
                0 <= s < self.cap() ==> #[trigger] cell(self.data@, self.level(), s) == h(
                    self.index_base + s,
                ),
        ensures
            self.packed(),
            self.counts() == h,
    {
        let c = self.cap();
        assert forall|i: int| self.index_start <= i <= self.index_end implies #[trigger] self.at(i)
            == h(i) by {
            vstd::arithmetic::div_mod::lemma_small_mod((i - self.index_base) as nat, c as nat);
            assert(cell(self.data@, self.level(), i - self.index_base) == h(
                self.index_base + (i - self.index_base),
            ));
        }
        assert forall|i: int| #![trigger self.at(i)]
            self.index_end - c < i < self.index_start + c && !(self.index_start <= i
                <= self.index_end) implies self.at(i) == 0 by {
            let s = (i - self.index_base) % c;
            assert(0 <= s < c);
            let j = self.index_base + s;
            assert(cell(self.data@, self.level(), s) == h(j));
            if self.index_start <= j <= self.index_end {
                vstd::arithmetic::div_mod::lemma_small_mod(s as nat, c as nat);
                lemma_mod_injective(i - self.index_base, s, c);
            }
        }
        assert(self.counts() =~= h);
    }

    /// An empty pool.
    pub fn new(scale: Scale, width: BucketWidth) -> (r: Self)
        requires
            2 <= N <= MAX_WORDS,
            scale.wf(),
            width !is B0,
        ensures
            r.wf(),
            r.layout() == empty_layout(scale.value(), width.counter().level()),
    {
        let r = Buckets {
            scale,
            width,
            index_base: 0,
            index_start: 0,
            index_end: 0,
            data: [0u64;N],
        };
        proof {
            lemma_lanes(r.level());
            lemma_side(scale.value());
            assert(N * 1 <= r.cap()) by (nonlinear_arith)
                requires
                    r.cap() == N * lanes(r.level()),
                    lanes(r.level()) >= 1,
            ;
            assert forall|s: int| 0 <= s < r.cap() implies #[trigger] cell(r.data@, r.level(), s)
                == no_counts()(r.index_base + s) by {
                lemma_zero_cell(r.data@, r.level(), s);
            }
            r.lemma_from_line(no_counts());
            lemma_total_zero(no_counts(), bottom(), top());
        }
        r
    }

    /// The scale of the buckets.
    pub fn scale(&self) -> (r: Scale)
        requires
            self.wf(),
        ensures
            r.value() == self.layout().scale,
            r.wf(),
    {
        self.scale
    }

    /// The width of the counters.
    pub fn bucket_width(&self) -> (r: BucketWidth)
        requires
            self.wf(),
        ensures
            r !is B0,
            r.counter().level() == self.layout().level,
    {
        self.width
    }

    /// Lowest bucket of the live range.
    pub fn start(&self) -> (r: i32)
        ensures
            r == self.layout().low,
    {
        self.index_start
    }

    /// Highest bucket of the live range.
    pub fn end(&self) -> (r: i32)
        ensures
            r == self.layout().high,
    {
        self.index_end
    }

    /// Number of logical buckets available at the current width.
    pub fn bucket_capacity(&self) -> (r: usize)
        requires
            self.wf(),
        ensures
            r == slots(N as int, self.layout().level),
            2 <= r <= 0x7c00_0000,
    {
        proof {
            self.lemma_bounds();
        }
        self.width.capacity(N)
    }

    /// Ring position of a bucket.
    fn slot_for(&self, index: i32) -> (r: usize)
        requires
            self.packed(),
        ensures
            r == (index - self.index_base) % self.cap(),
            r < self.cap(),
    {
        proof {
            self.lemma_cap();
        }
        ring_index(index, self.width.capacity(N), self.index_base)
    }

    /// The count of a bucket, 0 outside the live range.
    pub fn get(&self, index: i32) -> (r: u64)
        requires
            self.wf(),
        ensures
            r == (self.layout().counts)(index as int),
    {
        if index < self.index_start || index > self.index_end {
            return 0;
        }
        proof {
            self.lemma_bounds();
        }
        bucket_get(&self.data, self.width, self.slot_for(index))
    }

    /// Checks if the live range holds no observation.
    pub fn is_effectively_empty(&self) -> (r: bool)
        requires
            self.wf(),
        ensures
            r <==> self.layout().vacant(),
    {
        if self.index_end != self.index_start {
            return false;
        }
        self.get(self.index_start) == 0
    }

    /// Number of logical buckets in the live range, or 0 if empty.
    pub fn bucket_range_len(&self) -> (r: u32)
        requires
            self.wf(),
        ensures
            r == if self.layout().vacant() {
                0
            } else {
                self.layout().high - self.layout().low + 1
            },
    {
        proof {
            self.lemma_bounds();
        }
        if self.is_effectively_empty() {
            0
        } else {
            (self.index_end - self.index_start + 1) as u32
        }
    }

    /// Returns true if the topmost counter is in use.
    fn top_slot_occupied(&self) -> (r: bool)
        requires
            self.wf(),
            self.level() < 6,
            !self.layout().vacant(),
        ensures
            r <==> (self.layout().counts)(self.layout().base + slots(N as int, self.layout().level)
                - 1) != 0,
    {
        proof {
            self.lemma_bounds();
            self.lemma_linear(self.cap() - 1);
        }
        bucket_get(&self.data, self.width, self.bucket_capacity() - 1) != 0
    }

    /// Drops empty buckets from both ends of the live range.
    pub fn trim_bucket_range(&mut self)
        requires
            old(self).wf(),
        ensures
            final(self).wf(),
            final(self).layout() == old(self).layout().trimmed(),
    {
        let ghost before = *self;
        let ghost n = N as int;
        proof {
            before.layout().lemma_trimmed(n);
            before.lemma_bounds();
        }
        while self.index_end > self.index_start && self.get(self.index_end) == 0
            invariant
                before.wf(),
                self.wf(),
                self.index_start == before.index_start,
                self.scale == before.scale,
                self.width == before.width,
                self.index_base == before.index_base,
                self.counts() == before.counts(),
                crate::layout::trim_high(
                    before.counts(),
                    before.index_start as int,
                    self.index_end as int,
                ) == crate::layout::trim_high(
                    before.counts(),
                    before.index_start as int,
                    before.index_end as int,
                ),
            decreases self.index_end - self.index_start,
        {
            let ghost prev = *self;
            proof {
                prev.lemma_bounds();
            }
            self.index_end = self.index_end - 1;
            proof {
                self.lemma_dropped(prev);
            }
        }
        let ghost high = self.index_end as int;
        while self.index_start < self.index_end && self.get(self.index_start) == 0
            invariant
                before.wf(),
                self.wf(),
                self.index_end == high,
                self.scale == before.scale,
                self.width == before.width,
                self.index_base == before.index_base,
                self.counts() == before.counts(),
                crate::layout::trim_low(before.counts(), self.index_start as int, high)
                    == crate::layout::trim_low(before.counts(), before.index_start as int, high),
            decreases self.index_end - self.index_start,
        {
            let ghost prev = *self;
            proof {
                prev.lemma_bounds();
            }
            self.index_start = self.index_start + 1;
            proof {
                self.lemma_dropped(prev);
            }
        }
        proof {
            assert(self.layout() =~= before.layout().trimmed());
        }
    }

    /// Dropping an empty bucket at one end leaves the counts alone.
    proof fn lemma_dropped(self, prev: Self)
        requires
            prev.wf(),
            self.scale == prev.scale,
            self.width == prev.width,
            self.index_base == prev.index_base,
            self.data == prev.data,
            prev.index_start < prev.index_end,
            ({
                ||| self.index_start == prev.index_start && self.index_end == prev.index_end - 1
                    && prev.counts()(prev.index_end as int) == 0
                ||| self.index_end == prev.index_end && self.index_start == prev.index_start + 1
                    && prev.counts()(prev.index_start as int) == 0
            }),
        ensures
            self.wf(),
            self.counts() == prev.counts(),
    {
        prev.lemma_bounds();
        let c = self.cap();
        assert forall|i: int| #[trigger] self.at(i) == prev.at(i) by {}
        assert forall|i: int| #[trigger] self.counts()(i) == prev.counts()(i) by {}
        assert(self.counts() =~= prev.counts());
        assert forall|i: int| #![trigger self.at(i)]
            self.index_end - c < i < self.index_start + c && !(self.index_start <= i
                <= self.index_end) implies self.at(i) == 0 by {
            assert(prev.at(i) == self.at(i));
            if prev.index_start <= i <= prev.index_end {
                assert(prev.counts()(i) == prev.at(i));
            } else if i == prev.index_end - c {
                lemma_same_residue(i - self.index_base, prev.index_end - self.index_base, c);
                assert(prev.counts()(prev.index_end as int) == prev.at(prev.index_end as int));
            } else if i == prev.index_start + c {
                lemma_same_residue(prev.index_start - self.index_base, i - self.index_base, c);
                assert(prev.counts()(prev.index_start as int) == prev.at(prev.index_start as int));
            }
        }
        prev.layout().lemma_any(N as int);
        assert forall|i: int| #[trigger] (self.layout().counts)(i) != 0 implies self.layout().low <= i
            < self.layout().high + 1 by {
            assert(prev.counts()(i) != 0);
        }
        if self.layout().vacant() {
            let j = choose|j: int| #[trigger] (prev.layout().counts)(j) != 0;
            assert(self.counts()(j) != 0);
        }
    }
}

/// Numbers one period apart have the same residue.
proof fn lemma_same_residue(x: int, y: int, c: int)
    requires
        c > 0,
        y == x + c,
    ensures
        x % c == y % c,
{
    lemma_div_parts(x, c);
    assert(y == (x / c + 1) * c + x % c) by (nonlinear_arith)
        requires
            y == x + c,
            x == (x / c) * c + x % c,
    ;
    lemma_div_unique(y, c, x / c + 1, x % c);
}

impl<const N: usize> Buckets<N> {
    /// Grows the live range to a bucket for which there is room.
    fn seat(&mut self, index: i32)
        requires
            old(self).wf(),
            old(self).layout().roomy(N as int, index as int),
        ensures
            final(self).wf(),
            final(self).layout() == old(self).layout().seated(index as int),
            final(self).data == old(self).data,
            final(self).index_start <= index <= final(self).index_end,
    {
        let ghost before = *self;
        let ghost n = N as int;
        proof {
            before.lemma_bounds();
            lemma_lanes(before.level());
            before.layout().lemma_seated(n, index as int);
        }
        if self.is_effectively_empty() {
            self.index_start = index;
            self.index_end = index;
            // Counters start in line with a word, so that pairs always share a word.
            self.index_base = self.width.word_start(index);
            proof {
                assert forall|i: int| #[trigger] self.at(i) == 0 by {
                    assert(0 <= (i - self.index_base) % self.cap() < self.cap());
                    before.lemma_all_zero((i - self.index_base) % self.cap());
                }
                assert forall|i: int| #[trigger] self.counts()(i) == before.counts()(i) by {
                    if before.index_start <= i <= before.index_end {
                        assert((before.layout().counts)(i) == 0);
                    }
                }
                assert(self.counts() =~= before.counts());
            }
        } else {
            if index < self.index_start {
                self.index_start = index;
            } else if index > self.index_end {
                self.index_end = index;
            }
            proof {
                assert forall|i: int| #[trigger] self.at(i) == before.at(i) by {}
                assert forall|i: int| #[trigger] self.counts()(i) == before.counts()(i) by {
                    if self.index_start <= i <= self.index_end && !(before.index_start <= i
                        <= before.index_end) {
                        assert(before.at(i) == 0);
                    }
                }
                assert(self.counts() =~= before.counts());
                assert forall|i: int| #![trigger self.at(i)]
                    self.index_end - self.cap() < i < self.index_start + self.cap() && !(
                    self.index_start <= i <= self.index_end) implies self.at(i) == 0 by {
                    assert(before.at(i) == 0);
                }
            }
        }
        proof {
            assert(self.layout() =~= before.layout().seated(index as int));
        }
    }

    /// Attempts to add `incr` to a bucket of the live range. Returns false when its counter is
    /// too narrow.
    fn bucket_try_increment(&mut self, index: i32, incr: u64) -> (r: bool)
        requires
            old(self).packed(),
            old(self).index_start <= index <= old(self).index_end,
        ensures
            r <==> (old(self).layout().counts)(index as int) + incr <= capacity(
                old(self).layout().level,
            ),
            !r ==> *final(self) == *old(self),
            r ==> final(self).packed() && final(self).layout() == (Layout {
                counts: plus(old(self).layout().counts, index as int, incr as nat),
                ..old(self).layout()
            }),
    {
        let ghost before = *self;
        proof {
            before.lemma_cap();
        }
        let slot = self.slot_for(index);
        let val: u64 = bucket_get(&self.data, self.width, slot);
        if val > self.width.counter_max() || incr > self.width.counter_max() - val {
            return false;
        }
        bucket_set(&mut self.data, self.width, slot, val + incr);
        proof {
            let c = self.cap();
            assert forall|i: int| #![trigger self.at(i)]
                -c < i - index < c && i != index implies self.at(i) == before.at(i) by {
                assert(0 <= (i - self.index_base) % c < c);
                if (i - self.index_base) % c == slot {
                    lemma_mod_injective(i - self.index_base, index - self.index_base, c);
                }
            }
            assert(self.at(index as int) == val + incr);
            assert forall|i: int| #[trigger] self.counts()(i) == plus(
                before.counts(),
                index as int,
                incr as nat,
            )(i) by {
                if self.index_start <= i <= self.index_end && i != index {
                    assert(self.at(i) == before.at(i));
                }
            }
            assert(self.counts() =~= plus(before.counts(), index as int, incr as nat));
            assert forall|i: int| #![trigger self.at(i)]
                self.index_end - c < i < self.index_start + c && !(self.index_start <= i
                    <= self.index_end) implies self.at(i) == 0 by {
                assert(before.at(i) == 0);
            }
        }
        true
    }

    /// Attempts to count `incr` observations of a bucket; none at all are always counted. The
    /// live range grows to the bucket where there is room for it, also when the counter then
    /// proves too narrow.
    ///
    /// The pool stays valid as long as the total fits.
    pub fn increment_index_by(&mut self, index: i32, incr: u64) -> (r: IncrResult)
        requires
            old(self).wf(),
        ensures
            incr == 0 ==> r is Counted && *final(self) == *old(self),
            r is NeedsDownscale ==> *final(self) == *old(self),
            r is NeedsDownscale <==> incr > 0 && !old(self).layout().roomy(N as int, index as int),
            r matches IncrResult::NeedsDownscale(hl) ==> hl.low == (if index < old(self).layout().low {
                index as int
            } else {
                old(self).layout().low
            }) && hl.high == (if index > old(self).layout().high {
                index as int
            } else {
                old(self).layout().high
            }),
            r is Counted <==> incr == 0 || (old(self).layout().roomy(N as int, index as int) && (
            old(self).layout().counts)(index as int) + incr <= capacity(old(self).layout().level)),
            r is Counted && incr > 0 ==> final(self).layout() == old(self).layout().counted(
                index as int,
                incr as nat,
            ),
            r is CounterOverflow ==> final(self).layout() == old(self).layout().seated(index as int),
            total(old(self).layout().counts, bottom(), top()) + incr <= u64::MAX
                ==> final(self).wf(),
    {
        if incr == 0 {
            return IncrResult::Counted;
        }
        let ghost before = *self;
        let ghost n = N as int;
        proof {
            before.lemma_bounds();
            before.layout().lemma_any(n);
        }
        let max_size: i32 = self.bucket_capacity() as i32;
        let wide = self.width == BucketWidth::U64;
        if !self.is_effectively_empty() {
            if index < self.index_start {
                // Narrow counters stand in line from the base up and never wrap.
                if !wide && index < self.index_base {
                    return IncrResult::NeedsDownscale(HighLow { low: index, high: self.index_end });
                }
                if self.index_end as i64 - index as i64 >= max_size as i64 {
                    return IncrResult::NeedsDownscale(HighLow { low: index, high: self.index_end });
                }
            } else if index > self.index_end {
                if !wide && index as i64 >= self.index_base as i64 + max_size as i64 {
                    return IncrResult::NeedsDownscale(
                        HighLow { low: self.index_start, high: index },
                    );
                }
                if index as i64 - self.index_start as i64 >= max_size as i64 {
                    return IncrResult::NeedsDownscale(
                        HighLow { low: self.index_start, high: index },
                    );
                }
            }
        }
        assert(before.layout().roomy(n, index as int));
        self.seat(index);
        if !self.bucket_try_increment(index, incr) {
            return IncrResult::CounterOverflow;
        }
        proof {
            assert(self.layout() =~= before.layout().counted(index as int, incr as nat));
            if total(before.layout().counts, bottom(), top()) + incr <= u64::MAX {
                before.layout().lemma_counted(n, index as int, incr as nat);
            }
        }
        IncrResult::Counted
    }

    /// Clears the counters and writes `sums` into the buckets `start..=end`.
    fn rewrite_buckets(
        &mut self,
        scale: Scale,
        width: BucketWidth,
        start: i32,
        end: i32,
        base: i32,
        sums: &Vec<u64>,
    )
        requires
            2 <= N <= MAX_WORDS,
            width !is B0,
            start <= end,
            sums@.len() == end - start + 1,
            end - start < slots(N as int, width.counter().level()),
            forall|j: int|
                0 <= j < sums@.len() ==> #[trigger] sums@[j] <= capacity(width.counter().level()),
        ensures
            final(self).packed(),
            final(self).scale == scale,
            final(self).width == width,
            final(self).index_start == start,
            final(self).index_end == end,
            final(self).index_base == base,
            forall|i: int|
                #[trigger] final(self).counts()(i) == if start <= i <= end {
                    sums@[i - start] as nat
                } else {
                    0
                },
    {
        self.scale = scale;
        self.width = width;
        self.index_start = start;
        self.index_end = end;
        self.index_base = base;
        self.data = [0u64;N];
        let ghost k = width.counter().level();
        let ghost c = slots(N as int, k);
        proof {
            lemma_lanes(k);
            assert(N <= c <= 0x7c00_0000) by (nonlinear_arith)
                requires
                    c == N * lanes(k),
                    1 <= lanes(k) <= 64,
                    2 <= N <= MAX_WORDS,
            ;
            assert forall|i: int| #[trigger] self.at(i) == 0 by {
                assert(0 <= (i - self.index_base) % c < c);
                lemma_zero_cell(self.data@, k, (i - self.index_base) % c);
            }
        }
        let size = width.capacity(N);
        let count = sums.len();
        let mut j: usize = 0;
        while j < count
            invariant
                2 <= N <= MAX_WORDS,
                self.data@.len() == N,
                self.scale == scale,
                self.width == width,
                width !is B0,
                self.index_start == start,
                self.index_end == end,
                self.index_base == base,
                start <= end,
                count == sums@.len() == end - start + 1,
                end - start < c,
                c == self.cap(),
                size == c,
                c == N * lanes(k),
                k == width.counter().level(),
                2 <= c <= 0x7c00_0000,
                j <= count,
                forall|m: int|
                    0 <= m < sums@.len() ==> #[trigger] sums@[m] <= capacity(
                        width.counter().level(),
                    ),
                forall|i: int|
                    #![trigger self.at(i)]
                    end - c < i < start + c ==> self.at(i) == if start <= i < start + j {
                        sums@[i - start] as nat
                    } else {
                        0
                    },
            decreases count - j,
        {
            let ghost before = *self;
            let index: i32 = start + j as i32;
            let slot = ring_index(index, size, base);
            bucket_set(&mut self.data, width, slot, sums[j]);
            proof {
                assert forall|i: int| #![trigger self.at(i)]
                    end - c < i < start + c implies self.at(i) == if start <= i < start + j + 1 {
                    sums@[i - start] as nat
                } else {
                    0
                } by {
                    assert(0 <= (i - base) % c < c);
                    assert(before.at(i) == cell(before.data@, k, (i - base) % c));
                    if (i - base) % c == slot {
                        lemma_mod_injective(i - base, index - base, c);
                    }
                }
            }
            j = j + 1;
        }
    }

    /// The counts of the live range with groups of `2^by` buckets merged.
    fn gather(&self, by: u32) -> (r: Vec<u64>)
        requires
            self.wf(),
            by <= self.layout().scale - MIN_SCALE,
        ensures
            r@.len() == self.layout().high / pow2(by as nat) as int - self.layout().low / pow2(
                by as nat,
            ) as int + 1,
            forall|j: int|
                0 <= j < r@.len() ==> #[trigger] r@[j] == coarsen(self.layout().counts, by as nat)(
                    self.layout().low / pow2(by as nat) as int + j,
                ),
    {
        let ghost d = by as nat;
        let ghost p = pow2(d) as int;
        let ghost h = self.counts();
        proof {
            self.lemma_bounds();
            self.layout().lemma_coarser(N as int, d);
            lemma_pow2_pos(d);
        }
        let low = shr(self.index_start, by);
        let high = shr(self.index_end, by);
        proof {
            lemma_div_bracket(self.index_start as int, p, low as int);
            lemma_div_bracket(self.index_end as int, p, high as int);
        }
        let len: usize = (high as i64 - low as i64 + 1) as usize;
        let mut sums: Vec<u64> = vec![0u64;len];
        let mut index: i64 = self.index_start as i64;
        let ghost part = before_index(h, index as int);
        proof {
            assert forall|j: int| 0 <= j < sums@.len() implies #[trigger] sums@[j] == coarsen(part, d)(
                low + j,
            ) by {
                assert forall|t: int| (low + j) * p <= t < (low + j + 1) * p implies #[trigger] part(t)
                    == 0 by {}
                lemma_total_zero(part, (low + j) * p, (low + j + 1) * p);
            }
        }
        while index <= self.index_end as i64
            invariant
                self.wf(),
                d == by,
                p == pow2(d),
                p >= 1,
                by <= 18,
                h == self.layout().counts,
                part == before_index(h, index as int),
                low == self.index_start as int / p,
                high == self.index_end as int / p,
                low <= high,
                high - low < 0x7c00_0000,
                sums@.len() == high - low + 1,
                at_most(coarsen(h, d), u64::MAX as nat),
                self.index_start <= index <= self.index_end + 1,
                forall|j: int|
                    0 <= j < sums@.len() ==> #[trigger] sums@[j] == coarsen(part, d)(low + j),
            decreases self.index_end + 1 - index,
        {
            let val = self.get(index as i32);
            proof {
                lemma_div_mono(self.index_start as int, index as int, p);
                lemma_div_mono(index as int, self.index_end as int, p);
            }
            let out: usize = (shr(index as i32, by) - low) as usize;
            let ghost next = before_index(h, index + 1);
            proof {
                assert(next =~= plus(part, index as int, val as nat));
                lemma_coarsen_plus(part, index as int, val as nat, d);
                let q = low + out;
                assert(coarsen(next, d)(q) == coarsen(part, d)(q) + val);
                assert(coarsen(next, d)(q) <= coarsen(h, d)(q)) by {
                    lemma_total_le(next, h, q * p, (q + 1) * p);
                }
                assert(coarsen(h, d)(q) <= u64::MAX);
                assert(sums@[out as int] == coarsen(part, d)(low + out));
            }
            let sum: u64 = sums[out] + val;
            sums.set(out, sum);
            index = index + 1;
            proof {
                part = next;
            }
        }
        proof {
            assert(part =~= h) by {
                assert forall|t: int| #[trigger] part(t) == h(t) by {
                    if t >= index && h(t) != 0 {
                        assert(self.layout().low <= t < self.layout().high + 1);
                    }
                }
            }
        }
        sums
    }
}

/// The counts below an index.
spec fn before_index(h: Counts, index: int) -> Counts {
    |i: int|
        if i < index {
            h(i)
        } else {
            0
        }
}

impl<const N: usize> Buckets<N> {
    /// Rewrites the live range with groups of `2^by` buckets merged, at a width whose counters
    /// hold the sums.
    fn collapse(&mut self, by: u32, width: BucketWidth, base: i32, Ghost(after): Ghost<Layout>)
        requires
            old(self).wf(),
            by <= old(self).layout().scale - MIN_SCALE,
            width !is B0,
            after.valid(N as int),
            after.level == width.counter().level(),
            after.base == base,
            after.scale == old(self).layout().scale - by,
            after.low == old(self).layout().low / pow2(by as nat) as int,
            after.high == old(self).layout().high / pow2(by as nat) as int,
            after.counts == coarsen(old(self).layout().counts, by as nat),
        ensures
            final(self).wf(),
            final(self).layout() == after,
    {
        let ghost before = *self;
        proof {
            before.lemma_bounds();
            after.lemma_counts(N as int);
        }
        let sums = self.gather(by);
        let start = shr(self.index_start, by);
        let end = shr(self.index_end, by);
        let scale = match Scale::new(self.scale.scale() - by as i32) {
            Ok(s) => s,
            Err(_) => self.scale,
        };
        proof {
            assert forall|j: int| 0 <= j < sums@.len() implies #[trigger] sums@[j] <= capacity(
                width.counter().level(),
            ) by {
                assert((after.counts)(after.low + j) <= capacity(after.level));
            }
        }
        self.rewrite_buckets(scale, width, start, end, base, &sums);
        proof {
            assert forall|i: int| #[trigger] self.counts()(i) == (after.counts)(i) by {
                if start <= i <= end {
                    assert(sums@[i - start] == coarsen(before.layout().counts, by as nat)(
                        start + (i - start),
                    ));
                } else if (after.counts)(i) != 0 {
                    assert(after.low <= i < after.high + 1);
                }
            }
            assert(self.counts() =~= after.counts);
            assert(self.layout() =~= after);
        }
    }

    /// Moves to the lowest scale, with the widest counters, if all live buckets are buckets of
    /// actual values.
    fn ground(&mut self)
        requires
            old(self).wf(),
        ensures
            final(self).wf(),
            final(self).layout() == old(self).layout().grounded(),
    {
        let ghost after = self.layout().grounded();
        proof {
            self.layout().lemma_grounded(N as int);
            self.lemma_bounds();
        }
        let by: u32 = (self.scale.scale() - MIN_SCALE) as u32;
        let base = shr(self.index_start, by);
        let last = shr(self.index_end, by);
        proof {
            let p = pow2(by as nat) as int;
            lemma_pow2_pos(by as nat);
            lemma_div_bracket(self.index_start as int, p, base as int);
            lemma_div_bracket(self.index_end as int, p, last as int);
            assert(base >= -1 <==> self.index_start >= -p) by (nonlinear_arith)
                requires
                    p >= 1,
                    base * p <= self.index_start < (base + 1) * p,
            ;
            assert(last <= 0 <==> self.index_end < p) by (nonlinear_arith)
                requires
                    p >= 1,
                    last * p <= self.index_end < (last + 1) * p,
            ;
        }
        if base >= -1 && last <= 0 {
            self.collapse(by, BucketWidth::U64, base, Ghost(after));
        }
    }

    /// Merges buckets one by one and rewrites them from a new base. Used when pairs do not line
    /// up with the words. Merges on until the range has room at the new width. Returns false if the
    /// scale runs out.
    fn scalar_merge_step(&mut self, force_widen: bool) -> (r: bool)
        requires
            old(self).wf(),
            old(self).level() < 6,
            old(self).layout().scale > MIN_SCALE,
        ensures
            final(self).wf(),
            final(self).layout() == old(self).layout().scattered(N as int, force_widen),
            r <==> !old(self).layout().scatter_runs_out(N as int, force_widen),
    {
        let ghost p = self.layout();
        let ghost n = N as int;
        let ghost h = p.counts;
        proof {
            self.lemma_bounds();
            reveal(Layout::scattered);
            reveal(Layout::scatter_runs_out);
            p.lemma_scattered(n, force_widen);
            p.lemma_coarser(n, 1);
        }
        // Sums of pairs tell whether the counters must widen.
        let sums = self.gather(1);
        let max_val = self.width.counter_max();
        let mut needs_widen = force_widen;
        let mut i: usize = 0;
        while i < sums.len()
            invariant
                i <= sums@.len(),
                max_val == capacity(p.level),
                needs_widen <==> force_widen || exists|j: int|
                    0 <= j < i && #[trigger] sums@[j] > capacity(p.level),
            decreases sums@.len() - i,
        {
            if sums[i] > max_val {
                assert(sums@[i as int] > capacity(p.level));
                needs_widen = true;
            }
            i = i + 1;
        }
        let ghost first = p.merged_level(force_widen);
        proof {
            let q = coarsen(h, 1);
            let low = p.low / pow2(1) as int;
            if at_most(q, capacity(p.level)) {
                assert forall|j: int| 0 <= j < sums@.len() implies #[trigger] sums@[j] <= capacity(
                    p.level,
                ) by {
                    assert(q(low + j) <= capacity(p.level));
                }
            } else {
                let t = choose|t: int| !(#[trigger] q(t) <= capacity(p.level));
                assert(q(t) != 0);
                assert(sums@[t - low] == q(low + (t - low)));
                assert(sums@[t - low] > capacity(p.level));
            }
            assert(needs_widen <==> first == p.level + 1);
        }
        let first_level: usize = if needs_widen {
            self.width.level() + 1
        } else {
            self.width.level()
        };
        let words: i32 = N as i32;
        let mut j: u32 = 1;
        let ghost w = p.lemma_spread_exists(n, first);
        loop
            invariant
                self.wf(),
                self.layout() == p,
                n == N,
                words == N,
                first == first_level,
                first <= 6,
                1 <= j <= w <= 7,
                p.is_spread(n, first, w),
                self.index_start <= self.index_end,
                p.valid(n),
            ensures
                j == w,
            decreases w - j,
        {
            let ghost q = p.spread(first, j as nat);
            let low = shr(self.index_start, j);
            let high = shr(self.index_end, j);
            let level: usize = if first_level + j as usize - 1 <= 6 {
                first_level + j as usize - 1
            } else {
                6
            };
            let width = crate::width::Width::from_level(level);
            proof {
                lemma_pow2_pos(j as nat);
                lemma_div_bracket(self.index_start as int, pow2(j as nat) as int, low as int);
                lemma_div_bracket(self.index_end as int, pow2(j as nat) as int, high as int);
                let d = pow2(j as nat) as int;
                lemma_div_mono(self.index_start as int, self.index_end as int, d);
                lemma_lanes(q.level);
                lemma_word_of(low as int, q.level);
                assert(n * lanes(q.level) <= 0x7c00_0000) by (nonlinear_arith)
                    requires
                        0 <= n <= MAX_WORDS,
                        1 <= lanes(q.level) <= 64,
                ;
                assert(0 <= n * lanes(q.level)) by (nonlinear_arith)
                    requires
                        0 <= n,
                        1 <= lanes(q.level),
                ;
            }
            let base = width.slot_start_u64(low);
            let size: i32 = BucketWidth::from_width(width).capacity(N) as i32;
            let fits = if level < 6 {
                (high as i64) < base as i64 + size as i64
            } else {
                high as i64 - (low as i64) < words as i64
            };
            proof {
                assert(fits <==> q.has_room(n));
                if fits {
                    if j < w {
                        assert(!p.spread(first, j as nat).has_room(n));
                    }
                } else if j == w {
                    assert(p.spread(first, w).has_room(n));
                }
            }
            if fits {
                break;
            }
            j = j + 1;
        }
        proof {
            let c = choose|c: nat| p.is_spread(n, first, c);
            p.lemma_spread_unique(n, first, c, w);
        }
        if (j as i32) > self.scale.scale() - MIN_SCALE {
            self.ground();
            return false;
        }
        let level: usize = if first_level + j as usize - 1 <= 6 {
            first_level + j as usize - 1
        } else {
            6
        };
        let width = BucketWidth::from_width(crate::width::Width::from_level(level));
        let ghost q = p.spread(first, j as nat);
        proof {
            p.lemma_spread(n, force_widen, j as nat);
            q.lemma_counts(n);
        }
        let low = shr(self.index_start, j);
        let base = width.word_start(low);
        self.collapse(j, width, base, Ghost(q));
        true
    }
}

/// Counters in one line, `h(base)` first.
#[verifier::opaque]
spec fn in_line(data: Seq<u64>, k: nat, base: int, h: Counts) -> bool {
    forall|s: int| 0 <= s < data.len() * lanes(k) ==> #[trigger] cell(data, k, s) == h(base + s)
}

/// Sums of pairs stand in line at twice the width.
proof fn lemma_line_summed(lined: Seq<u64>, summed: Seq<u64>, k: nat, base: int, h: Counts)
    requires
        k < 6,
        summed.len() == lined.len(),
        forall|i: int|
            0 <= i < summed.len() ==> #[trigger] summed[i] == crate::lane::pair_sums(
                lined[i],
                k as u64,
            ),
        in_line(lined, k, 2 * base, h),
    ensures
        in_line(summed, k + 1, base, coarsen(h, 1)),
{
    reveal(in_line);
    lemma_lanes(k);
    let n = lined.len() as int;
    assert(n * lanes(k) == 2 * (n * lanes(k + 1))) by (nonlinear_arith)
        requires
            lanes(k) == 2 * lanes(k + 1),
    ;
    assert forall|s: int| 0 <= s < n * lanes(k + 1) implies #[trigger] cell(summed, k + 1, s)
        == coarsen(h, 1)(base + s) by {
        lemma_step_cell(lined, summed, k, s);
        lemma_coarsen_one(h, base + s);
        assert(cell(lined, k, 2 * s) == h(2 * base + 2 * s));
        assert(cell(lined, k, 2 * s + 1) == h(2 * base + (2 * s + 1)));
    }
}

/// A sum in line exceeds a counter exactly when a count does.
proof fn lemma_line_overflow(data: Seq<u64>, k: nat, base: int, g: Counts)
    requires
        k < 6,
        in_line(data, k + 1, base, g),
        within(g, base, base + data.len() * lanes(k + 1)),
    ensures
        (exists|i: int, j: u64|
            0 <= i < data.len() && j < lane_count((k + 1) as u64) && #[trigger] lane(
                data[i],
                (k + 1) as u64,
                j,
            ) > lane_max(k as u64)) <==> !at_most(g, capacity(k)),
{
    reveal(in_line);
    let n = data.len() as int;
    let d = lanes(k + 1);
    lemma_lanes(k + 1);
    if exists|i: int, j: u64|
        0 <= i < data.len() && j < lane_count((k + 1) as u64) && #[trigger] lane(
            data[i],
            (k + 1) as u64,
            j,
        ) > lane_max(k as u64) {
        let (i, j) = choose|i: int, j: u64|
            0 <= i < data.len() && j < lane_count((k + 1) as u64) && #[trigger] lane(
                data[i],
                (k + 1) as u64,
                j,
            ) > lane_max(k as u64);
        let s = i * d + j;
        lemma_div_unique(s, d, i, j as int);
        assert(0 <= s < n * d) by (nonlinear_arith)
            requires
                s == i * d + j,
                0 <= i < n,
                0 <= j < d,
        ;
        assert(cell(data, k + 1, s) == g(base + s));
        assert(!(g(base + s) <= capacity(k)));
    } else {
        assert forall|i: int| #[trigger] g(i) <= capacity(k) by {
            if g(i) != 0 {
                let s = i - base;
                assert(cell(data, k + 1, s) == g(base + s));
                lemma_cell_word(n, k + 1, s);
                let w = word_of(s, k + 1);
                let e = (s % d) as u64;
                assert(lane(data[w], (k + 1) as u64, e) <= lane_max(k as u64));
            }
        }
    }
}

/// Merges pairs of counters in place, all counters of a word at once. With an odd base the
/// counters first move up by one place, so that pairs line up. Returns the new width.
fn merge_pairs(
    data: &mut [u64],
    width: BucketWidth,
    shifted: bool,
    force_widen: bool,
    Ghost(base): Ghost<int>,
    Ghost(h): Ghost<Counts>,
) -> (r: BucketWidth)
    requires
        width !is B0,
        width !is U64,
        2 <= old(data)@.len() <= MAX_WORDS,
        in_line(old(data)@, width.counter().level(), base, h),
        within(h, base, base + old(data)@.len() * lanes(width.counter().level())),
        shifted <==> base % 2 != 0,
        shifted ==> h(base + old(data)@.len() * lanes(width.counter().level()) - 1) == 0,
    ensures
        final(data)@.len() == old(data)@.len(),
        r !is B0,
        r.counter().level() == if force_widen || !at_most(
            coarsen(h, 1),
            capacity(width.counter().level()),
        ) {
            width.counter().level() + 1
        } else {
            width.counter().level()
        },
        in_line(final(data)@, r.counter().level(), base / 2, coarsen(h, 1)),
{
    let ghost k = width.counter().level();
    let ghost n = data@.len() as int;
    let ghost first = data@;
    let ghost g = coarsen(h, 1);
    let ghost half = base / 2;
    proof {
        reveal(in_line);
        lemma_lanes(k);
        assert(n * lanes(k) == 2 * (n * lanes(k + 1))) by (nonlinear_arith)
            requires
                lanes(k) == 2 * lanes(k + 1),
        ;
    }
    if shifted {
        swar_shift_up_one(data, width);
        proof {
            assert forall|s: int| 0 <= s < n * lanes(k) implies #[trigger] cell(data@, k, s) == h(
                2 * half + s,
            ) by {
                lemma_shift_cell(first, data@, k, s);
                if s > 0 {
                    assert(cell(first, k, s - 1) == h(base + (s - 1)));
                } else {
                    assert(h(base - 1) == 0);
                }
            }
        }
    }
    let ghost lined = data@;
    assert(in_line(lined, k, 2 * half, h));
    swar_step(data, width);
    let ghost summed = data@;
    proof {
        lemma_line_summed(lined, summed, k, half, h);
        assert forall|i: int| #[trigger] g(i) != 0 implies half <= i < half + n * lanes(k + 1) by {
            lemma_coarsen_one(h, i);
        }
        lemma_line_overflow(summed, k, half, g);
    }
    let overflow = swar_has_overflow(data, width);
    if force_widen || overflow {
        return match width.wider() {
            Some(w) => w,
            None => width,
        };
    }
    swar_narrow_compact(data, width);
    proof {
        assert forall|s: int| 0 <= s < n * lanes(k) implies #[trigger] cell(data@, k, s) == g(half + s) by {
            if s < n * lanes(k + 1) {
                assert(cell(summed, k + 1, s) == g(half + s));
            }
            lemma_compact_cell(summed, data@, k, s);
        }
    }
    width
}

impl<const N: usize> Buckets<N> {
    /// What merging pairs in place starts from, and the layout it leads to.
    proof fn lemma_halve_start(self, force_widen: bool, q: Layout)
        requires
            self.wf(),
            self.level() < 6,
            self.layout().scale > MIN_SCALE,
            !self.layout().vacant(),
            !self.layout().crowded(N as int),
            q == self.layout().halved(N as int, force_widen),
        ensures
            self.cap() == N * lanes(self.level()),
            in_line(self.data@, self.level(), self.index_base as int, self.counts()),
            within(self.counts(), self.index_base as int, self.index_base + self.cap()),
            self.index_base as int % 2 != 0 ==> self.counts()(self.index_base + self.cap() - 1) == 0,
            self.index_start <= self.index_end,
            MIN_SCALE < self.scale.value() <= TABLE_SCALE,
            q.valid(N as int),
            !q.vacant(),
            2 <= N <= MAX_WORDS,
            slots(N as int, q.level) <= 0x7c00_0000,
    {
        reveal(in_line);
        let n = N as int;
        let p = self.layout();
        self.lemma_bounds();
        p.lemma_halved(n, force_widen);
        p.lemma_not_vacant(q, n);
        q.lemma_counts(n);
        assert forall|s: int| 0 <= s < self.data@.len() * lanes(self.level()) implies #[trigger] cell(
            self.data@,
            self.level(),
            s,
        ) == self.counts()(self.index_base + s) by {
            self.lemma_linear(s);
        }
    }

    /// Counters in line follow a layout that holds observations.
    proof fn lemma_lined(self, q: Layout)
        requires
            q.valid(N as int),
            !q.vacant(),
            self.width !is B0,
            self.data@.len() == N,
            in_line(self.data@, self.level(), q.base, q.counts),
            self.scale.value() == q.scale,
            self.level() == q.level,
            self.index_base == q.base,
            self.index_start == q.low,
            self.index_end == q.high,
            q.base <= q.low,
            q.high < q.base + slots(N as int, q.level),
        ensures
            self.wf(),
            self.layout() == q,
    {
        reveal(in_line);
        q.lemma_counts(N as int);
        assert forall|s: int| 0 <= s < self.cap() implies #[trigger] cell(
            self.data@,
            self.level(),
            s,
        ) == (q.counts)(self.index_base + s) by {}
        self.lemma_from_line(q.counts);
        assert(self.layout() =~= q);
    }

    /// Merges pairs of buckets in place.
    #[verifier::spinoff_prover]
    fn halve(&mut self, force_widen: bool)
        requires
            old(self).wf(),
            old(self).level() < 6,
            old(self).layout().scale > MIN_SCALE,
            !old(self).layout().vacant(),
            !old(self).layout().crowded(N as int),
        ensures
            final(self).wf(),
            final(self).layout() == old(self).layout().halved(N as int, force_widen),
    {
        let ghost before = *self;
        let ghost p = self.layout();
        let ghost h = self.counts();
        let ghost q = p.halved(N as int, force_widen);
        proof {
            before.lemma_halve_start(force_widen, q);
            assert(pow2(1) == 2) by {
                lemma2_to64();
            }
        }
        let odd = shr(self.index_base, 1) * 2 != self.index_base;
        let mut data: [u64; N] = self.data;
        let width = merge_pairs(
            &mut data,
            self.width,
            odd,
            force_widen,
            Ghost(before.index_base as int),
            Ghost(h),
        );
        let cap: i32 = width.capacity(N) as i32;
        let start = shr(self.index_start, 1);
        let end = shr(self.index_end, 1);
        let base = shr(self.index_base, 1);
        // The live range does not exceed the line of counters.
        let last: i64 = base as i64 + cap as i64 - 1;
        let scale = match Scale::new(self.scale.scale() - 1) {
            Ok(s) => s,
            Err(_) => self.scale,
        };
        *self = Buckets {
            scale,
            width,
            index_base: base,
            index_start: start,
            index_end: if end as i64 > last {
                last as i32
            } else {
                end
            },
            data,
        };
        proof {
            self.lemma_lined(q);
        }
    }

    /// Performs one merge of pairs at a width below 64 bits. The counters widen if that is asked
    /// for or if a sum exceeds them. Returns false if the scale runs out.
    fn swar_merge_step(&mut self, force_widen: bool) -> (r: bool)
        requires
            old(self).wf(),
            old(self).layout().level < 6,
            !old(self).layout().vacant(),
        ensures
            final(self).wf(),
            final(self).layout() == old(self).layout().merged(N as int, force_widen),
            r <==> !old(self).layout().merge_runs_out(N as int, force_widen),
    {
        proof {
            self.lemma_bounds();
            assert(pow2(1) == 2) by {
                lemma2_to64();
            }
        }
        if self.scale.scale() == MIN_SCALE {
            self.ground();
            return false;
        }
        let odd = shr(self.index_base, 1) * 2 != self.index_base;
        if odd && self.top_slot_occupied() {
            self.scalar_merge_step(force_widen)
        } else {
            self.halve(force_widen);
            true
        }
    }

    /// Widens the counters by one step, which also merges pairs of buckets. Returns false if the
    /// scale runs out.
    fn widen_one_step(&mut self) -> (r: bool)
        requires
            old(self).wf(),
            old(self).layout().level < 6,
        ensures
            final(self).wf(),
            final(self).layout() == old(self).layout().widened(N as int),
            r <==> !old(self).layout().widen_runs_out(N as int),
    {
        if self.scale.scale() == MIN_SCALE {
            self.ground();
            false
        } else if self.is_effectively_empty() {
            self.widen_vacant();
            true
        } else {
            self.swar_merge_step(true)
        }
    }

    /// Widens the counters of a pool that holds no observation.
    #[verifier::rlimit(60)]
    #[verifier::spinoff_prover]
    fn widen_vacant(&mut self)
        requires
            old(self).wf(),
            old(self).layout().level < 6,
            old(self).layout().vacant(),
            old(self).layout().scale > MIN_SCALE,
        ensures
            final(self).wf(),
            final(self).layout() == old(self).layout().widened(N as int),
    {
        let ghost p = self.layout();
        let ghost q = p.widened(N as int);
        proof {
            self.lemma_bounds();
            p.lemma_widened(N as int);
            p.lemma_vacant_coarser(N as int, 1);
            assert(pow2(1) == 2) by {
                lemma2_to64();
            }
        }
        let width = match self.width.wider() {
            Some(w) => w,
            None => self.width,
        };
        let scale = match Scale::new(self.scale.scale() - 1) {
            Ok(s) => s,
            Err(_) => self.scale,
        };
        *self = Buckets {
            scale,
            width,
            index_base: shr(self.index_base, 1),
            index_start: shr(self.index_start, 1),
            index_end: shr(self.index_end, 1),
            data: [0u64;N],
        };
        proof {
            self.lemma_zeros(q, N as int);
        }
    }

    /// A pool of zeros follows a vacant layout.
    proof fn lemma_zeros(self, q: Layout, n: int)
        requires
            n == N,
            q.valid(n),
            self.width !is B0,
            forall|i: int| 0 <= i < self.data@.len() ==> #[trigger] self.data@[i] == 0,
            self.scale.value() == q.scale,
            self.level() == q.level,
            self.index_base == q.base,
            self.index_start == q.low,
            self.index_end == q.high,
            q.counts == no_counts(),
        ensures
            self.wf(),
            self.layout() == q,
    {
        q.lemma_counts(n);
        assert forall|i: int| #[trigger] self.at(i) == 0 by {
            assert(0 <= (i - self.index_base) % self.cap() < self.cap());
            lemma_zero_cell(self.data@, self.level(), (i - self.index_base) % self.cap());
        }
        assert(self.counts() =~= no_counts());
        assert(self.layout() =~= q);
    }
}

impl<const N: usize> Buckets<N> {
    /// Merges groups of `2^by` buckets of the widest counters. Returns false if the scale runs out.
    fn bucket_downscale_u64(&mut self, by: u32) -> (r: bool)
        requires
            old(self).wf(),
            old(self).layout().level == 6,
            0 < by,
        ensures
            final(self).wf(),
            final(self).layout() == old(self).layout().collapsed(by as nat),
            r <==> old(self).layout().scale - by >= MIN_SCALE,
    {
        let ghost after = self.layout().collapsed(by as nat);
        proof {
            self.layout().lemma_collapsed(N as int, by as nat);
            after.lemma_counts(N as int);
            self.lemma_bounds();
        }
        if by > (self.scale.scale() - MIN_SCALE) as u32 {
            self.ground();
            return false;
        }
        let base = shr(self.index_start, by);
        self.collapse(by, BucketWidth::U64, base, Ghost(after));
        true
    }

    /// Widens the counters by `steps` steps, each of which merges pairs of buckets. Returns the
    /// number of steps by which the scale dropped, or `None` when the counters would exceed 64
    /// bits; the pool is then unchanged.
    pub fn bucket_widen(&mut self, steps: i32) -> (r: Option<i32>)
        requires
            old(self).wf(),
        ensures
            final(self).wf(),
            r.is_some() <==> old(self).layout().widened_by(N as int, steps as int).is_some(),
            r.is_some() ==> Some(final(self).layout()) == old(self).layout().widened_by(
                N as int,
                steps as int,
            ) && r.unwrap() == old(self).layout().scale - final(self).layout().scale,
            r.is_none() ==> *final(self) == *old(self),
            total(final(self).layout().counts, bottom(), top()) == total(
                old(self).layout().counts,
                bottom(),
                top(),
            ),
    {
        let ghost p = self.layout();
        let ghost n = N as int;
        let first = *self;
        let start = self.scale.scale();
        let mut left: i32 = steps;
        proof {
            self.lemma_bounds();
        }
        while left > 0
            invariant
                self.wf(),
                first.wf(),
                first == *old(self),
                n == N,
                p == first.layout(),
                left <= steps,
                p.widened_by(n, steps as int) == self.layout().widened_by(n, left as int),
                self.layout().scale <= p.scale,
                total(self.layout().counts, bottom(), top()) == total(p.counts, bottom(), top()),
            decreases left,
        {
            let ghost before = self.layout();
            if self.width == BucketWidth::U64 {
                *self = first;
                return None;
            }
            proof {
                self.lemma_bounds();
                before.lemma_widened(n);
                before.lemma_counts(n);
                crate::downscale::lemma_coarsen_inside(
                    before.counts,
                    (before.scale - before.widened(n).scale) as nat,
                    top(),
                );
            }
            let scale = self.scale.scale();
            let _ = self.widen_one_step();
            proof {
                self.lemma_bounds();
            }
            let mut done: i32 = scale - self.scale.scale();
            if done < 1 {
                done = 1;
            }
            left = if done >= left {
                0
            } else {
                left - done
            };
        }
        proof {
            self.lemma_bounds();
        }
        Some(start - self.scale.scale())
    }

    /// Bucket of the first counter.
    pub fn base(&self) -> (r: i32)
        ensures
            r == self.layout().base,
    {
        self.index_base
    }

    /// Lowers the scale of a pool that holds no observation. Returns false if the scale runs out.
    #[verifier::rlimit(60)]
    #[verifier::spinoff_prover]
    fn downscale_vacant(&mut self, change: u32) -> (r: bool)
        requires
            old(self).wf(),
            old(self).layout().vacant(),
            0 < change,
        ensures
            final(self).wf(),
            final(self).layout() == old(self).layout().lowered(N as int, change as int),
            r <==> old(self).layout().scale - change >= MIN_SCALE,
    {
        let ghost p = self.layout();
        let ghost n = N as int;
        proof {
            self.lemma_bounds();
        }
        if change > (self.scale.scale() - MIN_SCALE) as u32 {
            self.ground();
            return false;
        }
        let ghost q = p.lowered(n, change as int);
        proof {
            p.lemma_lowered(n, change as int);
            p.lemma_vacant_coarser(n, change as nat);
        }
        self.index_start = shr(self.index_start, change);
        self.index_end = shr(self.index_end, change);
        self.index_base = shr(self.index_base, change);
        self.scale = match Scale::new(self.scale.scale() - change as i32) {
            Ok(s) => s,
            Err(_) => self.scale,
        };
        self.data = [0u64;N];
        proof {
            self.lemma_zeros(q, n);
        }
        true
    }

    /// Merges narrow counters one step at a time, until `change` steps are done or the counters
    /// have 64 bits. Returns the number of steps that are left, and false if the scale ran out.
    fn merge_narrow(&mut self, change: u32) -> (r: (u32, bool))
        requires
            old(self).wf(),
            !old(self).layout().vacant(),
        ensures
            final(self).wf(),
            r.0 > 0 ==> final(self).layout().level == 6,
            old(self).layout().merged_by(N as int, change as int) == final(self).layout().merged_by(
                N as int,
                r.0 as int,
            ),
            old(self).layout().merge_by_runs_out(N as int, change as int) <==> !r.1
                || final(self).layout().merge_by_runs_out(N as int, r.0 as int),
    {
        let ghost p = self.layout();
        let ghost n = N as int;
        let mut remaining: u32 = change;
        let mut in_scale = true;
        while remaining > 0 && self.width != BucketWidth::U64
            invariant
                self.wf(),
                n == N,
                p == old(self).layout(),
                p.merged_by(n, change as int) == self.layout().merged_by(n, remaining as int),
                p.merge_by_runs_out(n, change as int) <==> !in_scale
                    || self.layout().merge_by_runs_out(n, remaining as int),
                !self.layout().vacant(),
            decreases remaining,
        {
            let ghost before = self.layout();
            proof {
                self.lemma_bounds();
                before.lemma_merged(n, false);
                before.lemma_not_vacant(before.merged(n, false), n);
            }
            let scale = self.scale.scale();
            let merged = self.swar_merge_step(false);
            in_scale = in_scale && merged;
            proof {
                self.lemma_bounds();
            }
            let done: u32 = (scale - self.scale.scale()) as u32;
            if done == 0 || done >= remaining {
                remaining = 0;
            } else {
                remaining = remaining - done;
            }
        }
        (remaining, in_scale)
    }

    /// Lowers the scale by at least `change` steps, or to the lowest scale.
    ///
    /// Below 64 bits the counters are merged one step at a time. A step whose sums all fit keeps
    /// the width, and with it the number of buckets; a step with a larger sum widens the
    /// counters. At 64 bits the remaining steps are taken at once. Returns false if the scale runs
    /// out.
    pub fn do_downscale(&mut self, change: u32) -> (r: bool)
        requires
            old(self).wf(),
        ensures
            final(self).wf(),
            final(self).layout() == old(self).layout().lowered(N as int, change as int),
            r <==> !old(self).layout().lower_runs_out(N as int, change as int),
    {
        if change == 0 {
            return true;
        }
        if self.is_effectively_empty() {
            return self.downscale_vacant(change);
        }
        let (remaining, merged) = self.merge_narrow(change);
        let mut in_scale = merged;
        if remaining > 0 {
            let collapsed = self.bucket_downscale_u64(remaining);
            in_scale = in_scale && collapsed;
        }
        self.trim_bucket_range();
        in_scale
    }

    /// Lowers the scale to `target` or below. Returns false if the scale runs out.
    pub fn downscale_to(&mut self, target: i32) -> (r: bool)
        requires
            old(self).wf(),
        ensures
            final(self).wf(),
            final(self).layout() == old(self).layout().lowered(
                N as int,
                old(self).layout().scale - target,
            ),
            r <==> !old(self).layout().lower_runs_out(
                N as int,
                old(self).layout().scale - target,
            ),
    {
        proof {
            self.lemma_bounds();
        }
        if self.scale.scale() <= target {
            return true;
        }
        let change: u32 = (self.scale.scale() as i64 - target as i64) as u32;
        self.do_downscale(change)
    }

    /// Acts on the result of [`Self::increment_index_by`]. Returns true when the observations
    /// were counted, and false when the layout was adjusted and the caller should try again; then
    /// false again if the scale runs out.
    fn handle_incr_result(&mut self, result: IncrResult) -> (r: (bool, bool))
        requires
            old(self).wf(),
            result is CounterOverflow ==> old(self).layout().level < 6,
            result matches IncrResult::NeedsDownscale(hl) ==> hl.low <= hl.high,
        ensures
            final(self).wf(),
            r.0 <==> result is Counted,
            r.0 ==> *final(self) == *old(self) && r.1,
            result is CounterOverflow ==> final(self).layout() == old(self).layout().widened(
                N as int,
            ) && (r.1 <==> !old(self).layout().widen_runs_out(N as int)),
            result matches IncrResult::NeedsDownscale(hl) ==> ({
                let p = old(self).layout();
                let by = steps_to_fit(hl.low as int, hl.high as int, slots(N as int, p.level));
                &&& final(self).layout() == if by > 0 {
                    p.lowered(N as int, by as int)
                } else if p.level < 6 {
                    p.widened(N as int)
                } else {
                    p.lowered(N as int, 1)
                }
                &&& r.1 <==> !(if by > 0 {
                    p.lower_runs_out(N as int, by as int)
                } else if p.level < 6 {
                    p.widen_runs_out(N as int)
                } else {
                    p.lower_runs_out(N as int, 1)
                })
            }),
    {
        match result {
            IncrResult::Counted => (true, true),
            IncrResult::CounterOverflow => (false, self.widen_one_step()),
            IncrResult::NeedsDownscale(hl) => {
                let size = self.bucket_capacity();
                let change = hl.change_steps(size);
                proof {
                    let by = steps_to_fit(hl.low as int, hl.high as int, size as int);
                    lemma_change_unique(
                        hl.low as int,
                        hl.high as int,
                        size as int,
                        change as nat,
                        by,
                    );
                }
                let in_scale = if change > 0 {
                    self.do_downscale(change)
                } else if self.width != BucketWidth::U64 {
                    self.widen_one_step()
                } else {
                    self.do_downscale(1)
                };
                (false, in_scale)
            },
        }
    }

    /// How many adjustments are left at most.
    fn slack(&self) -> (r: i32)
        requires
            self.wf(),
        ensures
            r == self.layout().slack(),
    {
        let steps: i32 = self.scale.scale() - MIN_SCALE;
        if self.width != BucketWidth::U64 {
            2 * steps + 1
        } else {
            2 * steps
        }
    }

    /// Counts `incr` observations of bucket `key` of the scale `from`, adjusting the layout as
    /// often as it takes. Returns false if the scale runs out; the observations are then counted
    /// at the lowest scale, if that has room for all buckets.
    pub fn retry_increment(&mut self, key: i32, from: i32, incr: u64) -> (r: bool)
        requires
            old(self).wf(),
            incr > 0,
            old(self).layout().scale <= from <= TABLE_SCALE,
            total(old(self).layout().counts, bottom(), top()) + incr <= u64::MAX,
        ensures
            final(self).wf(),
            r || (old(self).layout().inside() && -side(from as int) <= key < side(from as int))
                ==> final(self).layout() == old(self).layout().recorded(
                N as int,
                key as int,
                from as int,
                incr as nat,
            ),
            r <==> !old(self).layout().record_runs_out(
                N as int,
                key as int,
                from as int,
                incr as nat,
            ),
    {
        let ghost p = self.layout();
        let ghost n = N as int;
        let ghost mut k: nat = 0;
        let mut in_scale = true;
        proof {
            p.lemma_set_out(n, key as int, from as int, incr as nat);
        }
        loop
            invariant
                self.wf(),
                n == N,
                incr > 0,
                p == old(self).layout(),
                p.valid(n),
                p.scale <= from <= TABLE_SCALE,
                total(p.counts, bottom(), top()) + incr <= u64::MAX,
                self.layout() == p.adjusted_times(n, key as int, from as int, k),
                in_scale <==> !p.adjusts_run_out(n, key as int, from as int, k),
                p.on_the_way(n, key as int, from as int, incr as nat, k),
            decreases self.layout().slack(),
        {
            let ghost before = self.layout();
            proof {
                self.lemma_bounds();
                before.lemma_key(n, key as int, from as int);
            }
            let slack = self.slack();
            let index = shr(key, (from - self.scale.scale()) as u32);
            let ghost ready = before.ready(n, key as int, from as int, incr as nat);
            proof {
                assert(index == bucket_at_scale(key as int, from as int, before.scale));
                if !ready {
                    before.lemma_adjusted(n, index as int, incr as nat);
                    p.lemma_on_the_way(n, key as int, from as int, incr as nat, k);
                }
            }
            let result = self.increment_index_by(index, incr);
            let (counted, adjusted) = self.handle_incr_result(result);
            if counted {
                proof {
                    assert(p.is_settled(n, key as int, from as int, incr as nat, k));
                    let c = choose|c: nat| p.is_settled(n, key as int, from as int, incr as nat, c);
                    p.lemma_settled_unique(n, key as int, from as int, incr as nat, c, k);
                    if !in_scale {
                        p.lemma_runs_out(n, key as int, from as int, incr as nat, k);
                    }
                }
                return in_scale;
            }
            in_scale = in_scale && adjusted;
            proof {
                assert(self.layout() == before.adjusted(n, index as int));
                assert(adjusted <==> !before.adjust_runs_out(n, index as int));
                k = k + 1;
            }
            if self.slack() >= slack {
                proof {
                    p.lemma_runs_out(n, key as int, from as int, incr as nat, k);
                }
                return false;
            }
        }
    }
}

impl<const N: usize> Buckets<N> {
    /// Gives an empty pool counters at least as wide as `width`.
    pub fn adopt_width(&mut self, width: BucketWidth)
        requires
            old(self).wf(),
            old(self).layout().vacant(),
            width !is B0,
        ensures
            final(self).wf(),
            final(self).layout() == (Layout {
                level: if width.counter().level() > old(self).layout().level {
                    width.counter().level()
                } else {
                    old(self).layout().level
                },
                ..old(self).layout()
            }),
    {
        let ghost p = self.layout();
        proof {
            self.lemma_bounds();
            p.lemma_vacant_coarser(N as int, 0);
        }
        if width.level() > self.width.level() {
            self.width = width;
        }
        self.data = [0u64;N];
        proof {
            let q = Layout { level: self.level(), ..p };
            lemma_lanes(q.level);
            assert(slots(N as int, q.level) >= 1) by (nonlinear_arith)
                requires
                    slots(N as int, q.level) == N * lanes(q.level),
                    N >= 2,
                    lanes(q.level) >= 1,
            ;
            self.lemma_zeros(q, N as int);
        }
    }

    /// The counts of the live range, lowest bucket first; empty when there is none.
    pub fn live_counts(&self) -> (r: Vec<u64>)
        requires
            self.wf(),
        ensures
            r@ == self.layout().live(),
    {
        let mut out: Vec<u64> = Vec::new();
        if self.is_effectively_empty() {
            assert(out@ =~= self.layout().live());
            return out;
        }
        proof {
            self.lemma_bounds();
        }
        let mut index: i64 = self.index_start as i64;
        while index <= self.index_end as i64
            invariant
                self.wf(),
                self.index_start <= index <= self.index_end + 1,
                out@.len() == index - self.index_start,
                forall|j: int|
                    0 <= j < out@.len() ==> #[trigger] out@[j] == (self.layout().counts)(
                        self.index_start + j,
                    ),
            decreases self.index_end + 1 - index,
        {
            out.push(self.get(index as i32));
            index = index + 1;
        }
        assert(out@ =~= self.layout().live());
        out
    }
}

} // verus!
