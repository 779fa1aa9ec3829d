//! How the buckets of a flat histogram are laid out, and how the layout changes as values arrive.
//!
//! A layout has a scale, a counter width, a range of live buckets and a base. Counters narrower
//! than a word stand in one line from the base up. When a value does not fit, the layout is
//! adjusted: each adjustment merges buckets, and lowers the scale accordingly. At the lowest
//! scale all values fall into the buckets -1 and 0, which have room at the widest counters.

use crate::arith::{lemma_div_bracket, lemma_div_mono};
use crate::counts::{
    bottom, coarsen, lemma_coarsen_twice, lemma_coarsen_within, lemma_coarsen_zero,
    lemma_total_member, plus, top, total, within, Counts,
};
use crate::downscale::lemma_coarsen_inside;
use crate::lookup::TABLE_SCALE;
use crate::mapping::MIN_SCALE;
use crate::settle::is_change;
use crate::width::{capacity, first_slot, lanes, lemma_lanes, lemma_word_of, word_of};
use crate::window_ops::{at_most, lemma_coarsen_one};
use vstd::arithmetic::power2::{
    lemma2_to64, lemma_pow2_adds, lemma_pow2_pos, lemma_pow2_strictly_increases, pow2,
};
use vstd::prelude::*;

verus! {

/// Largest pool, in words: the number of its 1-bit counters, added to any base, fits an `i32`.
pub const MAX_WORDS: usize = 0x1f0_0000;

/// Number of counters of `2^level` bits in `n` words.
pub open spec fn slots(n: int, level: nat) -> int {
    n * lanes(level)
}

/// Number of buckets on each side of 1.0 at a scale.
pub open spec fn side(scale: int) -> int {
    pow2((scale - MIN_SCALE) as nat) as int
}

/// The bucket at scale `scale` that holds bucket `key` of the finer scale `from`.
pub open spec fn bucket_at_scale(key: int, from: int, scale: int) -> int {
    key / pow2((from - scale) as nat) as int
}

/// The least number of halvings after which a range spans fewer than `size` buckets.
pub open spec fn steps_to_fit(low: int, high: int, size: int) -> nat {
    choose|c: nat| is_change(low, high, size, c)
}

/// The place of the highest live bucket of a range.
pub open spec fn trim_high(h: Counts, low: int, high: int) -> int
    decreases high - low,
{
    if low < high && h(high) == 0 {
        trim_high(h, low, high - 1)
    } else {
        high
    }
}

/// The place of the lowest live bucket of a range.
pub open spec fn trim_low(h: Counts, low: int, high: int) -> int
    decreases high - low,
{
    if low < high && h(low) == 0 {
        trim_low(h, low + 1, high)
    } else {
        low
    }
}

/// Some bucket holds an observation.
pub open spec fn any(h: Counts) -> bool {
    exists|i: int| #[trigger] h(i) != 0
}

/// A layout of buckets.
#[verifier::ext_equal]
pub struct Layout {
    /// Scale of the buckets.
    pub scale: int,
    /// Counters have `2^level` bits.
    pub level: nat,
    /// Bucket of the first counter.
    pub base: int,
    /// Lowest bucket of the live range.
    pub low: int,
    /// Highest bucket of the live range.
    pub high: int,
    /// The count of each bucket.
    pub counts: Counts,
}

impl Layout {
    /// No observation is held.
    pub open spec fn vacant(self) -> bool {
        self.low == self.high && (self.counts)(self.low) == 0
    }

    /// The counts of the live range, lowest bucket first; empty when there is none.
    pub open spec fn live(self) -> Seq<u64> {
        if self.vacant() {
            Seq::empty()
        } else {
            Seq::new(
                (self.high - self.low + 1) as nat,
                |j: int| (self.counts)(self.low + j) as u64,
            )
        }
    }

    /// The layout fits `n` words.
    pub open spec fn valid(self, n: int) -> bool {
        &&& 2 <= n <= MAX_WORDS
        &&& MIN_SCALE <= self.scale <= TABLE_SCALE
        &&& self.level <= 6
        &&& self.low <= self.high
        &&& self.low < self.high ==> any(self.counts)
        &&& self.high - self.low < slots(n, self.level)
        &&& self.level < 6 && !self.vacant() ==> self.base <= self.low && self.high < self.base
            + slots(n, self.level)
        &&& bottom() <= self.low
        &&& self.high < top()
        &&& bottom() <= self.base < top()
        &&& within(self.counts, self.low, self.high + 1)
        &&& at_most(self.counts, capacity(self.level))
        &&& total(self.counts, bottom(), top()) <= u64::MAX
    }

    /// `after` holds the same observations, at the same scale or a lower one.
    pub open spec fn coarser(self, after: Layout) -> bool {
        &&& after.scale <= self.scale
        &&& after.counts == coarsen(self.counts, (self.scale - after.scale) as nat)
    }

    /// All live buckets are buckets of actual values.
    pub open spec fn inside(self) -> bool {
        -side(self.scale) <= self.low && self.high < side(self.scale)
    }

    /// The layout at the lowest scale, with the widest counters, which have room for all actual
    /// values. With other buckets the layout stays as it is.
    pub open spec fn grounded(self) -> Layout {
        let d = (self.scale - MIN_SCALE) as nat;
        if self.inside() {
            Layout {
                scale: MIN_SCALE as int,
                level: 6,
                base: self.low / pow2(d) as int,
                low: self.low / pow2(d) as int,
                high: self.high / pow2(d) as int,
                counts: coarsen(self.counts, d),
            }
        } else {
            self
        }
    }

    /// The counter width after pairs are merged: the next wider one if asked for or if a sum
    /// exceeds a counter.
    pub open spec fn merged_level(self, wide: bool) -> nat {
        if wide || !at_most(coarsen(self.counts, 1), capacity(self.level)) {
            self.level + 1
        } else {
            self.level
        }
    }

    /// Pairs of buckets merged in place.
    pub open spec fn halved(self, n: int, wide: bool) -> Layout {
        let level = self.merged_level(wide);
        let base = self.base / 2;
        let last = base + slots(n, level) - 1;
        Layout {
            scale: self.scale - 1,
            level,
            base,
            low: self.low / 2,
            high: if self.high / 2 > last {
                last
            } else {
                self.high / 2
            },
            counts: coarsen(self.counts, 1),
        }
    }

    /// Groups of `2^j` buckets merged, rewritten from a new base. The first merge leaves
    /// counters of level `first`, and each further merge widens them by one.
    pub open spec fn spread(self, first: nat, j: nat) -> Layout {
        let level = if first + j - 1 <= 6 {
            (first + j - 1) as nat
        } else {
            6
        };
        let low = self.low / pow2(j) as int;
        Layout {
            scale: self.scale - j,
            level,
            base: first_slot(word_of(low, level), level),
            low,
            high: self.high / pow2(j) as int,
            counts: coarsen(self.counts, j),
        }
    }

    /// The live range has room in `n` words.
    pub open spec fn has_room(self, n: int) -> bool {
        if self.level < 6 {
            self.high < self.base + slots(n, self.level)
        } else {
            self.high - self.low < n
        }
    }

    /// `j` merges are the fewest that leave a range with room.
    pub open spec fn is_spread(self, n: int, first: nat, j: nat) -> bool {
        &&& 1 <= j
        &&& self.spread(first, j).has_room(n)
        &&& forall|i: nat| 1 <= i < j ==> !#[trigger] self.spread(first, i).has_room(n)
    }

    /// Buckets merged and rewritten from a new base, as often as it takes to have room.
    #[verifier::opaque]
    pub open spec fn scattered(self, n: int, wide: bool) -> Layout {
        let first = self.merged_level(wide);
        let j = choose|j: nat| self.is_spread(n, first, j);
        if self.scale - j < MIN_SCALE {
            self.grounded()
        } else {
            self.spread(first, j)
        }
    }

    /// A merge that rewrites the buckets needs a scale below the lowest one.
    #[verifier::opaque]
    pub open spec fn scatter_runs_out(self, n: int, wide: bool) -> bool {
        let first = self.merged_level(wide);
        let j = choose|j: nat| self.is_spread(n, first, j);
        self.scale - j < MIN_SCALE
    }

    /// The base is odd and the topmost counter is in use, so that pairs do not line up.
    pub open spec fn crowded(self, n: int) -> bool {
        self.base % 2 != 0 && (self.counts)(self.base + slots(n, self.level) - 1) != 0
    }

    /// One merge of narrow counters.
    pub open spec fn merged(self, n: int, wide: bool) -> Layout {
        if self.scale == MIN_SCALE {
            self.grounded()
        } else if self.crowded(n) {
            self.scattered(n, wide)
        } else {
            self.halved(n, wide)
        }
    }

    /// One merge of narrow counters needs a scale below the lowest one.
    pub open spec fn merge_runs_out(self, n: int, wide: bool) -> bool {
        self.scale == MIN_SCALE || (self.crowded(n) && self.scatter_runs_out(n, wide))
    }

    /// Wider counters need a scale below the lowest one.
    pub open spec fn widen_runs_out(self, n: int) -> bool {
        self.scale == MIN_SCALE || (!self.vacant() && self.merge_runs_out(n, true))
    }

    /// Counters one step wider, and buckets twice as wide.
    pub open spec fn widened(self, n: int) -> Layout {
        if self.scale == MIN_SCALE {
            self.grounded()
        } else if self.vacant() {
            Layout {
                scale: self.scale - 1,
                level: self.level + 1,
                base: self.base / 2,
                low: self.low / 2,
                high: self.high / 2,
                counts: coarsen(self.counts, 1),
            }
        } else {
            self.merged(n, true)
        }
    }

    /// Counters wider by at least `steps` steps, or `None` when they would exceed 64 bits.
    pub open spec fn widened_by(self, n: int, steps: int) -> Option<Layout>
        decreases steps,
    {
        if steps <= 0 {
            Some(self)
        } else if self.level >= 6 {
            None
        } else {
            let after = self.widened(n);
            let done = if self.scale - after.scale <= 1 {
                1
            } else {
                self.scale - after.scale
            };
            if done >= steps {
                Some(after)
            } else {
                after.widened_by(n, steps - done)
            }
        }
    }

    /// The widest counters, with groups of `2^by` buckets merged.
    pub open spec fn collapsed(self, by: nat) -> Layout {
        if self.scale - by < MIN_SCALE {
            self.grounded()
        } else {
            Layout {
                scale: self.scale - by,
                level: 6,
                base: self.low / pow2(by) as int,
                low: self.low / pow2(by) as int,
                high: self.high / pow2(by) as int,
                counts: coarsen(self.counts, by),
            }
        }
    }

    /// Narrow counters merged one scale step at a time, at least `by` steps in all, and the
    /// widest counters all at once.
    pub open spec fn merged_by(self, n: int, by: int) -> Layout
        decreases by,
    {
        if by <= 0 {
            self
        } else if self.level == 6 {
            self.collapsed(by as nat)
        } else {
            let after = self.merged(n, false);
            let done = self.scale - after.scale;
            if done <= 0 || done >= by {
                after
            } else {
                after.merged_by(n, by - done)
            }
        }
    }

    /// Merging at least `by` steps needs a scale below the lowest one.
    pub open spec fn merge_by_runs_out(self, n: int, by: int) -> bool
        decreases by,
    {
        if by <= 0 {
            false
        } else if self.level == 6 {
            self.scale - by < MIN_SCALE
        } else {
            let after = self.merged(n, false);
            let done = self.scale - after.scale;
            self.merge_runs_out(n, false) || (0 < done < by && after.merge_by_runs_out(
                n,
                by - done,
            ))
        }
    }

    /// Empty buckets dropped from both ends of the live range.
    pub open spec fn trimmed(self) -> Layout {
        let high = trim_high(self.counts, self.low, self.high);
        Layout { high, low: trim_low(self.counts, self.low, high), ..self }
    }

    /// The layout at a scale lower by at least `by`, or at the lowest scale.
    pub open spec fn lowered(self, n: int, by: int) -> Layout {
        if by <= 0 {
            self
        } else if self.vacant() {
            if self.scale - by < MIN_SCALE {
                self.grounded()
            } else {
                Layout {
                    scale: self.scale - by,
                    base: self.base / pow2(by as nat) as int,
                    low: self.low / pow2(by as nat) as int,
                    high: self.high / pow2(by as nat) as int,
                    counts: coarsen(self.counts, by as nat),
                    ..self
                }
            }
        } else {
            self.merged_by(n, by).trimmed()
        }
    }

    /// A scale lower by at least `by` is below the lowest one.
    pub open spec fn lower_runs_out(self, n: int, by: int) -> bool {
        if by <= 0 {
            false
        } else if self.vacant() {
            self.scale - by < MIN_SCALE
        } else {
            self.merge_by_runs_out(n, by)
        }
    }

    /// The live range can grow to bucket `i` in place.
    pub open spec fn roomy(self, n: int, i: int) -> bool {
        ||| self.vacant()
        ||| self.low <= i <= self.high
        ||| i < self.low && self.high - i < slots(n, self.level) && (self.level == 6 || self.base <= i)
        ||| i > self.high && i - self.low < slots(n, self.level) && (self.level == 6 || i < self.base
            + slots(n, self.level))
    }

    /// The live range grown to bucket `i`.
    pub open spec fn seated(self, i: int) -> Layout {
        if self.vacant() {
            Layout { base: first_slot(word_of(i, self.level), self.level), low: i, high: i, ..self }
        } else if i < self.low {
            Layout { low: i, ..self }
        } else if i > self.high {
            Layout { high: i, ..self }
        } else {
            self
        }
    }

    /// `incr` observations of bucket `key` of scale `from` can be counted right away.
    pub open spec fn ready(self, n: int, key: int, from: int, incr: nat) -> bool {
        let i = bucket_at_scale(key, from, self.scale);
        self.roomy(n, i) && (self.counts)(i) + incr <= capacity(self.level)
    }

    /// One adjustment on the way to `incr` observations of bucket `i`: wider counters when only
    /// the counter is too narrow; otherwise a range that spans fewer buckets, or wider counters
    /// when the span would fit but does not line up with the base.
    pub open spec fn adjusted(self, n: int, i: int) -> Layout {
        if self.roomy(n, i) {
            self.seated(i).widened(n)
        } else {
            let low = if i < self.low {
                i
            } else {
                self.low
            };
            let high = if i > self.high {
                i
            } else {
                self.high
            };
            let by = steps_to_fit(low, high, slots(n, self.level));
            if by > 0 {
                self.lowered(n, by as int)
            } else if self.level < 6 {
                self.widened(n)
            } else {
                self.lowered(n, 1)
            }
        }
    }

    /// An adjustment needs a scale below the lowest one.
    pub open spec fn adjust_runs_out(self, n: int, i: int) -> bool {
        if self.roomy(n, i) {
            self.seated(i).widen_runs_out(n)
        } else {
            let low = if i < self.low {
                i
            } else {
                self.low
            };
            let high = if i > self.high {
                i
            } else {
                self.high
            };
            let by = steps_to_fit(low, high, slots(n, self.level));
            if by > 0 {
                self.lower_runs_out(n, by as int)
            } else if self.level < 6 {
                self.widen_runs_out(n)
            } else {
                self.lower_runs_out(n, 1)
            }
        }
    }

    /// One of the first `k` adjustments needs a scale below the lowest one.
    pub open spec fn adjusts_run_out(self, n: int, key: int, from: int, k: nat) -> bool
        decreases k,
    {
        if k == 0 {
            false
        } else {
            let before = self.adjusted_times(n, key, from, (k - 1) as nat);
            self.adjusts_run_out(n, key, from, (k - 1) as nat) || before.adjust_runs_out(
                n,
                bucket_at_scale(key, from, before.scale),
            )
        }
    }

    /// The layout after `k` adjustments.
    pub open spec fn adjusted_times(self, n: int, key: int, from: int, k: nat) -> Layout
        decreases k,
    {
        if k == 0 {
            self
        } else {
            let before = self.adjusted_times(n, key, from, (k - 1) as nat);
            before.adjusted(n, bucket_at_scale(key, from, before.scale))
        }
    }

    /// `k` adjustments are the fewest after which the observations can be counted.
    pub open spec fn is_settled(self, n: int, key: int, from: int, incr: nat, k: nat) -> bool {
        &&& self.adjusted_times(n, key, from, k).ready(n, key, from, incr)
        &&& forall|j: nat|
            j < k ==> !#[trigger] self.adjusted_times(n, key, from, j).ready(n, key, from, incr)
    }

    /// The layout with `incr` more observations of bucket `i`, which has room.
    pub open spec fn counted(self, i: int, incr: nat) -> Layout {
        let seat = self.seated(i);
        Layout { counts: plus(self.counts, i, incr), ..seat }
    }

    /// Counting `incr` observations of bucket `key` of scale `from` needs a scale below the lowest
    /// one.
    pub open spec fn record_runs_out(self, n: int, key: int, from: int, incr: nat) -> bool {
        forall|k: nat|
            #[trigger] self.is_settled(n, key, from, incr, k) ==> self.adjusts_run_out(
                n,
                key,
                from,
                k,
            )
    }

    /// The layout after `incr` observations of bucket `key` of scale `from`.
    pub open spec fn recorded(self, n: int, key: int, from: int, incr: nat) -> Layout {
        let k = choose|k: nat| self.is_settled(n, key, from, incr, k);
        let after = self.adjusted_times(n, key, from, k);
        after.counted(bucket_at_scale(key, from, after.scale), incr)
    }
}

/// A layout with no observation.
pub open spec fn empty_layout(scale: int, level: nat) -> Layout {
    Layout { scale, level, base: 0, low: 0, high: 0, counts: crate::counts::no_counts() }
}

/// The sides double with each scale.
pub proof fn lemma_side(scale: int)
    requires
        MIN_SCALE <= scale <= TABLE_SCALE,
    ensures
        1 <= side(scale) <= 0x4_0000,
        scale > MIN_SCALE ==> side(scale) == 2 * side(scale - 1),
        side(MIN_SCALE as int) == 1,
{
    lemma2_to64();
    lemma_pow2_pos((scale - MIN_SCALE) as nat);
    assert(pow2(18) == 0x4_0000);
    if scale < 8 {
        lemma_pow2_strictly_increases((scale - MIN_SCALE) as nat, 18);
    }
    if scale > MIN_SCALE {
        vstd::arithmetic::power2::lemma_pow2_unfold((scale - MIN_SCALE) as nat);
    }
}

/// Indices inside the sides of a scale stay inside when the scale drops.
pub proof fn lemma_side_div(i: int, scale: int, d: nat)
    requires
        MIN_SCALE <= scale - d,
        scale <= TABLE_SCALE,
        -side(scale) <= i < side(scale),
    ensures
        -side(scale - d) <= i / pow2(d) as int,
        i / (pow2(d) as int) < side(scale - d),
{
    lemma_side(scale);
    lemma_side(scale - d);
    let p = pow2(d) as int;
    lemma_pow2_pos(d);
    lemma_pow2_adds((scale - d - MIN_SCALE) as nat, d);
    let s = side(scale - d);
    assert(side(scale) == s * p);
    lemma_div_bracket(i, p, i / p);
    let q = i / p;
    assert(-s <= q < s) by (nonlinear_arith)
        requires
            p >= 1,
            -(s * p) <= i < s * p,
            q * p <= i < (q + 1) * p,
    ;
}

impl Layout {
    /// The counts of a valid layout lie well inside the range of bucket indices.
    pub proof fn lemma_counts(self, n: int)
        requires
            self.valid(n),
        ensures
            within(self.counts, bottom(), top()),
            slots(n, self.level) <= 0x7c00_0000,
            n <= slots(n, self.level),
            self.level < 6 ==> slots(n, self.level) == 2 * slots(n, self.level + 1),
            self.level < 6 ==> slots(n, self.level) % 2 == 0,
    {
        lemma_lanes(self.level);
        let d = lanes(self.level);
        assert(n <= n * d <= 0x7c00_0000) by (nonlinear_arith)
            requires
                1 <= d <= 64,
                2 <= n <= MAX_WORDS,
        ;
        if self.level < 6 {
            let e = lanes(self.level + 1);
            assert(n * (2 * e) == 2 * (n * e)) by (nonlinear_arith);
        }
    }

    /// A layout that is not vacant holds some observation.
    pub proof fn lemma_any(self, n: int)
        requires
            self.valid(n),
        ensures
            any(self.counts) <==> !self.vacant(),
    {
        if any(self.counts) {
            let i = choose|i: int| #[trigger] (self.counts)(i) != 0;
            assert(self.low <= i <= self.high);
        } else if self.low == self.high {
            assert((self.counts)(self.low) == 0);
        }
    }

    /// What every change of scale keeps.
    pub proof fn lemma_coarser(self, n: int, d: nat)
        requires
            self.valid(n),
            d <= self.scale - MIN_SCALE,
        ensures
            self.low < self.high ==> any(coarsen(self.counts, d)),
            self.low / (pow2(d) as int) < self.high / pow2(d) as int ==> any(
                coarsen(self.counts, d),
            ),
            within(
                coarsen(self.counts, d),
                self.low / pow2(d) as int,
                self.high / pow2(d) as int + 1,
            ),
            self.low / pow2(d) as int <= self.high / pow2(d) as int,
            bottom() <= self.low / pow2(d) as int,
            self.high / (pow2(d) as int) < top(),
            self.inside() ==> -side(self.scale - d) <= self.low / pow2(d) as int && self.high / (
            pow2(d) as int) < side(self.scale - d),
            total(coarsen(self.counts, d), bottom(), top()) <= u64::MAX,
            at_most(coarsen(self.counts, d), u64::MAX as nat),
            self.high / pow2(d) as int - self.low / pow2(d) as int <= self.high - self.low,
    {
        self.lemma_counts(n);
        lemma_pow2_pos(d);
        if self.low < self.high {
            lemma_any_coarser(self.counts, d);
        }
        lemma_coarsen_inside(self.counts, d, top());
        lemma_coarsen_within(self.counts, d, self.low, self.high + 1);
        lemma_div_mono(self.low, self.high, pow2(d) as int);
        lemma_index_div(self.low, d);
        lemma_index_div(self.high, d);
        if self.inside() {
            lemma_side_div(self.low, self.scale, d);
            lemma_side_div(self.high, self.scale, d);
        }
        lemma_span(self.low, self.high, pow2(d) as int);
    }

    /// At the lowest scale there is always room.
    pub proof fn lemma_grounded(self, n: int)
        requires
            self.valid(n),
        ensures
            self.grounded().valid(n),
            self.coarser(self.grounded()),
            self.inside() ==> self.grounded().inside() && -1 <= self.grounded().low
                <= self.grounded().high <= 0,
    {
        lemma_coarsen_zero(self.counts);
        let d = (self.scale - MIN_SCALE) as nat;
        self.lemma_coarser(n, d);
        lemma_side(self.scale);
        lemma_side(MIN_SCALE as int);
        assert(self.scale - d == MIN_SCALE);
        assert(slots(n, 6) == n) by {
            assert(n * 1 == n);
        }
    }
}

/// Merging buckets brings an index no farther from 0.
pub proof fn lemma_index_div(i: int, d: nat)
    requires
        bottom() <= i < top(),
    ensures
        bottom() <= i / (pow2(d) as int) < top(),
{
    let p = pow2(d) as int;
    lemma_pow2_pos(d);
    lemma_div_bracket(i, p, i / p);
    let q = i / p;
    assert(-0x8000_0000 <= q < 0x8000_0000) by (nonlinear_arith)
        requires
            p >= 1,
            -0x8000_0000 <= i < 0x8000_0000,
            q * p <= i < (q + 1) * p,
    ;
}

/// The first bucket of a word has an index.
proof fn lemma_index_word(i: int, k: nat)
    requires
        bottom() <= i < top(),
        k <= 6,
    ensures
        bottom() <= first_slot(word_of(i, k), k) < top(),
{
    crate::width::lemma_word_ends(i as i32, k);
    lemma_word_of(i, k);
}

/// Observations stay observations when buckets are merged.
pub proof fn lemma_any_coarser(h: Counts, d: nat)
    requires
        any(h),
    ensures
        any(coarsen(h, d)),
{
    let i = choose|i: int| #[trigger] h(i) != 0;
    crate::counts::lemma_coarsen_member(h, d, i);
    assert(coarsen(h, d)(i / pow2(d) as int) != 0);
}

/// Division never widens a span.
pub proof fn lemma_span(low: int, high: int, p: int)
    requires
        p >= 1,
        low <= high,
    ensures
        high / p - low / p <= high - low,
        (high / p - low / p) * p <= high - low + p - 1,
{
    lemma_div_bracket(low, p, low / p);
    lemma_div_bracket(high, p, high / p);
    let a = low / p;
    let b = high / p;
    assert((b - a) * p <= high - low + p - 1) by (nonlinear_arith)
        requires
            b * p <= high,
            low < (a + 1) * p,
    ;
    lemma_div_mono(low, high, p);
    assert(b - a <= high - low) by (nonlinear_arith)
        requires
            p >= 1,
            b - a >= 0,
            low <= high,
            (b - a) * p <= high - low + p - 1,
    ;
}

impl Layout {
    /// Merging pairs keeps the layout valid.
    pub proof fn lemma_halved(self, n: int, wide: bool)
        requires
            self.valid(n),
            !self.vacant(),
            !self.crowded(n),
            self.scale > MIN_SCALE,
            self.level < 6,
        ensures
            self.halved(n, wide).valid(n),
            self.coarser(self.halved(n, wide)),
            self.inside() ==> self.halved(n, wide).inside(),
    {
        lemma2_to64();
        self.lemma_coarser(n, 1);
        self.lemma_counts(n);
        let q = self.halved(n, wide);
        let h = coarsen(self.counts, 1);
        let cap = slots(n, self.level);
        assert(slots(n, q.level) == cap || slots(n, q.level) * 2 == cap);
        lemma_lanes(6);
        assert(cap >= 4) by (nonlinear_arith)
            requires
                cap == n * lanes(self.level),
                n >= 2,
                lanes(self.level) >= 2,
        ;
        assert(at_most(h, capacity(q.level))) by {
            if q.level == self.level + 1 {
                assert forall|i: int| #[trigger] h(i) <= capacity(q.level) by {
                    lemma_coarsen_one(self.counts, i);
                    assert((self.counts)(2 * i) <= capacity(self.level));
                    assert((self.counts)(2 * i + 1) <= capacity(self.level));
                }
            }
        }
        if q.high < self.high / 2 {
            let top_bucket = self.base + cap - 1;
            assert(self.high == top_bucket);
            assert((self.counts)(top_bucket) == 0);
            assert(self.high / 2 == self.base / 2 + cap / 2);
            lemma_coarsen_one(self.counts, self.high / 2);
            assert(h(self.high / 2) == 0);
            assert((self.counts)(self.low) == 0 ==> self.low < self.high);
            assert(self.low < self.high);
        }
        assert forall|i: int| #[trigger] h(i) != 0 implies q.low <= i < q.high + 1 by {
            assert(self.low / 2 <= i <= self.high / 2);
        }
    }

    /// Seven merges always leave a range with room.
    pub proof fn lemma_spread_exists(self, n: int, first: nat) -> (j: nat)
        requires
            self.valid(n),
            first <= 6,
        ensures
            self.is_spread(n, first, j),
            j <= 7,
    {
        lemma2_to64();
        lemma_lanes(self.level);
        lemma_span(self.low, self.high, 128);
        assert(pow2(7) == 128);
        let q = self.spread(first, 7);
        assert(q.level == 6);
        let span = q.high - q.low;
        assert(span < n) by (nonlinear_arith)
            requires
                span * 128 <= self.high - self.low + 127,
                self.high - self.low < n * lanes(self.level),
                lanes(self.level) <= 64,
                n >= 2,
        ;
        self.lemma_first_spread(n, first, 7)
    }

    /// The least number of merges that leaves a range with room.
    proof fn lemma_first_spread(self, n: int, first: nat, m: nat) -> (j: nat)
        requires
            1 <= m,
            self.spread(first, m).has_room(n),
        ensures
            self.is_spread(n, first, j),
            j <= m,
        decreases m,
    {
        if forall|i: nat| 1 <= i < m ==> !#[trigger] self.spread(first, i).has_room(n) {
            m
        } else {
            let i = choose|i: nat| 1 <= i < m && #[trigger] self.spread(first, i).has_room(n);
            self.lemma_first_spread(n, first, i)
        }
    }

    /// Two such numbers are equal.
    pub proof fn lemma_spread_unique(self, n: int, first: nat, i: nat, j: nat)
        requires
            self.is_spread(n, first, i),
            self.is_spread(n, first, j),
        ensures
            i == j,
    {
        if i < j {
            assert(!self.spread(first, i).has_room(n));
        }
        if j < i {
            assert(!self.spread(first, j).has_room(n));
        }
    }

    /// Merged sums fit counters that widen with each further merge.
    pub proof fn lemma_spread_fits(self, n: int, wide: bool, j: nat)
        requires
            self.valid(n),
            self.level < 6,
            1 <= j,
            j <= self.scale - MIN_SCALE,
        ensures
            at_most(
                self.spread(self.merged_level(wide), j).counts,
                capacity(self.spread(self.merged_level(wide), j).level),
            ),
        decreases j,
    {
        let first = self.merged_level(wide);
        let q = self.spread(first, j);
        if j == 1 {
            if first == self.level + 1 {
                assert forall|i: int| #[trigger] (q.counts)(i) <= capacity(first) by {
                    lemma_coarsen_one(self.counts, i);
                    assert((self.counts)(2 * i) <= capacity(self.level));
                    assert((self.counts)(2 * i + 1) <= capacity(self.level));
                }
            }
        } else if q.level == 6 {
            self.lemma_coarser(n, j);
        } else {
            let p = self.spread(first, (j - 1) as nat);
            self.lemma_spread_fits(n, wide, (j - 1) as nat);
            lemma_coarsen_twice(self.counts, (j - 1) as nat, 1);
            assert(j - 1 + 1 == j);
            assert forall|i: int| #[trigger] (q.counts)(i) <= capacity(q.level) by {
                lemma_coarsen_one(p.counts, i);
                assert((p.counts)(2 * i) <= capacity(p.level));
                assert((p.counts)(2 * i + 1) <= capacity(p.level));
            }
        }
    }

    /// A range with room is a valid layout.
    pub proof fn lemma_spread(self, n: int, wide: bool, j: nat)
        requires
            self.valid(n),
            self.level < 6,
            1 <= j,
            j <= self.scale - MIN_SCALE,
            self.spread(self.merged_level(wide), j).has_room(n),
        ensures
            self.spread(self.merged_level(wide), j).valid(n),
            self.coarser(self.spread(self.merged_level(wide), j)),
            self.inside() ==> self.spread(self.merged_level(wide), j).inside(),
    {
        let q = self.spread(self.merged_level(wide), j);
        self.lemma_coarser(n, j);
        self.lemma_counts(n);
        self.lemma_spread_fits(n, wide, j);
        lemma_word_of(q.low, q.level);
        lemma_lanes(q.level);
        lemma_index_word(q.low, q.level);
        if q.level == 6 {
            assert(n * 1 == n);
        }
    }

    /// Rewriting from a new base keeps the layout valid.
    pub proof fn lemma_scattered(self, n: int, wide: bool)
        requires
            self.valid(n),
            self.scale > MIN_SCALE,
            self.level < 6,
        ensures
            self.scattered(n, wide).valid(n),
            self.coarser(self.scattered(n, wide)),
            self.inside() ==> self.scattered(n, wide).inside(),
            self.inside() || !self.scatter_runs_out(n, wide) ==> self.scattered(n, wide).scale
                < self.scale,
    {
        reveal(Layout::scattered);
        reveal(Layout::scatter_runs_out);
        let first = self.merged_level(wide);
        let w = self.lemma_spread_exists(n, first);
        let j = choose|j: nat| self.is_spread(n, first, j);
        if self.scale - j < MIN_SCALE {
            self.lemma_grounded(n);
        } else {
            self.lemma_spread(n, wide, j);
        }
    }

    /// A merge keeps the layout valid; it lowers the scale unless that is the lowest.
    pub proof fn lemma_merged(self, n: int, wide: bool)
        requires
            self.valid(n),
            !self.vacant(),
            self.level < 6,
        ensures
            self.merged(n, wide).valid(n),
            self.coarser(self.merged(n, wide)),
            self.inside() ==> self.merged(n, wide).inside(),
            !self.merge_runs_out(n, wide) ==> self.merged(n, wide).scale < self.scale,
            self.inside() && self.scale > MIN_SCALE ==> self.merged(n, wide).scale < self.scale,
            self.inside() && self.scale == MIN_SCALE ==> self.merged(n, wide).level == 6,
    {
        if self.scale == MIN_SCALE {
            self.lemma_grounded(n);
        } else if self.crowded(n) {
            self.lemma_scattered(n, wide);
        } else {
            self.lemma_halved(n, wide);
        }
    }

    /// Widening keeps the layout valid.
    pub proof fn lemma_widened(self, n: int)
        requires
            self.valid(n),
            self.level < 6,
        ensures
            self.widened(n).valid(n),
            self.coarser(self.widened(n)),
            self.inside() ==> self.widened(n).inside(),
            !self.widen_runs_out(n) ==> self.widened(n).scale < self.scale,
            self.inside() && self.scale > MIN_SCALE ==> self.widened(n).scale < self.scale,
            self.inside() && self.scale == MIN_SCALE ==> self.widened(n).level == 6,
    {
        if self.scale == MIN_SCALE {
            self.lemma_grounded(n);
        } else if self.vacant() {
            lemma2_to64();
            self.lemma_coarser(n, 1);
            self.lemma_counts(n);
            let q = self.widened(n);
            assert(self.counts =~= crate::counts::no_counts()) by {
                assert forall|i: int| #[trigger] (self.counts)(i) == 0 by {}
            }
            assert forall|i: int| #[trigger] (q.counts)(i) == 0 by {
                lemma_coarsen_one(self.counts, i);
            }
            assert(q.vacant());
            assert(slots(n, q.level) * 2 == slots(n, self.level));
        } else {
            self.lemma_merged(n, true);
        }
    }

    /// Merging the widest counters keeps the layout valid.
    pub proof fn lemma_collapsed(self, n: int, by: nat)
        requires
            self.valid(n),
            self.level == 6,
            by > 0,
        ensures
            self.collapsed(by).valid(n),
            self.coarser(self.collapsed(by)),
            self.inside() ==> self.collapsed(by).inside(),
            self.collapsed(by).level == 6,
            self.scale - by >= MIN_SCALE ==> self.collapsed(by).scale == self.scale - by,
            self.inside() && self.scale > MIN_SCALE ==> self.collapsed(by).scale < self.scale,
    {
        if self.scale - by < MIN_SCALE {
            self.lemma_grounded(n);
        } else {
            self.lemma_coarser(n, by);
            self.lemma_counts(n);
        }
    }

    /// A change of scale keeps observations: a layout that holds some is never vacant.
    pub proof fn lemma_not_vacant(self, after: Layout, n: int)
        requires
            self.valid(n),
            after.valid(n),
            !self.vacant(),
            self.coarser(after),
        ensures
            any(self.counts),
            any(after.counts),
            !after.vacant(),
    {
        self.lemma_any(n);
        lemma_any_coarser(self.counts, (self.scale - after.scale) as nat);
        after.lemma_any(n);
    }

    /// Coarser twice is coarser.
    pub proof fn lemma_coarser_twice(self, mid: Layout, after: Layout)
        requires
            self.coarser(mid),
            mid.coarser(after),
        ensures
            self.coarser(after),
    {
        let a = (self.scale - mid.scale) as nat;
        let b = (mid.scale - after.scale) as nat;
        lemma_coarsen_twice(self.counts, a, b);
        assert(a + b == (self.scale - after.scale) as nat);
    }

    /// Merging by several steps keeps the layout valid.
    pub proof fn lemma_merged_by(self, n: int, by: int)
        requires
            self.valid(n),
            any(self.counts),
        ensures
            self.merged_by(n, by).valid(n),
            self.coarser(self.merged_by(n, by)),
            self.inside() ==> self.merged_by(n, by).inside(),
            !self.merge_by_runs_out(n, by) ==> self.merged_by(n, by).scale <= self.scale - by,
            by > 0 && self.inside() ==> {
                &&& self.scale > MIN_SCALE ==> self.merged_by(n, by).scale < self.scale
                &&& self.scale == MIN_SCALE ==> self.merged_by(n, by).level == 6
                &&& self.merged_by(n, by).scale <= self.scale - by || self.merged_by(n, by).scale
                    == MIN_SCALE
            },
        decreases by,
    {
        if by <= 0 {
            lemma_coarsen_zero(self.counts);
        } else if self.level == 6 {
            self.lemma_collapsed(n, by as nat);
        } else {
            let i = choose|i: int| #[trigger] (self.counts)(i) != 0;
            assert(self.low <= i <= self.high);
            self.lemma_merged(n, false);
            let after = self.merged(n, false);
            let done = self.scale - after.scale;
            if 0 < done < by {
                self.lemma_not_vacant(after, n);
                after.lemma_merged_by(n, by - done);
                self.lemma_coarser_twice(after, after.merged_by(n, by - done));
            }
        }
    }

    /// Trimming drops no observation.
    pub proof fn lemma_trimmed(self, n: int)
        requires
            self.valid(n),
        ensures
            self.trimmed().valid(n),
            self.trimmed().counts == self.counts,
            self.inside() ==> self.trimmed().inside(),
    {
        let high = trim_high(self.counts, self.low, self.high);
        lemma_trim_high(self.counts, self.low, self.high);
        lemma_trim_low(self.counts, self.low, high);
        assert forall|i: int| #[trigger] (self.counts)(i) != 0 implies self.trimmed().low <= i
            < self.trimmed().high + 1 by {}
    }

    /// Lowering the scale keeps the layout valid.
    pub proof fn lemma_lowered(self, n: int, by: int)
        requires
            self.valid(n),
        ensures
            self.lowered(n, by).valid(n),
            self.coarser(self.lowered(n, by)),
            self.inside() ==> self.lowered(n, by).inside(),
            by > 0 && !self.lower_runs_out(n, by) ==> self.lowered(n, by).scale <= self.scale - by,
            by > 0 && self.inside() ==> {
                &&& self.scale > MIN_SCALE ==> self.lowered(n, by).scale < self.scale
                &&& self.scale == MIN_SCALE ==> self.lowered(n, by).level == 6
                &&& self.lowered(n, by).scale <= self.scale - by || self.lowered(n, by).scale
                    == MIN_SCALE
            },
    {
        if by <= 0 {
            lemma_coarsen_zero(self.counts);
        } else if self.vacant() {
            if self.scale - by < MIN_SCALE {
                self.lemma_grounded(n);
            } else {
                self.lemma_lowered_vacant(n, by as nat);
            }
        } else {
            self.lemma_any(n);
            self.lemma_merged_by(n, by);
            self.merged_by(n, by).lemma_trimmed(n);
        }
    }

    proof fn lemma_lowered_vacant(self, n: int, by: nat)
        requires
            self.valid(n),
            self.vacant(),
            0 < by <= self.scale - MIN_SCALE,
        ensures
            self.lowered(n, by as int).valid(n),
            self.coarser(self.lowered(n, by as int)),
            self.inside() ==> self.lowered(n, by as int).inside(),
    {
        let q = self.lowered(n, by as int);
        let p = pow2(by) as int;
        lemma_pow2_pos(by);
        self.lemma_coarser(n, by);
        self.lemma_counts(n);
        assert forall|i: int| #[trigger] (q.counts)(i) == 0 by {
            assert forall|j: int| i * p <= j < (i + 1) * p implies #[trigger] (self.counts)(j) == 0 by {}
            crate::counts::lemma_total_zero(self.counts, i * p, (i + 1) * p);
        }
        assert(q.vacant());
        lemma_index_div(self.base, by);
    }
}

pub proof fn lemma_trim_high(h: Counts, low: int, high: int)
    requires
        low <= high,
    ensures
        low <= trim_high(h, low, high) <= high,
        forall|i: int| trim_high(h, low, high) < i <= high ==> #[trigger] h(i) == 0,
        trim_high(h, low, high) > low ==> h(trim_high(h, low, high)) != 0,
    decreases high - low,
{
    if low < high && h(high) == 0 {
        lemma_trim_high(h, low, high - 1);
    }
}

pub proof fn lemma_trim_low(h: Counts, low: int, high: int)
    requires
        low <= high,
    ensures
        low <= trim_low(h, low, high) <= high,
        forall|i: int| low <= i < trim_low(h, low, high) ==> #[trigger] h(i) == 0,
        trim_low(h, low, high) < high ==> h(trim_low(h, low, high)) != 0,
    decreases high - low,
{
    if low < high && h(low) == 0 {
        lemma_trim_low(h, low + 1, high);
    }
}

/// Halving a range of buckets often enough leaves the buckets -1 and 0.
pub proof fn lemma_change_exists(low: int, high: int, size: int) -> (c: nat)
    requires
        bottom() <= low <= high < top(),
        size >= 2,
    ensures
        is_change(low, high, size, c),
        c <= 31,
{
    lemma2_to64();
    assert(pow2(31) == 0x8000_0000);
    lemma_first_change(low, high, size, 31)
}

proof fn lemma_first_change(low: int, high: int, size: int, m: nat) -> (c: nat)
    requires
        (high / pow2(m) as int) - (low / pow2(m) as int) < size,
    ensures
        is_change(low, high, size, c),
        c <= m,
    decreases m,
{
    if forall|e: nat| e < m ==> #[trigger] (high / pow2(e) as int) - (low / pow2(e) as int) >= size {
        m
    } else {
        let e = choose|e: nat|
            e < m && #[trigger] (high / pow2(e) as int) - (low / pow2(e) as int) < size;
        lemma_first_change(low, high, size, e)
    }
}

/// Two such numbers of halvings are equal.
pub proof fn lemma_change_unique(low: int, high: int, size: int, a: nat, b: nat)
    requires
        is_change(low, high, size, a),
        is_change(low, high, size, b),
    ensures
        a == b,
{
    if a < b {
        assert((high / pow2(a) as int) - (low / pow2(a) as int) >= size);
    }
    if b < a {
        assert((high / pow2(b) as int) - (low / pow2(b) as int) >= size);
    }
}

impl Layout {
    /// How many adjustments are left at most.
    pub open spec fn slack(self) -> int {
        2 * (self.scale - MIN_SCALE) + if self.level < 6 {
            1int
        } else {
            0
        }
    }

    /// The live range grows in place without a change of the counts.
    pub proof fn lemma_seated(self, n: int, i: int)
        requires
            self.valid(n),
            self.roomy(n, i),
            bottom() <= i < top(),
        ensures
            self.seated(i).valid(n),
            self.inside() && -side(self.scale) <= i < side(self.scale) ==> self.seated(i).inside(),
            self.seated(i).low <= i <= self.seated(i).high,
            self.seated(i).counts == self.counts,
            !self.vacant() ==> !self.seated(i).vacant(),
            self.seated(i).level < 6 ==> self.seated(i).base <= i < self.seated(i).base + slots(
                n,
                self.level,
            ),
    {
        self.lemma_any(n);
        self.lemma_counts(n);
        lemma_lanes(self.level);
        lemma_word_of(i, self.level);
        lemma_index_word(i, self.level);
        assert(lanes(self.level) <= slots(n, self.level)) by (nonlinear_arith)
            requires
                slots(n, self.level) == n * lanes(self.level),
                lanes(self.level) >= 1,
                n >= 1,
        ;
        if self.vacant() {
            assert forall|j: int| #[trigger] (self.counts)(j) == 0 by {}
        }
        self.seated(i).lemma_any_of();
    }

    proof fn lemma_any_of(self)
        ensures
            self.vacant() ==> (self.counts)(self.low) == 0,
            any(self.counts) && within(self.counts, self.low, self.high + 1) ==> !self.vacant(),
    {
        if any(self.counts) && within(self.counts, self.low, self.high + 1) {
            let i = choose|i: int| #[trigger] (self.counts)(i) != 0;
            assert(self.low <= i <= self.high);
        }
    }

    /// An adjustment keeps the observations and brings the layout closer to the lowest scale.
    pub proof fn lemma_adjusted(self, n: int, i: int, incr: nat)
        requires
            self.valid(n),
            bottom() <= i < top(),
            !(self.roomy(n, i) && (self.counts)(i) + incr <= capacity(self.level)),
            total(self.counts, bottom(), top()) + incr <= u64::MAX,
        ensures
            self.adjusted(n, i).valid(n),
            self.coarser(self.adjusted(n, i)),
            self.inside() && -side(self.scale) <= i < side(self.scale) ==> self.adjusted(
                n,
                i,
            ).inside() && self.adjusted(n, i).slack() < self.slack(),
            !self.adjust_runs_out(n, i) ==> self.adjusted(n, i).slack() < self.slack(),
            self.roomy(n, i) ==> self.level < 6,
    {
        self.lemma_counts(n);
        lemma_side(self.scale);
        if self.roomy(n, i) {
            if self.level == 6 {
                lemma_total_member(self.counts, bottom(), top(), i);
            }
            self.lemma_seated(n, i);
            self.seated(i).lemma_widened(n);
            assert(self.coarser(self.adjusted(n, i)));
        } else {
            let low = if i < self.low {
                i
            } else {
                self.low
            };
            let high = if i > self.high {
                i
            } else {
                self.high
            };
            let w = lemma_change_exists(low, high, slots(n, self.level));
            let by = steps_to_fit(low, high, slots(n, self.level));
            if self.level == 6 {
                lemma_side(MIN_SCALE as int);
                assert(n * 1 == n);
            }
            if by > 0 {
                self.lemma_lowered(n, by as int);
            } else if self.level < 6 {
                self.lemma_widened(n);
            } else {
                self.lemma_lowered(n, 1);
            }
        }
    }

    /// A bucket of a finer scale, seen at the scale of this layout.
    pub proof fn lemma_key(self, n: int, key: int, from: int)
        requires
            MIN_SCALE <= self.scale <= from <= TABLE_SCALE,
            bottom() <= key < top(),
        ensures
            bottom() <= bucket_at_scale(key, from, self.scale) < top(),
            -side(from) <= key < side(from) ==> -side(self.scale) <= bucket_at_scale(
                key,
                from,
                self.scale,
            ) < side(self.scale),
    {
        lemma_index_div(key, (from - self.scale) as nat);
        if -side(from) <= key < side(from) {
            lemma_side_div(key, from, (from - self.scale) as nat);
            assert(from - (from - self.scale) == self.scale);
        }
    }

    /// The layout after some adjustments, none of which was the last needed.
    pub open spec fn on_the_way(self, n: int, key: int, from: int, incr: nat, k: nat) -> bool {
        let after = self.adjusted_times(n, key, from, k);
        &&& after.valid(n)
        &&& self.coarser(after)
        &&& self.inside() && -side(from) <= key < side(from) ==> after.inside()
        &&& total(after.counts, bottom(), top()) == total(self.counts, bottom(), top())
        &&& forall|j: nat|
            j < k ==> !#[trigger] self.adjusted_times(n, key, from, j).ready(n, key, from, incr)
    }

    /// No adjustment is on the way.
    pub proof fn lemma_set_out(self, n: int, key: int, from: int, incr: nat)
        requires
            self.valid(n),
        ensures
            self.on_the_way(n, key, from, incr, 0),
    {
        lemma_coarsen_zero(self.counts);
    }

    /// One more adjustment on the way.
    pub proof fn lemma_on_the_way(self, n: int, key: int, from: int, incr: nat, k: nat)
        requires
            self.valid(n),
            self.scale <= from <= TABLE_SCALE,
            bottom() <= key < top(),
            total(self.counts, bottom(), top()) + incr <= u64::MAX,
            self.on_the_way(n, key, from, incr, k),
            !self.adjusted_times(n, key, from, k).ready(n, key, from, incr),
        ensures
            self.on_the_way(n, key, from, incr, k + 1),
            self.inside() && -side(from) <= key < side(from) ==> self.adjusted_times(
                n,
                key,
                from,
                k + 1,
            ).slack() < self.adjusted_times(n, key, from, k).slack(),
            !self.adjusts_run_out(n, key, from, k + 1) ==> self.adjusted_times(
                n,
                key,
                from,
                k + 1,
            ).slack() < self.adjusted_times(n, key, from, k).slack(),
    {
        let before = self.adjusted_times(n, key, from, k);
        let i = bucket_at_scale(key, from, before.scale);
        before.lemma_key(n, key, from);
        before.lemma_adjusted(n, i, incr);
        let after = before.adjusted(n, i);
        assert(after == self.adjusted_times(n, key, from, k + 1));
        self.lemma_coarser_twice(before, after);
        before.lemma_counts(n);
        lemma_coarsen_inside(before.counts, (before.scale - after.scale) as nat, top());
        assert forall|j: nat| j < k + 1 implies !#[trigger] self.adjusted_times(n, key, from, j).ready(
            n,
            key,
            from,
            incr,
        ) by {}
    }

    /// After enough adjustments the observations can be counted.
    proof fn lemma_settles(self, n: int, key: int, from: int, incr: nat, k: nat) -> (m: nat)
        requires
            self.valid(n),
            self.scale <= from <= TABLE_SCALE,
            self.inside(),
            -side(from) <= key < side(from),
            total(self.counts, bottom(), top()) + incr <= u64::MAX,
            self.on_the_way(n, key, from, incr, k),
        ensures
            self.is_settled(n, key, from, incr, m),
            self.on_the_way(n, key, from, incr, m),
        decreases self.adjusted_times(n, key, from, k).slack(),
    {
        lemma_side(from);
        if self.adjusted_times(n, key, from, k).ready(n, key, from, incr) {
            k
        } else {
            self.lemma_on_the_way(n, key, from, incr, k);
            self.lemma_settles(n, key, from, incr, k + 1)
        }
    }

    /// Every number of adjustments up to the last needed is on the way.
    pub proof fn lemma_reaches(self, n: int, key: int, from: int, incr: nat, m: nat, k: nat)
        requires
            self.valid(n),
            self.scale <= from <= TABLE_SCALE,
            bottom() <= key < top(),
            total(self.counts, bottom(), top()) + incr <= u64::MAX,
            self.is_settled(n, key, from, incr, m),
            k <= m,
        ensures
            self.on_the_way(n, key, from, incr, k),
        decreases k,
    {
        if k == 0 {
            self.lemma_set_out(n, key, from, incr);
        } else {
            self.lemma_reaches(n, key, from, incr, m, (k - 1) as nat);
            self.lemma_on_the_way(n, key, from, incr, (k - 1) as nat);
        }
    }

    /// Once the scale has run out before the observations can be counted, it has run out for them.
    pub proof fn lemma_runs_out(self, n: int, key: int, from: int, incr: nat, k: nat)
        requires
            self.on_the_way(n, key, from, incr, k),
            self.adjusts_run_out(n, key, from, k),
        ensures
            self.record_runs_out(n, key, from, incr),
    {
        assert forall|m: nat| #[trigger] self.is_settled(n, key, from, incr, m) implies
            self.adjusts_run_out(n, key, from, m) by {
            if m < k {
                assert(!self.adjusted_times(n, key, from, m).ready(n, key, from, incr));
            }
            self.lemma_still_out(n, key, from, k, m);
        }
    }

    pub proof fn lemma_still_out(self, n: int, key: int, from: int, k: nat, m: nat)
        requires
            self.adjusts_run_out(n, key, from, k),
            k <= m,
        ensures
            self.adjusts_run_out(n, key, from, m),
        decreases m - k,
    {
        if k < m {
            self.lemma_still_out(n, key, from, k, (m - 1) as nat);
        }
    }

    /// Two numbers of adjustments that are the fewest are equal.
    pub proof fn lemma_settled_unique(self, n: int, key: int, from: int, incr: nat, a: nat, b: nat)
        requires
            self.is_settled(n, key, from, incr, a),
            self.is_settled(n, key, from, incr, b),
        ensures
            a == b,
    {
        if a < b {
            assert(!self.adjusted_times(n, key, from, a).ready(n, key, from, incr));
        }
        if b < a {
            assert(!self.adjusted_times(n, key, from, b).ready(n, key, from, incr));
        }
    }

    /// Counting observations keeps the layout valid.
    pub proof fn lemma_counted(self, n: int, i: int, incr: nat)
        requires
            self.valid(n),
            self.roomy(n, i),
            bottom() <= i < top(),
            (self.counts)(i) + incr <= capacity(self.level),
            total(self.counts, bottom(), top()) + incr <= u64::MAX,
            incr > 0,
        ensures
            self.counted(i, incr).valid(n),
            self.inside() && -side(self.scale) <= i < side(self.scale) ==> self.counted(
                i,
                incr,
            ).inside(),
            total(self.counted(i, incr).counts, bottom(), top()) == total(
                self.counts,
                bottom(),
                top(),
            ) + incr,
            !self.counted(i, incr).vacant(),
    {
        self.lemma_seated(n, i);
        self.lemma_counts(n);
        crate::counts::lemma_total_plus(self.counts, i, incr, bottom(), top());
        let q = self.counted(i, incr);
        assert((q.counts)(i) != 0);
        assert forall|j: int| #[trigger] (q.counts)(j) <= capacity(q.level) by {
            assert((self.counts)(j) <= capacity(self.level));
        }
        assert forall|j: int| #[trigger] (q.counts)(j) != 0 implies q.low <= j < q.high + 1 by {
            if j != i {
                assert((self.counts)(j) != 0);
            }
        }
        q.lemma_any_of();
    }

    /// Recording keeps every observation: the old ones at the scale that was reached, and the
    /// new ones in their bucket of that scale.
    pub proof fn lemma_recorded(self, n: int, key: int, from: int, incr: nat)
        requires
            self.valid(n),
            self.scale <= from <= TABLE_SCALE,
            bottom() <= key < top(),
            (self.inside() && -side(from) <= key < side(from)) || !self.record_runs_out(
                n,
                key,
                from,
                incr,
            ),
            total(self.counts, bottom(), top()) + incr <= u64::MAX,
            incr > 0,
        ensures
            self.recorded(n, key, from, incr).valid(n),
            self.inside() && -side(from) <= key < side(from) ==> self.recorded(
                n,
                key,
                from,
                incr,
            ).inside(),
            !self.recorded(n, key, from, incr).vacant(),
            self.recorded(n, key, from, incr).scale <= self.scale,
            self.recorded(n, key, from, incr).counts == plus(
                coarsen(
                    self.counts,
                    (self.scale - self.recorded(n, key, from, incr).scale) as nat,
                ),
                bucket_at_scale(key, from, self.recorded(n, key, from, incr).scale),
                incr,
            ),
            total(self.recorded(n, key, from, incr).counts, bottom(), top()) == total(
                self.counts,
                bottom(),
                top(),
            ) + incr,
    {
        self.lemma_set_out(n, key, from, incr);
        let m = if self.inside() && -side(from) <= key < side(from) {
            self.lemma_settles(n, key, from, incr, 0)
        } else {
            let m = choose|m: nat|
                #[trigger] self.is_settled(n, key, from, incr, m) && !self.adjusts_run_out(
                    n,
                    key,
                    from,
                    m,
                );
            self.lemma_reaches(n, key, from, incr, m, m);
            m
        };
        let k = choose|k: nat| self.is_settled(n, key, from, incr, k);
        self.lemma_settled_unique(n, key, from, incr, k, m);
        let after = self.adjusted_times(n, key, from, k);
        after.lemma_key(n, key, from);
        after.lemma_counted(n, bucket_at_scale(key, from, after.scale), incr);
    }
}

impl Layout {
    /// A vacant layout has no counts at any scale.
    pub proof fn lemma_vacant_coarser(self, n: int, d: nat)
        requires
            self.valid(n),
            self.vacant(),
        ensures
            self.counts == crate::counts::no_counts(),
            coarsen(self.counts, d) == crate::counts::no_counts(),
    {
        let none = crate::counts::no_counts();
        assert(self.counts =~= none) by {
            assert forall|i: int| #[trigger] (self.counts)(i) == none(i) by {}
        }
        assert(coarsen(self.counts, d) =~= none) by {
            assert forall|i: int| #[trigger] coarsen(self.counts, d)(i) == none(i) by {
                crate::counts::lemma_total_zero(self.counts, i * pow2(d), (i + 1) * pow2(d));
            }
        }
    }
}

} // verus!
