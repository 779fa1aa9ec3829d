//! Exponential histogram that adapts its scale to the range of its values.
//!
//! [`Histogram`] keeps its buckets in a fixed pool of words. When the range of buckets outgrows
//! the pool, or a counter must widen, the scale drops just as far as needed.

use crate::counts::{
    bottom, coarsen, lemma_coarsen_within, lemma_total_member, lemma_total_plus, lemma_total_zero,
    no_counts, plus, top, total, within, Counts,
};
use crate::downscale::{is_drop, lemma_coarsen_bounded};
use crate::float64::{
    get_biased_exponent, get_significand, is_sign_negative, unbias_exponent, zero, NAN_INF_BIASED,
};
use crate::lookup::{index_at, lemma_bucket_zero, TABLE_SCALE};
use crate::merge::{joined, merge_windows, rebased, shape, union_at, Shape};
use crate::mapping::{lemma_index_range, slot_of, Scale, ScaleError, MIN_SCALE};
use crate::settle::{grow, in_room, is_change, settled, shrink, HighLow};
use crate::stats::{combined, empty_stats, observed, refused, with_zeros, Error, Settings, Stats};
use crate::width::{
    capacity, in_range, lemma_lanes, lemma_level_for, lemma_word_bracket, lemma_word_range,
    level_for, word_of, Width,
};
use crate::window::{is_highest, is_lowest, lemma_slot_in_reach, reach, Window};
use vstd::arithmetic::power2::{lemma2_to64, lemma_pow2_adds, lemma_pow2_pos, pow2};
use vstd::prelude::*;

verus! {

/// An exponential histogram for non-negative values.
///
/// `N` is the size of the data pool in words.
#[derive(Debug, Clone, Copy)]
pub struct Histogram<const N: usize> {
    initial: Settings,
    scale: Scale,
    window: Window<N>,
    stats: Stats,
}

/// The histogram for non-negative values, by its longer name.
pub type HistogramNN<const N: usize> = Histogram<N>;

/// `change` is the least number of times that the words of the buckets with counts must be
/// paired up so that they fit `n` words.
pub open spec fn range_change(h: Counts, k: nat, n: int, change: nat) -> bool {
    forall|lo: int, hi: int|
        #![trigger is_lowest(h, lo), is_highest(h, hi)]
        is_lowest(h, lo) && is_highest(h, hi) ==> is_change(word_of(lo, k), word_of(hi, k), n, change)
}

/// The buckets `h` at the scale of `before`, brought to a scale and width at which they fit.
///
/// The scale drops by the least number of steps for which the words of all buckets fit the pool
/// and the counters hold all counts. A step that pairs up words leaves the counters as wide as
/// they are, a further one doubles their width. At the lowest scale the counters widen alone.
pub open spec fn fitted<const N: usize>(before: Histogram<N>, after: Histogram<N>, h: Counts, change: nat) -> bool {
    let room = (before.scale_of() - MIN_SCALE) as nat;
    let d = (before.scale_of() - after.scale_of()) as nat;
    &&& after.scale_of() <= before.scale_of()
    &&& change <= room
    &&& settled(h, before.level(), change, room, d, after.level(), after.counts())
    // The word at position 0 of the ring stays there, as one of `2^change` that become one.
    &&& is_drop(h, before.level(), change, d) ==> after.base_of() == before.base_of() / pow2(
        change,
    ) as int
}

/// The buckets after `incr` observations in bucket `slot`.
pub open spec fn grown<const N: usize>(
    before: Histogram<N>,
    after: Histogram<N>,
    slot: int,
    incr: nat,
) -> bool {
    let h = plus(before.counts(), slot, incr);
    &&& after.initial_of() == before.initial_of()
    &&& total(after.counts(), bottom(), top()) == total(before.counts(), bottom(), top()) + incr
    &&& if incr == 0 {
        after.same_buckets(before)
    } else if before.counts() == no_counts() {
        // The first observations set the width; there is no range to protect.
        &&& after.scale_of() == before.scale_of()
        &&& after.counts() == h
        &&& after.base_of() == word_of(slot, after.level())
        &&& after.level() == if level_for(incr) > before.level() {
            level_for(incr)
        } else {
            before.level()
        }
    } else {
        exists|change: nat|
            #![trigger range_change(h, before.level(), N as int, change)]
            range_change(h, before.level(), N as int, change) && fitted(before, after, h, change)
    }
}

/// The outcome of recording the value with pattern `bits`, `incr` times.
pub open spec fn recorded<const N: usize>(
    before: Histogram<N>,
    after: Histogram<N>,
    bits: u64,
    incr: u64,
    sum: u64,
    r: Result<(), Error>,
) -> bool {
    if before.stats_of().count + incr > u64::MAX {
        r == Err::<(), Error>(Error::Overflow) && after == before
    } else if refused(bits) {
        r == Err::<(), Error>(Error::Extreme) && after == before
    } else if zero(bits) {
        &&& r.is_ok()
        &&& after.wf()
        &&& after.same_buckets(before)
        &&& after.initial_of() == before.initial_of()
        &&& after.stats_of() == with_zeros(before.stats_of(), incr)
    } else {
        &&& r.is_ok()
        &&& after.wf()
        &&& grown(before, after, slot_of(bits, before.scale_of()), incr as nat)
        &&& after.stats_of() == observed(before.stats_of(), bits, incr, sum)
    }
}

impl<const N: usize> Histogram<N> {
    /// The settings at construction.
    pub closed spec fn initial_of(self) -> Settings {
        self.initial
    }

    /// The current scale.
    pub closed spec fn scale_of(self) -> int {
        self.scale.value()
    }

    /// The current counter width.
    pub closed spec fn width_of(self) -> Width {
        self.window.width
    }

    /// Level of the current counter width.
    pub open spec fn level(self) -> nat {
        self.width_of().level()
    }

    /// The counts of all buckets at the current scale.
    pub closed spec fn counts(self) -> Counts {
        self.window.counts()
    }

    /// The aggregate statistics.
    pub closed spec fn stats_of(self) -> Stats {
        self.stats
    }

    /// Steps from the current scale down to the lowest.
    pub open spec fn room(self) -> nat {
        (self.scale_of() - MIN_SCALE) as nat
    }

    /// Equal scale, width and buckets.
    pub open spec fn same_buckets(self, other: Self) -> bool {
        &&& self.scale_of() == other.scale_of()
        &&& self.width_of() == other.width_of()
        &&& self.counts() == other.counts()
        &&& self.base_of() == other.base_of()
    }

    /// The histogram is valid: its pool has 2 to 250 words, its buckets lie where values can
    /// fall at its scale, and their counts add up to no more than the total.
    pub closed spec fn wf(self) -> bool {
        &&& 2 <= N <= 250
        &&& self.window.wf()
        &&& self.scale.wf()
        &&& self.initial.scale_of().wf()
        &&& in_room(self.counts(), self.room())
        &&& total(self.counts(), bottom(), top()) <= self.stats.count
        &&& self.counts() == no_counts() ==> self.window.start == self.window.end
        &&& self.placed_well()
    }

    /// At the lowest scale the window stays within the words -1 and 0, at any other it is tight.
    spec fn placed_well(self) -> bool {
        &&& self.scale_of() > MIN_SCALE ==> self.tight()
        &&& self.scale_of() == MIN_SCALE && self.counts() != no_counts() ==> -1 <= self.window.start
            && self.window.end <= 0
    }

    /// The window starts and ends with the words of the lowest and highest bucket with a count.
    spec fn tight(self) -> bool {
        forall|lo: int, hi: int|
            #![trigger is_lowest(self.counts(), lo), is_highest(self.counts(), hi)]
            is_lowest(self.counts(), lo) && is_highest(self.counts(), hi) ==> self.window.start
                == word_of(lo, self.level()) && self.window.end == word_of(hi, self.level())
    }

    /// What validity says about the parts that contracts speak of.
    pub proof fn lemma_wf(self)
        requires
            self.wf(),
        ensures
            2 <= N <= 250,
            MIN_SCALE <= self.scale_of() <= TABLE_SCALE,
            self.level() <= 6,
            within(self.counts(), -reach(), reach()),
            in_room(self.counts(), self.room()),
            self.room() <= 18,
            total(self.counts(), bottom(), top()) <= self.stats_of().count,
            total(self.counts(), bottom(), top()) == 0 <==> self.counts() == no_counts(),
            forall|i: int| #[trigger] self.counts()(i) <= capacity(self.level()),
    {
        self.window.lemma_support();
        if self.counts() == no_counts() {
            lemma_total_zero(self.counts(), bottom(), top());
        }
        if total(self.counts(), bottom(), top()) == 0 {
            assert forall|i: int| #[trigger] self.counts()(i) == no_counts()(i) by {
                if self.counts()(i) != 0 {
                    lemma_total_member(self.counts(), bottom(), top(), i);
                }
            }
            assert(self.counts() =~= no_counts());
        }
    }

    /// The words of all buckets with a count fit the pool.
    pub proof fn lemma_pool(self)
        requires
            self.wf(),
        ensures
            forall|i: int, j: int|
                #![trigger self.counts()(i), self.counts()(j)]
                self.counts()(i) != 0 && self.counts()(j) != 0 ==> word_of(i, self.level())
                    - word_of(j, self.level()) < N,
    {
        self.window.lemma_support();
        assert forall|i: int, j: int|
            #![trigger self.counts()(i), self.counts()(j)]
            self.counts()(i) != 0 && self.counts()(j) != 0 implies word_of(i, self.level())
            - word_of(j, self.level()) < N by {
            self.window.lemma_covers(i);
            self.window.lemma_covers(j);
        }
    }

    /// Buckets with one more observation stay in reach.
    pub proof fn lemma_reach_with(self, slot: int, incr: nat)
        requires
            self.wf(),
            in_range(slot),
        ensures
            within(plus(self.counts(), slot, incr), -reach(), reach()),
    {
        self.window.lemma_support();
    }

    /// Creates a new histogram at the finest scale with 1-bit counters.
    pub fn new() -> (r: Self)
        requires
            2 <= N <= 250,
        ensures
            r.wf(),
            r.scale_of() == TABLE_SCALE,
            r.width_of() == Width::B1,
            r.initial_of().scale_of().value() == TABLE_SCALE,
            r.initial_of().width_of() == Width::B1,
            r.counts() == no_counts(),
            r.stats_of() == empty_stats(),
    {
        let scale = Scale::finest();
        let r = Histogram {
            initial: Settings::new(scale, Width::B1),
            scale,
            window: Window::new(Width::B1),
            stats: Stats::empty(),
        };
        proof {
            lemma_total_zero(no_counts(), bottom(), top());
        }
        r
    }

    /// Sets the maximum scale of an empty histogram.
    ///
    /// # Errors
    ///
    /// Returns [`ScaleError::InvalidScale`] if `scale` is not supported.
    pub fn with_scale(self, scale: i32) -> (r: Result<Self, ScaleError>)
        requires
            self.wf(),
            self.counts() == no_counts(),
        ensures
            r.is_ok() <==> MIN_SCALE <= scale <= TABLE_SCALE,
            r.is_err() ==> r->Err_0 == ScaleError::InvalidScale,
            r.is_ok() ==> {
                &&& r.unwrap().wf()
                &&& r.unwrap().scale_of() == scale
                &&& r.unwrap().width_of() == self.width_of()
                &&& r.unwrap().counts() == no_counts()
                &&& r.unwrap().stats_of() == self.stats_of()
                &&& r.unwrap().initial_of().scale_of().value() == scale
                &&& r.unwrap().initial_of().width_of() == self.initial_of().width_of()
            },
    {
        match Scale::new(scale) {
            Ok(s) => Ok(
                Histogram { initial: Settings::new(s, self.initial.width()), scale: s, ..self },
            ),
            Err(e) => Err(e),
        }
    }

    /// Sets the minimum counter width of an empty histogram.
    pub fn with_min_width(self, width: Width) -> (r: Self)
        requires
            self.wf(),
            self.counts() == no_counts(),
        ensures
            r.wf(),
            r.width_of() == width,
            r.scale_of() == self.scale_of(),
            r.counts() == no_counts(),
            r.stats_of() == self.stats_of(),
            r.initial_of().width_of() == width,
            r.initial_of().scale_of() == self.initial_of().scale_of(),
    {
        Histogram {
            initial: Settings::new(self.initial.scale(), width),
            window: Window::new(width),
            ..self
        }
    }

    /// Returns the settings at construction.
    pub fn initial_settings(&self) -> (r: Settings)
        ensures
            r == self.initial_of(),
    {
        self.initial
    }

    /// Returns the current settings.
    pub fn current_settings(&self) -> (r: Settings)
        ensures
            r.scale_of().value() == self.scale_of(),
            r.width_of() == self.width_of(),
    {
        Settings::new(self.scale, self.window.width)
    }

    /// Returns the current counter width.
    pub fn width(&self) -> (r: Width)
        ensures
            r == self.width_of(),
    {
        self.window.width
    }

    /// Returns true if no non-zero values have been recorded.
    pub fn buckets_empty(&self) -> (r: bool)
        requires
            self.wf(),
        ensures
            r <==> self.counts() == no_counts(),
    {
        if self.window.start != self.window.end {
            return false;
        }
        let word = self.window.get_word(self.window.start);
        proof {
            self.lemma_empty_word();
        }
        word == 0
    }

    /// A window of one word is empty exactly when the word is zero.
    proof fn lemma_empty_word(self)
        requires
            self.window.wf(),
            self.window.start == self.window.end,
        ensures
            self.window.word(self.window.start as int) == 0 <==> self.counts() == no_counts(),
    {
        let k = self.level();
        let w = self.window.start as int;
        lemma_lanes(k);
        if self.window.word(w) == 0 {
            assert forall|s: int| #[trigger] self.counts()(s) == no_counts()(s) by {
                self.window.lemma_count(s);
                crate::lane::lemma_lane_bound(0, k as u64, (s % crate::width::lanes(k)) as u64);
            }
            assert(self.counts() =~= no_counts());
        } else if self.counts() == no_counts() {
            assert forall|i: u64| i < crate::lane::lane_count(k as u64) implies crate::lane::lane(
                self.window.word(w),
                k as u64,
                i,
            ) == #[trigger] crate::lane::lane(0, k as u64, i) by {
                self.window.lemma_lane_count(w, i as int);
                crate::lane::lemma_lane_bound(0, k as u64, i);
            }
            crate::lane::lemma_lane_ext(self.window.word(w), 0, k as u64);
        }
    }

    /// Returns the statistics as they are kept.
    pub fn raw_stats(&self) -> (r: Stats)
        ensures
            r == self.stats_of(),
    {
        self.stats
    }

    /// Swaps contents with another histogram.
    pub fn swap(&mut self, other: &mut Self)
        ensures
            *final(self) == *old(other),
            *final(other) == *old(self),
    {
        let mine = *self;
        *self = *other;
        *other = mine;
    }

    /// Resets the histogram to its initial state.
    pub fn clear(&mut self)
        requires
            old(self).wf(),
        ensures
            final(self).wf(),
            final(self).initial_of() == old(self).initial_of(),
            final(self).scale_of() == old(self).initial_of().scale_of().value(),
            final(self).width_of() == old(self).initial_of().width_of(),
            final(self).counts() == no_counts(),
            final(self).stats_of() == empty_stats(),
    {
        proof {
            lemma_total_zero(no_counts(), bottom(), top());
        }
        self.scale = self.initial.scale();
        self.window = Window::new(self.initial.width());
        self.stats = Stats::empty();
    }

    /// Records a single value; `sum` is the new sum of all observed values.
    pub fn update(&mut self, bits: u64, sum: u64) -> (r: Result<(), Error>)
        requires
            old(self).wf(),
        ensures
            recorded(*old(self), *final(self), bits, 1, sum, r),
    {
        self.record_incr(bits, 1, sum)
    }

    /// Records the value with pattern `bits`, `incr` times; `sum` is the new sum of all observed
    /// values.
    ///
    /// # Errors
    ///
    /// Returns [`Error::Overflow`] if the total count would exceed `u64::MAX`, and
    /// [`Error::Extreme`] if the value is NaN, infinite or negative.
    pub fn record_incr(&mut self, bits: u64, incr: u64, sum: u64) -> (r: Result<(), Error>)
        requires
            old(self).wf(),
        ensures
            recorded(*old(self), *final(self), bits, incr, sum, r),
    {
        let mut biased_exp = get_biased_exponent(bits);
        let mut sig = get_significand(bits);
        if self.stats.count > u64::MAX - incr {
            return Err(Error::Overflow);
        }
        if biased_exp == 0 {
            if sig == 0 {
                // Zero has no bucket and leaves the extremes alone.
                self.stats.observe_zeros(incr);
                return Ok(());
            } else if is_sign_negative(bits) {
                return Err(Error::Extreme);
            }
            biased_exp = 1;
            sig = 1;
        } else if biased_exp == NAN_INF_BIASED || is_sign_negative(bits) {
            return Err(Error::Extreme);
        }
        self.update_decomposed(sig, unbias_exponent(biased_exp), incr);
        self.stats.observe(bits, incr, sum);
        Ok(())
    }

    /// Adds `incr` observations of a decomposed value to the buckets.
    fn update_decomposed(&mut self, sig: u64, base2_exp: i32, incr: u64)
        requires
            old(self).wf(),
            -1022 <= base2_exp <= 1023,
            old(self).stats_of().count + incr <= u64::MAX,
        ensures
            final(self).stats_of() == old(self).stats_of(),
            grown(
                *old(self),
                *final(self),
                index_at(sig as int, base2_exp as int, old(self).scale_of()),
                incr as nat,
            ),
            final(self).wf_but_count(incr),
    {
        let ghost before = *self;
        if incr == 0 {
            return;
        }
        let slot = self.scale.map_decomposed(sig, base2_exp);
        let ghost h = plus(before.counts(), slot as int, incr as nat);
        proof {
            self.lemma_wf();
            lemma_index_range(sig as int, base2_exp as int, self.scale_of());
            lemma_slot_room(sig as int, base2_exp as int, self.scale_of());
            lemma_total_plus(before.counts(), slot as int, incr as nat, bottom(), top());
            lemma_slot_in_reach(slot as int, self.level());
            lemma_word_range(slot as int, self.level());
        }
        if self.buckets_empty() {
            self.place_first(slot, incr);
            return;
        }
        let word = self.window.width.slot_to_word_index(slot);
        let range = HighLow { low: self.window.start, high: self.window.end };
        let range = range.merge(HighLow { low: word, high: word });
        assert(range.low == if word < self.window.start {
            word
        } else {
            self.window.start
        });
        assert(range.high == if word > self.window.end {
            word
        } else {
            self.window.end
        });
        let change = range.change_steps(N);
        let room: u32 = (self.scale.scale() - MIN_SCALE) as u32;
        proof {
            before.lemma_range(slot as int, incr as nat, change as nat);
        }
        let (window, d) = grow(&self.window, slot, incr, change, room);
        self.scale = self.lower_scale(d);
        self.window = window;
        proof {
            assert(fitted(before, *self, h, change as nat));
            let p = pow2(change as nat) as int;
            lemma_pow2_pos(change as nat);
            if word <= before.window.start {
                crate::arith::lemma_div_mono(word as int, before.window.start as int, p);
            } else {
                crate::arith::lemma_div_mono(before.window.start as int, word as int, p);
            }
            if word <= before.window.end {
                crate::arith::lemma_div_mono(word as int, before.window.end as int, p);
            } else {
                crate::arith::lemma_div_mono(before.window.end as int, word as int, p);
            }
            assert(h(slot as int) != no_counts()(slot as int));
            if before.scale_of() == MIN_SCALE {
                lemma2_to64();
                lemma_bottom_words(slot as int, before.level());
                lemma_bottom_change(range.low as int, range.high as int, N as int);
                if change > 0 {
                    assert((range.high as int / pow2(0) as int) - (range.low as int / pow2(
                        0,
                    ) as int) >= N);
                }
                assert(pow2(change as nat) == 1);
                assert(range.low as int / 1 == range.low && range.high as int / 1 == range.high);
                assert(-1 <= range.low && range.high <= 0);
                assert(-1 <= self.window.start && self.window.end <= 0);
            }
            self.lemma_fitted(before, h, change as nat, d as nat);
        }
    }

    /// The scale `d` steps lower.
    fn lower_scale(&self, d: u32) -> (r: Scale)
        requires
            self.wf(),
            d <= self.room(),
        ensures
            r.wf(),
            r.value() == self.scale_of() - d,
    {
        match Scale::new(self.scale.scale() - d as i32) {
            Ok(s) => s,
            Err(_) => self.scale,
        }
    }

    /// Places the first observations, at a width that holds them.
    fn place_first(&mut self, slot: i32, incr: u64)
        requires
            old(self).wf(),
            incr > 0,
            old(self).counts() == no_counts(),
            in_range(slot as int),
            -(pow2(old(self).room()) as int) <= slot < pow2(old(self).room()),
            old(self).stats_of().count + incr <= u64::MAX,
        ensures
            final(self).stats_of() == old(self).stats_of(),
            grown(*old(self), *final(self), slot as int, incr as nat),
            final(self).wf_but_count(incr),
    {
        let ghost before = *self;
        let width = self.window.width.wider_of(Width::from_max_value(incr));
        let w = width.slot_to_word_index(slot);
        proof {
            self.lemma_wf();
            lemma_slot_in_reach(slot as int, width.level());
            lemma_level_for(incr as nat, width.level());
            lemma_word_bracket(slot as int, w as int, width.level());
            lemma_total_plus(before.counts(), slot as int, incr as nat, bottom(), top());
        }
        let mut window = Window::spanning(width, w, w);
        window.write_add(slot, incr);
        self.window = window;
        proof {
            assert(self.counts()(slot as int) == incr);
            assert(no_counts()(slot as int) == 0);
            let c = self.counts();
            assert(is_lowest(c, slot as int) && is_highest(c, slot as int));
            assert forall|l: int, m: int|
                #![trigger is_lowest(self.counts(), l), is_highest(self.counts(), m)]
                is_lowest(self.counts(), l) && is_highest(self.counts(), m) implies self.window.start
                == word_of(l, self.level()) && self.window.end == word_of(m, self.level()) by {
                lemma_lowest_unique(c, l);
                lemma_lowest_unique(c, slot as int);
                lemma_highest_unique(c, m);
                lemma_highest_unique(c, slot as int);
            }
            if self.scale_of() == MIN_SCALE {
                lemma2_to64();
                lemma_bottom_words(slot as int, self.level());
            }
        }
    }

    /// Valid once `incr` more observations are counted.
    closed spec fn wf_but_count(self, incr: u64) -> bool {
        &&& 2 <= N <= 250
        &&& self.window.wf()
        &&& self.scale.wf()
        &&& self.initial.scale_of().wf()
        &&& in_room(self.counts(), self.room())
        &&& total(self.counts(), bottom(), top()) <= self.stats.count + incr
        &&& self.counts() == no_counts() ==> self.window.start == self.window.end
        &&& self.placed_well()
    }

    /// The range of words with one more bucket.
    proof fn lemma_range(self, slot: int, incr: nat, change: nat)
        requires
            self.wf(),
            self.counts() != no_counts(),
            incr > 0,
            in_range(slot),
            -(pow2(self.room()) as int) <= slot < pow2(self.room()),
            ({
                let w = word_of(slot, self.level());
                is_change(
                    if self.window.start <= w {
                        self.window.start as int
                    } else {
                        w
                    },
                    if self.window.end >= w {
                        self.window.end as int
                    } else {
                        w
                    },
                    N as int,
                    change,
                )
            }),
        ensures
            range_change(plus(self.counts(), slot, incr), self.level(), N as int, change),
            change <= self.room(),
            in_room(plus(self.counts(), slot, incr), self.room()),
            is_lowest(plus(self.counts(), slot, incr), lowest_of(plus(self.counts(), slot, incr))),
            is_highest(plus(self.counts(), slot, incr), highest_of(plus(self.counts(), slot, incr))),
            ({
                let w = word_of(slot, self.level()) / pow2(change) as int;
                &&& (self.window.end as int / pow2(change) as int) - w < N
                &&& w - (self.window.start as int / pow2(change) as int) < N
            }),
            self.scale_of() > MIN_SCALE ==> ({
                let h = plus(self.counts(), slot, incr);
                let w = word_of(slot, self.level());
                &&& word_of(lowest_of(h), self.level()) == (if self.window.start <= w {
                    self.window.start as int
                } else {
                    w
                })
                &&& word_of(highest_of(h), self.level()) == (if self.window.end >= w {
                    self.window.end as int
                } else {
                    w
                })
            }),
    {
        let h = plus(self.counts(), slot, incr);
        let k = self.level();
        let n = N as int;
        let w = word_of(slot, k);
        self.lemma_wf();
        self.window.lemma_support();
        lemma_lanes(k);
        let (lo, hi) = lemma_extremes(self.counts());
        let hlo = if slot < lo {
            slot
        } else {
            lo
        };
        let hhi = if slot > hi {
            slot
        } else {
            hi
        };
        assert(is_lowest(h, hlo) && is_highest(h, hhi));
        lemma_lowest_unique(h, hlo);
        lemma_highest_unique(h, hhi);
        self.window.lemma_covers(lo);
        self.window.lemma_covers(hi);
        crate::arith::lemma_div_mono(hlo, slot, crate::width::lanes(k));
        crate::arith::lemma_div_mono(slot, hhi, crate::width::lanes(k));
        crate::arith::lemma_div_mono(lo, hi, crate::width::lanes(k));
        let a = if self.window.start <= w {
            self.window.start as int
        } else {
            w
        };
        let b = if self.window.end >= w {
            self.window.end as int
        } else {
            w
        };
        lemma_pow2_pos(change);
        crate::arith::lemma_div_mono(a, w, pow2(change) as int);
        crate::arith::lemma_div_mono(w, b, pow2(change) as int);
        crate::arith::lemma_div_mono(a, self.window.start as int, pow2(change) as int);
        crate::arith::lemma_div_mono(self.window.end as int, b, pow2(change) as int);
        if self.scale_of() > MIN_SCALE {
            assert(self.window.start == word_of(lo, k) && self.window.end == word_of(hi, k));
            if slot < lo {
                crate::arith::lemma_div_mono(slot, lo, crate::width::lanes(k));
            }
            if slot > hi {
                crate::arith::lemma_div_mono(hi, slot, crate::width::lanes(k));
            }
            assert(a == word_of(hlo, k) && b == word_of(hhi, k));
            lemma_room_change(hlo, hhi, k, n, self.room(), change);
        } else {
            // At the lowest scale all buckets are -1 or 0, and so are their words.
            lemma2_to64();
            assert(self.room() == 0);
            lemma_bottom_words(hlo, k);
            lemma_bottom_words(hhi, k);
            lemma_bottom_words(lo, k);
            lemma_bottom_words(hi, k);
            lemma_bottom_words(slot, k);
            lemma_bottom_change(word_of(hlo, k), word_of(hhi, k), n);
            lemma_bottom_change(a, b, n);
            if change > 0 {
                assert((b / pow2(0) as int) - (a / pow2(0) as int) >= n);
            }
        }
        assert forall|l: int, m: int|
            #![trigger is_lowest(h, l), is_highest(h, m)]
            is_lowest(h, l) && is_highest(h, m) implies is_change(word_of(l, k), word_of(m, k), n, change) by {
            lemma_lowest_unique(h, l);
            lemma_highest_unique(h, m);
        }
    }
}

/// The lowest bucket with a count.
pub open spec fn lowest_of(h: Counts) -> int {
    choose|i: int| is_lowest(h, i)
}

/// The highest bucket with a count.
pub open spec fn highest_of(h: Counts) -> int {
    choose|i: int| is_highest(h, i)
}

/// There is one lowest bucket.
pub proof fn lemma_lowest_unique(h: Counts, i: int)
    requires
        is_lowest(h, i),
    ensures
        lowest_of(h) == i,
{
    let j = lowest_of(h);
    assert(is_lowest(h, j));
    if i < j {
        assert(h(i) == 0);
    } else if j < i {
        assert(h(j) == 0);
    }
}

/// There is one highest bucket.
pub proof fn lemma_highest_unique(h: Counts, i: int)
    requires
        is_highest(h, i),
    ensures
        highest_of(h) == i,
{
    let j = highest_of(h);
    assert(is_highest(h, j));
    if i < j {
        assert(h(j) == 0);
    } else if j < i {
        assert(h(i) == 0);
    }
}

/// A histogram with counts has a lowest and a highest bucket.
pub proof fn lemma_extremes(c: Counts) -> (r: (int, int))
    requires
        within(c, -reach(), reach()),
        c != no_counts(),
    ensures
        is_lowest(c, r.0),
        is_highest(c, r.1),
        r.0 <= r.1,
        lowest_of(c) == r.0,
        highest_of(c) == r.1,
{
    if forall|i: int| #[trigger] c(i) == 0 {
        assert(c =~= no_counts());
    }
    let j = choose|i: int| #[trigger] c(i) != 0;
    let lo = lemma_scan_up(c, -reach(), j);
    let hi = lemma_scan_down(c, reach(), j);
    lemma_lowest_unique(c, lo);
    lemma_highest_unique(c, hi);
    (lo, hi)
}

proof fn lemma_scan_up(c: Counts, from: int, j: int) -> (r: int)
    requires
        forall|i: int| i < from ==> #[trigger] c(i) == 0,
        c(j) != 0,
    ensures
        is_lowest(c, r),
        r <= j,
    decreases j - from,
{
    if c(from) != 0 {
        from
    } else {
        assert(from < j);
        assert forall|i: int| i < from + 1 implies #[trigger] c(i) == 0 by {}
        lemma_scan_up(c, from + 1, j)
    }
}

proof fn lemma_scan_down(c: Counts, from: int, j: int) -> (r: int)
    requires
        forall|i: int| i > from ==> #[trigger] c(i) == 0,
        c(j) != 0,
    ensures
        is_highest(c, r),
        r >= j,
    decreases from - j,
{
    if c(from) != 0 {
        from
    } else {
        assert(from > j);
        assert forall|i: int| i > from - 1 implies #[trigger] c(i) == 0 by {}
        lemma_scan_down(c, from - 1, j)
    }
}

/// At the lowest scale a bucket is its own word.
proof fn lemma_bottom_words(s: int, k: nat)
    requires
        -1 <= s <= 0,
        k <= 6,
    ensures
        word_of(s, k) == s,
{
    lemma_lanes(k);
    let d = crate::width::lanes(k);
    if s == 0 {
        crate::arith::lemma_div_unique(0, d, 0, 0);
    } else {
        crate::arith::lemma_div_unique(-1, d, -1, d - 1);
    }
}

/// Two neighbouring words fit any pool.
proof fn lemma_bottom_change(a: int, b: int, n: int)
    requires
        -1 <= a <= b <= 0,
        n >= 2,
    ensures
        is_change(a, b, n, 0),
{
    lemma2_to64();
}

/// A bucket in `-2^room..2^room` becomes -1 or 0 after a drop by `room`.
pub proof fn lemma_to_bottom(s: int, room: nat)
    requires
        -(pow2(room) as int) <= s < pow2(room),
    ensures
        -1 <= s / pow2(room) as int <= 0,
{
    lemma_pow2_pos(room);
    let p = pow2(room) as int;
    if s >= 0 {
        crate::arith::lemma_div_unique(s, p, 0, s);
    } else {
        crate::arith::lemma_div_unique(s, p, -1, s + p);
    }
}

/// The range always fits after a drop to the lowest scale.
pub proof fn lemma_room_change(lo: int, hi: int, k: nat, n: int, room: nat, change: nat)
    requires
        -(pow2(room) as int) <= lo <= hi < pow2(room),
        k <= 6,
        n >= 2,
        is_change(word_of(lo, k), word_of(hi, k), n, change),
    ensures
        change <= room,
{
    if change > room {
        lemma_to_bottom(lo, room);
        lemma_to_bottom(hi, room);
        lemma_lanes(k);
        crate::arith::lemma_shift_twice(lo, (6 - k) as nat, room);
        crate::arith::lemma_shift_twice(lo, room, (6 - k) as nat);
        crate::arith::lemma_shift_twice(hi, (6 - k) as nat, room);
        crate::arith::lemma_shift_twice(hi, room, (6 - k) as nat);
        lemma_bottom_words(lo / pow2(room) as int, k);
        lemma_bottom_words(hi / pow2(room) as int, k);
        assert((word_of(hi, k) / pow2(room) as int) - (word_of(lo, k) / pow2(room) as int) >= n);
    }
}

/// Values of any exponent fall into `-2^(scale + 10)..2^(scale + 10)`.
pub proof fn lemma_slot_room(sig: int, exp: int, scale: int)
    requires
        0 <= sig,
        -1022 <= exp <= 1023,
        MIN_SCALE <= scale <= TABLE_SCALE,
    ensures
        -(pow2((scale - MIN_SCALE) as nat) as int) <= index_at(sig, exp, scale) < pow2(
            (scale - MIN_SCALE) as nat,
        ),
{
    lemma_bucket_zero(sig);
    let f = crate::lookup::fine_index(sig, exp);
    let room = (scale - MIN_SCALE) as nat;
    let s = (TABLE_SCALE - scale) as nat;
    lemma2_to64();
    lemma_pow2_adds(room, s);
    assert(pow2(18) == 0x4_0000);
    assert(-0x4_0000 <= f < 0x4_0000);
    let p = pow2(room) as int;
    let d = pow2(s) as int;
    lemma_pow2_pos(s);
    crate::arith::lemma_div_bracket(f, d, f / d);
    let q = f / d;
    assert(-p <= q < p) by (nonlinear_arith)
        requires
            p * d == 0x4_0000,
            d > 0,
            q * d <= f < (q + 1) * d,
            -0x4_0000 <= f < 0x4_0000,
    ;
}

/// Coarser buckets need less room.
pub proof fn lemma_room_left(h: Counts, room: nat, d: nat)
    requires
        in_room(h, room),
        d <= room,
    ensures
        in_room(coarsen(h, d), (room - d) as nat),
{
    lemma_pow2_pos(room);
    lemma_pow2_pos(d);
    lemma_pow2_adds((room - d) as nat, d);
    let p = pow2(room) as int;
    let q = pow2(d) as int;
    let r = pow2((room - d) as nat) as int;
    lemma_coarsen_within(h, d, -p, p);
    assert(-p == (-r) * q) by (nonlinear_arith)
        requires
            p == r * q,
    ;
    crate::arith::lemma_div_unique(-p, q, -r, 0);
    assert(p - 1 == (r - 1) * q + (q - 1)) by (nonlinear_arith)
        requires
            p == r * q,
    ;
    crate::arith::lemma_div_unique(p - 1, q, r - 1, q - 1);
}

/// The extremes of coarser buckets.
pub proof fn lemma_coarser_extremes(h: Counts, d: nat, lo: int, hi: int)
    requires
        is_lowest(h, lo),
        is_highest(h, hi),
    ensures
        is_lowest(coarsen(h, d), lo / pow2(d) as int),
        is_highest(coarsen(h, d), hi / pow2(d) as int),
{
    crate::counts::lemma_coarsen_member(h, d, lo);
    crate::counts::lemma_coarsen_member(h, d, hi);
    assert(within(h, lo, hi + 1)) by {
        assert forall|i: int| #[trigger] h(i) != 0 implies lo <= i < hi + 1 by {}
    }
    if lo > hi {
        assert(h(lo) == 0);
    }
    lemma_coarsen_within(h, d, lo, hi + 1);
    let c = coarsen(h, d);
    assert forall|j: int| j < lo / pow2(d) as int implies #[trigger] c(j) == 0 by {}
    assert forall|j: int| j > hi / pow2(d) as int implies #[trigger] c(j) == 0 by {}
}

impl<const N: usize> Histogram<N> {
    /// A histogram brought to a fitting scale and width is well placed.
    proof fn lemma_fitted(self, before: Self, h: Counts, change: nat, d: nat)
        requires
            before.wf(),
            self.window.wf(),
            self.scale.wf(),
            self.initial == before.initial,
            self.scale_of() == before.scale_of() - d,
            d <= before.room(),
            change <= before.room(),
            h != no_counts(),
            in_room(h, before.room()),
            within(h, -reach(), reach()),
            is_lowest(h, lowest_of(h)),
            is_highest(h, highest_of(h)),
            settled(h, before.level(), change, before.room(), d, self.level(), self.counts()),
            before.scale_of() > MIN_SCALE ==> ({
                ||| {
                    &&& self.window.start == word_of(lowest_of(h), before.level()) / pow2(change) as int
                    &&& self.window.end == word_of(highest_of(h), before.level()) / pow2(change) as int
                    &&& self.level() == before.level() + d - change
                }
                ||| self.window.start == -1 && self.window.end == 0 && d == before.room()
            }),
            before.scale_of() == MIN_SCALE ==> -1 <= self.window.start && self.window.end <= 0,
        ensures
            self.placed_well(),
            in_room(self.counts(), self.room()),
            self.counts() != no_counts(),
            total(self.counts(), bottom(), top()) == total(h, bottom(), top()),
    {
        let lo = lowest_of(h);
        let hi = highest_of(h);
        let c = coarsen(h, d);
        assert(self.counts() == c);
        before.lemma_wf();
        lemma_coarsen_bounded(h, d);
        lemma_room_left(h, before.room(), d);
        lemma_coarser_extremes(h, d, lo, hi);
        assert(c(lo / pow2(d) as int) != no_counts()(lo / pow2(d) as int));
        lemma_lowest_unique(c, lo / pow2(d) as int);
        lemma_highest_unique(c, hi / pow2(d) as int);
        if before.scale_of() > MIN_SCALE {
            if self.window.start == word_of(lo, before.level()) / pow2(change) as int && self.window.end
                == word_of(hi, before.level()) / pow2(change) as int && self.level() == before.level()
                + d - change {
                crate::settle::lemma_slot_word(lo, before.level(), change, d);
                crate::settle::lemma_slot_word(hi, before.level(), change, d);
                if self.scale_of() == MIN_SCALE {
                    assert(h(lo) != 0 && h(hi) != 0);
                    lemma_to_bottom(lo, before.room());
                    lemma_to_bottom(hi, before.room());
                    lemma_bottom_words(lo / pow2(d) as int, self.level());
                    lemma_bottom_words(hi / pow2(d) as int, self.level());
                }
                assert forall|l: int, m: int|
                    #![trigger is_lowest(self.counts(), l), is_highest(self.counts(), m)]
                    is_lowest(self.counts(), l) && is_highest(self.counts(), m) implies self.window.start
                    == word_of(l, self.level()) && self.window.end == word_of(m, self.level()) by {
                    lemma_lowest_unique(c, l);
                    lemma_highest_unique(c, m);
                }
            }
        }
    }

    /// Decreases the scale by at least `change` steps, so that every `2^change` words of the
    /// buckets become one.
    pub fn downscale_by(&mut self, change: u32)
        requires
            old(self).wf(),
            change <= old(self).room(),
        ensures
            final(self).wf(),
            final(self).initial_of() == old(self).initial_of(),
            final(self).stats_of() == old(self).stats_of(),
            change == 0 || old(self).counts() == no_counts() ==> *final(self) == *old(self),
            change > 0 && old(self).counts() != no_counts() ==> {
                &&& fitted(*old(self), *final(self), old(self).counts(), change as nat)
                &&& final(self).scale_of() <= old(self).scale_of() - change
            },
            total(final(self).counts(), bottom(), top()) == total(
                old(self).counts(),
                bottom(),
                top(),
            ),
    {
        let ghost before = *self;
        if change == 0 || self.buckets_empty() {
            return;
        }
        let room: u32 = (self.scale.scale() - MIN_SCALE) as u32;
        proof {
            self.lemma_wf();
            let (lo, hi) = lemma_extremes(self.counts());
        }
        let (window, d) = shrink(&self.window, change, room);
        self.scale = self.lower_scale(d);
        self.window = window;
        proof {
            self.lemma_fitted(before, before.counts(), change as nat, d as nat);
        }
    }
}

/// The outcome of merging `other` into a histogram.
pub open spec fn merge_outcome<const N: usize, const M: usize>(
    before: Histogram<N>,
    other: Histogram<M>,
    after: Histogram<N>,
    sum: u64,
    r: Result<(), Error>,
) -> bool {
    if other.stats_of().count == 0 {
        r.is_ok() && after == before
    } else if before.stats_of().count + other.stats_of().count > u64::MAX {
        r == Err::<(), Error>(Error::Overflow) && after == before
    } else {
        &&& r.is_ok()
        &&& after.wf()
        &&& after.initial_of() == before.initial_of()
        &&& after.stats_of() == combined(before.stats_of(), other.stats_of(), sum)
        &&& total(after.counts(), bottom(), top()) == total(before.counts(), bottom(), top()) + total(
            other.counts(),
            bottom(),
            top(),
        )
        &&& if other.counts() == no_counts() {
            after.same_buckets(before)
        } else {
            &&& joined(before.shape_of(), other.shape_of(), N as int, after.shape_of())
            &&& rebased(
                before.shape_of(),
                before.base_of(),
                other.shape_of(),
                N as int,
                after.shape_of(),
                after.base_of(),
            )
        }
    }
}

/// Buckets of a union at a common lower scale.
proof fn lemma_union_room(a: Shape, b: Shape, s: int)
    requires
        MIN_SCALE <= s <= a.scale <= TABLE_SCALE,
        s <= b.scale <= TABLE_SCALE,
        in_room(a.counts, (a.scale - MIN_SCALE) as nat),
        in_room(b.counts, (b.scale - MIN_SCALE) as nat),
        within(a.counts, -reach(), reach()),
        within(b.counts, -reach(), reach()),
    ensures
        in_room(union_at(a, b, s), (s - MIN_SCALE) as nat),
        total(union_at(a, b, s), bottom(), top()) == total(a.counts, bottom(), top()) + total(
            b.counts,
            bottom(),
            top(),
        ),
{
    let f = coarsen(a.counts, (a.scale - s) as nat);
    let g = coarsen(b.counts, (b.scale - s) as nat);
    lemma_room_left(a.counts, (a.scale - MIN_SCALE) as nat, (a.scale - s) as nat);
    lemma_room_left(b.counts, (b.scale - MIN_SCALE) as nat, (b.scale - s) as nat);
    lemma_coarsen_bounded(a.counts, (a.scale - s) as nat);
    lemma_coarsen_bounded(b.counts, (b.scale - s) as nat);
    crate::counts::lemma_total_both(f, g, bottom(), top());
    let h = union_at(a, b, s);
    let p = pow2((s - MIN_SCALE) as nat) as int;
    assert forall|i: int| #[trigger] h(i) != 0 implies -p <= i < p by {
        assert(f(i) != 0 || g(i) != 0);
    }
}

impl<const N: usize> Histogram<N> {
    /// The buckets, scale and counter level.
    pub open spec fn shape_of(self) -> Shape {
        Shape { counts: self.counts(), scale: self.scale_of(), level: self.level() }
    }

    /// Merges another histogram into this one; `sum` is the new sum of all observed values. The
    /// source may have a different pool size.
    ///
    /// # Errors
    ///
    /// Returns [`Error::Overflow`] if the combined total count would exceed `u64::MAX`.
    pub fn merge_from<const M: usize>(&mut self, other: &Histogram<M>, sum: u64) -> (r: Result<
        (),
        Error,
    >)
        requires
            old(self).wf(),
            other.wf(),
        ensures
            merge_outcome(*old(self), *other, *final(self), sum, r),
    {
        if other.stats.count == 0 {
            return Ok(());
        }
        if self.stats.count > u64::MAX - other.stats.count {
            return Err(Error::Overflow);
        }
        self.merge_buckets(other);
        self.stats.combine(&other.stats, sum);
        Ok(())
    }

    /// Merges the buckets of another histogram.
    fn merge_buckets<const M: usize>(&mut self, other: &Histogram<M>)
        requires
            old(self).wf(),
            other.wf(),
            old(self).stats_of().count + other.stats_of().count <= u64::MAX,
        ensures
            final(self).stats_of() == old(self).stats_of(),
            final(self).initial_of() == old(self).initial_of(),
            final(self).wf_but_count(other.stats_of().count),
            total(final(self).counts(), bottom(), top()) == total(old(self).counts(), bottom(), top())
                + total(other.counts(), bottom(), top()),
            other.counts() == no_counts() ==> final(self).same_buckets(*old(self)),
            other.counts() != no_counts() ==> joined(
                old(self).shape_of(),
                other.shape_of(),
                N as int,
                final(self).shape_of(),
            ) && rebased(
                old(self).shape_of(),
                old(self).base_of(),
                other.shape_of(),
                N as int,
                final(self).shape_of(),
                final(self).base_of(),
            ),
    {
        let ghost before = *self;
        proof {
            self.lemma_wf();
            other.lemma_wf();
        }
        if other.buckets_empty() {
            return;
        }
        let (window, scale) = merge_windows(
            &self.window,
            self.scale.scale(),
            &other.window,
            other.scale.scale(),
        );
        proof {
            assert(shape(before.window, before.scale_of()) == before.shape_of());
            assert(shape(other.window, other.scale_of()) == other.shape_of());
            lemma_union_room(before.shape_of(), other.shape_of(), scale as int);
        }
        let d: u32 = (self.scale.scale() - scale) as u32;
        self.scale = self.lower_scale(d);
        self.window = window;
        proof {
            let h = self.counts();
            if h == no_counts() {
                lemma_total_zero(h, bottom(), top());
            }
            self.window.lemma_support();
            if self.scale_of() == MIN_SCALE {
                let (lo, hi) = lemma_extremes(h);
                lemma2_to64();
                assert(h(lo) != 0 && h(hi) != 0);
                lemma_bottom_words(lo, self.level());
                lemma_bottom_words(hi, self.level());
            }
        }
    }
}

/// View of a [`Histogram`].
#[derive(Debug)]
pub struct HistogramView<'a, const N: usize> {
    hist: &'a Histogram<N>,
}

/// View of the buckets of a [`Histogram`], from the first to the last one with a count.
#[derive(Debug)]
pub struct BucketView<'a, const N: usize> {
    hist: &'a Histogram<N>,
}

/// Cursor over bucket counts.
#[derive(Debug)]
pub struct BucketsIter<'a, const N: usize> {
    hist: &'a Histogram<N>,
    next: i32,
    last: i32,
}

impl<const N: usize> Histogram<N> {
    /// Word at position 0 of the pool, as the contracts see it.
    pub closed spec fn base_of(self) -> int {
        self.window.base as int
    }

    /// Word at position 0 of the pool.
    pub fn word_base(&self) -> (r: i32)
        ensures
            r == self.base_of(),
    {
        self.window.base
    }

    /// Returns a read-only view of the histogram.
    pub fn view(&self) -> (r: HistogramView<'_, N>)
        ensures
            r.of() == *self,
    {
        HistogramView { hist: self }
    }

    /// Returns a read-only view of the buckets.
    pub fn buckets(&self) -> (r: BucketView<'_, N>)
        ensures
            r.of() == *self,
    {
        BucketView { hist: self }
    }

    /// Returns the lowest and highest bucket with a count, or `None` if there is none.
    pub fn bucket_bounds(&self) -> (r: Option<(i32, i32)>)
        requires
            self.wf(),
        ensures
            r.is_none() <==> self.counts() == no_counts(),
            r.is_some() ==> {
                &&& is_lowest(self.counts(), r.unwrap().0 as int)
                &&& is_highest(self.counts(), r.unwrap().1 as int)
                &&& -reach() <= r.unwrap().0 <= r.unwrap().1 < reach()
            },
    {
        proof {
            self.lemma_wf();
        }
        match (self.window.lowest(), self.window.highest()) {
            (Some(lo), Some(hi)) => {
                proof {
                    assert(self.counts()(lo as int) != 0 && self.counts()(hi as int) != 0);
                }
                Some((lo, hi))
            },
            _ => None,
        }
    }

    /// Returns the count of bucket `slot`, 0 outside the window.
    pub fn count_at_slot(&self, slot: i32) -> (r: u64)
        requires
            self.wf(),
        ensures
            r == self.counts()(slot as int),
    {
        self.window.get(slot)
    }

    /// Returns the sum of all bucket counts.
    pub fn bucket_total(&self) -> (r: u64)
        requires
            self.wf(),
        ensures
            r == total(self.counts(), bottom(), top()),
    {
        proof {
            self.lemma_wf();
            crate::counts::lemma_total_split(self.counts(), bottom(), 0, top());
        }
        let (below, above) = crate::settle::sides(&self.window);
        below + above
    }
}

impl<const N: usize> HistogramView<'_, N> {
    /// The histogram behind the view.
    pub closed spec fn of(self) -> Histogram<N> {
        *self.hist
    }

    /// The histogram behind the view.
    pub fn histogram(&self) -> (r: &Histogram<N>)
        ensures
            *r == self.of(),
    {
        self.hist
    }

    /// Returns the current scale, 0 when no non-zero values have been recorded.
    pub fn scale(&self) -> (r: i32)
        requires
            self.of().wf(),
        ensures
            r == if self.of().counts() == no_counts() {
                0
            } else {
                self.of().scale_of()
            },
    {
        if self.hist.buckets_empty() {
            0
        } else {
            self.hist.scale.scale()
        }
    }

    /// Returns the aggregate statistics; min and max are 0 when no non-zero value was recorded.
    pub fn stats(&self) -> (r: Stats)
        requires
            self.of().wf(),
        ensures
            r == if self.of().counts() == no_counts() {
                (Stats { min: 0, max: 0, ..self.of().stats_of() })
            } else {
                self.of().stats_of()
            },
    {
        let s = self.hist.stats;
        if self.hist.buckets_empty() {
            Stats { count: s.count, sum: s.sum, min: 0, max: 0 }
        } else {
            s
        }
    }

    /// Returns the count of exactly-zero observations.
    pub fn zero_count(&self) -> (r: u64)
        requires
            self.of().wf(),
        ensures
            r == self.of().stats_of().count - total(self.of().counts(), bottom(), top()),
    {
        proof {
            self.hist.lemma_wf();
        }
        self.hist.stats.count - self.hist.bucket_total()
    }

    /// Returns a view of the positive buckets.
    pub fn positive(&self) -> (r: BucketView<'_, N>)
        ensures
            r.of() == self.of(),
    {
        BucketView { hist: self.hist }
    }
}

impl<const N: usize> BucketView<'_, N> {
    /// The histogram behind the view.
    pub closed spec fn of(self) -> Histogram<N> {
        *self.hist
    }

    /// Index of the first bucket with a count, 0 when empty.
    pub fn offset(&self) -> (r: i32)
        requires
            self.of().wf(),
        ensures
            self.of().counts() == no_counts() ==> r == 0,
            self.of().counts() != no_counts() ==> is_lowest(self.of().counts(), r as int),
    {
        match self.hist.bucket_bounds() {
            Some((lo, _)) => lo,
            None => 0,
        }
    }

    /// Number of buckets from the first to the last one with a count.
    pub fn len(&self) -> (r: u32)
        requires
            self.of().wf(),
        ensures
            self.of().counts() == no_counts() <==> r == 0,
            self.of().counts() != no_counts() ==> r == highest_of(self.of().counts()) - lowest_of(
                self.of().counts(),
            ) + 1,
    {
        match self.hist.bucket_bounds() {
            Some((lo, hi)) => {
                proof {
                    lemma_lowest_unique(self.of().counts(), lo as int);
                    lemma_highest_unique(self.of().counts(), hi as int);
                }
                (hi - lo + 1) as u32
            },
            None => 0,
        }
    }

    /// Number of buckets from the first to the last one with a count.
    pub fn bucket_count(&self) -> (r: u32)
        requires
            self.of().wf(),
        ensures
            self.of().counts() == no_counts() <==> r == 0,
            self.of().counts() != no_counts() ==> r == highest_of(self.of().counts()) - lowest_of(
                self.of().counts(),
            ) + 1,
    {
        self.len()
    }

    /// Returns the current counter width.
    pub fn width(&self) -> (r: Width)
        ensures
            r == self.of().width_of(),
    {
        self.hist.window.width
    }

    /// Returns true if no buckets are in use.
    pub fn is_empty(&self) -> (r: bool)
        requires
            self.of().wf(),
        ensures
            r <==> self.of().counts() == no_counts(),
    {
        self.hist.buckets_empty()
    }

    /// Returns a cursor over the bucket counts.
    pub fn iter(&self) -> (r: BucketsIter<'_, N>)
        requires
            self.of().wf(),
        ensures
            r.of() == self.of(),
            r.wf(),
            self.of().counts() == no_counts() ==> r.left() == 0 && r.position() == 0,
            self.of().counts() != no_counts() ==> is_lowest(self.of().counts(), r.position())
                && is_highest(self.of().counts(), r.position() + r.left() - 1),
    {
        match self.hist.bucket_bounds() {
            Some((lo, hi)) => BucketsIter { hist: self.hist, next: lo, last: hi },
            None => BucketsIter { hist: self.hist, next: 0, last: -1 },
        }
    }
}

impl<const N: usize> BucketsIter<'_, N> {
    /// The histogram that is walked.
    pub closed spec fn of(self) -> Histogram<N> {
        *self.hist
    }

    /// The bucket that comes next.
    pub closed spec fn position(self) -> int {
        self.next as int
    }

    /// How many counts are left.
    pub closed spec fn left(self) -> nat {
        (self.last - self.next + 1) as nat
    }

    /// The cursor is valid.
    pub closed spec fn wf(self) -> bool {
        &&& self.of().wf()
        &&& -reach() <= self.next <= self.last + 1 <= reach()
    }

    /// Returns the next count, or `None` at the end.
    pub fn next(&mut self) -> (r: Option<u64>)
        requires
            old(self).wf(),
        ensures
            final(self).wf(),
            final(self).of() == old(self).of(),
            r.is_none() <==> old(self).left() == 0,
            r.is_none() ==> *final(self) == *old(self),
            r.is_some() ==> {
                &&& r.unwrap() == old(self).of().counts()(old(self).position())
                &&& final(self).position() == old(self).position() + 1
                &&& final(self).left() == old(self).left() - 1
            },
    {
        if self.next > self.last {
            return None;
        }
        let c = self.hist.window.get(self.next);
        self.next = self.next + 1;
        Some(c)
    }

    /// Number of counts that are left.
    pub fn len(&self) -> (r: usize)
        requires
            self.wf(),
        ensures
            r == self.left(),
    {
        (self.last - self.next + 1) as usize
    }
}

impl<const N: usize> Default for Histogram<N> {
    fn default() -> (r: Self)
        ensures
            2 <= N <= 250 ==> r.wf() && r.scale_of() == TABLE_SCALE && r.width_of() == Width::B1
                && r.counts() == no_counts() && r.stats_of() == empty_stats()
                && r.initial_of().scale_of().value() == TABLE_SCALE && r.initial_of().width_of()
                == Width::B1,
    {
        let scale = Scale::finest();
        let window = Window { width: Width::B1, base: 0, start: 0, end: 0, data: [0u64;N] };
        proof {
            lemma_total_zero(no_counts(), bottom(), top());
            if 2 <= N <= 250 {
                window.lemma_blank();
            }
        }
        Histogram {
            initial: Settings::new(scale, Width::B1),
            scale,
            window,
            stats: Stats::empty(),
        }
    }
}

} // verus!
