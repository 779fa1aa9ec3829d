//! Fixed-scale, collapse-left histogram with a relative-error guarantee.
//!
//! [`Sketch`] keeps one scale for its whole life. When its buckets no longer fit the pool of
//! words, or when a counter must widen and the pool therefore holds fewer buckets, the
//! small-value side is collapsed: the window slides so that the largest values keep their
//! resolution, and the dropped buckets are folded into the lowest bucket that is kept, which
//! becomes an inaccurate underflow placeholder.
//!
//! With `b = 2^(2^-scale)` every retained bucket has relative error at most `(b - 1) / (b + 1)`.
//! Collapsing removes buckets on the low side only, so the accurate window always covers the top
//! of the observed distribution.

use crate::collapse::{aligned, fits, floor_slot, lemma_aligned_stable, narrowest, rebuild};
use crate::counts::{
    bottom, both, folded, lemma_folded_none, lemma_folded_plus, lemma_folded_total,
    lemma_total_both, lemma_total_member, lemma_total_plus, lemma_total_zero, no_counts, plus, top,
    total, within, Counts,
};
use crate::float64::{
    get_biased_exponent, get_significand, is_sign_negative, unbias_exponent, zero, NAN_INF_BIASED,
    ONE,
};
use crate::lookup::TABLE_SCALE;
use crate::mapping::{lemma_index_range, slot_of, Scale, ScaleError, MIN_SCALE};
use crate::stats::{combined, empty_stats, observed, refused, with_zeros, Error, Stats};
use crate::width::{
    capacity, first_slot, in_range, lemma_first_slot_mono, lemma_level_for, lemma_word_bracket,
    lemma_word_of, level_for, word_of, Width,
};
use crate::window::{is_highest, is_lowest, lemma_slot_in_reach, reach, single, Window};
use vstd::prelude::*;

verus! {

/// A fixed-scale exponential histogram that collapses on the low side.
///
/// `N` is the size of the data pool in words.
#[derive(Debug, Clone, Copy)]
pub struct Sketch<const N: usize> {
    scale: Scale,
    min_width: Width,
    window: Window<N>,
    /// The lowest bucket of the window has absorbed folded counts.
    collapsed: bool,
    /// Sum of all bucket counts, which leaves out observations of zero.
    live_total: u64,
    stats: Stats,
}

/// Outcome of one attempt to place an observation.
enum Place {
    /// The observation was placed.
    Done,
    /// The window or a counter is too small.
    Rebuild,
}

/// The highest bucket that holds a count or is `slot`.
pub open spec fn is_peak(h: Counts, slot: int, p: int) -> bool {
    &&& p >= slot
    &&& p == slot || h(p) != 0
    &&& forall|j: int| j > p ==> #[trigger] h(j) == 0
}

/// The highest bucket that holds a count, or `slot` if that is higher.
pub open spec fn peak(h: Counts, slot: int) -> int {
    choose|p: int| is_peak(h, slot, p)
}

/// There is one peak.
pub proof fn lemma_peak(h: Counts, slot: int, p: int)
    requires
        is_peak(h, slot, p),
    ensures
        peak(h, slot) == p,
{
    let q = peak(h, slot);
    assert(is_peak(h, slot, q));
    if p < q {
        assert(h(q) == 0);
    } else if q < p {
        assert(h(p) == 0);
    }
}

/// An observation of weight `incr` in bucket `slot` fits the window as it stands, or after it grew
/// to that bucket: no rebuild is needed.
pub open spec fn fits_in_place<const N: usize>(before: Sketch<N>, slot: int, incr: nat) -> bool {
    let w = word_of(slot, before.level());
    if before.sinks(slot) {
        before.counts()(before.low()) + incr <= capacity(before.level())
    } else {
        &&& before.last_word() - w < N
        &&& w - before.first_word() < N
        &&& before.counts()(slot) + incr <= capacity(before.level())
    }
}

/// The words of the window after an observation of weight `incr` in bucket `slot`, and the word at
/// position 0 of the ring. That one stays as long as the window only grows.
pub open spec fn anchored<const N: usize>(
    before: Sketch<N>,
    after: Sketch<N>,
    slot: int,
    incr: nat,
) -> bool {
    let w = word_of(slot, before.level());
    if before.live() == 0 {
        &&& after.first_word() == word_of(slot, after.level())
        &&& after.last_word() == after.first_word()
        &&& after.base_of() == after.first_word()
    } else if fits_in_place(before, slot, incr) {
        &&& after.level() == before.level()
        &&& after.base_of() == before.base_of()
        &&& after.first_word() == if !before.sinks(slot) && w < before.first_word() {
            w
        } else {
            before.first_word()
        }
        &&& after.last_word() == if w > before.last_word() {
            w
        } else {
            before.last_word()
        }
    } else {
        let high = peak(before.counts(), slot);
        let floor = floor_slot(high, after.level(), N as int, before.kept_floor(slot));
        &&& after.low() == floor
        &&& after.last_word() == word_of(high, after.level())
        &&& after.base_of() == after.first_word()
    }
}

/// The buckets after an observation of weight `incr` in bucket `slot`.
///
/// The first observation sets the width. Later ones keep as many words below the highest bucket
/// as the pool holds, at the narrowest width that fits, and fold the rest into the floor.
pub open spec fn placed<const N: usize>(
    before: Sketch<N>,
    after: Sketch<N>,
    slot: int,
    incr: nat,
) -> bool {
    let h = plus(before.counts(), slot, incr);
    &&& after.scale_of() == before.scale_of()
    &&& after.min_level() == before.min_level()
    &&& after.live() == before.live() + incr
    &&& anchored(before, after, slot, incr)
    &&& if before.live() == 0 {
        &&& after.level() == if level_for(incr) > before.min_level() {
            level_for(incr)
        } else {
            before.min_level()
        }
        &&& after.counts() == h
        &&& !after.has_collapsed()
        &&& after.last_word() == word_of(slot, after.level())
    } else {
        let high = peak(before.counts(), slot);
        let keep = before.kept_floor(slot);
        let floor = floor_slot(high, after.level(), N as int, keep);
        &&& narrowest(h, high, N as int, keep, before.level(), after.level())
        &&& after.counts() == folded(h, floor)
        &&& after.has_collapsed() <==> before.has_collapsed() || slot < floor || total(
            h,
            bottom(),
            floor,
        ) > 0
        &&& after.has_collapsed() ==> after.low() == floor
        &&& after.last_word() == word_of(high, after.level()) || (after.level() == before.level()
            && after.last_word() == before.last_word() >= word_of(high, after.level()))
    }
}

/// The buckets after merging `other` into `before`: the union, collapsed as for a recording.
pub open spec fn merged<const N: usize, const M: usize>(
    before: Sketch<N>,
    other: Sketch<M>,
    after: Sketch<N>,
) -> bool {
    let h = both(before.counts(), other.counts());
    let high = peak(h, bottom());
    let keep = higher_floor(before.own_floor(), other.own_floor());
    let from = if before.level() >= other.level() {
        before.level()
    } else {
        other.level()
    };
    let floor = floor_slot(high, after.level(), N as int, keep);
    &&& after.scale_of() == before.scale_of()
    &&& after.min_level() == before.min_level()
    &&& after.live() == before.live() + other.live()
    &&& narrowest(h, high, N as int, keep, from, after.level())
    &&& after.counts() == folded(h, floor)
    &&& after.has_collapsed() <==> before.has_collapsed() || other.has_collapsed() || total(
        h,
        bottom(),
        floor,
    ) > 0
    &&& after.low() == floor
    &&& after.last_word() == word_of(high, after.level())
    &&& after.base_of() == after.first_word()
}

/// The higher of two floors.
pub open spec fn higher_floor(a: int, b: int) -> int {
    if a >= b {
        a
    } else {
        b
    }
}

/// The pattern of a value strictly between 0 and 1.
pub open spec fn proper_fraction(bits: u64) -> bool {
    0 < bits < ONE
}

/// `s` is the coarsest scale whose relative error, listed from the coarsest scale up, is at most
/// `target`.
pub open spec fn coarsest(s: int, target: u64, errors: Seq<u64>) -> bool {
    &&& MIN_SCALE <= s <= TABLE_SCALE
    &&& errors[s - MIN_SCALE] <= target
    &&& forall|i: int| 0 <= i < s - MIN_SCALE ==> #[trigger] errors[i] > target
}

/// The scale for a relative error meets it, and every scale that meets it is at least as fine.
pub proof fn law_coarsest(s: int, t: int, target: u64, errors: Seq<u64>)
    requires
        coarsest(s, target, errors),
        MIN_SCALE <= t <= TABLE_SCALE,
        errors[t - MIN_SCALE] <= target,
    ensures
        errors[s - MIN_SCALE] <= target,
        MIN_SCALE <= s <= t,
{
    if t < s {
        assert(errors[t - MIN_SCALE] > target);
    }
}

/// A fraction is a number above 0 and below 1.
pub proof fn law_proper_fraction(bits: u64)
    requires
        crate::float64::finite(bits),
    ensures
        proper_fraction(bits) <==> 0 < crate::float64::value(bits) < crate::float64::value(
            0x3ff0_0000_0000_0000,
        ),
{
    crate::float64::lemma_parts(bits);
    crate::float64::lemma_parts(0x3ff0_0000_0000_0000);
    crate::float64::lemma_parts(0);
    crate::float64::law_order(0, bits);
    crate::float64::law_order(bits, 0x3ff0_0000_0000_0000);
    crate::float64::lemma_scaled_zero(0);
}

/// Smallest scale whose relative error is at most `target`.
///
/// `errors` lists the relative error of every supported scale, from the coarsest up. All errors
/// are bit patterns of non-negative values, which order as the values do.
///
/// # Errors
///
/// Returns [`ScaleError::InvalidScale`] if `target` is not in the open interval `(0, 1)`, or if
/// no supported scale is fine enough to meet it.
pub fn scale_for_relative_error(target: u64, errors: &[u64]) -> (r: Result<i32, ScaleError>)
    requires
        errors@.len() == TABLE_SCALE - MIN_SCALE + 1,
    ensures
        r.is_ok() <==> proper_fraction(target) && exists|s: int| coarsest(s, target, errors@),
        r.is_ok() ==> coarsest(r.unwrap() as int, target, errors@),
        r.is_err() ==> r->Err_0 == ScaleError::InvalidScale,
{
    if target == 0 || target >= ONE {
        return Err(ScaleError::InvalidScale);
    }
    let mut s: i32 = MIN_SCALE;
    while s <= TABLE_SCALE
        invariant
            errors@.len() == TABLE_SCALE - MIN_SCALE + 1,
            proper_fraction(target),
            MIN_SCALE <= s <= TABLE_SCALE + 1,
            forall|i: int|
                0 <= i < s - MIN_SCALE ==> #[trigger] errors@[i] > target,
        decreases TABLE_SCALE + 1 - s,
    {
        if errors[(s - MIN_SCALE) as usize] <= target {
            assert(coarsest(s as int, target, errors@));
            return Ok(s);
        }
        s = s + 1;
    }
    Err(ScaleError::InvalidScale)
}

impl<const N: usize> Sketch<N> {
    /// The fixed scale.
    pub closed spec fn scale_of(self) -> int {
        self.scale.value()
    }

    /// The counts of all buckets.
    pub closed spec fn counts(self) -> Counts {
        self.window.counts()
    }

    /// Level of the counter width.
    pub closed spec fn level(self) -> nat {
        self.window.width.level()
    }

    /// Level of the narrowest counter width.
    pub closed spec fn min_level(self) -> nat {
        self.min_width.level()
    }

    /// The counter width.
    pub closed spec fn width_of(self) -> Width {
        self.window.width
    }

    /// The lowest bucket is an underflow placeholder.
    pub closed spec fn has_collapsed(self) -> bool {
        self.collapsed
    }

    /// Lowest bucket of the window.
    pub closed spec fn low(self) -> int {
        self.window.low()
    }

    /// First word of the window.
    pub closed spec fn first_word(self) -> int {
        self.window.start as int
    }

    /// Last word of the window.
    pub closed spec fn last_word(self) -> int {
        self.window.end as int
    }

    /// Sum of all bucket counts.
    pub closed spec fn live(self) -> nat {
        self.live_total as nat
    }

    /// The aggregate statistics.
    pub closed spec fn stats_of(self) -> Stats {
        self.stats
    }

    /// The underflow placeholder once collapsed; no restriction before.
    pub open spec fn own_floor(self) -> int {
        if self.has_collapsed() {
            self.low()
        } else {
            bottom()
        }
    }

    /// All words of the pool are in use and `slot` lies below them.
    pub open spec fn out_below(self, slot: int) -> bool {
        self.last_word() - self.first_word() == N - 1 && word_of(slot, self.level())
            < self.first_word()
    }

    /// An observation in bucket `slot` is counted in the lowest bucket of the window.
    pub open spec fn sinks(self, slot: int) -> bool {
        (self.has_collapsed() && slot <= self.low()) || self.out_below(slot)
    }

    /// Floor that an observation in bucket `slot` must respect.
    pub open spec fn kept_floor(self, slot: int) -> int {
        if self.has_collapsed() || self.out_below(slot) {
            self.low()
        } else {
            bottom()
        }
    }

    /// Validity of the buckets.
    pub closed spec fn buckets_wf(self) -> bool {
        &&& self.window.wf()
        &&& self.scale.wf()
        &&& self.live_total == total(self.counts(), bottom(), top())
        &&& self.collapsed ==> self.live_total > 0
        &&& within(self.counts(), -0x10_0000, 0x10_0000)
        &&& self.min_width.level() <= self.window.width.level()
    }

    /// The sketch is valid: its pool has 1 to 250 words and its buckets hold no more than the
    /// total count.
    pub open spec fn wf(self) -> bool {
        &&& self.buckets_wf()
        &&& self.live() <= self.stats_of().count
    }

    /// What validity says about the parts that contracts speak of.
    pub proof fn lemma_wf(self)
        requires
            self.buckets_wf(),
        ensures
            1 <= N <= 250,
            MIN_SCALE <= self.scale_of() <= TABLE_SCALE,
            self.min_level() <= self.level() <= 6,
            self.live() == total(self.counts(), bottom(), top()),
            self.live() <= u64::MAX,
            self.live() == 0 <==> self.counts() == no_counts(),
            self.has_collapsed() ==> self.live() > 0,
            within(self.counts(), -0x10_0000, 0x10_0000),
            within(self.counts(), self.low(), reach()),
            -reach() <= self.low(),
            self.low() == first_slot(self.first_word(), self.level()),
            self.first_word() <= self.last_word() < self.first_word() + N,
            forall|i: int| #[trigger] self.counts()(i) <= capacity(self.level()),
            self.level() == self.width_of().level(),
    {
        self.window.lemma_support();
        if self.counts() == no_counts() {
            lemma_total_zero(self.counts(), bottom(), top());
        }
        if self.live() == 0 {
            assert forall|i: int| #[trigger] self.counts()(i) == no_counts()(i) by {
                if self.counts()(i) != 0 {
                    lemma_total_member(self.counts(), bottom(), top(), i);
                }
            }
            assert(self.counts() =~= no_counts());
        }
    }

    /// The level is that of the counter width.
    pub proof fn lemma_level(self)
        ensures
            self.level() == self.width_of().level(),
    {
    }

    /// The lowest bucket of the window stays the first of a word when the counters widen.
    pub proof fn lemma_low_aligned(self, k: nat)
        requires
            self.buckets_wf(),
            self.level() <= k <= 6,
        ensures
            aligned(self.low(), k) == self.low(),
    {
        lemma_aligned_stable(self.window.start as int, self.level(), k);
    }

    /// Below a full window, its lowest bucket is `N` words under the last one.
    pub proof fn lemma_out_below(self, slot: int)
        ensures
            self.out_below(slot) ==> self.low() == first_slot(
                self.last_word() - (N - 1),
                self.level(),
            ),
    {
    }

    /// Creates a new sketch at the finest scale with 1-bit counters.
    pub fn new() -> (r: Self)
        requires
            1 <= N <= 250,
        ensures
            r.wf(),
            r.scale_of() == TABLE_SCALE,
            r.width_of() == Width::B1,
            r.min_level() == 0,
            r.live() == 0,
            !r.has_collapsed(),
            r.stats_of() == empty_stats(),
    {
        let r = Sketch {
            scale: Scale::finest(),
            min_width: Width::B1,
            window: Window::new(Width::B1),
            collapsed: false,
            live_total: 0,
            stats: Stats::empty(),
        };
        proof {
            lemma_total_zero(no_counts(), bottom(), top());
        }
        r
    }

    /// Sets the fixed scale of an empty sketch.
    ///
    /// # Errors
    ///
    /// Returns [`ScaleError::InvalidScale`] if `scale` is not supported.
    pub fn with_scale(self, scale: i32) -> (r: Result<Self, ScaleError>)
        requires
            self.wf(),
        ensures
            r.is_ok() <==> MIN_SCALE <= scale <= TABLE_SCALE,
            r.is_err() ==> r->Err_0 == ScaleError::InvalidScale,
            r.is_ok() ==> ({
                let s = r.unwrap();
                &&& s.wf()
                &&& s.scale_of() == scale
                &&& s.same_but_scale(self)
            }),
    {
        match Scale::new(scale) {
            Ok(s) => Ok(Sketch { scale: s, ..self }),
            Err(e) => Err(e),
        }
    }

    /// Sets the coarsest scale whose relative error is at most `target`, where `errors` lists the
    /// relative error of every supported scale, from the coarsest up.
    ///
    /// # Errors
    ///
    /// Returns [`ScaleError::InvalidScale`] if `target` is not in the open interval `(0, 1)`, or
    /// if no supported scale is fine enough to meet it.
    pub fn with_relative_error(self, target: u64, errors: &[u64]) -> (r: Result<Self, ScaleError>)
        requires
            self.wf(),
            errors@.len() == TABLE_SCALE - MIN_SCALE + 1,
        ensures
            r.is_ok() <==> proper_fraction(target) && exists|s: int| coarsest(s, target, errors@),
            r.is_err() ==> r->Err_0 == ScaleError::InvalidScale,
            r.is_ok() ==> {
                &&& r.unwrap().wf()
                &&& coarsest(r.unwrap().scale_of(), target, errors@)
                &&& r.unwrap().same_but_scale(self)
            },
    {
        match scale_for_relative_error(target, errors) {
            Ok(scale) => self.with_scale(scale),
            Err(e) => Err(e),
        }
    }

    /// Equal in everything but the scale.
    pub open spec fn same_but_scale(self, other: Self) -> bool {
        &&& self.width_of() == other.width_of()
        &&& self.min_level() == other.min_level()
        &&& self.counts() == other.counts()
        &&& self.live() == other.live()
        &&& self.has_collapsed() == other.has_collapsed()
        &&& self.low() == other.low()
        &&& self.base_of() == other.base_of()
        &&& self.first_word() == other.first_word()
        &&& self.last_word() == other.last_word()
        &&& self.stats_of() == other.stats_of()
    }

    /// Sets the minimum counter width of an empty sketch.
    pub fn with_min_width(self, width: Width) -> (r: Self)
        requires
            self.wf(),
            self.live() == 0,
        ensures
            r.wf(),
            r.width_of() == width,
            r.min_level() == width.level(),
            r.scale_of() == self.scale_of(),
            r.live() == 0,
            !r.has_collapsed(),
            r.stats_of() == self.stats_of(),
    {
        proof {
            self.lemma_wf();
            lemma_total_zero(no_counts(), bottom(), top());
        }
        Sketch { min_width: width, window: Window::new(width), ..self }
    }

    /// Word at position 0 of the ring, as the contracts see it.
    pub closed spec fn base_of(self) -> int {
        self.window.base as int
    }

    /// Word at position 0 of the ring.
    pub fn word_base(&self) -> (r: i32)
        ensures
            r == self.base_of(),
    {
        self.window.base
    }

    /// First word of the window.
    pub fn word_start(&self) -> (r: i32)
        ensures
            r == self.first_word(),
    {
        self.window.start
    }

    /// Last word of the window.
    pub fn word_end(&self) -> (r: i32)
        ensures
            r == self.last_word(),
    {
        self.window.end
    }

    /// Returns the fixed scale.
    pub fn scale(&self) -> (r: i32)
        ensures
            r == self.scale_of(),
    {
        self.scale.scale()
    }

    /// Returns the current counter width.
    pub fn width(&self) -> (r: Width)
        ensures
            r == self.width_of(),
    {
        self.window.width
    }

    /// Returns the total observation count, zeros included.
    pub fn count(&self) -> (r: u64)
        ensures
            r == self.stats_of().count,
    {
        self.stats.count
    }

    /// Returns the sum of the observed values, 0 when there are none.
    pub fn sum(&self) -> (r: u64)
        ensures
            r == if self.stats_of().count == 0 {
                0
            } else {
                self.stats_of().sum
            },
    {
        if self.stats.count == 0 {
            0
        } else {
            self.stats.sum
        }
    }

    /// Returns the minimum observed value, 0 when no non-zero value was recorded.
    pub fn min(&self) -> (r: u64)
        ensures
            r == if self.live() == 0 {
                0
            } else {
                self.stats_of().min
            },
    {
        if self.buckets_empty() {
            0
        } else {
            self.stats.min
        }
    }

    /// Returns the maximum observed value, 0 when no non-zero value was recorded.
    pub fn max(&self) -> (r: u64)
        ensures
            r == if self.live() == 0 {
                0
            } else {
                self.stats_of().max
            },
    {
        if self.buckets_empty() {
            0
        } else {
            self.stats.max
        }
    }

    /// Returns the sum of all bucket counts.
    pub fn live_count(&self) -> (r: u64)
        ensures
            r == self.live(),
    {
        self.live_total
    }

    /// Returns the statistics as they are kept.
    pub fn raw_stats(&self) -> (r: Stats)
        ensures
            r == self.stats_of(),
    {
        self.stats
    }

    /// Returns true once the lowest bucket is an underflow placeholder.
    pub fn collapsed(&self) -> (r: bool)
        ensures
            r == self.has_collapsed(),
    {
        self.collapsed
    }

    /// Returns true if no non-zero values have been bucketed.
    pub fn buckets_empty(&self) -> (r: bool)
        ensures
            r <==> self.live() == 0,
    {
        self.live_total == 0
    }

    /// Returns the count in the underflow placeholder, 0 if not collapsed.
    pub fn underflow_count(&self) -> (r: u64)
        requires
            self.wf(),
        ensures
            r == if self.has_collapsed() {
                self.counts()(self.low())
            } else {
                0
            },
    {
        if self.collapsed {
            self.window.get(self.window.low_slot())
        } else {
            0
        }
    }

    /// Records a single observation; `sum` is the new sum of all observed values.
    pub fn update(&mut self, bits: u64, sum: u64) -> (r: Result<(), Error>)
        requires
            old(self).wf(),
        ensures
            recorded(*old(self), *final(self), bits, 1, sum, r),
    {
        self.record_incr(bits, 1, sum)
    }

    /// Records the value with pattern `bits`, `incr` times; `sum` is the new sum of all observed
    /// values.
    ///
    /// # Errors
    ///
    /// Returns [`Error::Overflow`] if the total count would exceed `u64::MAX`, and
    /// [`Error::Extreme`] if the value is NaN, infinite or negative.
    pub fn record_incr(&mut self, bits: u64, incr: u64, sum: u64) -> (r: Result<(), Error>)
        requires
            old(self).wf(),
        ensures
            recorded(*old(self), *final(self), bits, incr, sum, r),
    {
        let mut biased_exp = get_biased_exponent(bits);
        let mut sig = get_significand(bits);
        if self.stats.count > u64::MAX - incr {
            return Err(Error::Overflow);
        }
        if biased_exp == 0 {
            if sig == 0 {
                // Zero is counted but has no bucket.
                self.stats.observe_zeros(incr);
                return Ok(());
            } else if is_sign_negative(bits) {
                return Err(Error::Extreme);
            }
            biased_exp = 1;
            sig = 1;
        } else if biased_exp == NAN_INF_BIASED || is_sign_negative(bits) {
            return Err(Error::Extreme);
        }
        let slot = self.scale.map_decomposed(sig, unbias_exponent(biased_exp));
        proof {
            lemma_index_range(sig as int, biased_exp - 1023, self.scale_of());
        }
        self.place(slot, incr);
        self.stats.observe(bits, incr, sum);
        Ok(())
    }

    /// Places `incr` observations in bucket `slot`, growing, widening or collapsing as needed.
    fn place(&mut self, slot: i32, incr: u64)
        requires
            old(self).buckets_wf(),
            in_range(slot as int),
            old(self).live() + incr <= u64::MAX,
        ensures
            final(self).buckets_wf(),
            final(self).stats_of() == old(self).stats_of(),
            placed(*old(self), *final(self), slot as int, incr as nat),
    {
        if self.live_total == 0 {
            self.place_first(slot, incr);
            return;
        }
        let ghost before = *self;
        match self.try_place_once(slot, incr) {
            Place::Done => {},
            Place::Rebuild => {
                self.collapse_and_repack(slot, incr);
                proof {
                    // A placeholder that was set by this observation lies above its bucket.
                    self.lemma_wf();
                    lemma_aligned_stable(before.window.start as int, before.level(), self.level());
                }
            },
        }
    }

    /// Places the first observations, at a width that holds them.
    fn place_first(&mut self, slot: i32, incr: u64)
        requires
            old(self).buckets_wf(),
            in_range(slot as int),
            old(self).live() == 0,
        ensures
            final(self).buckets_wf(),
            final(self).stats_of() == old(self).stats_of(),
            placed(*old(self), *final(self), slot as int, incr as nat),
    {
        let ghost before = *self;
        let width = self.min_width.wider_of(Width::from_max_value(incr));
        let w = width.slot_to_word_index(slot);
        proof {
            self.lemma_wf();
            lemma_slot_in_reach(slot as int, width.level());
            lemma_level_for(incr as nat, width.level());
            lemma_word_bracket(slot as int, w as int, width.level());
            lemma_total_plus(before.counts(), slot as int, incr as nat, bottom(), top());
        }
        let mut window = Window::spanning(width, w, w);
        window.write_add(slot, incr);
        self.window = window;
        self.live_total = incr;
    }

    /// One attempt to place `incr` observations at the current width, growing the window where
    /// the pool has room. Asks for a rebuild when the window or a counter is too small.
    fn try_place_once(&mut self, slot: i32, incr: u64) -> (r: Place)
        requires
            old(self).buckets_wf(),
            in_range(slot as int),
            old(self).live() > 0,
            old(self).live() + incr <= u64::MAX,
        ensures
            final(self).buckets_wf(),
            final(self).stats_of() == old(self).stats_of(),
            r is Done ==> placed(*old(self), *final(self), slot as int, incr as nat),
            r is Rebuild ==> {
                &&& final(self).counts() == old(self).counts()
                &&& final(self).live() == old(self).live()
                &&& final(self).level() == old(self).level()
                &&& final(self).scale_of() == old(self).scale_of()
                &&& final(self).min_level() == old(self).min_level()
                &&& final(self).own_floor() == old(self).kept_floor(slot as int)
                &&& final(self).has_collapsed() <==> old(self).has_collapsed() || old(
                    self,
                ).out_below(slot as int)
                &&& old(self).out_below(slot as int) ==> slot < old(self).low()
                &&& !fits_in_place(*old(self), slot as int, incr as nat)
            },
    {
        let ghost before = *self;
        let n: i32 = N as i32;
        let w = self.window.width.slot_to_word_index(slot);
        let low = self.window.low_slot();
        let ghost high = peak(before.counts(), slot as int);
        proof {
            self.lemma_wf();
            self.window.lemma_support();
            lemma_slot_in_reach(slot as int, self.level());
            lemma_total_plus(before.counts(), slot as int, incr as nat, bottom(), top());
            before.lemma_peak_in_window(slot as int);
            before.window.lemma_covers(low as int);
            lemma_total_member(before.counts(), bottom(), top(), slot as int);
            lemma_total_member(before.counts(), bottom(), top(), low as int);
            lemma_word_bracket(low as int, self.window.start as int, self.level());
            lemma_word_bracket(slot as int, self.window.start as int, self.level());
        }
        if self.collapsed && slot <= low {
            // At or below the underflow placeholder.
            return self.fold_into_floor(slot, incr);
        }
        if self.window.end - w < n && w - self.window.start < n {
            self.window.extend_to(w);
            if self.window.try_add(slot, incr).is_ok() {
                self.live_total = self.live_total + incr;
                proof {
                    before.lemma_grown(self.window, slot as int);
                    lemma_in_place(
                        before.counts(),
                        self.window,
                        slot as int,
                        slot as int,
                        incr as nat,
                        high,
                        before.kept_floor(slot as int),
                    );
                    self.lemma_still_in_range(before.counts(), slot as int, incr as nat, slot as int);
                    crate::width::lemma_lanes(before.level());
                    crate::arith::lemma_div_mono(
                        slot as int,
                        high,
                        crate::width::lanes(before.level()),
                    );
                }
                return Place::Done;
            }
            proof {
                before.lemma_grown(self.window, slot as int);
            }
            return Place::Rebuild;
        }
        if w < self.window.start && self.window.end - self.window.start == n - 1 {
            // Too far below the top of a full window: the lowest bucket becomes the placeholder.
            return self.fold_into_floor(slot, incr);
        }
        Place::Rebuild
    }

    /// Adds observations that belong at or below the lowest bucket to that bucket, which becomes
    /// the underflow placeholder.
    fn fold_into_floor(&mut self, slot: i32, incr: u64) -> (r: Place)
        requires
            old(self).buckets_wf(),
            in_range(slot as int),
            old(self).live() > 0,
            old(self).live() + incr <= u64::MAX,
            slot <= old(self).low(),
            old(self).has_collapsed() || (old(self).out_below(slot as int) && slot < old(self).low()),
        ensures
            final(self).buckets_wf(),
            final(self).stats_of() == old(self).stats_of(),
            final(self).has_collapsed(),
            final(self).low() == old(self).low(),
            r is Done ==> placed(*old(self), *final(self), slot as int, incr as nat),
            r is Rebuild ==> {
                &&& final(self).counts() == old(self).counts()
                &&& final(self).live() == old(self).live()
                &&& final(self).level() == old(self).level()
                &&& final(self).scale_of() == old(self).scale_of()
                &&& final(self).min_level() == old(self).min_level()
                &&& !fits_in_place(*old(self), slot as int, incr as nat)
            },
    {
        let ghost before = *self;
        let low = self.window.low_slot();
        let ghost high = peak(before.counts(), slot as int);
        proof {
            self.lemma_wf();
            self.window.lemma_support();
            before.lemma_peak_in_window(slot as int);
            before.lemma_low_side(slot as int);
            lemma_word_bracket(slot as int, before.window.start as int, before.level());
            lemma_word_of(low as int, before.level());
            lemma_word_bracket(low as int, before.window.start as int, before.level());
            before.window.lemma_covers(low as int);
            lemma_total_plus(before.counts(), slot as int, incr as nat, bottom(), top());
            lemma_total_member(before.counts(), bottom(), top(), low as int);
        }
        self.collapsed = true;
        if self.window.try_add(low, incr).is_err() {
            return Place::Rebuild;
        }
        self.live_total = self.live_total + incr;
        proof {
            lemma_in_place(
                before.counts(),
                self.window,
                slot as int,
                low as int,
                incr as nat,
                high,
                before.kept_floor(slot as int),
            );
            self.lemma_still_in_range(before.counts(), slot as int, incr as nat, low as int);
        }
        Place::Done
    }

    /// Rebuilds the window with `incr` more observations in bucket `slot`, keeping the top
    /// buckets and folding everything below into the lowest one.
    ///
    /// The last word of the new window holds the highest bucket with a count, or `slot` if that
    /// is higher, and never a trailing empty bucket. An underflow placeholder never moves down,
    /// so inaccurate counts stay out of the accurate window.
    fn collapse_and_repack(&mut self, slot: i32, incr: u64)
        requires
            old(self).buckets_wf(),
            old(self).live() > 0,
            in_range(slot as int),
            old(self).live() + incr <= u64::MAX,
        ensures
            final(self).buckets_wf(),
            final(self).stats_of() == old(self).stats_of(),
            final(self).scale_of() == old(self).scale_of(),
            final(self).min_level() == old(self).min_level(),
            final(self).live() == old(self).live() + incr,
            ({
                let h = plus(old(self).counts(), slot as int, incr as nat);
                let high = peak(old(self).counts(), slot as int);
                let keep = old(self).own_floor();
                let floor = floor_slot(high, final(self).level(), N as int, keep);
                &&& narrowest(h, high, N as int, keep, old(self).level(), final(self).level())
                &&& final(self).counts() == folded(h, floor)
                &&& final(self).has_collapsed() <==> old(self).has_collapsed() || slot < floor || total(
                    h,
                    bottom(),
                    floor,
                ) > 0
                &&& final(self).low() == floor
                &&& final(self).last_word() == word_of(high, final(self).level())
                &&& final(self).base_of() == final(self).first_word()
            }),
    {
        let ghost before = *self;
        let low = self.window.low_slot();
        proof {
            self.window.lemma_support();
            lemma_word_bracket(low as int, self.window.start as int, self.level());
            lemma_aligned_stable(self.window.start as int, self.level(), self.level());
            lemma_total_plus(before.counts(), slot as int, incr as nat, bottom(), top());
        }
        let mut high: i32 = slot;
        if let Some(t) = self.window.highest() {
            if t > high {
                high = t;
            }
            proof {
                assert(before.counts()(t as int) != 0);
                assert(is_peak(before.counts(), slot as int, high as int));
                lemma_peak(before.counts(), slot as int, high as int);
            }
        } else {
            proof {
                lemma_total_zero(before.counts(), bottom(), top());
            }
        }
        let lo: i32 = if slot < low {
            slot
        } else {
            low
        };
        let keep = if self.collapsed {
            Some(low)
        } else {
            None
        };
        let observation = single(slot, incr);
        let ghost h = plus(before.counts(), slot as int, incr as nat);
        proof {
            assert(both(before.counts(), observation.counts()) =~= h);
        }
        let (window, below) = rebuild(&self.window, &observation, lo, high, keep, self.window.width);
        self.window = window;
        self.collapsed = self.collapsed || below || slot < self.window.low_slot();
        self.live_total = self.live_total + incr;
        proof {
            let floor = floor_slot(high as int, self.level(), N as int, before.own_floor());
            lemma_folded_range(h, floor, high as int);
            lemma_folded_total(h, floor, top());
        }
    }

    /// The highest bucket of a window with counts, or `slot`.
    proof fn lemma_peak_in_window(self, slot: int)
        requires
            self.buckets_wf(),
            self.live() > 0,
            in_range(slot),
        ensures
            is_peak(self.counts(), slot, peak(self.counts(), slot)),
            in_range(peak(self.counts(), slot)),
            peak(self.counts(), slot) == slot || word_of(peak(self.counts(), slot), self.level())
                <= self.window.end,
            peak(self.counts(), slot) >= self.low(),
    {
        self.lemma_wf();
        self.window.lemma_support();
        let p = lemma_find_peak(self.counts(), slot, self.window.high());
        lemma_peak(self.counts(), slot, p);
        self.window.lemma_covers(p);
        if p < self.low() {
            lemma_total_zero(self.counts(), bottom(), top());
        }
    }

    /// For an observation below the window the floor is the lowest bucket.
    proof fn lemma_low_side(self, slot: int)
        requires
            self.buckets_wf(),
            self.live() > 0,
            in_range(slot),
            slot <= self.low(),
            self.has_collapsed() || self.out_below(slot),
        ensures
            floor_slot(peak(self.counts(), slot), self.level(), N as int, self.kept_floor(slot))
                == self.low(),
            word_of(peak(self.counts(), slot), self.level()) <= self.window.end,
    {
        self.lemma_wf();
        self.lemma_peak_in_window(slot);
        let high = peak(self.counts(), slot);
        let k = self.level();
        lemma_aligned_stable(self.window.start as int, k, k);
        if high == slot {
            crate::arith::lemma_div_mono(slot, self.low(), crate::width::lanes(k));
            lemma_word_bracket(self.low(), self.window.start as int, k);
        }
        lemma_first_slot_mono(word_of(high, k) - (N - 1), self.window.start as int, k);
    }

    /// A window that grew to hold `slot` starts at or above the floor.
    proof fn lemma_grown(self, grown: Window<N>, slot: int)
        requires
            self.buckets_wf(),
            self.live() > 0,
            in_range(slot),
            grown.wf(),
            grown.width == self.window.width,
            !(self.has_collapsed() && slot <= self.low()),
            self.window.end - word_of(slot, self.level()) < N,
            word_of(slot, self.level()) - self.window.start < N,
            grown.start == if word_of(slot, self.level()) < self.window.start {
                word_of(slot, self.level())
            } else {
                self.window.start as int
            },
            grown.end == if word_of(slot, self.level()) > self.window.end {
                word_of(slot, self.level())
            } else {
                self.window.end as int
            },
        ensures
            floor_slot(peak(self.counts(), slot), self.level(), N as int, self.kept_floor(slot))
                <= grown.low(),
            bottom() <= floor_slot(
                peak(self.counts(), slot),
                self.level(),
                N as int,
                self.kept_floor(slot),
            ),
            self.has_collapsed() ==> grown.low() == self.low() && floor_slot(
                peak(self.counts(), slot),
                self.level(),
                N as int,
                self.kept_floor(slot),
            ) == self.low(),
            grown.low() <= slot,
            within(self.counts(), grown.low(), reach()),
            word_of(peak(self.counts(), slot), self.level()) <= grown.end,
            !self.out_below(slot),
    {
        self.lemma_wf();
        self.lemma_peak_in_window(slot);
        self.window.lemma_support();
        let high = peak(self.counts(), slot);
        let k = self.level();
        let wd = word_of(slot, k);
        lemma_first_slot_mono(word_of(high, k) - (N - 1), grown.start as int, k);
        lemma_first_slot_mono(grown.start as int, self.window.start as int, k);
        lemma_first_slot_mono(grown.start as int, wd, k);
        lemma_word_of(slot, k);
        lemma_aligned_stable(self.window.start as int, k, k);
        lemma_bottom_aligned(k);
        if self.has_collapsed() {
            lemma_word_bracket(slot, self.window.start as int, k);
        }
    }

    /// Buckets that grew by an observation in range are in range.
    proof fn lemma_still_in_range(self, c: Counts, slot: int, incr: nat, t: int)
        requires
            self.window.wf(),
            within(c, -0x10_0000, 0x10_0000),
            in_range(slot),
            self.counts() == plus(c, t, incr),
            t == slot || slot < t < 0x10_0000,
            total(plus(c, slot, incr), bottom(), top()) == total(c, bottom(), top()) + incr,
        ensures
            within(self.counts(), -0x10_0000, 0x10_0000),
            total(self.counts(), bottom(), top()) == total(c, bottom(), top()) + incr,
    {
        lemma_total_plus(c, t, incr, bottom(), top());
    }
}

/// The end of every index range is aligned for all widths.
proof fn lemma_bottom_aligned(k: nat)
    requires
        k <= 6,
    ensures
        aligned(bottom(), k) == bottom(),
{
    let d = crate::width::lanes(k);
    crate::width::lemma_lanes(k);
    if d == 64 {
        assert(bottom() == -0x200_0000 * 64);
        lemma_word_bracket(bottom(), -0x200_0000, k);
    } else if d == 32 {
        lemma_word_bracket(bottom(), -0x400_0000, k);
    } else if d == 16 {
        lemma_word_bracket(bottom(), -0x800_0000, k);
    } else if d == 8 {
        lemma_word_bracket(bottom(), -0x1000_0000, k);
    } else if d == 4 {
        lemma_word_bracket(bottom(), -0x2000_0000, k);
    } else if d == 2 {
        lemma_word_bracket(bottom(), -0x4000_0000, k);
    } else {
        lemma_word_bracket(bottom(), -0x8000_0000, k);
    }
}

/// Searches down from `hi` for the peak.
pub proof fn lemma_find_peak(h: Counts, slot: int, hi: int) -> (p: int)
    requires
        forall|j: int| j >= hi ==> #[trigger] h(j) == 0,
    ensures
        is_peak(h, slot, p),
    decreases hi - slot,
{
    if hi <= slot + 1 {
        slot
    } else if h(hi - 1) != 0 {
        hi - 1
    } else {
        assert forall|j: int| j >= hi - 1 implies #[trigger] h(j) == 0 by {}
        lemma_find_peak(h, slot, hi - 1)
    }
}

/// Folding keeps all buckets in range.
proof fn lemma_folded_range(h: Counts, floor: int, high: int)
    requires
        within(h, -0x10_0000, 0x10_0000),
        in_range(high),
        floor <= high,
        bottom() <= floor,
    ensures
        within(folded(h, floor), -0x10_0000, 0x10_0000),
{
    assert forall|i: int| #[trigger] folded(h, floor)(i) != 0 implies -0x10_0000 <= i < 0x10_0000 by {
        if i == floor && floor < -0x10_0000 {
            lemma_total_zero(h, bottom(), floor + 1);
        } else if i > floor {
            assert(h(i) != 0);
        }
    }
}

/// A placement without a rebuild is the narrowest one.
proof fn lemma_in_place<const N: usize>(
    c: Counts,
    window: Window<N>,
    slot: int,
    target: int,
    incr: nat,
    high: int,
    keep: int,
)
    requires
        window.wf(),
        window.counts() == plus(c, target, incr),
        within(c, window.low(), reach()),
        bottom() <= slot,
        target == slot ==> window.low() <= slot,
        target != slot ==> slot < target && target == window.low() && floor_slot(
            high,
            window.width.level(),
            N as int,
            keep,
        ) == window.low(),
        bottom() <= floor_slot(high, window.width.level(), N as int, keep) <= window.low(),
    ensures
        ({
            let h = plus(c, slot, incr);
            let k = window.width.level();
            let floor = floor_slot(high, k, N as int, keep);
            &&& fits(h, floor, k)
            &&& folded(h, floor) == window.counts()
            &&& target == slot ==> total(h, bottom(), floor) == 0
            &&& narrowest(h, high, N as int, keep, k, k)
        }),
{
    let h = plus(c, slot, incr);
    let k = window.width.level();
    let floor = floor_slot(high, k, N as int, keep);
    window.lemma_support();
    lemma_folded_none(c, floor, reach());
    lemma_folded_plus(c, floor, slot, incr);
    assert(folded(h, floor) =~= window.counts());
    assert(total(h, bottom(), floor + 1) == folded(h, floor)(floor));
    assert(window.counts()(floor) <= capacity(k));
    assert forall|i: int| i > floor implies #[trigger] h(i) <= capacity(k) by {
        assert(folded(h, floor)(i) == h(i));
        assert(window.counts()(i) <= capacity(k));
    }
    if target == slot {
        assert forall|i: int| bottom() <= i < floor implies #[trigger] h(i) == 0 by {
            if c(i) != 0 {
                assert(window.low() <= i);
            }
        }
        lemma_total_zero(h, bottom(), floor);
    }
}

/// The outcome of recording the value with pattern `bits`, `incr` times.
pub open spec fn recorded<const N: usize>(
    before: Sketch<N>,
    after: Sketch<N>,
    bits: u64,
    incr: u64,
    sum: u64,
    r: Result<(), Error>,
) -> bool {
    if before.stats_of().count + incr > u64::MAX {
        r == Err::<(), Error>(Error::Overflow) && after == before
    } else if refused(bits) {
        r == Err::<(), Error>(Error::Extreme) && after == before
    } else if zero(bits) {
        &&& r.is_ok()
        &&& after.wf()
        &&& after.same_buckets(before)
        &&& after.stats_of() == with_zeros(before.stats_of(), incr)
    } else {
        &&& r.is_ok()
        &&& after.wf()
        &&& placed(before, after, slot_of(bits, before.scale_of()), incr as nat)
        &&& after.stats_of() == observed(before.stats_of(), bits, incr, sum)
    }
}

impl<const N: usize> Sketch<N> {
    /// Equal in everything but the statistics.
    pub open spec fn same_buckets(self, other: Self) -> bool {
        &&& self.scale_of() == other.scale_of()
        &&& self.width_of() == other.width_of()
        &&& self.min_level() == other.min_level()
        &&& self.counts() == other.counts()
        &&& self.live() == other.live()
        &&& self.has_collapsed() == other.has_collapsed()
        &&& self.low() == other.low()
        &&& self.base_of() == other.base_of()
        &&& self.first_word() == other.first_word()
        &&& self.last_word() == other.last_word()
    }
}

/// The outcome of merging `other` into a sketch.
pub open spec fn merge_outcome<const N: usize, const M: usize>(
    before: Sketch<N>,
    other: Sketch<M>,
    after: Sketch<N>,
    sum: u64,
    r: Result<(), Error>,
) -> bool {
    if other.stats_of().count == 0 {
        r.is_ok() && after == before
    } else if before.scale_of() != other.scale_of() {
        r == Err::<(), Error>(Error::ScaleMismatch) && after == before
    } else if before.stats_of().count + other.stats_of().count > u64::MAX {
        r == Err::<(), Error>(Error::Overflow) && after == before
    } else {
        &&& r.is_ok()
        &&& after.wf()
        &&& after.stats_of() == combined(before.stats_of(), other.stats_of(), sum)
        &&& if other.live() == 0 {
            after.same_buckets(before)
        } else {
            merged(before, other, after)
        }
    }
}

impl<const N: usize> Sketch<N> {
    /// Merges another sketch into this one; `sum` is the new sum of all observed values.
    ///
    /// The union of the buckets is taken at the common scale and, if it does not fit the pool,
    /// collapsed exactly as during recording. The source may have a different pool size.
    ///
    /// # Errors
    ///
    /// Returns [`Error::ScaleMismatch`] if the scales differ, and [`Error::Overflow`] if the
    /// combined total count would exceed `u64::MAX`.
    pub fn merge_from<const M: usize>(&mut self, other: &Sketch<M>, sum: u64) -> (r: Result<
        (),
        Error,
    >)
        requires
            old(self).wf(),
            other.wf(),
        ensures
            merge_outcome(*old(self), *other, *final(self), sum, r),
    {
        if other.stats.count == 0 {
            return Ok(());
        }
        if self.scale.scale() != other.scale.scale() {
            return Err(Error::ScaleMismatch);
        }
        if self.stats.count > u64::MAX - other.stats.count {
            return Err(Error::Overflow);
        }
        if !other.buckets_empty() {
            self.merge_repack(other);
        }
        self.stats.combine(&other.stats, sum);
        Ok(())
    }

    /// Rebuilds the window from the union of two sketches, keeping the top buckets and folding
    /// the rest into the underflow placeholder.
    ///
    /// The placeholder of a collapsed input bounds the new one from below, so inaccurate counts
    /// never re-enter the accurate window.
    #[verifier::rlimit(60)]
    #[verifier::spinoff_prover]
    fn merge_repack<const M: usize>(&mut self, other: &Sketch<M>)
        requires
            old(self).buckets_wf(),
            other.buckets_wf(),
            other.live() > 0,
            old(self).live() + other.live() <= u64::MAX,
        ensures
            final(self).buckets_wf(),
            final(self).stats_of() == old(self).stats_of(),
            merged(*old(self), *other, *final(self)),
    {
        let ghost before = *self;
        let ghost h = both(before.counts(), other.counts());
        proof {
            self.lemma_wf();
            other.lemma_wf();
            self.window.lemma_support();
            other.window.lemma_support();
            lemma_total_both(before.counts(), other.counts(), bottom(), top());
            lemma_aligned_stable(self.window.start as int, self.level(), self.level());
        }
        let (other_lo, other_hi) = other.bucket_bounds_some();
        let mut lo: i32 = other_lo;
        let mut high: i32 = other_hi;
        if let Some((self_lo, self_hi)) = self.bucket_bounds() {
            if self_lo < lo {
                lo = self_lo;
            }
            if self_hi > high {
                high = self_hi;
            }
        }
        proof {
            assert(is_peak(h, bottom(), high as int)) by {
                if h(high as int) == 0 {
                    assert(before.counts()(high as int) == 0);
                    assert(other.counts()(high as int) == 0);
                }
                assert forall|j: int| j > high implies #[trigger] h(j) == 0 by {
                    assert(before.counts()(j) == 0);
                    assert(other.counts()(j) == 0);
                }
            }
            lemma_peak(h, bottom(), high as int);
            assert(within(h, lo as int, high + 1)) by {
                assert forall|j: int| #[trigger] h(j) != 0 implies lo <= j < high + 1 by {
                    assert(before.counts()(j) != 0 || other.counts()(j) != 0);
                }
            }
        }
        let want = self.window.width.wider_of(other.window.width);
        let mut keep: Option<i32> = None;
        if self.collapsed {
            keep = Some(self.window.low_slot());
        }
        if other.collapsed {
            let f = other.window.low_slot();
            keep = match keep {
                Some(g) => Some(
                    if g >= f {
                        g
                    } else {
                        f
                    },
                ),
                None => Some(f),
            };
        }
        proof {
            lemma_aligned_stable(before.window.start as int, before.level(), want.level());
            lemma_aligned_stable(other.window.start as int, other.level(), want.level());
        }
        let (window, below) = rebuild(&self.window, &other.window, lo, high, keep, want);
        self.window = window;
        self.live_total = self.live_total + other.live_total;
        self.collapsed = self.collapsed || other.collapsed || below;
        proof {
            let floor = self.window.low();
            lemma_folded_range(h, floor, high as int);
            lemma_folded_total(h, floor, top());
        }
    }

    /// The lowest and highest bucket of a sketch with counts.
    fn bucket_bounds_some(&self) -> (r: (i32, i32))
        requires
            self.buckets_wf(),
            self.live() > 0,
        ensures
            is_lowest(self.counts(), r.0 as int),
            is_highest(self.counts(), r.1 as int),
            r.0 <= r.1,
            self.low() <= r.0,
            in_range(r.0 as int),
            in_range(r.1 as int),
    {
        proof {
            self.lemma_wf();
        }
        match self.bucket_bounds() {
            Some(b) => b,
            None => (0, 0),
        }
    }

    /// Returns the lowest and highest bucket with a count, or `None` if there is none.
    pub fn bucket_bounds(&self) -> (r: Option<(i32, i32)>)
        requires
            self.buckets_wf(),
        ensures
            r.is_some() <==> self.live() > 0,
            r.is_some() ==> {
                &&& is_lowest(self.counts(), r.unwrap().0 as int)
                &&& is_highest(self.counts(), r.unwrap().1 as int)
                &&& r.unwrap().0 <= r.unwrap().1
                &&& self.low() <= r.unwrap().0
                &&& in_range(r.unwrap().0 as int)
                &&& in_range(r.unwrap().1 as int)
            },
    {
        proof {
            self.lemma_wf();
        }
        match (self.window.lowest(), self.window.highest()) {
            (Some(lo), Some(hi)) => {
                proof {
                    assert(self.counts()(lo as int) != 0);
                    assert(self.counts()(hi as int) != 0);
                }
                Some((lo, hi))
            },
            _ => None,
        }
    }

    /// Returns the lowest bucket with a count, or `None`.
    pub fn offset(&self) -> (r: Option<i32>)
        requires
            self.wf(),
        ensures
            r.is_some() <==> self.live() > 0,
            r.is_some() ==> is_lowest(self.counts(), r.unwrap() as int),
    {
        proof {
            self.lemma_wf();
        }
        self.window.lowest()
    }

    /// Returns the count of bucket `slot`, 0 outside the window.
    pub fn count_at_slot(&self, slot: i32) -> (r: u64)
        requires
            self.wf(),
        ensures
            r == self.counts()(slot as int),
    {
        self.window.get(slot)
    }

    /// Returns the buckets with a count and their counts, low to high.
    pub fn for_each_bucket(&self) -> (r: Vec<(i32, u64)>)
        requires
            self.wf(),
        ensures
            lists_buckets(self.counts(), r@),
    {
        let mut out: Vec<(i32, u64)> = Vec::new();
        match self.bucket_bounds() {
            None => {
                proof {
                    self.lemma_wf();
                }
            },
            Some((lo, hi)) => {
                let mut s: i32 = lo;
                while s <= hi
                    invariant
                        self.wf(),
                        in_range(lo as int),
                        in_range(hi as int),
                        lo <= s <= hi + 1,
                        is_lowest(self.counts(), lo as int),
                        is_highest(self.counts(), hi as int),
                        forall|i: int|
                            0 <= i < out@.len() ==> (#[trigger] out@[i]).0 < s && out@[i].1
                                == self.counts()(out@[i].0 as int) && out@[i].1 > 0,
                        forall|i: int, j: int| 0 <= i < j < out@.len() ==> out@[i].0 < out@[j].0,
                        forall|b: int|
                            b < s && #[trigger] self.counts()(b) != 0 ==> exists|i: int|
                                0 <= i < out@.len() && (#[trigger] out@[i]).0 == b,
                    decreases hi + 1 - s,
                {
                    let c = self.window.get(s);
                    let ghost prev = out@;
                    if c != 0 {
                        out.push((s, c));
                    }
                    proof {
                        assert forall|b: int|
                            b < s + 1 && #[trigger] self.counts()(b) != 0 implies exists|i: int|
                            0 <= i < out@.len() && (#[trigger] out@[i]).0 == b by {
                            if b == s {
                                assert(out@[prev.len() as int].0 == b);
                            } else {
                                let i = choose|i: int|
                                    0 <= i < prev.len() && (#[trigger] prev[i]).0 == b;
                                assert(out@[i].0 == b);
                            }
                        }
                    }
                    s = s + 1;
                }
            },
        }
        out
    }
}

/// `list` holds exactly the buckets with a count, in increasing order, with their counts.
pub open spec fn lists_buckets(f: Counts, list: Seq<(i32, u64)>) -> bool {
    &&& forall|i: int| 0 <= i < list.len() ==> (#[trigger] list[i]).1 > 0 && list[i].1 == f(list[i].0 as int)
    &&& forall|i: int, j: int| 0 <= i < j < list.len() ==> list[i].0 < list[j].0
    &&& forall|b: int| #[trigger] f(b) != 0 ==> exists|i: int| 0 <= i < list.len() && (#[trigger] list[i]).0 == b
}

impl<const N: usize> Default for Sketch<N> {
    fn default() -> (r: Self)
        ensures
            1 <= N <= 250 ==> {
                &&& r.wf()
                &&& r.scale_of() == TABLE_SCALE
                &&& r.width_of() == Width::B1
                &&& r.min_level() == 0
                &&& r.live() == 0
                &&& !r.has_collapsed()
                &&& r.stats_of() == empty_stats()
            },
    {
        let window = Window { width: Width::B1, base: 0, start: 0, end: 0, data: [0u64;N] };
        proof {
            lemma_total_zero(no_counts(), bottom(), top());
            if 1 <= N <= 250 {
                window.lemma_blank();
            }
        }
        Sketch {
            scale: Scale::finest(),
            min_width: Width::B1,
            window,
            collapsed: false,
            live_total: 0,
            stats: Stats::empty(),
        }
    }
}

} // verus!
