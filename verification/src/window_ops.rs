//! Changing the scale and the counter width of a window.
//!
//! Three unit steps do all the work. Widening sums adjacent counters inside each word: the scale
//! drops by one, the counters get twice as wide, and the words keep their indices. Narrowing
//! packs two words into one without touching the scale. Grouping adds two neighbouring words of
//! 64-bit counters: the scale drops by one and the width stays.

use crate::arith::{lemma_mod_injective, shr};
use crate::counts::{
    bottom, coarsen, lemma_coarsen_total, lemma_total_member, top, total, within, Counts,
};
use crate::lane::{lane, lemma_join, lemma_lane_bound, lemma_low_part, pair_sums};
use crate::swar::{narrow_once, widen_once};
use crate::width::{
    capacity, first_slot, lanes, lemma_lanes, lemma_word_of, ring_index, word_of, Width,
};
use crate::window::{reach, Window};
use vstd::arithmetic::power2::{lemma2_to64, pow2};
use vstd::prelude::*;

verus! {

/// A histogram one scale coarser.
pub proof fn lemma_coarsen_one(f: Counts, i: int)
    ensures
        coarsen(f, 1)(i) == f(2 * i) + f(2 * i + 1),
{
    lemma2_to64();
    assert(i * pow2(1) == 2 * i && (i + 1) * pow2(1) == 2 * i + 2);
    assert(total(f, 2 * i, 2 * i + 2) == total(f, 2 * i, 2 * i + 1) + f(2 * i + 1));
    assert(total(f, 2 * i, 2 * i + 1) == total(f, 2 * i, 2 * i) + f(2 * i));
}

/// Every count is at most `max`.
pub open spec fn at_most(f: Counts, max: nat) -> bool {
    forall|i: int| #[trigger] f(i) <= max
}

/// `m` is the largest count.
pub open spec fn is_max(f: Counts, m: nat) -> bool {
    &&& at_most(f, m)
    &&& m > 0 ==> exists|i: int| #[trigger] f(i) == m
}

impl<const N: usize> Window<N> {
    /// Word `w` of the window, 0 outside.
    pub open spec fn word(self, w: int) -> u64 {
        if self.covers(w) {
            self.at(w)
        } else {
            0
        }
    }

    /// A bucket is a counter of its word.
    pub proof fn lemma_count(self, slot: int)
        ensures
            self.counts()(slot) == lane(
                self.word(word_of(slot, self.width.level())),
                self.width.level() as u64,
                (slot % lanes(self.width.level())) as u64,
            ),
    {
        lemma_lane_bound(
            0,
            self.width.level() as u64,
            (slot % lanes(self.width.level())) as u64,
        );
    }

    /// A counter of a word is a bucket.
    pub proof fn lemma_lane_count(self, w: int, i: int)
        requires
            0 <= i < lanes(self.width.level()),
        ensures
            self.counts()(first_slot(w, self.width.level()) + i) == lane(
                self.word(w),
                self.width.level() as u64,
                i as u64,
            ),
    {
        let k = self.width.level();
        lemma_lanes(k);
        let s = first_slot(w, k) + i;
        crate::arith::lemma_div_unique(s, lanes(k), w, i);
        self.lemma_count(s);
    }

    /// Reads word `w`, 0 outside the window.
    pub fn get_word(&self, w: i32) -> (r: u64)
        requires
            self.wf(),
        ensures
            r == self.word(w as int),
    {
        if w < self.start || w > self.end {
            0
        } else {
            self.data[ring_index(w, N, self.base)]
        }
    }

    /// Replaces word `w` of the window.
    pub fn set_word(&mut self, w: i32, value: u64)
        requires
            old(self).wf(),
            old(self).covers(w as int),
        ensures
            final(self).wf(),
            final(self).width == old(self).width,
            final(self).base == old(self).base,
            final(self).start == old(self).start,
            final(self).end == old(self).end,
            forall|v: int|
                #[trigger] final(self).word(v) == if v == w {
                    value
                } else {
                    old(self).word(v)
                },
    {
        let ghost before = *self;
        let idx = ring_index(w, N, self.base);
        self.data[idx] = value;
        proof {
            let n = N as int;
            assert forall|v: int| #![trigger self.at(v)] -n < v - w < n && v != w implies self.at(v)
                == before.at(v) by {
                assert(0 <= (v - self.base) % n < n);
                if (v - self.base) % n == (w - self.base) % n {
                    lemma_mod_injective(v - self.base, w - self.base, n);
                }
            }
            assert(self.at(w as int) == value);
            assert forall|v: int| #![trigger self.at(v)]
                self.end - N < v < self.start + N && !self.covers(v) implies self.at(v) == 0 by {
                assert(before.at(v) == 0);
            }
            assert forall|v: int| #[trigger] self.word(v) == (if v == w {
                value
            } else {
                before.word(v)
            }) by {
                if self.covers(v) && v != w {
                    assert(self.at(v) == before.at(v));
                }
            }
        }
    }

    /// The largest count.
    pub fn max_count(&self) -> (r: u64)
        requires
            self.wf(),
        ensures
            is_max(self.counts(), r as nat),
    {
        let high = self.high_slot();
        let mut s = self.low_slot();
        let mut m: u64 = 0;
        let ghost mut where_max: int = 0;
        proof {
            self.lemma_support();
        }
        while s <= high
            invariant
                self.wf(),
                high == self.high() - 1,
                self.low() <= s <= self.high() <= reach(),
                -reach() <= self.low(),
                forall|i: int| i < s ==> #[trigger] self.counts()(i) <= m,
                m > 0 ==> self.counts()(where_max) == m,
                within(self.counts(), self.low(), self.high()),
            decreases high + 1 - s,
        {
            let c = self.get(s);
            if c > m {
                m = c;
                proof {
                    where_max = s as int;
                }
            }
            s = s + 1;
        }
        proof {
            assert forall|i: int| #[trigger] self.counts()(i) <= m by {
                if i >= s {
                    assert(self.counts()(i) == 0);
                }
            }
        }
        m
    }

    /// Sums adjacent counters inside each word: one scale coarser, counters twice as wide, the
    /// same words.
    pub fn widen_step(&mut self)
        requires
            old(self).wf(),
            old(self).width.level() < 6,
        ensures
            final(self).wf(),
            final(self).width.level() == old(self).width.level() + 1,
            final(self).start == old(self).start,
            final(self).base == old(self).base,
            final(self).end == old(self).end,
            final(self).counts() == coarsen(old(self).counts(), 1),
    {
        let ghost before = *self;
        let width = self.width;
        let mut p: usize = 0;
        while p < N
            invariant
                before.wf(),
                self.data@.len() == N,
                p <= N,
                width == before.width,
                width.level() < 6,
                self.width == before.width,
                self.base == before.base,
                self.start == before.start,
                self.end == before.end,
                forall|q: int|
                    0 <= q < p ==> #[trigger] self.data@[q] == pair_sums(
                        before.data@[q],
                        width.level() as u64,
                    ),
                forall|q: int| p <= q < N ==> #[trigger] self.data@[q] == before.data@[q],
            decreases N - p,
        {
            let x = widen_once(self.data[p], width);
            self.data[p] = x;
            p = p + 1;
        }
        self.width = Width::from_level(width.log2() + 1);
        proof {
            let k = before.width.level();
            let n = N as int;
            lemma_lanes(k);
            lemma_lanes(k + 1);
            lemma_half_slot(self.start as int, k);
            lemma_half_slot(self.end + 1, k);
            assert forall|w: int| #[trigger] self.at(w) == pair_sums(before.at(w), k as u64) by {
                assert(0 <= (w - self.base) % n < n);
            }
            lemma_pair_sums_zero(k as u64);
            assert forall|w: int| #![trigger self.at(w)]
                self.end - N < w < self.start + N && !self.covers(w) implies self.at(w) == 0 by {
                assert(before.at(w) == 0);
            }
            assert forall|s: int| #[trigger] self.counts()(s) == coarsen(before.counts(), 1)(s) by {
                let w = word_of(s, k + 1);
                let i = s % lanes(k + 1);
                lemma_word_of(s, k + 1);
                lemma_coarsen_one(before.counts(), s);
                self.lemma_count(s);
                lemma_half_slot(w, k);
                before.lemma_lane_count(w, 2 * i);
                before.lemma_lane_count(w, 2 * i + 1);
                assert(self.word(w) == pair_sums(before.word(w), k as u64));
                crate::lane::lemma_pair_sums(before.word(w), k as u64, i as u64);
            }
            assert(self.counts() =~= coarsen(before.counts(), 1));
        }
    }

    /// Packs two words into one, with counters half as wide: the same counts, which must fit.
    pub fn narrow_step(&mut self)
        requires
            old(self).wf(),
            old(self).width.level() > 0,
            at_most(old(self).counts(), capacity((old(self).width.level() - 1) as nat)),
        ensures
            final(self).wf(),
            final(self).width.level() == old(self).width.level() - 1,
            final(self).start == old(self).start as int / 2,
            final(self).base == old(self).base as int / 2,
            final(self).end == old(self).end as int / 2,
            final(self).counts() == old(self).counts(),
    {
        let ghost before = *self;
        let width = Width::from_level(self.width.log2() - 1);
        let start = half(self.start);
        let base = half(self.base);
        let end = half(self.end);
        let ghost k = width.level();
        proof {
            lemma_half_window(before, start as int, end as int, k);
        }
        let mut out = Window::anchored(width, base, start, end);
        let mut w: i32 = start;
        while w <= end
            invariant
                before == *self,
                self.wf(),
                self.width.level() == k + 1,
                width.level() == k,
                out.wf(),
                out.width == width,
                out.base == base,
                out.start == start,
                out.end == end,
                -reach() <= start <= w <= end + 1,
                end < reach(),
                forall|v: int|
                    start <= v < w ==> #[trigger] out.word(v) == packed(
                        before.word(2 * v),
                        before.word(2 * v + 1),
                        k,
                    ),
            decreases end + 1 - w,
        {
            let lo = narrow_once(self.get_word(2 * w), width);
            let hi = narrow_once(self.get_word(2 * w + 1), width);
            out.set_word(w, lo | (hi << 32));
            w = w + 1;
        }
        proof {
            assert forall|s: int| #[trigger] out.counts()(s) == before.counts()(s) by {
                lemma_packed_count(before, out, s);
            }
            assert(out.counts() =~= before.counts());
        }
        *self = out;
    }

    /// Adds neighbouring words of 64-bit counters: one scale coarser at the same width.
    pub fn group_step(&mut self)
        requires
            old(self).wf(),
            old(self).width.level() == 6,
            total(old(self).counts(), bottom(), top()) <= u64::MAX,
        ensures
            final(self).wf(),
            final(self).width.level() == 6,
            final(self).start == old(self).start as int / 2,
            final(self).base == old(self).base as int / 2,
            final(self).end == old(self).end as int / 2,
            final(self).counts() == coarsen(old(self).counts(), 1),
    {
        let ghost before = *self;
        let start = half(self.start);
        let base = half(self.base);
        let end = half(self.end);
        proof {
            lemma_half_window_wide(before, start as int, end as int);
            before.lemma_support();
        }
        let mut out = Window::anchored(self.width, base, start, end);
        let mut w: i32 = start;
        while w <= end
            invariant
                before == *self,
                self.wf(),
                self.width.level() == 6,
                out.wf(),
                out.width == self.width,
                out.base == base,
                out.start == start,
                out.end == end,
                -reach() <= start <= w <= end + 1,
                end < reach(),
                total(before.counts(), bottom(), top()) <= u64::MAX,
                within(before.counts(), -reach(), reach()),
                forall|v: int|
                    start <= v < w ==> #[trigger] out.word(v) == before.word(2 * v) + before.word(
                        2 * v + 1,
                    ),
            decreases end + 1 - w,
        {
            let lo = self.get_word(2 * w);
            let hi = self.get_word(2 * w + 1);
            proof {
                before.lemma_wide_count(2 * w);
                before.lemma_wide_count(2 * w + 1);
                lemma_pair_in_total(before.counts(), w as int);
            }
            out.set_word(w, lo + hi);
            w = w + 1;
        }
        proof {
            assert forall|s: int| #[trigger] out.counts()(s) == coarsen(before.counts(), 1)(s) by {
                lemma_coarsen_one(before.counts(), s);
                out.lemma_wide_count(s);
                before.lemma_wide_count(2 * s);
                before.lemma_wide_count(2 * s + 1);
                if !out.covers(s) {
                    assert(!before.covers(2 * s) && !before.covers(2 * s + 1));
                }
            }
            assert(out.counts() =~= coarsen(before.counts(), 1));
        }
        *self = out;
    }

    /// With 64-bit counters a word is a bucket.
    pub proof fn lemma_wide_count(self, s: int)
        requires
            self.width.level() == 6,
        ensures
            self.counts()(s) == self.word(s),
    {
        lemma_lane_bound(self.at(s), 6, 0);
    }
}

/// Half of a word index, rounded down.
fn half(w: i32) -> (r: i32)
    ensures
        r == w as int / 2,
{
    proof {
        lemma2_to64();
    }
    shr(w, 1)
}

/// Two words of counters of `2^(k + 1)` bits packed into one of `2^k` bits.
spec fn packed(lo: u64, hi: u64, k: nat) -> u64 {
    crate::lane::compact(lo, k as u64) | (crate::lane::compact(hi, k as u64) << 32)
}

/// Twice as many counters of half the width.
proof fn lemma_half_slot(w: int, k: nat)
    requires
        k < 6,
    ensures
        first_slot(w, k) == 2 * first_slot(w, k + 1),
        first_slot(2 * w, k + 1) == first_slot(w, k),
        first_slot(2 * w + 1, k + 1) == first_slot(w, k) + lanes(k + 1),
        lanes(k) == 2 * lanes(k + 1),
{
    lemma_lanes(k);
    let d = lanes(k + 1);
    assert(w * (2 * d) == 2 * (w * d)) by (nonlinear_arith);
    assert((2 * w) * d == w * (2 * d)) by (nonlinear_arith);
    assert((2 * w + 1) * d == w * (2 * d) + d) by (nonlinear_arith);
}

proof fn lemma_pair_sums_zero(k: u64)
    ensures
        pair_sums(0, k) == 0,
{
    assert(pair_sums(0, k) == 0) by (bit_vector);
}

/// Two neighbouring buckets are part of the total.
proof fn lemma_pair_in_total(f: Counts, i: int)
    requires
        within(f, -reach(), reach()),
    ensures
        f(2 * i) + f(2 * i + 1) <= total(f, bottom(), top()),
{
    if f(2 * i) + f(2 * i + 1) > 0 {
        lemma_coarsen_one(f, i);
        if f(2 * i) > 0 {
            assert(-reach() <= 2 * i < reach());
        } else {
            assert(-reach() <= 2 * i + 1 < reach());
        }
        lemma2_to64();
        lemma_coarsen_total(f, 1, -0x4000_0000, 0x4000_0000);
        lemma_total_member(coarsen(f, 1), -0x4000_0000, 0x4000_0000, i);
    }
}

/// Where the window lies after packing.
proof fn lemma_half_window<const N: usize>(before: Window<N>, start: int, end: int, k: nat)
    requires
        before.wf(),
        k < 6,
        before.width.level() == k + 1,
        start == before.start as int / 2,
        end == before.end as int / 2,
    ensures
        -reach() <= start <= end < reach(),
        end - start < N,
        -reach() <= first_slot(start, k),
        first_slot(end + 1, k) <= reach(),
{
    lemma_half_slot(start, k);
    lemma_half_slot(end + 1, k);
    lemma_lanes(k);
    lemma_lanes(k + 1);
    let d = lanes(k + 1);
    let s0 = before.start as int;
    let e0 = before.end as int;
    assert(reach() % 64 == 0);
    // A word pair may stick out by one word on either side, never past the aligned reach.
    if 2 * start < s0 {
        assert(2 * start == s0 - 1);
        lemma_reach_aligned(s0, d, true);
        assert((2 * start) * d == s0 * d - d) by (nonlinear_arith)
            requires
                2 * start == s0 - 1,
        ;
    }
    if 2 * (end + 1) > e0 + 1 {
        assert(2 * (end + 1) == e0 + 2);
        lemma_reach_aligned(e0 + 1, d, false);
        assert((2 * (end + 1)) * d == (e0 + 1) * d + d) by (nonlinear_arith)
            requires
                2 * (end + 1) == e0 + 2,
        ;
    }
}

/// An odd word boundary is not the end of the reach, which is an even one.
proof fn lemma_reach_aligned(w: int, d: int, lower: bool)
    requires
        d == 1 || d == 2 || d == 4 || d == 8 || d == 16 || d == 32,
        w % 2 == 1,
        lower ==> w * d >= -reach(),
        !lower ==> w * d <= reach(),
    ensures
        lower ==> w * d - d >= -reach(),
        !lower ==> w * d + d <= reach(),
{
    if d == 1 {
    } else if d == 2 {
    } else if d == 4 {
    } else if d == 8 {
    } else if d == 16 {
    } else {
    }
}

/// Where the window lies after grouping.
proof fn lemma_half_window_wide<const N: usize>(before: Window<N>, start: int, end: int)
    requires
        before.wf(),
        before.width.level() == 6,
        start == before.start as int / 2,
        end == before.end as int / 2,
    ensures
        -reach() <= start <= end < reach(),
        end - start < N,
        -reach() <= first_slot(start, 6),
        first_slot(end + 1, 6) <= reach(),
{
}

/// A packed window holds the same counts.
proof fn lemma_packed_count<const N: usize>(before: Window<N>, out: Window<N>, s: int)
    requires
        before.wf(),
        out.wf(),
        out.width.level() < 6,
        before.width.level() == out.width.level() + 1,
        out.start == before.start as int / 2,
        out.end == before.end as int / 2,
        at_most(before.counts(), capacity(out.width.level())),
        forall|v: int|
            out.start <= v <= out.end ==> #[trigger] out.word(v) == packed(
                before.word(2 * v),
                before.word(2 * v + 1),
                out.width.level(),
            ),
    ensures
        out.counts()(s) == before.counts()(s),
{
    let k = out.width.level();
    let k1 = (k + 1) as u64;
    let w = word_of(s, k);
    let i = s % lanes(k);
    lemma_word_of(s, k);
    lemma_half_slot(w, k);
    out.lemma_count(s);
    let half_lanes = lanes(k + 1);
    if out.covers(w) {
        let lo = before.word(2 * w);
        let hi = before.word(2 * w + 1);
        crate::lane::lemma_compact(lo, k as u64, 0);
        crate::lane::lemma_compact(hi, k as u64, 0);
        lemma_join(
            crate::lane::compact(lo, k as u64),
            crate::lane::compact(hi, k as u64),
            k as u64,
            i as u64,
        );
        if i < half_lanes {
            before.lemma_lane_count(2 * w, i);
            crate::lane::lemma_compact(lo, k as u64, i as u64);
            assert(before.counts()(s) <= capacity(k));
            lemma_low_part(lane(lo, k1, i as u64), k as u64);
        } else {
            let j = i - half_lanes;
            before.lemma_lane_count(2 * w + 1, j);
            crate::lane::lemma_compact(hi, k as u64, j as u64);
            assert(before.counts()(s) <= capacity(k));
            lemma_low_part(lane(hi, k1, j as u64), k as u64);
        }
    } else {
        if i < half_lanes {
            before.lemma_lane_count(2 * w, i);
        } else {
            before.lemma_lane_count(2 * w + 1, i - half_lanes);
        }
        lemma_lane_bound(0, k1, (s % half_lanes) as u64);
        lemma_lane_bound(0, k1, i as u64);
        lemma_lane_bound(0, k1, (i - half_lanes) as u64);
        lemma_lane_bound(0, k as u64, i as u64);
    }
}

} // verus!
