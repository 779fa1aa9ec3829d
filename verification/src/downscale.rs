//! Downscaling a window so that its words take less room.

use crate::arith::lemma_shift_twice;
use crate::counts::{
    bottom, coarsen, lemma_coarsen_total, lemma_coarsen_twice, lemma_coarsen_zero,
    lemma_total_within, top, total, within, Counts,
};
use crate::width::{capacity, lemma_capacity_mono, lemma_level_for, level_for, Width};
use crate::window::{reach, Window};
use crate::window_ops::{at_most, is_max};
use vstd::arithmetic::power2::{lemma2_to64, lemma_pow2_pos, pow2};
use vstd::prelude::*;

verus! {

/// Lowering the scale by `d` and squeezing every `2^change` words into one leaves counters of
/// `2^(k + d - change)` bits, which hold the coarser counts.
pub open spec fn drop_fits(c: Counts, k: nat, change: nat, d: nat) -> bool {
    &&& change <= d <= change + 6 - k
    &&& at_most(coarsen(c, d), capacity((k + d - change) as nat))
}

/// `d` is the least number of scale steps, at least `change`, that squeezes every `2^change`
/// words into one.
pub open spec fn is_drop(c: Counts, k: nat, change: nat, d: nat) -> bool {
    &&& drop_fits(c, k, change, d)
    &&& forall|e: nat| change <= e < d ==> !#[trigger] drop_fits(c, k, change, e)
}

/// The counts of a coarser window are bounded by the total.
pub proof fn lemma_coarsen_bounded(c: Counts, d: nat)
    requires
        within(c, -reach(), reach()),
    ensures
        within(coarsen(c, d), -reach(), reach()),
        total(coarsen(c, d), bottom(), top()) == total(c, bottom(), top()),
        at_most(coarsen(c, d), total(c, bottom(), top())),
{
    lemma_coarsen_inside(c, d, reach());
}

/// Merging buckets of any range keeps all counts.
pub proof fn lemma_coarsen_inside(c: Counts, d: nat, r: int)
    requires
        within(c, -r, r),
        0 < r <= top(),
    ensures
        within(coarsen(c, d), -r, r),
        total(coarsen(c, d), bottom(), top()) == total(c, bottom(), top()),
        at_most(coarsen(c, d), total(c, bottom(), top())),
{
    lemma_pow2_pos(d);
    let p = pow2(d) as int;
    crate::counts::lemma_coarsen_within(c, d, -r, r);
    let lo = -r / p;
    let hi = (r - 1) / p + 1;
    crate::arith::lemma_div_bracket(-r, p, lo);
    crate::arith::lemma_div_bracket(r - 1, p, hi - 1);
    assert(lo >= -r) by (nonlinear_arith)
        requires
            (lo + 1) * p > -r,
            p >= 1,
            r >= 1,
    ;
    assert(hi - 1 <= r - 1) by (nonlinear_arith)
        requires
            (hi - 1) * p <= r - 1,
            p >= 1,
            r >= 1,
    ;
    assert(lo <= -1) by (nonlinear_arith)
        requires
            lo * p <= -r,
            p >= 1,
            r >= 1,
    ;
    assert(hi >= 1) by (nonlinear_arith)
        requires
            hi * p > r - 1,
            p >= 1,
            r >= 1,
    ;
    assert(within(coarsen(c, d), -r, r));
    lemma_total_within(coarsen(c, d), lo, hi, bottom(), top());
    lemma_coarsen_total(c, d, lo, hi);
    let a = lo * p;
    let b = hi * p;
    assert(within(c, a, b)) by {
        assert forall|i: int| #[trigger] c(i) != 0 implies a <= i < b by {}
    }
    if a < bottom() || b > top() {
        // The aligned range may be wider than the range of all buckets.
        lemma_total_within(c, -r, r, a, b);
        lemma_total_within(c, -r, r, bottom(), top());
    } else {
        lemma_total_within(c, a, b, bottom(), top());
    }
    assert forall|i: int| #[trigger] coarsen(c, d)(i) <= total(c, bottom(), top()) by {
        if coarsen(c, d)(i) != 0 {
            crate::counts::lemma_total_member(coarsen(c, d), bottom(), top(), i);
        }
    }
}

impl<const N: usize> Window<N> {
    /// Widens the counters by `steps` levels.
    pub fn widen_by(&mut self, steps: u32)
        requires
            old(self).wf(),
            old(self).width.level() + steps <= 6,
        ensures
            final(self).wf(),
            final(self).width.level() == old(self).width.level() + steps,
            final(self).start == old(self).start,
            final(self).base == old(self).base,
            final(self).end == old(self).end,
            final(self).counts() == coarsen(old(self).counts(), steps as nat),
    {
        let ghost before = *self;
        let mut i: u32 = 0;
        proof {
            lemma_coarsen_zero(before.counts());
        }
        while i < steps
            invariant
                i <= steps,
                before.width.level() + steps <= 6,
                self.wf(),
                self.width.level() == before.width.level() + i,
                self.start == before.start,
                self.base == before.base,
                self.end == before.end,
                self.counts() == coarsen(before.counts(), i as nat),
            decreases steps - i,
        {
            self.widen_step();
            proof {
                lemma_coarsen_twice(before.counts(), i as nat, 1);
            }
            i = i + 1;
        }
    }

    /// Narrows the counters by `steps` levels, which must hold the counts.
    pub fn narrow_by(&mut self, steps: u32)
        requires
            old(self).wf(),
            steps <= old(self).width.level(),
            at_most(old(self).counts(), capacity((old(self).width.level() - steps) as nat)),
        ensures
            final(self).wf(),
            final(self).width.level() == old(self).width.level() - steps,
            final(self).start == old(self).start as int / pow2(steps as nat) as int,
            final(self).base == old(self).base as int / pow2(steps as nat) as int,
            final(self).end == old(self).end as int / pow2(steps as nat) as int,
            final(self).counts() == old(self).counts(),
    {
        let ghost before = *self;
        let mut i: u32 = 0;
        proof {
            lemma2_to64();
        }
        while i < steps
            invariant
                i <= steps,
                steps <= before.width.level(),
                at_most(before.counts(), capacity((before.width.level() - steps) as nat)),
                self.wf(),
                self.width.level() == before.width.level() - i,
                self.start == before.start as int / pow2(i as nat) as int,
                self.base == before.base as int / pow2(i as nat) as int,
                self.end == before.end as int / pow2(i as nat) as int,
                self.counts() == before.counts(),
            decreases steps - i,
        {
            proof {
                lemma_capacity_mono(
                    (before.width.level() - steps) as nat,
                    (before.width.level() - i - 1) as nat,
                );
                lemma2_to64();
                lemma_shift_twice(before.start as int, i as nat, 1);
                lemma_shift_twice(before.base as int, i as nat, 1);
                lemma_shift_twice(before.end as int, i as nat, 1);
            }
            self.narrow_step();
            i = i + 1;
        }
    }

    /// Downscales a window of 64-bit counters: groups of `2^change` consecutive words are
    /// summed.
    pub fn downscale_u64(&mut self, change: u32)
        requires
            old(self).wf(),
            old(self).width.level() == 6,
            change <= 64,
            total(old(self).counts(), bottom(), top()) <= u64::MAX,
        ensures
            final(self).wf(),
            final(self).width.level() == 6,
            final(self).start == old(self).start as int / pow2(change as nat) as int,
            final(self).base == old(self).base as int / pow2(change as nat) as int,
            final(self).end == old(self).end as int / pow2(change as nat) as int,
            final(self).counts() == coarsen(old(self).counts(), change as nat),
    {
        let ghost before = *self;
        let mut i: u32 = 0;
        proof {
            lemma2_to64();
            lemma_coarsen_zero(before.counts());
            before.lemma_support();
        }
        while i < change
            invariant
                i <= change <= 64,
                within(before.counts(), -reach(), reach()),
                total(before.counts(), bottom(), top()) <= u64::MAX,
                self.wf(),
                self.width.level() == 6,
                self.start == before.start as int / pow2(i as nat) as int,
                self.base == before.base as int / pow2(i as nat) as int,
                self.end == before.end as int / pow2(i as nat) as int,
                self.counts() == coarsen(before.counts(), i as nat),
            decreases change - i,
        {
            proof {
                lemma_coarsen_bounded(before.counts(), i as nat);
                lemma2_to64();
                lemma_shift_twice(before.start as int, i as nat, 1);
                lemma_shift_twice(before.base as int, i as nat, 1);
                lemma_shift_twice(before.end as int, i as nat, 1);
                lemma_coarsen_twice(before.counts(), i as nat, 1);
            }
            self.group_step();
            i = i + 1;
        }
    }

    /// Downscales by at least `change` steps, so that every `2^change` words become one.
    ///
    /// Returns the number of scale steps, which exceeds `change` when sums need wider counters.
    pub fn do_downscale(&mut self, change: u32) -> (d: u32)
        requires
            old(self).wf(),
            change <= 56,
            total(old(self).counts(), bottom(), top()) <= u64::MAX,
        ensures
            final(self).wf(),
            is_drop(old(self).counts(), old(self).width.level(), change as nat, d as nat),
            final(self).width.level() == old(self).width.level() + d - change,
            final(self).start == old(self).start as int / pow2(change as nat) as int,
            final(self).base == old(self).base as int / pow2(change as nat) as int,
            final(self).end == old(self).end as int / pow2(change as nat) as int,
            final(self).counts() == coarsen(old(self).counts(), d as nat),
    {
        proof {
            self.lemma_support();
            lemma_coarsen_bounded(self.counts(), change as nat);
        }
        if self.width.log2() == 6 {
            self.downscale_u64(change);
            return change;
        }
        self.downscale_sub_u64(change)
    }

    /// Downscales from counters below 64 bits: widens inside the words until the counters are
    /// `change` levels wider than the sums need, then narrows and packs them.
    fn downscale_sub_u64(&mut self, change: u32) -> (d: u32)
        requires
            old(self).wf(),
            old(self).width.level() < 6,
            change <= 56,
            total(old(self).counts(), bottom(), top()) <= u64::MAX,
        ensures
            final(self).wf(),
            is_drop(old(self).counts(), old(self).width.level(), change as nat, d as nat),
            final(self).width.level() == old(self).width.level() + d - change,
            final(self).start == old(self).start as int / pow2(change as nat) as int,
            final(self).base == old(self).base as int / pow2(change as nat) as int,
            final(self).end == old(self).end as int / pow2(change as nat) as int,
            final(self).counts() == coarsen(old(self).counts(), d as nat),
    {
        let ghost before = *self;
        let ghost k = before.width.level();
        let ghost c = before.counts();
        let room = self.width.to_u64_widen_by();
        if change > room {
            // Even 64-bit counters leave words to be grouped.
            self.widen_by(room);
            return self.downscale_cross_word(change, room, Ghost(before));
        }
        self.widen_by(change);
        let mut dropped: u32 = change;
        loop
            invariant
                self.wf(),
                before.wf(),
                before == *old(self),
                k == before.width.level(),
                c == before.counts(),
                change <= dropped <= room == 6 - k,
                total(c, bottom(), top()) <= u64::MAX,
                self.width.level() == k + dropped,
                self.start == before.start,
                self.base == before.base,
                self.end == before.end,
                self.counts() == coarsen(c, dropped as nat),
                forall|e: nat|
                    change <= e < dropped ==> !#[trigger] drop_fits(c, k, change as nat, e),
            ensures
                self.wf(),
                self.width.level() == k + dropped,
                self.start == before.start,
                self.base == before.base,
                self.end == before.end,
                self.counts() == coarsen(c, dropped as nat),
                change <= dropped <= 6 - k,
                is_drop(c, k, change as nat, dropped as nat),
            decreases room - dropped,
        {
            let heaviest = self.max_count();
            let required = Width::from_max_value(heaviest);
            let gap = self.width.subtract(required);
            proof {
                self.lemma_support();
                lemma_needed(self.counts(), heaviest as nat, (k + dropped - change) as nat);
                lemma_needed(self.counts(), heaviest as nat, self.width.level());
            }
            if gap >= change {
                break;
            }
            proof {
                assert(!drop_fits(c, k, change as nat, dropped as nat));
            }
            if dropped == room {
                return self.downscale_cross_word(change, dropped, Ghost(before));
            }
            self.widen_by(1);
            proof {
                lemma_coarsen_twice(c, dropped as nat, 1);
            }
            dropped = dropped + 1;
        }
        self.narrow_by(change);
        dropped
    }

    /// Downscales further once widening has reached 64-bit counters: sums groups of words, as
    /// few as possible, and then narrows and packs.
    ///
    /// `dropped` widening steps have been taken since the window `before`.
    fn downscale_cross_word(&mut self, change: u32, dropped: u32, before: Ghost<Window<N>>) -> (d: u32)
        requires
            old(self).wf(),
            before@.wf(),
            old(self).width.level() == 6,
            dropped == 6 - before@.width.level(),
            change <= 56,
            total(before@.counts(), bottom(), top()) <= u64::MAX,
            old(self).start == before@.start,
            old(self).base == before@.base,
            old(self).end == before@.end,
            old(self).counts() == coarsen(before@.counts(), dropped as nat),
            forall|e: nat|
                change <= e < dropped ==> !#[trigger] drop_fits(
                    before@.counts(),
                    before@.width.level(),
                    change as nat,
                    e,
                ),
        ensures
            final(self).wf(),
            is_drop(before@.counts(), before@.width.level(), change as nat, d as nat),
            final(self).width.level() == before@.width.level() + d - change,
            final(self).start == before@.start as int / pow2(change as nat) as int,
            final(self).base == before@.base as int / pow2(change as nat) as int,
            final(self).end == before@.end as int / pow2(change as nat) as int,
            final(self).counts() == coarsen(before@.counts(), d as nat),
    {
        let ghost k = before@.width.level();
        let ghost c = before@.counts();
        let mut cross: u32 = 0;
        proof {
            before@.lemma_support();
            lemma2_to64();
        }
        loop
            invariant
                self.wf(),
                k == before@.width.level(),
                c == before@.counts(),
                within(c, -reach(), reach()),
                total(c, bottom(), top()) <= u64::MAX,
                dropped == 6 - k,
                change <= 56,
                cross <= change,
                self.width.level() == 6,
                self.start == before@.start as int / pow2(cross as nat) as int,
                self.base == before@.base as int / pow2(cross as nat) as int,
                self.end == before@.end as int / pow2(cross as nat) as int,
                self.counts() == coarsen(c, (dropped + cross) as nat),
                forall|e: nat|
                    change <= e < dropped + cross ==> !#[trigger] drop_fits(c, k, change as nat, e),
            ensures
                self.wf(),
                cross <= change,
                change - cross <= 6,
                self.width.level() == 6,
                self.start == before@.start as int / pow2(cross as nat) as int,
                self.base == before@.base as int / pow2(cross as nat) as int,
                self.end == before@.end as int / pow2(cross as nat) as int,
                self.counts() == coarsen(c, (dropped + cross) as nat),
                is_drop(c, k, change as nat, (dropped + cross) as nat),
            decreases change - cross,
        {
            let heaviest = self.max_count();
            let required = Width::from_max_value(heaviest);
            let gap = Width::U64.subtract(required);
            proof {
                if cross + 6 >= change {
                    lemma_needed(self.counts(), heaviest as nat, (6 + cross - change) as nat);
                }
            }
            if dropped + cross >= change && cross + gap >= change {
                break;
            }
            proof {
                assert(!drop_fits(c, k, change as nat, (dropped + cross) as nat));
                lemma_coarsen_bounded(c, (dropped + cross) as nat);
                lemma_coarsen_twice(c, (dropped + cross) as nat, 1);
                lemma2_to64();
                lemma_shift_twice(before@.start as int, cross as nat, 1);
                lemma_shift_twice(before@.base as int, cross as nat, 1);
                lemma_shift_twice(before@.end as int, cross as nat, 1);
            }
            self.group_step();
            cross = cross + 1;
        }
        let narrow = change - cross;
        proof {
            lemma_shift_twice(before@.start as int, cross as nat, narrow as nat);
            lemma_shift_twice(before@.base as int, cross as nat, narrow as nat);
            lemma_shift_twice(before@.end as int, cross as nat, narrow as nat);
        }
        self.narrow_by(narrow);
        dropped + cross
    }
}

/// The width that the heaviest count needs decides what fits.
proof fn lemma_needed(f: Counts, m: nat, k: nat)
    requires
        is_max(f, m),
        m <= u64::MAX,
        k <= 6,
    ensures
        at_most(f, capacity(k)) <==> level_for(m) <= k,
{
    lemma_level_for(m, k);
    if m > 0 {
        let i = choose|i: int| #[trigger] f(i) == m;
        assert(f(i) == m);
    }
}

} // verus!
