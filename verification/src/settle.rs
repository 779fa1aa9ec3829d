//! Finding room for the buckets of an auto-scaling histogram.
//!
//! The scale of such a histogram drops when the words of its buckets would not fit the pool, and
//! when a counter must widen. At the lowest scale all values fall into the buckets -1 and 0,
//! which two words hold at any width, so counters widen there without a drop.

use crate::arith::{lemma_div_bracket, lemma_shift_twice, shr};
use crate::counts::{
    bottom, coarsen, lemma_coarsen_member, lemma_coarsen_plus, lemma_coarsen_twice,
    lemma_coarsen_within, lemma_total_plus, lemma_total_split, lemma_total_wider, lemma_total_zero,
    no_counts, plus, top, total, within, Counts,
};
use crate::downscale::{drop_fits, is_drop, lemma_coarsen_bounded};
use crate::width::{
    capacity, first_slot, in_range, lanes, lemma_lanes, lemma_level_for, lemma_word_bracket,
    level_for, word_of, Width,
};
use crate::window::{lemma_slot_in_reach, reach, Window};
use crate::window_ops::at_most;
use vstd::arithmetic::power2::{lemma2_to64, lemma_pow2_pos, lemma_pow2_strictly_increases, pow2};
use vstd::prelude::*;

verus! {

/// A range of indices.
#[derive(Debug, Clone, Copy)]
pub struct HighLow {
    /// Lowest index.
    pub low: i32,
    /// Highest index.
    pub high: i32,
}

/// `c` is the least number of halvings after which the range spans fewer than `size` indices.
pub open spec fn is_change(low: int, high: int, size: int, c: nat) -> bool {
    &&& (high / pow2(c) as int) - (low / pow2(c) as int) < size
    &&& forall|e: nat|
        e < c ==> #[trigger] (high / pow2(e) as int) - (low / pow2(e) as int) >= size
}

impl HighLow {
    /// The empty range.
    pub fn empty() -> (r: Self)
        ensures
            r.low == 0,
            r.high == -1,
    {
        HighLow { low: 0, high: -1 }
    }

    /// Returns true if the range holds no index.
    pub fn is_empty(&self) -> (r: bool)
        ensures
            r <==> self.low > self.high,
    {
        self.low > self.high
    }

    /// The least range that covers both.
    pub fn merge(self, other: Self) -> (r: Self)
        ensures
            self.low > self.high ==> r == other,
            self.low <= self.high && other.low > other.high ==> r == self,
            self.low <= self.high && other.low <= other.high ==> r.low == (if self.low
                <= other.low {
                self.low
            } else {
                other.low
            }) && r.high == (if self.high >= other.high {
                self.high
            } else {
                other.high
            }),
    {
        if self.is_empty() {
            return other;
        }
        if other.is_empty() {
            return self;
        }
        HighLow {
            low: if self.low <= other.low {
                self.low
            } else {
                other.low
            },
            high: if self.high >= other.high {
                self.high
            } else {
                other.high
            },
        }
    }

    /// Computes how many halvings are needed for the range to span fewer than `size` indices.
    pub fn change_steps(self, size: usize) -> (r: u32)
        requires
            self.low <= self.high,
            2 <= size,
        ensures
            is_change(self.low as int, self.high as int, size as int, r as nat),
            r <= 31,
    {
        let mut low = self.low;
        let mut high = self.high;
        let mut change: u32 = 0;
        proof {
            lemma2_to64();
        }
        while high as i128 - low as i128 >= size as i128
            invariant
                self.low <= self.high,
                2 <= size,
                low == self.low as int / pow2(change as nat) as int,
                high == self.high as int / pow2(change as nat) as int,
                change <= 31,
                change == 31 ==> -1 <= low && high <= 0,
                forall|e: nat|
                    e < change ==> #[trigger] (self.high as int / pow2(e) as int) - (self.low as int
                        / pow2(e) as int) >= size,
            decreases 31 - change,
        {
            proof {
                lemma2_to64();
                lemma_shift_twice(self.low as int, change as nat, 1);
                lemma_shift_twice(self.high as int, change as nat, 1);
            }
            low = shr(low, 1);
            high = shr(high, 1);
            change = change + 1;
            proof {
                if change == 31 {
                    lemma2_to64();
                    assert(pow2(31) == 0x8000_0000);
                    assert(low as int == self.low as int / 0x8000_0000);
                    assert(high as int == self.high as int / 0x8000_0000);
                }
            }
        }
        change
    }
}

/// Computes how much downscaling is needed for indices to fit in `size` buckets.
pub fn change_scale(hl: HighLow, size: i32) -> (r: i32)
    requires
        2 <= size,
    ensures
        hl.low > hl.high ==> r == 0,
        hl.low <= hl.high ==> r >= 0 && is_change(
            hl.low as int,
            hl.high as int,
            size as int,
            r as nat,
        ),
{
    if hl.is_empty() {
        0
    } else {
        hl.change_steps(size as usize) as i32
    }
}

/// `level` is the narrowest counter level, from `k` up, that holds the counts.
pub open spec fn narrow_at(f: Counts, k: nat, level: nat) -> bool {
    &&& k <= level <= 6
    &&& at_most(f, capacity(level))
    &&& level == k || !at_most(f, capacity((level - 1) as nat))
}

/// The counts `h` of a window with counters of `2^k` bits, after a drop of the scale by `d` that
/// squeezes every `2^change` words into one, or by all of `room` where that is not enough.
pub open spec fn settled(
    h: Counts,
    k: nat,
    change: nat,
    room: nat,
    d: nat,
    level: nat,
    counts: Counts,
) -> bool {
    ||| {
        &&& d <= room
        &&& is_drop(h, k, change, d)
        &&& level == k + d - change
        &&& counts == coarsen(h, d)
    }
    ||| {
        &&& d == room
        &&& forall|e: nat| change <= e <= room ==> !#[trigger] drop_fits(h, k, change, e)
        &&& counts == coarsen(h, room)
        &&& narrow_at(counts, k, level)
    }
}

/// All buckets map to -1 or 0 after a drop by `room`.
pub open spec fn in_room(f: Counts, room: nat) -> bool {
    within(f, -(pow2(room) as int), pow2(room) as int)
}

/// After a drop by `room`, bucket -1 holds all negative buckets and bucket 0 all others.
pub proof fn lemma_at_bottom(f: Counts, room: nat)
    requires
        in_room(f, room),
        room <= 18,
    ensures
        within(coarsen(f, room), -1, 1),
        coarsen(f, room)(-1) == total(f, bottom(), 0),
        coarsen(f, room)(0) == total(f, 0, top()),
        pow2(room) <= 0x4_0000,
{
    lemma2_to64();
    let p = pow2(room) as int;
    lemma_pow2_pos(room);
    if room < 18 {
        lemma_pow2_strictly_increases(room, 18);
    }
    assert(pow2(18) == 0x4_0000);
    crate::arith::lemma_div_unique(-p, p, -1, 0);
    crate::arith::lemma_div_unique(p - 1, p, 0, p - 1);
    lemma_coarsen_within(f, room, -p, p);
    assert((-1) * p == -p && (-1 + 1) * p == 0 && 0 * p == 0 && (0 + 1) * p == p);
    lemma_total_split(f, bottom(), -p, 0);
    assert forall|i: int| bottom() <= i < -p implies #[trigger] f(i) == 0 by {}
    lemma_total_zero(f, bottom(), -p);
    lemma_total_split(f, 0, p, top());
    assert forall|i: int| p <= i < top() implies #[trigger] f(i) == 0 by {}
    lemma_total_zero(f, p, top());
}

/// The counts of the negative and of the other buckets of a window.
pub fn sides<const N: usize>(window: &Window<N>) -> (r: (u64, u64))
    requires
        window.wf(),
        total(window.counts(), bottom(), top()) <= u64::MAX,
    ensures
        r.0 == total(window.counts(), bottom(), 0),
        r.1 == total(window.counts(), 0, top()),
{
    let ghost c = window.counts();
    let high = window.high_slot();
    let mut s = window.low_slot();
    let mut below: u64 = 0;
    let mut above: u64 = 0;
    proof {
        window.lemma_support();
        lemma_total_split(c, bottom(), 0, top());
        assert forall|i: int| i < window.low() implies #[trigger] c(i) == 0 by {}
        assert forall|i: int| i >= window.high() implies #[trigger] c(i) == 0 by {}
        if s <= 0 {
            lemma_total_zero(c, bottom(), s as int);
        } else {
            lemma_total_zero(c, bottom(), 0);
            lemma_total_zero(c, 0, s as int);
        }
    }
    while s <= high
        invariant
            window.wf(),
            c == window.counts(),
            high == window.high() - 1,
            window.low() <= s <= window.high() <= reach(),
            -reach() <= window.low(),
            total(c, bottom(), top()) <= u64::MAX,
            total(c, bottom(), top()) == total(c, bottom(), 0) + total(c, 0, top()),
            below == total(
                c,
                bottom(),
                if s <= 0 {
                    s as int
                } else {
                    0
                },
            ),
            above == total(
                c,
                0,
                if s <= 0 {
                    0
                } else {
                    s as int
                },
            ),
        decreases high + 1 - s,
    {
        let v = window.get(s);
        proof {
            lemma_total_wider(c, bottom(), s + 1, bottom(), top());
            if s >= 0 {
                lemma_total_wider(c, 0, s + 1, 0, top());
            }
        }
        if s < 0 {
            below = below + v;
        } else {
            above = above + v;
        }
        s = s + 1;
    }
    proof {
        assert forall|i: int| i >= s implies #[trigger] c(i) == 0 by {}
        if s <= 0 {
            lemma_total_split(c, bottom(), s as int, 0);
            lemma_total_zero(c, s as int, 0);
            lemma_total_zero(c, 0, top());
        } else {
            lemma_total_split(c, 0, s as int, top());
            lemma_total_zero(c, s as int, top());
        }
    }
    (below, above)
}

/// A window over the words -1 and 0 with the given counts in the buckets -1 and 0, at the
/// narrowest width from `width` up that holds them.
pub fn bottom_window<const N: usize>(below: u64, above: u64, width: Width) -> (r: Window<N>)
    requires
        2 <= N <= 250,
    ensures
        r.wf(),
        r.start == -1,
        r.end == 0,
        r.counts()(-1) == below,
        r.counts()(0) == above,
        within(r.counts(), -1, 1),
        narrow_at(r.counts(), width.level(), r.width.level()),
{
    let heavy: u64 = if below >= above {
        below
    } else {
        above
    };
    let w = width.wider_of(Width::from_max_value(heavy));
    proof {
        let k = w.level();
        lemma_lanes(k);
        lemma_level_for(heavy as nat, k);
        if k > 0 {
            lemma_level_for(heavy as nat, (k - 1) as nat);
        }
        lemma_word_bracket(-1, -1, k);
        lemma_word_bracket(0, 0, k);
        assert(first_slot(-1, k) == -lanes(k)) by (nonlinear_arith)
            requires
                first_slot(-1, k) == -1 * lanes(k),
        ;
        assert(first_slot(1, k) == lanes(k)) by (nonlinear_arith)
            requires
                first_slot(1, k) == 1 * lanes(k),
        ;
        assert(first_slot(0, k) == 0);
    }
    let mut r = Window::spanning(w, -1, 0);
    r.write_add(-1, below);
    r.write_add(0, above);
    proof {
        assert(r.counts() =~= plus(plus(no_counts(), -1, below as nat), 0, above as nat));
        if w.level() > width.level() {
            assert(r.counts()(if below >= above { -1 } else { 0 }) == heavy);
        }
    }
    r
}

/// Fewer counts fit where more do.
pub proof fn lemma_drop_fits_less(f: Counts, h: Counts, k: nat, change: nat, e: nat)
    requires
        forall|i: int| #[trigger] f(i) <= h(i),
        drop_fits(h, k, change, e),
    ensures
        drop_fits(f, k, change, e),
{
    assert forall|i: int| #[trigger] coarsen(f, e)(i) <= capacity((k + e - change) as nat) by {
        crate::counts::lemma_total_le(f, h, i * pow2(e), (i + 1) * pow2(e));
        assert(coarsen(h, e)(i) <= capacity((k + e - change) as nat));
    }
}

/// Two windows with the same counts everywhere.
proof fn lemma_same_at_bottom(f: Counts, g: Counts, room: nat)
    requires
        in_room(f, room),
        room <= 18,
        within(g, -1, 1),
        g(-1) == total(f, bottom(), 0),
        g(0) == total(f, 0, top()),
    ensures
        g =~= coarsen(f, room),
{
    lemma_at_bottom(f, room);
    assert forall|i: int| #[trigger] g(i) == coarsen(f, room)(i) by {
        if i != -1 && i != 0 {
            assert(g(i) == 0);
            assert(coarsen(f, room)(i) == 0);
        }
    }
}

/// Drops the scale of a window, of which `room` steps are left, so that every `2^change` words
/// become one.
pub fn shrink<const N: usize>(window: &Window<N>, change: u32, room: u32) -> (r: (Window<N>, u32))
    requires
        window.wf(),
        2 <= N,
        change <= room <= 18,
        in_room(window.counts(), room as nat),
        total(window.counts(), bottom(), top()) <= u64::MAX,
    ensures
        r.0.wf(),
        r.1 <= room,
        settled(
            window.counts(),
            window.width.level(),
            change as nat,
            room as nat,
            r.1 as nat,
            r.0.width.level(),
            r.0.counts(),
        ),
        r.0.start == window.start as int / pow2(change as nat) as int && r.0.end
            == window.end as int / pow2(change as nat) as int && r.0.width.level()
            == window.width.level() + r.1 - change || (r.0.start == -1 && r.0.end == 0 && r.1 == room),
        is_drop(window.counts(), window.width.level(), change as nat, r.1 as nat) ==> r.0.base
            == window.base as int / pow2(change as nat) as int,
{
    let mut w = *window;
    let d = w.do_downscale(change);
    if d <= room {
        return (w, d);
    }
    let (below, above) = sides(window);
    let r = bottom_window::<N>(below, above, window.width);
    proof {
        lemma_same_at_bottom(window.counts(), r.counts(), room as nat);
    }
    (r, room)
}

/// Adds `incr` observations in bucket `slot` to a window, of whose scale `room` steps are left.
///
/// The words of the bucket and of the window must fit the pool once every `2^change` of them
/// have become one.
pub fn grow<const N: usize>(
    window: &Window<N>,
    slot: i32,
    incr: u64,
    change: u32,
    room: u32,
) -> (r: (Window<N>, u32))
    requires
        window.wf(),
        2 <= N,
        change <= room <= 18,
        in_range(slot as int),
        in_room(plus(window.counts(), slot as int, incr as nat), room as nat),
        in_room(window.counts(), room as nat),
        -(pow2(room as nat) as int) <= slot < pow2(room as nat),
        total(window.counts(), bottom(), top()) + incr <= u64::MAX,
        ({
            let w = word_of(slot as int, window.width.level()) / pow2(change as nat) as int;
            &&& (window.end as int / pow2(change as nat) as int) - w < N
            &&& w - (window.start as int / pow2(change as nat) as int) < N
        }),
    ensures
        r.0.wf(),
        r.1 <= room,
        settled(
            plus(window.counts(), slot as int, incr as nat),
            window.width.level(),
            change as nat,
            room as nat,
            r.1 as nat,
            r.0.width.level(),
            r.0.counts(),
        ),
        ({
            let w = word_of(slot as int, window.width.level()) / pow2(change as nat) as int;
            let s = window.start as int / pow2(change as nat) as int;
            let e = window.end as int / pow2(change as nat) as int;
            ||| r.0.start == (if w < s { w } else { s }) && r.0.end == (if w > e { w } else { e })
                && r.0.width.level() == window.width.level() + r.1 - change
            ||| r.0.start == -1 && r.0.end == 0 && r.1 == room
        }),
        is_drop(
            plus(window.counts(), slot as int, incr as nat),
            window.width.level(),
            change as nat,
            r.1 as nat,
        ) ==> r.0.base == window.base as int / pow2(change as nat) as int,
{
    let ghost c = window.counts();
    let ghost h = plus(c, slot as int, incr as nat);
    let ghost k = window.width.level();
    proof {
        window.lemma_support();
        lemma_total_plus(c, slot as int, incr as nat, bottom(), top());
        lemma_at_bottom(c, room as nat);
    }
    let mut w = *window;
    let mut d = w.do_downscale(change);
    let mut alive = d <= room;
    if alive {
        let s0 = shr(slot, d);
        let wd = w.width.slot_to_word_index(s0);
        proof {
            lemma_slot_word(slot as int, k, change as nat, d as nat);
            lemma_small_slot(slot as int, d as nat);
            lemma_slot_in_reach(s0 as int, w.width.level());
        }
        w.extend_to(wd);
        let ghost base = w.base;
        let ghost start = w.start;
        let ghost end = w.end;
        proof {
            assert forall|e: nat| change <= e < d implies !#[trigger] drop_fits(
                h,
                k,
                change as nat,
                e,
            ) by {
                if drop_fits(h, k, change as nat, e) {
                    lemma_drop_fits_less(c, h, k, change as nat, e);
                }
            }
        }
        loop
            invariant_except_break
                w.counts() == coarsen(c, d as nat),
                alive,
            invariant
                w.wf(),
                w.base == base,
                w.start == start,
                w.end == end,
                window.wf(),
                2 <= N,
                c == window.counts(),
                h == plus(c, slot as int, incr as nat),
                k == window.width.level(),
                within(c, -reach(), reach()),
                total(c, bottom(), top()) + incr <= u64::MAX,
                total(h, bottom(), top()) == total(c, bottom(), top()) + incr,
                in_range(slot as int),
                change <= d <= room <= 18,
                w.width.level() == k + d - change,
                w.covers(word_of(slot as int / pow2(d as nat) as int, w.width.level())),
                forall|e: nat| change <= e < d ==> !#[trigger] drop_fits(h, k, change as nat, e),
            ensures
                alive ==> {
                    &&& w.wf()
                    &&& d <= room
                    &&& w.width.level() == k + d - change
                    &&& w.counts() == coarsen(h, d as nat)
                    &&& is_drop(h, k, change as nat, d as nat)
                },
                !alive ==> forall|e: nat|
                    change <= e <= room ==> !#[trigger] drop_fits(h, k, change as nat, e),
            decreases 18 - d,
        {
            let s = shr(slot, d);
            proof {
                lemma_coarsen_bounded(c, d as nat);
                lemma_coarsen_plus(c, slot as int, incr as nat, d as nat);
            }
            match w.try_add(s, incr) {
                Ok(()) => {
                    proof {
                        w.lemma_support();
                        assert(w.counts() == coarsen(h, d as nat));
                        assert(drop_fits(h, k, change as nat, d as nat));
                    }
                    break;
                },
                Err(sum) => {
                    let need = Width::from_max_value(sum);
                    let j = need.subtract(w.width);
                    proof {
                        lemma_level_for(sum as nat, w.width.level());
                        lemma_overweight(h, k, change as nat, d as nat, s as int, sum as nat);
                    }
                    if j > room - d {
                        alive = false;
                        break;
                    }
                    w.widen_by(j);
                    proof {
                        lemma_coarsen_twice(c, d as nat, j as nat);
                        lemma_shift_twice(slot as int, d as nat, j as nat);
                        lemma_slot_word(s as int, (k + d - change) as nat, 0, j as nat);
                        lemma2_to64();
                    }
                    d = d + j;
                },
            }
        }
        if alive {
            return (w, d);
        }
    } else {
        proof {
            assert forall|e: nat| change <= e <= room implies !#[trigger] drop_fits(
                h,
                k,
                change as nat,
                e,
            ) by {
                if drop_fits(h, k, change as nat, e) {
                    lemma_drop_fits_less(c, h, k, change as nat, e);
                }
            }
        }
    }
    let (below, above) = sides(window);
    proof {
        lemma_total_plus(c, slot as int, incr as nat, bottom(), 0);
        lemma_total_plus(c, slot as int, incr as nat, 0, top());
        lemma_total_split(h, bottom(), 0, top());
    }
    let (below, above) = if slot < 0 {
        (below + incr, above)
    } else {
        (below, above + incr)
    };
    let r = bottom_window::<N>(below, above, window.width);
    proof {
        lemma_same_at_bottom(h, r.counts(), room as nat);
    }
    (r, room)
}

/// A bucket keeps its word when the scale drops by `d` and every `2^change` words become one.
pub proof fn lemma_slot_word(slot: int, k: nat, change: nat, d: nat)
    requires
        change <= d <= change + 6 - k,
        k <= 6,
    ensures
        word_of(slot / pow2(d) as int, (k + d - change) as nat) == word_of(slot, k) / pow2(
            change,
        ) as int,
{
    lemma_lanes(k);
    lemma_lanes((k + d - change) as nat);
    lemma_shift_twice(slot, d, (6 - (k + d - change)) as nat);
    lemma_shift_twice(slot, (6 - k) as nat, change);
}

/// A coarser bucket is in range.
proof fn lemma_small_slot(slot: int, d: nat)
    requires
        in_range(slot),
    ensures
        in_range(slot / pow2(d) as int),
{
    let p = pow2(d) as int;
    lemma_pow2_pos(d);
    lemma_div_bracket(slot, p, slot / p);
    let q = slot / p;
    assert(-0x10_0000 <= q < 0x10_0000) by (nonlinear_arith)
        requires
            q * p <= slot < (q + 1) * p,
            p >= 1,
            -0x10_0000 <= slot < 0x10_0000,
    ;
}

/// A bucket that is too heavy for a width stays too heavy while the counters are no wider.
proof fn lemma_overweight(h: Counts, k: nat, change: nat, d: nat, at: int, sum: nat)
    requires
        change <= d,
        k + d - change <= 6,
        coarsen(h, d)(at) == sum,
        sum <= u64::MAX,
    ensures
        forall|e: nat|
            d <= e < change + level_for(sum) - k ==> !#[trigger] drop_fits(h, k, change, e),
{
    assert forall|e: nat| d <= e < change + level_for(sum) - k implies !#[trigger] drop_fits(
        h,
        k,
        change,
        e,
    ) by {
        if e <= change + 6 - k {
            let i = at / pow2((e - d) as nat) as int;
            lemma_coarsen_member(coarsen(h, d), (e - d) as nat, at);
            lemma_coarsen_twice(h, d, (e - d) as nat);
            lemma_level_for(sum, (k + e - change) as nat);
            assert(coarsen(h, e)(i) >= sum);
        }
    }
}

} // verus!
