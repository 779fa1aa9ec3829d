//! Merging auto-scaling histograms.
//!
//! The resolution of the words of a histogram is its scale plus the level of its counter width:
//! widening trades one for the other inside the words. Two histograms are brought to a common
//! resolution at which their words fit the pool together, widened to a common width, and added
//! word by word; a sum that exceeds its counter widens both once more.

use crate::counts::{
    bottom, both, coarsen, lemma_coarsen_none, lemma_coarsen_twice, lemma_total_member, no_counts,
    top, total, within, Counts,
};
use crate::downscale::{drop_fits, is_drop, lemma_coarsen_bounded};
use crate::histogram::{
    highest_of, lemma_extremes, lemma_highest_unique, lemma_lowest_unique, lowest_of,
};
use crate::lane::{lane, lane_count, lemma_lane_bound};
use crate::mapping::MIN_SCALE;
use crate::settle::{bottom_window, in_room, is_change, narrow_at, sides, HighLow};
use crate::swar::swar_add_checked;
use crate::width::{capacity, first_slot, lanes, lemma_lanes, lemma_word_of, word_of};
use crate::window::{is_highest, is_lowest, reach, Window};
use crate::window_ops::at_most;
use vstd::arithmetic::power2::{lemma2_to64, lemma_pow2_pos, pow2};
use vstd::prelude::*;

verus! {

/// The counters of a word of two windows together, as buckets.
proof fn lemma_word_sums<const N: usize, const M: usize>(a: Window<N>, b: Window<M>, w: int)
    requires
        a.width == b.width,
    ensures
        (forall|i: u64|
            i < lane_count(a.width.level() as u64) ==> #[trigger] lane(
                a.word(w),
                a.width.level() as u64,
                i,
            ) + lane(b.word(w), a.width.level() as u64, i) <= capacity(a.width.level())) <==> (forall|
            s: int,
        |
            word_of(s, a.width.level()) == w ==> #[trigger] both(a.counts(), b.counts())(s)
                <= capacity(a.width.level())),
{
    let k = a.width.level();
    lemma_lanes(k);
    let h = both(a.counts(), b.counts());
    if forall|i: u64|
        i < lane_count(k as u64) ==> #[trigger] lane(a.word(w), k as u64, i) + lane(
            b.word(w),
            k as u64,
            i,
        ) <= capacity(k) {
        assert forall|s: int| word_of(s, k) == w implies #[trigger] h(s) <= capacity(k) by {
            lemma_word_of(s, k);
            a.lemma_count(s);
            b.lemma_count(s);
            let i = (s % lanes(k)) as u64;
            assert(lane(a.word(w), k as u64, i) + lane(b.word(w), k as u64, i) <= capacity(k));
        }
    }
    if forall|s: int| word_of(s, k) == w ==> #[trigger] h(s) <= capacity(k) {
        assert forall|i: u64| i < lane_count(k as u64) implies #[trigger] lane(a.word(w), k as u64, i)
            + lane(b.word(w), k as u64, i) <= capacity(k) by {
            let s = first_slot(w, k) + i;
            a.lemma_lane_count(w, i as int);
            b.lemma_lane_count(w, i as int);
            crate::arith::lemma_div_unique(s, lanes(k), w, i as int);
            assert(h(s) <= capacity(k));
        }
    }
}

/// Returns true if the counts of two windows fit their counters when added.
fn sums_fit<const N: usize, const M: usize>(a: &Window<N>, b: &Window<M>) -> (r: bool)
    requires
        a.wf(),
        b.wf(),
        a.width == b.width,
    ensures
        r <==> at_most(both(a.counts(), b.counts()), capacity(a.width.level())),
{
    let ghost h = both(a.counts(), b.counts());
    let ghost k = a.width.level();
    let mut w: i32 = b.start;
    while w <= b.end
        invariant
            a.wf(),
            b.wf(),
            a.width == b.width,
            h == both(a.counts(), b.counts()),
            k == a.width.level(),
            b.start <= w <= b.end + 1,
            forall|s: int|
                b.start <= word_of(s, k) < w ==> #[trigger] h(s) <= capacity(k),
        decreases b.end + 1 - w,
    {
        proof {
            lemma_word_sums(*a, *b, w as int);
        }
        if swar_add_checked(a.get_word(w), b.get_word(w), a.width).is_none() {
            proof {
                if at_most(h, capacity(k)) {
                    assert forall|s: int| word_of(s, k) == w implies #[trigger] h(s) <= capacity(k) by {}
                }
            }
            return false;
        }
        w = w + 1;
    }
    proof {
        a.lemma_support();
        assert forall|s: int| #[trigger] h(s) <= capacity(k) by {
            if !b.covers(word_of(s, k)) {
                assert(b.counts()(s) == 0);
                assert(a.counts()(s) <= capacity(k));
            }
        }
    }
    true
}

/// Adds the counts of `b` to `a`, word by word.
fn add_words<const N: usize, const M: usize>(a: &mut Window<N>, b: &Window<M>)
    requires
        old(a).wf(),
        b.wf(),
        old(a).width == b.width,
        at_most(both(old(a).counts(), b.counts()), capacity(b.width.level())),
        old(a).start <= b.start,
        b.end <= old(a).end,
    ensures
        final(a).wf(),
        final(a).width == old(a).width,
        final(a).base == old(a).base,
        final(a).start == old(a).start,
        final(a).end == old(a).end,
        final(a).counts() == both(old(a).counts(), b.counts()),
{
    let ghost before = *a;
    let ghost k = b.width.level();
    let ghost h = both(before.counts(), b.counts());
    let mut w: i32 = b.start;
    while w <= b.end
        invariant
            a.wf(),
            b.wf(),
            before.wf(),
            before.width == b.width,
            a.width == before.width,
            a.base == before.base,
            a.start == before.start,
            a.end == before.end,
            k == b.width.level(),
            h == both(before.counts(), b.counts()),
            at_most(h, capacity(k)),
            before.start <= b.start <= w <= b.end + 1,
            b.end <= before.end,
            forall|v: int| w <= v || v < b.start ==> #[trigger] a.word(v) == before.word(v),
            forall|v: int, i: u64|
                b.start <= v < w && i < lane_count(k as u64) ==> #[trigger] lane(
                    a.word(v),
                    k as u64,
                    i,
                ) == lane(before.word(v), k as u64, i) + lane(b.word(v), k as u64, i),
        decreases b.end + 1 - w,
    {
        proof {
            lemma_word_sums(before, *b, w as int);
            assert forall|s: int| word_of(s, k) == w implies #[trigger] h(s) <= capacity(k) by {}
        }
        let x = a.get_word(w);
        let y = b.get_word(w);
        if let Some(sum) = swar_add_checked(x, y, b.width) {
            a.set_word(w, sum);
        }
        w = w + 1;
    }
    proof {
        lemma_lanes(k);
        assert forall|s: int| #[trigger] a.counts()(s) == h(s) by {
            let v = word_of(s, k);
            lemma_word_of(s, k);
            a.lemma_count(s);
            before.lemma_count(s);
            b.lemma_count(s);
            let i = (s % lanes(k)) as u64;
            if b.covers(v) {
                assert(lane(a.word(v), k as u64, i) == lane(before.word(v), k as u64, i) + lane(
                    b.word(v),
                    k as u64,
                    i,
                ));
            } else {
                assert(a.word(v) == before.word(v));
                lemma_lane_bound(0, k as u64, i);
            }
        }
        assert(a.counts() =~= h);
    }
}

/// Buckets at a scale, with the level of their counters.
pub struct Shape {
    /// The counts of all buckets.
    pub counts: Counts,
    /// The scale.
    pub scale: int,
    /// Level of the counter width.
    pub level: nat,
}

/// The buckets at scale `s`.
pub open spec fn at_scale(a: Shape, s: int) -> Counts {
    coarsen(a.counts, (a.scale - s) as nat)
}

/// The union of two sets of buckets at scale `s`.
pub open spec fn union_at(a: Shape, b: Shape, s: int) -> Counts {
    both(at_scale(a, s), at_scale(b, s))
}

/// Resolution of the words.
pub open spec fn resolution(a: Shape) -> int {
    a.scale + a.level
}

/// The lower of two resolutions.
pub open spec fn common_resolution(a: Shape, b: Shape) -> int {
    if resolution(a) <= resolution(b) {
        resolution(a)
    } else {
        resolution(b)
    }
}

/// First word with a count, at resolution `q`.
pub open spec fn first_word(a: Shape, q: int) -> int {
    word_of(lowest_of(a.counts), a.level) / pow2((resolution(a) - q) as nat) as int
}

/// Last word with a count, at resolution `q`.
pub open spec fn last_word(a: Shape, q: int) -> int {
    word_of(highest_of(a.counts), a.level) / pow2((resolution(a) - q) as nat) as int
}

/// First word of the union, at resolution `q`.
pub open spec fn union_first(a: Shape, b: Shape, q: int) -> int {
    if a.counts == no_counts() || first_word(b, q) < first_word(a, q) {
        first_word(b, q)
    } else {
        first_word(a, q)
    }
}

/// Last word of the union, at resolution `q`.
pub open spec fn union_last(a: Shape, b: Shape, q: int) -> int {
    if a.counts == no_counts() || last_word(b, q) > last_word(a, q) {
        last_word(b, q)
    } else {
        last_word(a, q)
    }
}

/// `q` is the highest common resolution at which the words of the union fit `n` words.
pub open spec fn fitting_resolution(a: Shape, b: Shape, n: int, q: int) -> bool {
    let m = common_resolution(a, b);
    &&& q <= m
    &&& is_change(union_first(a, b, m), union_last(a, b, m), n, (m - q) as nat)
}

/// Counters of `2^k` bits hold the union at resolution `q`.
pub open spec fn union_fits(a: Shape, b: Shape, q: int, k: nat) -> bool {
    &&& q - k >= MIN_SCALE
    &&& at_most(union_at(a, b, q - k), capacity(k))
}

/// The wider of two counter levels.
pub open spec fn common_level(a: Shape, b: Shape) -> nat {
    if a.level >= b.level {
        a.level
    } else {
        b.level
    }
}

/// `after` holds the union at the lowest scale.
pub open spec fn bottomed(a: Shape, b: Shape, after: Shape) -> bool {
    &&& after.scale == MIN_SCALE
    &&& narrow_at(after.counts, common_level(a, b), after.level)
}

/// `after` holds the union at resolution `q`, with the narrowest counters that hold the sums.
pub open spec fn joined_at(a: Shape, b: Shape, q: int, after: Shape) -> bool {
    let k0 = common_level(a, b);
    ||| {
        &&& k0 <= after.level <= 6
        &&& after.scale == q - after.level
        &&& union_fits(a, b, q, after.level)
        &&& forall|k: nat| k0 <= k < after.level ==> !#[trigger] union_fits(a, b, q, k)
    }
    ||| {
        &&& bottomed(a, b, after)
        &&& forall|k: nat| k0 <= k <= 6 ==> !#[trigger] union_fits(a, b, q, k)
    }
}

/// `after` holds the union of the buckets of `a` and `b` in `n` words.
///
/// At the highest resolution at which all words fit, the counters are the narrowest that hold
/// the sums, no narrower than either input's, and the scale follows from the width. At the
/// lowest scale the counters widen alone.
pub open spec fn joined(a: Shape, b: Shape, n: int, after: Shape) -> bool {
    &&& MIN_SCALE <= after.scale <= a.scale
    &&& after.scale <= b.scale
    &&& after.counts == union_at(a, b, after.scale)
    &&& if a.scale == MIN_SCALE || b.scale == MIN_SCALE {
        bottomed(a, b, after)
    } else {
        exists|q: int| #[trigger] fitting_resolution(a, b, n, q) && joined_at(a, b, q, after)
    }
}

/// The word at position 0 of the ring after a merge above the lowest scale. The ring of `a`, with
/// word `base` there, is kept; where `a` is empty the ring starts with the first word of `b`.
pub open spec fn rebased(a: Shape, base: int, b: Shape, n: int, after: Shape, rebase: int) -> bool {
    let q = resolution(after);
    a.scale > MIN_SCALE && b.scale > MIN_SCALE && fitting_resolution(a, b, n, q) && union_fits(
        a,
        b,
        q,
        after.level,
    ) ==> rebase == if a.counts == no_counts() {
        first_word(b, q)
    } else {
        base / pow2((resolution(a) - q) as nat) as int
    }
}

/// The window starts and ends with the words of the lowest and highest bucket with a count.
pub open spec fn is_tight<const N: usize>(w: Window<N>) -> bool {
    forall|lo: int, hi: int|
        #![trigger is_lowest(w.counts(), lo), is_highest(w.counts(), hi)]
        is_lowest(w.counts(), lo) && is_highest(w.counts(), hi) ==> w.start == word_of(
            lo,
            w.width.level(),
        ) && w.end == word_of(hi, w.width.level())
}

/// The shape of a window at a scale.
pub open spec fn shape<const N: usize>(w: Window<N>, scale: int) -> Shape {
    Shape { counts: w.counts(), scale, level: w.width.level() }
}

/// The union at the lowest scale, for windows whose buckets all fall there into -1 and 0.
fn merge_at_bottom<const N: usize, const M: usize>(
    a: &Window<N>,
    sa: i32,
    b: &Window<M>,
    sb: i32,
) -> (r: Window<N>)
    requires
        2 <= N <= 250,
        a.wf(),
        b.wf(),
        MIN_SCALE <= sa <= 8,
        MIN_SCALE <= sb <= 8,
        in_room(a.counts(), (sa - MIN_SCALE) as nat),
        in_room(b.counts(), (sb - MIN_SCALE) as nat),
        total(a.counts(), bottom(), top()) + total(b.counts(), bottom(), top()) <= u64::MAX,
    ensures
        r.wf(),
        r.start == -1,
        r.end == 0,
        r.counts() == union_at(shape(*a, sa as int), shape(*b, sb as int), MIN_SCALE as int),
        bottomed(shape(*a, sa as int), shape(*b, sb as int), shape(r, MIN_SCALE as int)),
{
    let (a_below, a_above) = sides(a);
    let (b_below, b_above) = sides(b);
    proof {
        crate::counts::lemma_total_split(a.counts(), bottom(), 0, top());
        crate::counts::lemma_total_split(b.counts(), bottom(), 0, top());
    }
    let width = a.width.wider_of(b.width);
    let r = bottom_window::<N>(a_below + b_below, a_above + b_above, width);
    proof {
        let f = at_scale(shape(*a, sa as int), MIN_SCALE as int);
        let g = at_scale(shape(*b, sb as int), MIN_SCALE as int);
        crate::settle::lemma_at_bottom(a.counts(), (sa - MIN_SCALE) as nat);
        crate::settle::lemma_at_bottom(b.counts(), (sb - MIN_SCALE) as nat);
        assert forall|i: int| #[trigger] r.counts()(i) == both(f, g)(i) by {
            if i != -1 && i != 0 {
                assert(r.counts()(i) == 0);
                assert(f(i) == 0 && g(i) == 0);
            }
        }
        assert(r.counts() =~= both(f, g));
    }
    r
}

/// A window brought to resolution `q` from resolution `q + change`.
proof fn lemma_lowered<const N: usize>(before: Window<N>, after: Window<N>, scale: int, change: nat, d: nat)
    requires
        before.wf(),
        after.wf(),
        is_tight(before),
        before.counts() != no_counts(),
        is_drop(before.counts(), before.width.level(), change, d),
        after.width.level() == before.width.level() + d - change,
        after.start == before.start as int / pow2(change) as int,
        after.end == before.end as int / pow2(change) as int,
        after.counts() == coarsen(before.counts(), d),
    ensures
        is_tight(after),
        after.counts() != no_counts(),
        after.start == first_word(shape(before, scale), scale + before.width.level() - change),
        after.end == last_word(shape(before, scale), scale + before.width.level() - change),
{
    before.lemma_support();
    let c = before.counts();
    let k0 = before.width.level();
    let (lo, hi) = lemma_extremes(c);
    crate::histogram::lemma_coarser_extremes(c, d, lo, hi);
    let l = lo / pow2(d) as int;
    let m = hi / pow2(d) as int;
    crate::settle::lemma_slot_word(lo, k0, change, d);
    crate::settle::lemma_slot_word(hi, k0, change, d);
    assert(after.counts()(l) != no_counts()(l));
    assert forall|x: int, y: int|
        #![trigger is_lowest(after.counts(), x), is_highest(after.counts(), y)]
        is_lowest(after.counts(), x) && is_highest(after.counts(), y) implies after.start == word_of(
        x,
        after.width.level(),
    ) && after.end == word_of(y, after.width.level()) by {
        lemma_lowest_unique(after.counts(), x);
        lemma_lowest_unique(after.counts(), l);
        lemma_highest_unique(after.counts(), y);
        lemma_highest_unique(after.counts(), m);
    }
}

/// A window widened by `j` levels keeps its words.
proof fn lemma_widened_tight<const N: usize>(before: Window<N>, after: Window<N>, j: nat)
    requires
        before.wf(),
        after.wf(),
        is_tight(before),
        before.counts() != no_counts(),
        after.width.level() == before.width.level() + j,
        after.start == before.start,
        after.end == before.end,
        after.counts() == coarsen(before.counts(), j),
    ensures
        is_tight(after),
        after.counts() != no_counts(),
{
    before.lemma_support();
    let c = before.counts();
    let k0 = before.width.level();
    let (lo, hi) = lemma_extremes(c);
    crate::histogram::lemma_coarser_extremes(c, j, lo, hi);
    let l = lo / pow2(j) as int;
    let m = hi / pow2(j) as int;
    lemma2_to64();
    crate::settle::lemma_slot_word(lo, k0, 0, j);
    crate::settle::lemma_slot_word(hi, k0, 0, j);
    assert(after.counts()(l) != no_counts()(l));
    assert forall|x: int, y: int|
        #![trigger is_lowest(after.counts(), x), is_highest(after.counts(), y)]
        is_lowest(after.counts(), x) && is_highest(after.counts(), y) implies after.start == word_of(
        x,
        after.width.level(),
    ) && after.end == word_of(y, after.width.level()) by {
        lemma_lowest_unique(after.counts(), x);
        lemma_lowest_unique(after.counts(), l);
        lemma_highest_unique(after.counts(), y);
        lemma_highest_unique(after.counts(), m);
    }
}

/// The union of two tight windows, over the hull of their words, is tight.
proof fn lemma_union_tight<const N: usize, const M: usize>(a: Window<N>, b: Window<M>, r: Window<N>)
    requires
        a.wf(),
        b.wf(),
        r.wf(),
        is_tight(b),
        b.counts() != no_counts(),
        a.counts() != no_counts() ==> is_tight(a),
        a.width == b.width,
        r.width == a.width,
        r.counts() == both(a.counts(), b.counts()),
        a.counts() == no_counts() ==> r.start == b.start && r.end == b.end,
        a.counts() != no_counts() ==> r.start == (if a.start <= b.start {
            a.start
        } else {
            b.start
        }) && r.end == (if a.end >= b.end {
            a.end
        } else {
            b.end
        }),
    ensures
        is_tight(r),
        r.counts() != no_counts(),
{
    let k = a.width.level();
    a.lemma_support();
    b.lemma_support();
    let h = r.counts();
    lemma_lanes(k);
    let (bl, bh) = lemma_extremes(b.counts());
    assert(h(bl) != no_counts()(bl));
    if a.counts() == no_counts() {
        assert(h =~= b.counts());
    } else {
        let (al, ah) = lemma_extremes(a.counts());
        let lo = if al <= bl {
            al
        } else {
            bl
        };
        let hi = if ah >= bh {
            ah
        } else {
            bh
        };
        assert forall|j: int| j < lo implies #[trigger] h(j) == 0 by {
            assert(a.counts()(j) == 0 && b.counts()(j) == 0);
        }
        assert forall|j: int| j > hi implies #[trigger] h(j) == 0 by {
            assert(a.counts()(j) == 0 && b.counts()(j) == 0);
        }
        assert(is_lowest(h, lo) && is_highest(h, hi));
        crate::arith::lemma_div_mono(lo, al, lanes(k));
        crate::arith::lemma_div_mono(lo, bl, lanes(k));
        crate::arith::lemma_div_mono(ah, hi, lanes(k));
        crate::arith::lemma_div_mono(bh, hi, lanes(k));
        assert forall|x: int, y: int|
            #![trigger is_lowest(h, x), is_highest(h, y)]
            is_lowest(h, x) && is_highest(h, y) implies r.start == word_of(x, k) && r.end == word_of(y, k) by {
            lemma_lowest_unique(h, x);
            lemma_lowest_unique(h, lo);
            lemma_highest_unique(h, y);
            lemma_highest_unique(h, hi);
        }
    }
}

/// The windows hold the buckets of `a` and `b` at resolution `q`, and no narrower counters, from
/// the common level of `a` and `b` up, hold the union.
spec fn aligned_at<const N: usize, const M: usize>(
    wa: Window<N>,
    wb: Window<M>,
    a: Shape,
    b: Shape,
    q: int,
) -> bool {
    &&& wa.wf()
    &&& wb.wf()
    &&& wa.width == wb.width
    &&& q <= common_resolution(a, b)
    &&& common_level(a, b) <= wa.width.level()
    &&& wa.counts() == at_scale(a, q - wa.width.level())
    &&& wb.counts() == at_scale(b, q - wa.width.level())
    &&& is_tight(wb)
    &&& wb.counts() != no_counts()
    &&& a.counts != no_counts() ==> is_tight(wa) && wa.counts() != no_counts()
    &&& a.counts == no_counts() ==> wa.counts() == no_counts()
    &&& forall|k: nat|
        common_level(a, b) <= k < wa.width.level() ==> !at_most(
            #[trigger] union_at(a, b, q - k),
            capacity(k),
        )
}

/// Widens two aligned windows until the sums fit. Returns false if the scale would have to drop
/// below the lowest one.
fn widen_until_fit<const N: usize, const M: usize>(
    wa: &mut Window<N>,
    wb: &mut Window<M>,
    q: i32,
    a: Ghost<Shape>,
    b: Ghost<Shape>,
) -> (r: bool)
    requires
        aligned_at(*old(wa), *old(wb), a@, b@, q as int),
        -100 <= q <= 100,
        total(old(wa).counts(), bottom(), top()) + total(old(wb).counts(), bottom(), top())
            <= u64::MAX,
    ensures
        r ==> {
            &&& aligned_at(*final(wa), *final(wb), a@, b@, q as int)
            &&& final(wa).base == old(wa).base
            &&& final(wa).start == old(wa).start
            &&& final(wa).end == old(wa).end
            &&& final(wb).start == old(wb).start
            &&& final(wb).end == old(wb).end
            &&& union_fits(a@, b@, q as int, final(wa).width.level())
        },
        !r ==> forall|k: nat|
            common_level(a@, b@) <= k <= 6 ==> !#[trigger] union_fits(a@, b@, q as int, k),
{
    let ghost sum = total(wa.counts(), bottom(), top()) + total(wb.counts(), bottom(), top());
    loop
        invariant
            aligned_at(*wa, *wb, a@, b@, q as int),
            -100 <= q <= 100,
            total(wa.counts(), bottom(), top()) + total(wb.counts(), bottom(), top()) == sum,
            sum <= u64::MAX,
            wa.base == old(wa).base,
            wa.start == old(wa).start,
            wa.end == old(wa).end,
            wb.start == old(wb).start,
            wb.end == old(wb).end,
        decreases 6 - wa.width.level(),
    {
        let ghost k = wa.width.level();
        let level: i32 = wa.width.log2() as i32;
        if q - level < MIN_SCALE {
            proof {
                assert forall|j: nat| common_level(a@, b@) <= j <= 6 implies !#[trigger] union_fits(
                    a@,
                    b@,
                    q as int,
                    j,
                ) by {
                    if j < k {
                        assert(!at_most(union_at(a@, b@, q - j), capacity(j)));
                    }
                }
            }
            return false;
        }
        if sums_fit(wa, wb) {
            return true;
        }
        proof {
            assert(!at_most(union_at(a@, b@, q - k), capacity(k)));
            wa.lemma_support();
            wb.lemma_support();
            lemma_union_bounded(wa.counts(), wb.counts());
            lemma_coarsen_bounded(wa.counts(), 1);
            lemma_coarsen_bounded(wb.counts(), 1);
            lemma_coarsen_twice(a@.counts, (a@.scale - (q - k)) as nat, 1);
            lemma_coarsen_twice(b@.counts, (b@.scale - (q - k)) as nat, 1);
        }
        let ghost wa0 = *wa;
        let ghost wb0 = *wb;
        wa.widen_by(1);
        wb.widen_by(1);
        proof {
            lemma_widened_tight(wb0, *wb, 1);
            if a@.counts != no_counts() {
                lemma_widened_tight(wa0, *wa, 1);
            } else {
                lemma_coarsen_none(1);
            }
            lemma_same_width(*wa, *wb);
            assert forall|j: nat| common_level(a@, b@) <= j < wa.width.level() implies !at_most(
                #[trigger] union_at(a@, b@, q - j),
                capacity(j),
            ) by {}
        }
    }
}

/// Widths of one level are equal.
proof fn lemma_same_width<const N: usize, const M: usize>(a: Window<N>, b: Window<M>)
    requires
        a.width.level() == b.width.level(),
    ensures
        a.width == b.width,
{
}

/// A union is bounded by the sum of the totals.
proof fn lemma_union_bounded(f: Counts, g: Counts)
    requires
        within(f, -reach(), reach()),
        within(g, -reach(), reach()),
    ensures
        at_most(both(f, g), total(f, bottom(), top()) + total(g, bottom(), top())),
{
    assert forall|i: int| #[trigger] both(f, g)(i) <= total(f, bottom(), top()) + total(
        g,
        bottom(),
        top(),
    ) by {
        if f(i) != 0 {
            lemma_total_member(f, bottom(), top(), i);
        }
        if g(i) != 0 {
            lemma_total_member(g, bottom(), top(), i);
        }
    }
}

/// A part that does not fit makes the union not fit.
proof fn lemma_part_too_heavy(a: Shape, b: Shape, s: int, k: nat)
    requires
        !at_most(at_scale(a, s), capacity(k)) || !at_most(at_scale(b, s), capacity(k)),
    ensures
        !at_most(union_at(a, b, s), capacity(k)),
{
    if at_most(union_at(a, b, s), capacity(k)) {
        assert forall|i: int| #[trigger] at_scale(a, s)(i) <= capacity(k) by {
            assert(union_at(a, b, s)(i) <= capacity(k));
        }
        assert forall|i: int| #[trigger] at_scale(b, s)(i) <= capacity(k) by {
            assert(union_at(a, b, s)(i) <= capacity(k));
        }
    }
}

/// Brings a copy of a window to a lower resolution.
fn lowered<const N: usize>(w: &Window<N>, change: u32, scale: Ghost<int>) -> (r: Window<N>)
    requires
        w.wf(),
        is_tight(*w),
        w.counts() != no_counts(),
        change <= 56,
        total(w.counts(), bottom(), top()) <= u64::MAX,
    ensures
        r.wf(),
        is_tight(r),
        r.counts() != no_counts(),
        r.width.level() >= w.width.level(),
        r.base == w.base as int / pow2(change as nat) as int,
        ({
            let q = scale@ + w.width.level() - change;
            &&& r.counts() == at_scale(shape(*w, scale@), q - r.width.level())
            &&& r.start == first_word(shape(*w, scale@), q)
            &&& r.end == last_word(shape(*w, scale@), q)
            &&& forall|k: nat|
                w.width.level() <= k < r.width.level() ==> !at_most(
                    #[trigger] at_scale(shape(*w, scale@), q - k),
                    capacity(k),
                )
        }),
{
    let mut r = *w;
    let d = r.do_downscale(change);
    proof {
        lemma_lowered(*w, r, scale@, change as nat, d as nat);
        let q = scale@ + w.width.level() - change;
        assert(scale@ - (q - r.width.level()) == d);
        assert forall|k: nat| w.width.level() <= k < r.width.level() implies !at_most(
            #[trigger] at_scale(shape(*w, scale@), q - k),
            capacity(k),
        ) by {
            let e = (change + k - w.width.level()) as nat;
            assert((scale@ - (q - k)) as nat == e);
            assert(!drop_fits(w.counts(), w.width.level(), change as nat, e));
        }
    }
    r
}

/// Extends a window over the words `start..=end`.
fn cover<const N: usize>(w: &mut Window<N>, start: i32, end: i32)
    requires
        old(w).wf(),
        start <= end,
        -reach() <= start,
        end < reach(),
        -reach() <= first_slot(start as int, old(w).width.level()),
        first_slot(end + 1, old(w).width.level()) <= reach(),
        end - old(w).start < N,
        old(w).end - start < N,
        end - start < N,
    ensures
        final(w).wf(),
        final(w).width == old(w).width,
        final(w).base == old(w).base,
        final(w).counts() == old(w).counts(),
        final(w).start == if start < old(w).start {
            start
        } else {
            old(w).start
        },
        final(w).end == if end > old(w).end {
            end
        } else {
            old(w).end
        },
{
    proof {
        crate::width::lemma_first_slot_mono(start + 1, end + 1, w.width.level());
        crate::width::lemma_first_slot_mono(start as int, end as int, w.width.level());
    }
    w.extend_to(start);
    w.extend_to(end);
}

/// The highest common resolution at which the words of two windows fit together.
fn find_resolution<const N: usize, const M: usize>(
    a: &Window<N>,
    sa: i32,
    b: &Window<M>,
    sb: i32,
    a_empty: bool,
) -> (q: i32)
    requires
        2 <= N <= 250,
        a.wf(),
        b.wf(),
        MIN_SCALE < sa <= 8,
        MIN_SCALE < sb <= 8,
        b.counts() != no_counts(),
        a_empty <==> a.counts() == no_counts(),
        !a_empty ==> is_tight(*a),
        is_tight(*b),
    ensures
        fitting_resolution(shape(*a, sa as int), shape(*b, sb as int), N as int, q as int),
        -41 <= q <= 14,
{
    let ghost ga = shape(*a, sa as int);
    let ghost gb = shape(*b, sb as int);
    let qa: i32 = sa + a.width.log2() as i32;
    let qb: i32 = sb + b.width.log2() as i32;
    let m: i32 = if qa <= qb {
        qa
    } else {
        qb
    };
    proof {
        a.lemma_support();
        b.lemma_support();
        let (bl, bh) = lemma_extremes(b.counts());
        if !a_empty {
            let (al, ah) = lemma_extremes(a.counts());
        }
        lemma_pow2_pos((qb - m) as nat);
        lemma_pow2_pos((qa - m) as nat);
        crate::arith::lemma_div_mono(b.start as int, b.end as int, pow2((qb - m) as nat) as int);
        crate::arith::lemma_div_mono(a.start as int, a.end as int, pow2((qa - m) as nat) as int);
    }
    let mut range = HighLow {
        low: crate::arith::shr(b.start, (qb - m) as u32),
        high: crate::arith::shr(b.end, (qb - m) as u32),
    };
    if !a_empty {
        range =
        range.merge(
            HighLow {
                low: crate::arith::shr(a.start, (qa - m) as u32),
                high: crate::arith::shr(a.end, (qa - m) as u32),
            },
        );
    }
    proof {
        assert(range.low == union_first(ga, gb, m as int));
        assert(range.high == union_last(ga, gb, m as int));
    }
    let extra = range.change_steps(N);
    m - extra as i32
}

/// Copies of two windows at resolution `q` with counters of one width.
fn align<const N: usize, const M: usize>(
    a: &Window<N>,
    sa: i32,
    b: &Window<M>,
    sb: i32,
    a_empty: bool,
    q: i32,
) -> (r: (Window<N>, Window<M>))
    requires
        2 <= N <= 250,
        a.wf(),
        b.wf(),
        MIN_SCALE < sa <= 8,
        MIN_SCALE < sb <= 8,
        total(a.counts(), bottom(), top()) <= u64::MAX,
        total(b.counts(), bottom(), top()) <= u64::MAX,
        b.counts() != no_counts(),
        a_empty <==> a.counts() == no_counts(),
        !a_empty ==> is_tight(*a),
        is_tight(*b),
        -41 <= q <= common_resolution(shape(*a, sa as int), shape(*b, sb as int)),
        last_word(shape(*b, sb as int), q as int) - first_word(shape(*b, sb as int), q as int) < N,
    ensures
        aligned_at(r.0, r.1, shape(*a, sa as int), shape(*b, sb as int), q as int),
        r.1.start == first_word(shape(*b, sb as int), q as int),
        r.1.end == last_word(shape(*b, sb as int), q as int),
        a_empty ==> r.0.start == r.1.start && r.0.end == r.1.end && r.0.base == r.1.start,
        !a_empty ==> r.0.base == a.base as int / pow2((sa + a.width.level() - q) as nat) as int,
        !a_empty ==> r.0.start == first_word(shape(*a, sa as int), q as int) && r.0.end == last_word(
            shape(*a, sa as int),
            q as int,
        ),
{
    let ghost ga = shape(*a, sa as int);
    let ghost gb = shape(*b, sb as int);
    let qa: i32 = sa + a.width.log2() as i32;
    let qb: i32 = sb + b.width.log2() as i32;
    let mut wb = lowered(b, (qb - q) as u32, Ghost(sb as int));
    let ghost wb0 = wb;
    if a_empty {
        let j = a.width.subtract(wb.width);
        wb.widen_by(j);
        let wa = Window::spanning(wb.width, wb.start, wb.end);
        proof {
            lemma_widened_tight(wb0, wb, j as nat);
            lemma_coarsen_twice(b.counts(), (sb - (q - wb0.width.level())) as nat, j as nat);
            lemma_coarsen_none((sa - (q - wb.width.level())) as nat);
            assert forall|k: nat| common_level(ga, gb) <= k < wa.width.level() implies !at_most(
                #[trigger] union_at(ga, gb, q - k),
                capacity(k),
            ) by {
                assert(!at_most(at_scale(gb, q - k), capacity(k)));
                lemma_part_too_heavy(ga, gb, q - k, k);
            }
        }
        return (wa, wb);
    }
    let mut wa = lowered(a, (qa - q) as u32, Ghost(sa as int));
    let ghost wa0 = wa;
    let ja = wb.width.subtract(wa.width);
    let jb = wa.width.subtract(wb.width);
    wa.widen_by(ja);
    wb.widen_by(jb);
    proof {
        lemma_widened_tight(wa0, wa, ja as nat);
        lemma_widened_tight(wb0, wb, jb as nat);
        lemma_coarsen_twice(a.counts(), (sa - (q - wa0.width.level())) as nat, ja as nat);
        lemma_coarsen_twice(b.counts(), (sb - (q - wb0.width.level())) as nat, jb as nat);
        lemma_same_width(wa, wb);
        assert forall|k: nat| common_level(ga, gb) <= k < wa.width.level() implies !at_most(
            #[trigger] union_at(ga, gb, q - k),
            capacity(k),
        ) by {
            if k < wa0.width.level() {
                assert(!at_most(at_scale(ga, q - k), capacity(k)));
            } else {
                assert(!at_most(at_scale(gb, q - k), capacity(k)));
            }
            lemma_part_too_heavy(ga, gb, q - k, k);
        }
    }
    (wa, wb)
}

/// Merges two windows at scales `sa` and `sb`, and returns the result with its scale.
pub fn merge_windows<const N: usize, const M: usize>(
    a: &Window<N>,
    sa: i32,
    b: &Window<M>,
    sb: i32,
) -> (r: (Window<N>, i32))
    requires
        2 <= N <= 250,
        a.wf(),
        b.wf(),
        MIN_SCALE <= sa <= 8,
        MIN_SCALE <= sb <= 8,
        in_room(a.counts(), (sa - MIN_SCALE) as nat),
        in_room(b.counts(), (sb - MIN_SCALE) as nat),
        total(a.counts(), bottom(), top()) + total(b.counts(), bottom(), top()) <= u64::MAX,
        b.counts() != no_counts(),
        a.counts() != no_counts() && sa > MIN_SCALE ==> is_tight(*a),
        sb > MIN_SCALE ==> is_tight(*b),
    ensures
        r.0.wf(),
        joined(
            shape(*a, sa as int),
            shape(*b, sb as int),
            N as int,
            shape(r.0, r.1 as int),
        ),
        rebased(
            shape(*a, sa as int),
            a.base as int,
            shape(*b, sb as int),
            N as int,
            shape(r.0, r.1 as int),
            r.0.base as int,
        ),
        is_tight(r.0) || (r.0.start == -1 && r.0.end == 0 && r.1 == MIN_SCALE),
{
    let ghost ga = shape(*a, sa as int);
    let ghost gb = shape(*b, sb as int);
    if sa == MIN_SCALE || sb == MIN_SCALE {
        return (merge_at_bottom(a, sa, b, sb), MIN_SCALE);
    }
    let a_empty = a.lowest().is_none();
    let q = find_resolution(a, sa, b, sb, a_empty);
    proof {
        a.lemma_support();
        b.lemma_support();
        let m = common_resolution(ga, gb);
        lemma_lower_words(ga, m, q as int);
        lemma_lower_words(gb, m, q as int);
        lemma_union_span(ga, gb, m, q as int, N as int);
    }
    let (mut wa, mut wb) = align(a, sa, b, sb, a_empty, q);
    proof {
        lemma_coarsen_bounded(a.counts(), (sa - (q - wa.width.level())) as nat);
        lemma_coarsen_bounded(b.counts(), (sb - (q - wa.width.level())) as nat);
    }
    if !widen_until_fit(&mut wa, &mut wb, q, Ghost(ga), Ghost(gb)) {
        let r = merge_at_bottom(a, sa, b, sb);
        proof {
            assert(joined_at(ga, gb, q as int, shape(r, MIN_SCALE as int)));
            lemma_one_resolution(ga, gb, N as int, q as int, MIN_SCALE + r.width.level());
        }
        return (r, MIN_SCALE);
    }
    let ghost wa1 = wa;
    cover(&mut wa, wb.start, wb.end);
    add_words(&mut wa, &wb);
    proof {
        lemma_union_tight(wa1, wb, wa);
        assert(joined_at(ga, gb, q as int, shape(wa, q - wa.width.level())));
        assert(resolution(shape(wa, q - wa.width.level())) == q);
    }
    (wa, q - wa.width.log2() as i32)
}

/// There is one highest common resolution.
proof fn lemma_one_resolution(a: Shape, b: Shape, n: int, q: int, r: int)
    requires
        fitting_resolution(a, b, n, q),
    ensures
        fitting_resolution(a, b, n, r) ==> r == q,
{
    if fitting_resolution(a, b, n, r) {
        let m = common_resolution(a, b);
        crate::layout::lemma_change_unique(
            union_first(a, b, m),
            union_last(a, b, m),
            n,
            (m - q) as nat,
            (m - r) as nat,
        );
    }
}

/// Words at a lower resolution.
proof fn lemma_lower_words(a: Shape, m: int, q: int)
    requires
        q <= m <= resolution(a),
    ensures
        first_word(a, q) == first_word(a, m) / pow2((m - q) as nat) as int,
        last_word(a, q) == last_word(a, m) / pow2((m - q) as nat) as int,
{
    crate::arith::lemma_shift_twice(
        word_of(lowest_of(a.counts), a.level),
        (resolution(a) - m) as nat,
        (m - q) as nat,
    );
    crate::arith::lemma_shift_twice(
        word_of(highest_of(a.counts), a.level),
        (resolution(a) - m) as nat,
        (m - q) as nat,
    );
}

/// At a fitting resolution all words of the union fit together.
proof fn lemma_union_span(a: Shape, b: Shape, m: int, q: int, n: int)
    requires
        m == common_resolution(a, b),
        fitting_resolution(a, b, n, q),
        first_word(a, q) == first_word(a, m) / pow2((m - q) as nat) as int,
        last_word(a, q) == last_word(a, m) / pow2((m - q) as nat) as int,
        first_word(b, q) == first_word(b, m) / pow2((m - q) as nat) as int,
        last_word(b, q) == last_word(b, m) / pow2((m - q) as nat) as int,
    ensures
        last_word(b, q) - first_word(b, q) < n,
        a.counts != no_counts() ==> last_word(a, q) - first_word(b, q) < n && last_word(b, q)
            - first_word(a, q) < n,
{
    let p = pow2((m - q) as nat) as int;
    lemma_pow2_pos((m - q) as nat);
    let lo = union_first(a, b, m);
    let hi = union_last(a, b, m);
    crate::arith::lemma_div_mono(lo, first_word(b, m), p);
    crate::arith::lemma_div_mono(last_word(b, m), hi, p);
    if a.counts != no_counts() {
        crate::arith::lemma_div_mono(lo, first_word(a, m), p);
        crate::arith::lemma_div_mono(last_word(a, m), hi, p);
    }
}

} // verus!
