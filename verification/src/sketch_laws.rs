//! Laws of the sketch: its buckets depend on what was recorded, not on the order or the grouping,
//! and above its floor they are exact.

use crate::arith::lemma_div_mono;
use crate::collapse::{aligned, fits, floor_slot, lemma_aligned_stable, lemma_floor_mono, narrowest};
use crate::counts::{
    bottom, both, folded, lemma_folded_both, lemma_folded_plus, lemma_folded_total,
    lemma_folded_twice, lemma_total_both, lemma_total_le, lemma_total_member, lemma_total_plus,
    lemma_total_wider, lemma_total_zero, no_counts, plus, top, total, within, Counts,
};
use crate::sketch::{
    higher_floor, is_peak, lemma_find_peak, lemma_peak, merge_outcome, merged, peak, placed,
    recorded, Sketch,
};
use crate::sketch_view::{locates, Rank};
use crate::width::{
    capacity, first_slot, in_range, lanes, lemma_first_slot_mono, lemma_lanes, lemma_level_for,
    lemma_word_of, word_of,
};
use vstd::arithmetic::power2::pow2;
use vstd::prelude::*;

verus! {

/// The sketch holds the distribution `h` as well as its pool allows: at the narrowest width that
/// fits, with the words up to the highest bucket, and everything below folded into the floor.
pub open spec fn holds<const N: usize>(s: Sketch<N>, h: Counts) -> bool {
    let high = peak(h, bottom());
    let floor = floor_slot(high, s.level(), N as int, bottom());
    &&& s.live() > 0
    &&& h(high) != 0
    &&& within(h, -0x10_0000, 0x10_0000)
    &&& narrowest(h, high, N as int, bottom(), s.min_level(), s.level())
    &&& s.counts() == folded(h, floor)
    &&& s.has_collapsed() <==> total(h, bottom(), floor) > 0
    &&& s.has_collapsed() ==> s.low() == floor
    &&& s.last_word() == word_of(high, s.level())
}

/// What fits with more counts and a higher floor fits with fewer and a lower one.
proof fn lemma_fits_less(h: Counts, h2: Counts, floor: int, floor2: int, k: nat)
    requires
        forall|i: int| #[trigger] h(i) <= h2(i),
        bottom() <= floor <= floor2,
        fits(h2, floor2, k),
    ensures
        fits(h, floor, k),
{
    lemma_total_le(h, h2, bottom(), floor + 1);
    lemma_total_wider(h2, bottom(), floor + 1, bottom(), floor2 + 1);
    assert forall|i: int| i > floor implies #[trigger] h(i) <= capacity(k) by {
        assert(h(i) <= h2(i));
        if i <= floor2 {
            lemma_total_member(h2, bottom(), floor2 + 1, i);
        }
    }
}

/// A higher top never lowers the floor.
proof fn lemma_floor_higher(high: int, high2: int, k: nat, n: int, keep: int)
    requires
        high <= high2,
        k <= 6,
    ensures
        floor_slot(high, k, n, keep) <= floor_slot(high2, k, n, keep),
{
    lemma_lanes(k);
    lemma_div_mono(high, high2, lanes(k));
    lemma_first_slot_mono(word_of(high, k) - (n - 1), word_of(high2, k) - (n - 1), k);
}

/// Bounds on the floor of a bucket in range.
proof fn lemma_floor_bounds(high: int, k: nat, n: int)
    requires
        in_range(high),
        k <= 6,
        1 <= n <= 250,
    ensures
        bottom() < floor_slot(high, k, n, bottom()) <= high,
        floor_slot(high, k, n, bottom()) == first_slot(word_of(high, k) - (n - 1), k),
{
    lemma_word_of(high, k);
    lemma_word_of(bottom(), k);
    lemma_lanes(k);
    crate::collapse::lemma_back_off(word_of(high, k), n - 1, k);
    let d = lanes(k);
    assert(0 <= (n - 1) * d <= 249 * 64) by (nonlinear_arith)
        requires
            1 <= n <= 250,
            1 <= d <= 64,
    ;
}

/// A floor that an earlier, lower top set does not matter for a later one.
proof fn lemma_old_floor(high: int, k: nat, high2: int, j: nat, n: int, keep: int)
    requires
        in_range(high),
        in_range(high2),
        high <= high2,
        k <= j <= 6,
        1 <= n <= 250,
        keep == bottom() || keep == floor_slot(high, k, n, bottom()),
    ensures
        floor_slot(high2, j, n, keep) == floor_slot(high2, j, n, bottom()),
        floor_slot(high, k, n, bottom()) <= floor_slot(high2, j, n, bottom()),
{
    lemma_floor_bounds(high, k, n);
    lemma_floor_bounds(high2, j, n);
    lemma_floor_mono(high, n, bottom(), k, j);
    lemma_floor_higher(high, high2, j, n, bottom());
    lemma_aligned_stable(word_of(high, k) - (n - 1), k, j);
}

/// The peak of a distribution with counts in range.
proof fn lemma_peak_of(h: Counts)
    requires
        within(h, -0x10_0000, 0x10_0000),
    ensures
        is_peak(h, bottom(), peak(h, bottom())),
        h(peak(h, bottom())) != 0 ==> in_range(peak(h, bottom())),
{
    let p = lemma_find_peak(h, bottom(), 0x10_0000);
    lemma_peak(h, bottom(), p);
}

/// Folding keeps the highest bucket.
proof fn lemma_folded_peak(h: Counts, floor: int, slot: int)
    requires
        within(h, -0x10_0000, 0x10_0000),
        h(peak(h, bottom())) != 0,
        bottom() <= floor <= peak(h, bottom()),
        bottom() <= slot,
    ensures
        peak(folded(h, floor), slot) == if slot > peak(h, bottom()) {
            slot
        } else {
            peak(h, bottom())
        },
        folded(h, floor)(peak(h, bottom())) != 0,
{
    let p = peak(h, bottom());
    lemma_peak_of(h);
    lemma_total_member(h, bottom(), p + 1, p);
    let q = if slot > p {
        slot
    } else {
        p
    };
    assert forall|j: int| j > q implies #[trigger] folded(h, floor)(j) == 0 by {
        assert(h(j) == 0);
    }
    assert(is_peak(folded(h, floor), slot, q));
    lemma_peak(folded(h, floor), slot, q);
}

/// The first recording leaves a sketch that holds it.
pub proof fn law_first_recording<const N: usize>(
    before: Sketch<N>,
    after: Sketch<N>,
    slot: int,
    incr: nat,
)
    requires
        before.buckets_wf(),
        before.live() == 0,
        in_range(slot),
        0 < incr <= u64::MAX,
        placed(before, after, slot, incr),
    ensures
        holds(after, plus(no_counts(), slot, incr)),
{
    before.lemma_wf();
    let h = plus(no_counts(), slot, incr);
    assert(is_peak(h, bottom(), slot));
    lemma_peak(h, bottom(), slot);
    let k = after.level();
    assert forall|j: nat| j <= 6 implies (#[trigger] fits(
        h,
        floor_slot(slot, j, N as int, bottom()),
        j,
    ) <==> incr <= capacity(j)) by {
        let f = floor_slot(slot, j, N as int, bottom());
        lemma_floor_bounds(slot, j, N as int);
        lemma_total_plus(no_counts(), slot, incr, bottom(), f + 1);
        lemma_total_zero(no_counts(), bottom(), f + 1);
        if f < slot {
            assert(h(slot) == incr);
        }
    }
    lemma_level_for(incr, before.min_level());
    assert forall|j: nat| before.min_level() <= j < k implies !#[trigger] fits(
        h,
        floor_slot(slot, j, N as int, bottom()),
        j,
    ) by {
        lemma_level_for(incr, j);
    }
    lemma_level_for(incr, k);
    let f = floor_slot(slot, k, N as int, bottom());
    lemma_floor_bounds(slot, k, N as int);
    assert forall|i: int| bottom() <= i < f implies #[trigger] h(i) == 0 by {}
    lemma_total_zero(h, bottom(), f);
    assert(within(h, f, slot + 1));
    crate::counts::lemma_folded_none(h, f, slot + 1);
}

/// A further recording leaves a sketch that holds it together with everything before.
///
/// With [`law_first_recording`] and [`law_same_distribution`]: the order in which values are
/// recorded makes no difference to the width, the buckets or the underflow placeholder.
pub proof fn law_recording<const N: usize>(
    before: Sketch<N>,
    after: Sketch<N>,
    h: Counts,
    slot: int,
    incr: nat,
)
    requires
        before.buckets_wf(),
        holds(before, h),
        in_range(slot),
        0 < incr,
        placed(before, after, slot, incr),
    ensures
        holds(after, plus(h, slot, incr)),
{
    before.lemma_wf();
    let n = N as int;
    let k = before.level();
    let k2 = after.level();
    let high = peak(h, bottom());
    let f = floor_slot(high, k, n, bottom());
    let h2 = plus(h, slot, incr);
    let g2 = plus(before.counts(), slot, incr);
    lemma_peak_of(h);
    lemma_floor_bounds(high, k, n);
    lemma_folded_peak(h, f, slot);
    let high2 = peak(before.counts(), slot);
    assert(is_peak(h2, bottom(), high2));
    lemma_peak(h2, bottom(), high2);
    let keep = before.kept_floor(slot);
    before.lemma_out_below(slot);
    assert(keep == bottom() || keep == f);
    // From the present width up, the floors agree and the folded counts fit like the full ones.
    assert forall|j: nat| k <= j <= 6 implies ({
        let floor = floor_slot(high2, j, n, bottom());
        &&& floor == #[trigger] floor_slot(high2, j, n, keep)
        &&& f <= floor
        &&& fits(g2, floor, j) <==> fits(h2, floor, j)
    }) by {
        lemma_old_floor(high, k, high2, j, n, keep);
        lemma_fits_folded(h, f, slot, incr, floor_slot(high2, j, n, bottom()), j);
    }
    let floor = floor_slot(high2, k2, n, bottom());
    assert(floor == floor_slot(high2, k2, n, keep));
    assert forall|j: nat| before.min_level() <= j < k2 implies !#[trigger] fits(
        h2,
        floor_slot(high2, j, n, bottom()),
        j,
    ) by {
        if j < k {
            assert(!fits(h, floor_slot(high, j, n, bottom()), j));
            lemma_floor_bounds(high, j, n);
            lemma_floor_higher(high, high2, j, n, bottom());
            if fits(h2, floor_slot(high2, j, n, bottom()), j) {
                lemma_fits_less(
                    h,
                    h2,
                    floor_slot(high, j, n, bottom()),
                    floor_slot(high2, j, n, bottom()),
                    j,
                );
            }
        } else {
            assert(!fits(g2, floor_slot(high2, j, n, keep), j));
        }
    }
    // The folded counts.
    lemma_folded_total(h, f, floor + 1);
    lemma_total_plus(h, slot, incr, bottom(), floor + 1);
    lemma_total_plus(before.counts(), slot, incr, bottom(), floor + 1);
    assert(folded(g2, floor) =~= folded(h2, floor));
    // The underflow placeholder.
    lemma_total_plus(h, slot, incr, bottom(), floor);
    lemma_total_plus(before.counts(), slot, incr, bottom(), floor);
    lemma_total_wider(h, bottom(), f, bottom(), floor);
    if f < floor {
        lemma_folded_total(h, f, floor);
    } else {
        lemma_total_zero(before.counts(), bottom(), floor);
    }
    lemma_lanes(k);
    lemma_div_mono(high, high2, lanes(k));
}

/// Folding below the floor changes nothing about what fits.
proof fn lemma_fits_folded(h: Counts, f: int, slot: int, incr: nat, floor: int, k: nat)
    requires
        bottom() <= f <= floor,
    ensures
        fits(plus(folded(h, f), slot, incr), floor, k) <==> fits(plus(h, slot, incr), floor, k),
{
    let a = plus(folded(h, f), slot, incr);
    let b = plus(h, slot, incr);
    lemma_folded_total(h, f, floor + 1);
    lemma_total_plus(h, slot, incr, bottom(), floor + 1);
    lemma_total_plus(folded(h, f), slot, incr, bottom(), floor + 1);
    assert forall|i: int| i > floor implies a(i) == #[trigger] b(i) by {}
    assert forall|i: int| i > floor implies #[trigger] a(i) == b(i) by {}
}

/// Two sketches of one pool size and minimum width that hold the same distribution agree in
/// everything they report about it.
pub proof fn law_same_distribution<const N: usize>(a: Sketch<N>, b: Sketch<N>, h: Counts)
    requires
        holds(a, h),
        holds(b, h),
        a.min_level() == b.min_level(),
    ensures
        a.level() == b.level(),
        a.counts() == b.counts(),
        a.has_collapsed() == b.has_collapsed(),
        a.own_floor() == b.own_floor(),
{
    let high = peak(h, bottom());
    lemma_narrowest_unique(h, high, N as int, bottom(), a.min_level(), a.level(), b.level());
}

/// There is one narrowest width.
proof fn lemma_narrowest_unique(h: Counts, high: int, n: int, keep: int, from: nat, a: nat, b: nat)
    requires
        narrowest(h, high, n, keep, from, a),
        narrowest(h, high, n, keep, from, b),
    ensures
        a == b,
{
    if a < b {
        assert(!fits(h, floor_slot(high, a, n, keep), a));
    } else if b < a {
        assert(!fits(h, floor_slot(high, b, n, keep), b));
    }
}

/// A sketch is accurate above its floor: every bucket there holds exactly what was recorded in
/// it, the highest bucket is among them or is the floor itself, and no count is lost.
pub proof fn law_accurate_window<const N: usize>(s: Sketch<N>, h: Counts)
    requires
        s.buckets_wf(),
        holds(s, h),
    ensures
        forall|i: int| i > s.own_floor() ==> s.counts()(i) == #[trigger] h(i),
        s.own_floor() <= peak(h, bottom()),
        s.live() == total(h, bottom(), top()),
        !s.has_collapsed() ==> s.counts() == h,
{
    s.lemma_wf();
    let high = peak(h, bottom());
    let floor = floor_slot(high, s.level(), N as int, bottom());
    lemma_peak_of(h);
    lemma_floor_bounds(high, s.level(), N as int);
    lemma_folded_total(h, floor, top());
    if !s.has_collapsed() {
        assert forall|i: int| #[trigger] h(i) != 0 implies floor <= i < 0x10_0000 by {
            if i < floor {
                lemma_total_member(h, bottom(), floor, i);
            }
        }
        crate::counts::lemma_folded_none(h, floor, 0x10_0000);
    }
}

/// A sketch keeps the top of its distribution: all buckets in the `N` words up to the one of the
/// highest bucket are exact, but for the lowest of them, which holds all that lies below as well.
/// It has collapsed exactly if something lies below. Its counters are the narrowest, no narrower
/// than the minimum, that hold this.
pub proof fn law_top_words<const N: usize>(s: Sketch<N>, h: Counts, high: int)
    requires
        s.buckets_wf(),
        holds(s, h),
        h(high) > 0,
        forall|j: int| j > high ==> #[trigger] h(j) == 0,
    ensures
        s.min_level() <= s.level() <= 6,
        ({
            let p = pow2((6 - s.level()) as nat) as int;
            let floor = (high / p - (N - 1)) * p;
            &&& forall|i: int| i > floor ==> #[trigger] s.counts()(i) == h(i)
            &&& s.counts()(floor) == total(h, bottom(), floor + 1)
            &&& forall|i: int| i < floor ==> #[trigger] s.counts()(i) == 0
            &&& s.has_collapsed() <==> exists|i: int| i < floor && #[trigger] h(i) > 0
            &&& s.last_word() == high / p
            &&& s.low() == s.first_word() * p
            &&& s.has_collapsed() ==> s.low() == floor
        }),
        forall|i: int| #[trigger] s.counts()(i) < pow2(pow2(s.level())),
        forall|j: nat|
            s.min_level() <= j < s.level() ==> {
                let p = pow2((6 - j) as nat) as int;
                let floor = (high / p - (N - 1)) * p;
                ||| total(h, bottom(), floor + 1) >= #[trigger] pow2(pow2(j))
                ||| exists|i: int| i > floor && #[trigger] h(i) >= pow2(pow2(j))
            },
{
    s.lemma_wf();
    let n = N as int;
    let k = s.level();
    assert(high >= -0x10_0000);
    assert(is_peak(h, bottom(), high));
    lemma_peak(h, bottom(), high);
    assert(in_range(high));
    lemma_floor_bounds(high, k, n);
    lemma_lanes(k);
    crate::scale_laws::lemma_capacity(k);
    let floor = floor_slot(high, k, n, bottom());
    assert forall|i: int| #[trigger] s.counts()(i) < pow2(pow2(k)) by {
        assert(s.counts()(i) <= capacity(k));
    }
    if total(h, bottom(), floor) > 0 {
        if forall|i: int| i < floor ==> #[trigger] h(i) == 0 {
            lemma_total_zero(h, bottom(), floor);
        }
    }
    assert forall|i: int| i < floor && #[trigger] h(i) > 0 implies total(h, bottom(), floor) > 0 by {
        lemma_total_member(h, bottom(), floor, i);
    }
    assert forall|j: nat| s.min_level() <= j < k implies {
        let p = pow2((6 - j) as nat) as int;
        let f = (high / p - (N - 1)) * p;
        ||| total(h, bottom(), f + 1) >= #[trigger] pow2(pow2(j))
        ||| exists|i: int| i > f && #[trigger] h(i) >= pow2(pow2(j))
    } by {
        lemma_floor_bounds(high, j, n);
        lemma_lanes(j);
        crate::scale_laws::lemma_capacity(j);
        let f = floor_slot(high, j, n, bottom());
        assert(!fits(h, f, j));
        if total(h, bottom(), f + 1) < pow2(pow2(j)) {
            let i = choose|i: int| i > f && !(#[trigger] h(i) <= capacity(j));
            assert(h(i) >= pow2(pow2(j)));
        }
    }
}

/// Zeros leave the buckets, the width and the underflow placeholder alone.
pub proof fn law_zeros_keep_buckets<const N: usize>(
    before: Sketch<N>,
    after: Sketch<N>,
    bits: u64,
    incr: u64,
    sum: u64,
)
    requires
        crate::float64::zero(bits),
        recorded(before, after, bits, incr, sum, Ok(())),
    ensures
        after.counts() == before.counts(),
        after.scale_of() == before.scale_of(),
        after.level() == before.level(),
        after.live() == before.live(),
        after.has_collapsed() == before.has_collapsed(),
        after.low() == before.low(),
{
    before.lemma_level();
    after.lemma_level();
}

/// A merge with a sketch of zeros alone leaves the buckets, the width and the underflow placeholder
/// alone.
pub proof fn law_zeros_merged<const N: usize, const M: usize>(
    before: Sketch<N>,
    other: Sketch<M>,
    after: Sketch<N>,
    sum: u64,
)
    requires
        other.live() == 0,
        merge_outcome(before, other, after, sum, Ok(())),
    ensures
        after.counts() == before.counts(),
        after.scale_of() == before.scale_of(),
        after.level() == before.level(),
        after.live() == before.live(),
        after.has_collapsed() == before.has_collapsed(),
        after.low() == before.low(),
{
    before.lemma_level();
    after.lemma_level();
}

/// Merging in either direction gives the same buckets.
pub proof fn law_merge_commutes<const N: usize>(
    a: Sketch<N>,
    b: Sketch<N>,
    ab: Sketch<N>,
    ba: Sketch<N>,
)
    requires
        merged(a, b, ab),
        merged(b, a, ba),
    ensures
        ab.level() == ba.level(),
        ab.counts() == ba.counts(),
        ab.has_collapsed() == ba.has_collapsed(),
        ab.low() == ba.low(),
        ab.live() == ba.live(),
{
    let h = both(a.counts(), b.counts());
    assert(both(b.counts(), a.counts()) =~= h);
    let high = peak(h, bottom());
    let keep = higher_floor(a.own_floor(), b.own_floor());
    let from = if a.level() >= b.level() {
        a.level()
    } else {
        b.level()
    };
    lemma_narrowest_unique(h, high, N as int, keep, from, ab.level(), ba.level());
}

/// A merge keeps the top of the union: with the highest bucket in the last of `N` words, all buckets
/// above the floor are exact sums, and the floor holds its own sum and all below. The floor is the
/// lowest bucket of these words or, where higher, the underflow placeholder of a sketch that had
/// collapsed. The counters are the narrowest, no narrower than either, that hold this.
pub proof fn law_merge_window<const N: usize, const M: usize>(
    before: Sketch<N>,
    other: Sketch<M>,
    after: Sketch<N>,
    high: int,
)
    requires
        before.buckets_wf(),
        other.buckets_wf(),
        merged(before, other, after),
        before.counts()(high) + other.counts()(high) > 0,
        forall|j: int| #![trigger before.counts()(j)] j > high ==> before.counts()(j) == 0,
        forall|j: int| #![trigger other.counts()(j)] j > high ==> other.counts()(j) == 0,
    ensures
        before.level() <= after.level() <= 6,
        other.level() <= after.level(),
        ({
            let h = both(before.counts(), other.counts());
            let p = pow2((6 - after.level()) as nat) as int;
            let low = (high / p - (N - 1)) * p;
            let mid = if before.has_collapsed() && before.low() > low {
                before.low()
            } else {
                low
            };
            let floor = if other.has_collapsed() && other.low() > mid {
                other.low()
            } else {
                mid
            };
            &&& forall|i: int| i > floor ==> #[trigger] after.counts()(i) == h(i)
            &&& after.counts()(floor) == total(h, bottom(), floor + 1)
            &&& forall|i: int| i < floor ==> #[trigger] after.counts()(i) == 0
            &&& after.has_collapsed() <==> before.has_collapsed() || other.has_collapsed() || exists|
                i: int,
            |
                i < floor && #[trigger] h(i) > 0
            &&& after.low() == floor
        }),
        forall|i: int| #[trigger] after.counts()(i) < pow2(pow2(after.level())),
        // Without a collapse before, no narrower counters would do.
        !before.has_collapsed() && !other.has_collapsed() ==> forall|j: nat|
            before.level() <= j < after.level() && other.level() <= j ==> {
                let p = pow2((6 - j) as nat) as int;
                let floor = (high / p - (N - 1)) * p;
                ||| total(both(before.counts(), other.counts()), bottom(), floor + 1)
                    >= #[trigger] pow2(pow2(j))
                ||| exists|i: int|
                    i > floor && before.counts()(i) + #[trigger] other.counts()(i) >= pow2(pow2(j))
            },
{
    before.lemma_wf();
    other.lemma_wf();
    let n = N as int;
    let h = both(before.counts(), other.counts());
    assert(h(high) > 0);
    assert(before.counts()(high) != 0 || other.counts()(high) != 0);
    assert(in_range(high));
    assert forall|j: int| j > high implies #[trigger] h(j) == 0 by {
        assert(before.counts()(j) == 0 && other.counts()(j) == 0);
    }
    assert(is_peak(h, bottom(), high));
    lemma_peak(h, bottom(), high);
    let k = after.level();
    lemma_lanes(k);
    lemma_floor_bounds(high, k, n);
    let keep = higher_floor(before.own_floor(), other.own_floor());
    before.lemma_low_aligned(k);
    other.lemma_low_aligned(k);
    let floor = floor_slot(high, k, n, keep);
    if total(h, bottom(), floor) > 0 {
        if forall|i: int| i < floor ==> #[trigger] h(i) == 0 {
            lemma_total_zero(h, bottom(), floor);
        }
    }
    assert forall|i: int| i < floor && #[trigger] h(i) > 0 implies total(h, bottom(), floor) > 0 by {
        assert(before.counts()(i) != 0 || other.counts()(i) != 0);
        lemma_total_member(h, bottom(), floor, i);
    }
    crate::scale_laws::lemma_capacity(k);
    assert(fits(h, floor, k));
    assert forall|i: int| #[trigger] after.counts()(i) < pow2(pow2(k)) by {
        if i > floor {
            assert(h(i) <= capacity(k));
        }
    }
    if !before.has_collapsed() && !other.has_collapsed() {
        assert forall|j: nat| before.level() <= j < k && other.level() <= j implies {
            let p = pow2((6 - j) as nat) as int;
            let f = (high / p - (N - 1)) * p;
            ||| total(h, bottom(), f + 1) >= #[trigger] pow2(pow2(j))
            ||| exists|i: int|
                i > f && before.counts()(i) + #[trigger] other.counts()(i) >= pow2(pow2(j))
        } by {
            lemma_floor_bounds(high, j, n);
            lemma_lanes(j);
            crate::scale_laws::lemma_capacity(j);
            let f = floor_slot(high, j, n, bottom());
            assert(!fits(h, f, j));
            if total(h, bottom(), f + 1) < pow2(pow2(j)) {
                let i = choose|i: int| i > f && !(#[trigger] h(i) <= capacity(j));
                assert(before.counts()(i) + other.counts()(i) >= pow2(pow2(j)));
            }
        }
    }
}

/// A recording keeps the top of its distribution, whatever was merged before: with the highest
/// bucket in the last of `N` words, all buckets above the floor are exact, and the floor holds its
/// own count and all below. The floor is the lowest bucket of these words or, where higher, the
/// underflow placeholder. The counters are the narrowest, no narrower than before, that hold this.
pub proof fn law_recording_window<const N: usize>(
    before: Sketch<N>,
    after: Sketch<N>,
    slot: int,
    incr: nat,
    top_before: int,
)
    requires
        before.buckets_wf(),
        in_range(slot),
        incr > 0,
        placed(before, after, slot, incr),
        before.counts()(top_before) > 0,
        forall|j: int| j > top_before ==> #[trigger] before.counts()(j) == 0,
        before.last_word() == top_before / pow2((6 - before.level()) as nat) as int,
    ensures
        before.level() <= after.level() <= 6,
        ({
            let h = plus(before.counts(), slot, incr);
            let high = if slot > top_before {
                slot
            } else {
                top_before
            };
            let p = pow2((6 - after.level()) as nat) as int;
            let low = (high / p - (N - 1)) * p;
            let floor = if before.has_collapsed() && before.low() > low {
                before.low()
            } else {
                low
            };
            &&& forall|i: int| i > floor ==> #[trigger] after.counts()(i) == h(i)
            &&& after.counts()(floor) == total(h, bottom(), floor + 1)
            &&& forall|i: int| i < floor ==> #[trigger] after.counts()(i) == 0
            &&& after.has_collapsed() <==> before.has_collapsed() || exists|i: int|
                i < floor && #[trigger] h(i) > 0
            &&& after.has_collapsed() ==> after.low() == floor
        }),
        // Without a collapse before, no narrower counters would do.
        !before.has_collapsed() ==> forall|j: nat|
            before.level() <= j < after.level() ==> {
                let h = plus(before.counts(), slot, incr);
                let high = if slot > top_before {
                    slot
                } else {
                    top_before
                };
                let p = pow2((6 - j) as nat) as int;
                let floor = (high / p - (N - 1)) * p;
                ||| total(h, bottom(), floor + 1) >= #[trigger] pow2(pow2(j))
                ||| exists|i: int| i > floor && #[trigger] h(i) >= pow2(pow2(j))
            },
{
    before.lemma_wf();
    let n = N as int;
    let h = plus(before.counts(), slot, incr);
    let c = before.counts();
    let k0 = before.level();
    let k = after.level();
    assert(c != no_counts()) by {
        assert(c(top_before) != no_counts()(top_before));
    }
    assert(in_range(top_before)) by {
        assert(c(top_before) != 0);
    }
    let high = if slot > top_before {
        slot
    } else {
        top_before
    };
    assert(is_peak(c, slot, high));
    lemma_peak(c, slot, high);
    lemma_lanes(k0);
    lemma_lanes(k);
    lemma_floor_bounds(high, k, n);
    lemma_floor_bounds(top_before, k0, n);
    let keep = before.kept_floor(slot);
    before.lemma_out_below(slot);
    before.lemma_low_aligned(k);
    if !before.has_collapsed() {
        lemma_old_floor(top_before, k0, high, k, n, keep);
    }
    let floor = floor_slot(high, k, n, keep);
    if total(h, bottom(), floor) > 0 {
        if forall|i: int| i < floor ==> #[trigger] h(i) == 0 {
            lemma_total_zero(h, bottom(), floor);
        }
    }
    assert forall|i: int| i < floor && #[trigger] h(i) > 0 implies total(h, bottom(), floor) > 0 by {
        assert(c(i) != 0 || i == slot);
        lemma_total_member(h, bottom(), floor, i);
    }
    if slot < floor {
        assert(h(slot) > 0);
    }
    if !before.has_collapsed() {
        assert forall|j: nat| k0 <= j < k implies {
            let p = pow2((6 - j) as nat) as int;
            let f = (high / p - (N - 1)) * p;
            ||| total(h, bottom(), f + 1) >= #[trigger] pow2(pow2(j))
            ||| exists|i: int| i > f && #[trigger] h(i) >= pow2(pow2(j))
        } by {
            lemma_floor_bounds(high, j, n);
            lemma_lanes(j);
            crate::scale_laws::lemma_capacity(j);
            lemma_old_floor(top_before, k0, high, j, n, keep);
            let f = floor_slot(high, j, n, keep);
            assert(!fits(h, f, j));
            if total(h, bottom(), f + 1) < pow2(pow2(j)) {
                let i = choose|i: int| i > f && !(#[trigger] h(i) <= capacity(j));
                assert(h(i) >= pow2(pow2(j)));
            }
        }
    }
}

/// Merging two sketches holds the same as recording everything into one of them.
pub proof fn law_merge_is_recording<const N: usize>(
    a: Sketch<N>,
    b: Sketch<N>,
    after: Sketch<N>,
    h1: Counts,
    h2: Counts,
)
    requires
        a.buckets_wf(),
        b.buckets_wf(),
        holds(a, h1),
        holds(b, h2),
        a.min_level() == b.min_level(),
        merged(a, b, after),
    ensures
        holds(after, both(h1, h2)),
{
    a.lemma_wf();
    b.lemma_wf();
    let n = N as int;
    let h = both(h1, h2);
    let g = both(a.counts(), b.counts());
    let p1 = peak(h1, bottom());
    let p2 = peak(h2, bottom());
    let f1 = floor_slot(p1, a.level(), n, bottom());
    let f2 = floor_slot(p2, b.level(), n, bottom());
    lemma_peak_of(h1);
    lemma_peak_of(h2);
    lemma_floor_bounds(p1, a.level(), n);
    lemma_floor_bounds(p2, b.level(), n);
    lemma_folded_peak(h1, f1, bottom());
    lemma_folded_peak(h2, f2, bottom());
    let high = if p1 >= p2 {
        p1
    } else {
        p2
    };
    assert(is_peak(h, bottom(), high)) by {
        assert forall|j: int| j > high implies #[trigger] h(j) == 0 by {
            assert(h1(j) == 0 && h2(j) == 0);
        }
    }
    lemma_peak(h, bottom(), high);
    assert(is_peak(g, bottom(), high)) by {
        assert forall|j: int| j > high implies #[trigger] g(j) == 0 by {
            assert(h1(j) == 0 && h2(j) == 0);
        }
    }
    lemma_peak(g, bottom(), high);
    assert(within(h, -0x10_0000, 0x10_0000)) by {
        assert forall|j: int| #[trigger] h(j) != 0 implies -0x10_0000 <= j < 0x10_0000 by {
            assert(h1(j) != 0 || h2(j) != 0);
        }
    }
    let keep = higher_floor(a.own_floor(), b.own_floor());
    let from = if a.level() >= b.level() {
        a.level()
    } else {
        b.level()
    };
    assert forall|j: nat| from <= j <= 6 implies ({
        let floor = floor_slot(high, j, n, bottom());
        &&& floor == #[trigger] floor_slot(high, j, n, keep)
        &&& f1 <= floor
        &&& f2 <= floor
        &&& fits(g, floor, j) <==> fits(h, floor, j)
    }) by {
        let floor = floor_slot(high, j, n, bottom());
        lemma_old_floor(p1, a.level(), high, j, n, a.own_floor());
        lemma_old_floor(p2, b.level(), high, j, n, b.own_floor());
        lemma_folded_total(h1, f1, floor + 1);
        lemma_folded_total(h2, f2, floor + 1);
        lemma_total_both(h1, h2, bottom(), floor + 1);
        lemma_total_both(a.counts(), b.counts(), bottom(), floor + 1);
        assert forall|i: int| i > floor implies g(i) == #[trigger] h(i) by {}
        assert forall|i: int| i > floor implies #[trigger] g(i) == h(i) by {}
    }
    let k = after.level();
    let floor = floor_slot(high, k, n, bottom());
    assert(floor == floor_slot(high, k, n, keep));
    assert forall|j: nat| a.min_level() <= j < k implies !#[trigger] fits(
        h,
        floor_slot(high, j, n, bottom()),
        j,
    ) by {
        if j >= from {
            assert(!fits(g, floor_slot(high, j, n, keep), j));
        } else if fits(h, floor_slot(high, j, n, bottom()), j) {
            if j < a.level() {
                assert(!fits(h1, floor_slot(p1, j, n, bottom()), j));
                lemma_floor_bounds(p1, j, n);
                lemma_floor_higher(p1, high, j, n, bottom());
                lemma_fits_less(h1, h, floor_slot(p1, j, n, bottom()), floor_slot(high, j, n, bottom()), j);
            } else {
                assert(!fits(h2, floor_slot(p2, j, n, bottom()), j));
                lemma_floor_bounds(p2, j, n);
                lemma_floor_higher(p2, high, j, n, bottom());
                lemma_fits_less(h2, h, floor_slot(p2, j, n, bottom()), floor_slot(high, j, n, bottom()), j);
            }
        }
    }
    lemma_folded_total(h1, f1, floor + 1);
    lemma_folded_total(h2, f2, floor + 1);
    lemma_total_both(h1, h2, bottom(), floor + 1);
    lemma_total_both(a.counts(), b.counts(), bottom(), floor + 1);
    assert(folded(g, floor) =~= folded(h, floor));
    // The underflow placeholder.
    lemma_total_both(h1, h2, bottom(), floor);
    lemma_total_both(a.counts(), b.counts(), bottom(), floor);
    lemma_below(h1, f1, floor);
    lemma_below(h2, f2, floor);
    assert(h(high) != 0);
}

/// Counts below a floor, before and after folding at a lower or equal one.
proof fn lemma_below(h: Counts, f: int, floor: int)
    requires
        bottom() <= f <= floor,
    ensures
        total(h, bottom(), floor) > 0 <==> total(h, bottom(), f) > 0 || total(
            folded(h, f),
            bottom(),
            floor,
        ) > 0,
{
    lemma_total_wider(h, bottom(), f, bottom(), floor);
    if f < floor {
        lemma_folded_total(h, f, floor);
    } else {
        lemma_total_zero(folded(h, f), bottom(), floor);
    }
}

/// The sketch shows the distribution `h` exactly above its floor, and holds the rest in it.
pub open spec fn accurate<const N: usize>(s: Sketch<N>, h: Counts) -> bool {
    &&& within(h, -0x10_0000, 0x10_0000)
    &&& s.counts() == folded(h, s.own_floor())
}

/// A sketch that never collapsed shows everything.
proof fn lemma_accurate_whole<const N: usize>(s: Sketch<N>, h: Counts)
    requires
        accurate(s, h),
        !s.has_collapsed(),
    ensures
        s.counts() == h,
{
    crate::counts::lemma_folded_none(h, bottom(), 0x10_0000);
}

/// A floor is at least the floor that must be kept.
proof fn lemma_floor_kept(high: int, k: nat, n: int, keep: int, own: int)
    requires
        in_range(high),
        k <= 6,
        1 <= n <= 250,
        own == bottom() || (own == keep && aligned(keep, k) == keep),
    ensures
        bottom() < floor_slot(high, k, n, keep),
        own <= floor_slot(high, k, n, keep),
{
    lemma_floor_bounds(high, k, n);
}

/// A recording leaves a sketch accurate, whatever was merged into it before.
pub proof fn law_recording_accurate<const N: usize>(
    before: Sketch<N>,
    after: Sketch<N>,
    h: Counts,
    slot: int,
    incr: nat,
)
    requires
        before.buckets_wf(),
        accurate(before, h),
        in_range(slot),
        0 < incr,
        placed(before, after, slot, incr),
    ensures
        accurate(after, plus(h, slot, incr)),
{
    before.lemma_wf();
    let h2 = plus(h, slot, incr);
    assert(within(h2, -0x10_0000, 0x10_0000));
    if before.live() == 0 {
        lemma_accurate_whole(before, h);
        crate::counts::lemma_folded_none(h2, bottom(), 0x10_0000);
    } else {
        let k = after.level();
        let g = plus(before.counts(), slot, incr);
        let high = lemma_find_peak(before.counts(), slot, 0x10_0000);
        lemma_peak(before.counts(), slot, high);
        let keep = before.kept_floor(slot);
        let floor = floor_slot(high, k, N as int, keep);
        before.lemma_low_aligned(k);
        let own = before.own_floor();
        lemma_floor_kept(high, k, N as int, keep, own);
        lemma_folded_plus(before.counts(), floor, slot, incr);
        lemma_folded_plus(h, floor, slot, incr);
        lemma_folded_twice(h, own, floor);
        assert(after.counts() =~= folded(h2, floor));
        if !after.has_collapsed() {
            lemma_accurate_whole(before, h);
            assert forall|i: int| #[trigger] h2(i) != 0 implies floor <= i < 0x10_0000 by {
                if i < floor {
                    lemma_total_member(h2, bottom(), floor, i);
                }
            }
            crate::counts::lemma_folded_none(h2, floor, 0x10_0000);
            crate::counts::lemma_folded_none(h2, bottom(), 0x10_0000);
        }
    }
}

/// A merge leaves a sketch accurate, also where the pools differ in size.
pub proof fn law_merge_accurate<const N: usize, const M: usize>(
    before: Sketch<N>,
    other: Sketch<M>,
    after: Sketch<N>,
    h1: Counts,
    h2: Counts,
)
    requires
        before.buckets_wf(),
        other.buckets_wf(),
        other.live() > 0,
        accurate(before, h1),
        accurate(other, h2),
        merged(before, other, after),
    ensures
        accurate(after, both(h1, h2)),
{
    before.lemma_wf();
    other.lemma_wf();
    let h = both(h1, h2);
    let g = both(before.counts(), other.counts());
    assert(within(h, -0x10_0000, 0x10_0000)) by {
        assert forall|j: int| #[trigger] h(j) != 0 implies -0x10_0000 <= j < 0x10_0000 by {
            assert(h1(j) != 0 || h2(j) != 0);
        }
    }
    assert(within(g, -0x10_0000, 0x10_0000)) by {
        assert forall|j: int| #[trigger] g(j) != 0 implies -0x10_0000 <= j < 0x10_0000 by {
            assert(before.counts()(j) != 0 || other.counts()(j) != 0);
        }
    }
    lemma_peak_of(g);
    let high = peak(g, bottom());
    assert(g(high) != 0) by {
        if g(high) == 0 {
            assert forall|j: int| bottom() <= j < top() implies #[trigger] other.counts()(j) == 0 by {
                assert(g(j) == 0);
            }
            lemma_total_zero(other.counts(), bottom(), top());
        }
    }
    let k = after.level();
    let f1 = before.own_floor();
    let f2 = other.own_floor();
    let keep = higher_floor(f1, f2);
    let floor = floor_slot(high, k, N as int, keep);
    before.lemma_low_aligned(k);
    other.lemma_low_aligned(k);
    lemma_floor_kept(high, k, N as int, keep, keep);
    lemma_folded_both(before.counts(), other.counts(), floor);
    lemma_folded_both(h1, h2, floor);
    lemma_folded_twice(h1, f1, floor);
    lemma_folded_twice(h2, f2, floor);
    assert(after.counts() =~= folded(h, floor));
    if !after.has_collapsed() {
        lemma_accurate_whole(before, h1);
        lemma_accurate_whole(other, h2);
        assert forall|i: int| #[trigger] h(i) != 0 implies floor <= i < 0x10_0000 by {
            if i < floor {
                lemma_total_member(h, bottom(), floor, i);
            }
        }
        crate::counts::lemma_folded_none(h, floor, 0x10_0000);
        crate::counts::lemma_folded_none(h, bottom(), 0x10_0000);
    }
}

/// A rank above the zeros and the underflow placeholder is found in the bucket of the actual
/// observation of that rank.
pub proof fn law_quantile_accurate<const N: usize>(
    s: Sketch<N>,
    h: Counts,
    zeros: int,
    rank: int,
    bucket: i32,
)
    requires
        s.buckets_wf(),
        accurate(s, h),
        locates(Rank::Bucket(bucket), s.counts(), zeros, rank),
        rank > zeros + if s.has_collapsed() {
            s.counts()(s.low())
        } else {
            0
        },
    ensures
        locates(Rank::Bucket(bucket), h, zeros, rank),
{
    s.lemma_wf();
    if s.has_collapsed() {
        let f = s.low();
        lemma_total_zero(s.counts(), bottom(), f);
        assert(total(s.counts(), bottom(), f + 1) == s.counts()(f));
        if bucket <= f {
            lemma_total_wider(s.counts(), bottom(), bucket + 1, bottom(), f + 1);
        }
        lemma_folded_total(h, f, bucket as int);
        lemma_folded_total(h, f, bucket + 1);
    } else {
        lemma_accurate_whole(s, h);
    }
}

/// The representative `2lu / (l + u)` of a bucket from `l` to `u` is off from every value `v` of
/// the bucket by a relative error of at most `(u - l) / (u + l)`.
pub proof fn law_representative(l: int, u: int, v: int)
    requires
        0 < l <= v <= u,
    ensures
        -(u - l) * v <= 2 * l * u - v * (l + u) <= (u - l) * v,
{
    assert(-(u - l) * v <= 2 * l * u - v * (l + u) <= (u - l) * v) by (nonlinear_arith)
        requires
            0 < l <= v <= u,
    ;
}

} // verus!
