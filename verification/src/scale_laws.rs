//! How far an auto-scaling histogram lowers its scale: never further than it must.
//!
//! The words of a histogram are only ever paired up, never split. Of all scales and counter
//! widths that pairing up can reach, a recording or a merge takes the highest scale at which the
//! counters hold all counts and all counters lie in the words of the pool, and there the narrowest
//! counters.

use crate::counts::{
    both, coarsen, lemma_coarsen_member, lemma_coarsen_plus, lemma_coarsen_twice,
    lemma_coarsen_zero, no_counts, plus, within, Counts,
};
use crate::downscale::drop_fits;
use crate::float64::zero;
use crate::histogram::{fitted, lemma_extremes, merge_outcome, range_change, recorded, Histogram};
use crate::histogram_laws::seen_at;
use crate::mapping::{slot_of, MIN_SCALE};
use crate::merge::{
    common_resolution, fitting_resolution, joined_at, union_at, union_first, union_fits, union_last,
};
use crate::settle::is_change;
use crate::stats::refused;
use crate::width::{capacity, lemma_lanes, word_of};
use crate::window::reach;
use vstd::arithmetic::power2::{lemma2_to64, lemma2_to64_rest, lemma_pow2_pos, pow2};
use vstd::prelude::*;

verus! {

/// Counters of `2^k` bits, `2^(6 - k)` to a word of 64 bits, hold the counts `f` in `n` words.
pub open spec fn packs(f: Counts, k: nat, n: int) -> bool {
    &&& forall|i: int| #[trigger] f(i) < pow2(pow2(k))
    &&& forall|i: int, j: int|
        #![trigger f(i), f(j)]
        f(i) > 0 && f(j) > 0 ==> (i / pow2((6 - k) as nat) as int) - (j / pow2(
            (6 - k) as nat,
        ) as int) < n
}

/// The largest count of a counter with `2^k` bits.
pub proof fn lemma_capacity(k: nat)
    requires
        k <= 6,
    ensures
        capacity(k) == pow2(pow2(k)) - 1,
{
    lemma2_to64();
    lemma2_to64_rest();
}

/// The counts of a valid histogram lie in its pool.
proof fn lemma_packs<const N: usize>(h: Histogram<N>)
    requires
        h.wf(),
    ensures
        packs(h.counts(), h.level(), N as int),
{
    h.lemma_wf();
    h.lemma_pool();
    let k = h.level();
    lemma_capacity(k);
    lemma_lanes(k);
    assert forall|i: int| #[trigger] h.counts()(i) < pow2(pow2(k)) by {
        assert(h.counts()(i) <= capacity(k));
    }
}

/// A finer bucket holds no more than the coarser one that it falls into.
pub proof fn lemma_finer_holds(f: Counts, a: nat, b: nat, max: nat)
    requires
        a <= b,
        forall|i: int| #[trigger] coarsen(f, b)(i) <= max,
    ensures
        forall|i: int| #[trigger] coarsen(f, a)(i) <= max,
{
    let g = coarsen(f, a);
    let e = (b - a) as nat;
    lemma_coarsen_twice(f, a, e);
    assert forall|i: int| #[trigger] g(i) <= max by {
        lemma_coarsen_member(g, e, i);
        assert(coarsen(f, b)(i / pow2(e) as int) <= max);
    }
}

/// The word of a bucket at a lower scale is the word of the finer bucket, shifted.
proof fn lemma_word_shift(i: int, k: nat, e: nat, k2: nat)
    requires
        k <= k2 <= 6,
        k2 <= e + k,
    ensures
        (i / pow2(e) as int) / pow2((6 - k2) as nat) as int == word_of(i, k) / pow2(
            (e + k - k2) as nat,
        ) as int,
{
    lemma_lanes(k);
    crate::arith::lemma_shift_twice(i, e, (6 - k2) as nat);
    crate::arith::lemma_shift_twice(i, (6 - k) as nat, (e + k - k2) as nat);
    assert(e + (6 - k2) as nat == (6 - k) as nat + (e + k - k2) as nat);
}

/// Where the counts fit after a drop by `e`, they fit with the same counters at the resolution at
/// which the words first fit, which takes no larger drop.
proof fn lemma_no_finer(h: Counts, k: nat, n: int, change: nat, e: nat, k2: nat)
    requires
        h != no_counts(),
        within(h, -reach(), reach()),
        k <= k2 <= 6,
        k2 <= e + k,
        range_change(h, k, n, change),
        packs(coarsen(h, e), k2, n),
    ensures
        change + k2 - k <= e,
        drop_fits(h, k, change, (change + k2 - k) as nat),
{
    let (lo, hi) = lemma_extremes(h);
    let f = coarsen(h, e);
    let c = (e + k - k2) as nat;
    lemma_coarsen_member(h, e, lo);
    lemma_coarsen_member(h, e, hi);
    assert(f(hi / pow2(e) as int) > 0 && f(lo / pow2(e) as int) > 0);
    lemma_word_shift(lo, k, e, k2);
    lemma_word_shift(hi, k, e, k2);
    assert(is_change(word_of(lo, k), word_of(hi, k), n, change));
    if c < change {
        assert((word_of(hi, k) / pow2(c) as int) - (word_of(lo, k) / pow2(c) as int) >= n);
    }
    lemma_capacity(k2);
    assert forall|i: int| #[trigger] f(i) <= capacity(k2) by {
        assert(f(i) < pow2(pow2(k2)));
    }
    lemma_finer_holds(h, (change + k2 - k) as nat, e, capacity(k2));
}

/// Buckets of values are in range.
proof fn lemma_slot_range(bits: u64, scale: int)
    requires
        scale <= crate::lookup::TABLE_SCALE,
    ensures
        crate::width::in_range(slot_of(bits, scale)),
{
    crate::float64::lemma_parts(bits);
    if crate::float64::biased(bits) == 0 {
        crate::mapping::lemma_index_range(1, -1022, scale);
    } else {
        crate::mapping::lemma_index_range(
            crate::float64::significand(bits),
            crate::float64::biased(bits) - 1023,
            scale,
        );
    }
}

/// The buckets at the scale `s` once a value is recorded `incr` times.
pub open spec fn with_value<const N: usize>(h: Histogram<N>, bits: u64, incr: u64, s: int) -> Counts {
    plus(seen_at(h, s), slot_of(bits, s), incr as nat)
}

/// A recording lowers the scale only as far as it must. It takes the highest scale at which
/// counters no narrower than before hold all counts in the `N` words of the pool, among those that
/// pairing up words can reach, and there the narrowest counters. Where all counts fit as they
/// are, scale and width stay.
pub proof fn law_recording_scale<const N: usize>(
    before: Histogram<N>,
    after: Histogram<N>,
    bits: u64,
    incr: u64,
    sum: u64,
)
    requires
        before.wf(),
        incr > 0,
        !refused(bits),
        !zero(bits),
        recorded(before, after, bits, incr, sum, Ok(())),
    ensures
        MIN_SCALE <= after.scale_of() <= before.scale_of(),
        before.level() <= after.level() <= 6,
        after.counts() == with_value(before, bits, incr, after.scale_of()),
        packs(after.counts(), after.level(), N as int),
        // Words are paired up, not split, but for the lowest scale and the first observation.
        after.scale_of() > MIN_SCALE && before.counts() != no_counts() ==> after.scale_of()
            + after.level() <= before.scale_of() + before.level(),
        before.counts() == no_counts() ==> after.scale_of() == before.scale_of(),
        // No higher scale would do.
        forall|s: int, k: nat|
            after.scale_of() < s <= before.scale_of() && before.level() <= k <= 6 && s + k
                <= before.scale_of() + before.level() ==> !#[trigger] packs(
                with_value(before, bits, incr, s),
                k,
                N as int,
            ),
        // No narrower counters would do.
        forall|k: nat|
            before.level() <= k < after.level() ==> !#[trigger] packs(
                after.counts(),
                k,
                N as int,
            ),
        packs(with_value(before, bits, incr, before.scale_of()), before.level(), N as int)
            ==> after.scale_of() == before.scale_of() && after.level() == before.level(),
{
    before.lemma_wf();
    after.lemma_wf();
    lemma_packs(after);
    crate::histogram_laws::law_update_keeps_distribution(
        before,
        after,
        bits,
        incr,
        sum,
        after.scale_of(),
    );
    lemma_coarsen_zero(after.counts());
    let slot = slot_of(bits, before.scale_of());
    let h = plus(before.counts(), slot, incr as nat);
    let k0 = before.level();
    let d = (before.scale_of() - after.scale_of()) as nat;
    assert(h(slot) != no_counts()(slot));
    assert forall|s: int| s <= before.scale_of() implies #[trigger] with_value(before, bits, incr, s)
        == coarsen(h, (before.scale_of() - s) as nat) by {
        lemma_coarsen_plus(before.counts(), slot, incr as nat, (before.scale_of() - s) as nat);
        crate::histogram_laws::lemma_slot_coarser(bits, before.scale_of(), s);
    }
    lemma_coarsen_zero(h);
    if before.counts() == no_counts() {
        assert(after.counts() == h);
        assert forall|k: nat| before.level() <= k < after.level() implies !#[trigger] packs(
            after.counts(),
            k,
            N as int,
        ) by {
            lemma_capacity(k);
            crate::width::lemma_level_for(incr as nat, k);
            assert(h(slot) == incr);
        }
    } else {
        let change = choose|change: nat|
            #![trigger range_change(h, before.level(), N as int, change)]
            range_change(h, before.level(), N as int, change) && fitted(before, after, h, change);
        lemma_slot_range(bits, before.scale_of());
        before.lemma_reach_with(slot, incr as nat);
        assert forall|s: int, k: nat|
            after.scale_of() < s <= before.scale_of() && before.level() <= k <= 6 && s + k
                <= before.scale_of() + before.level() implies !#[trigger] packs(
            with_value(before, bits, incr, s),
            k,
            N as int,
        ) by {
            let e = (before.scale_of() - s) as nat;
            if packs(with_value(before, bits, incr, s), k, N as int) {
                lemma_no_finer(h, k0, N as int, change, e, k);
                assert(drop_fits(h, k0, change, (change + k - k0) as nat));
            }
        }
        assert forall|k: nat| before.level() <= k < after.level() implies !#[trigger] packs(
            after.counts(),
            k,
            N as int,
        ) by {
            if packs(after.counts(), k, N as int) {
                lemma_capacity(k);
                assert forall|i: int| #[trigger] after.counts()(i) <= capacity(k) by {
                    assert(after.counts()(i) < pow2(pow2(k)));
                }
                if k <= d + k0 {
                    lemma_no_finer(h, k0, N as int, change, d, k);
                    assert(drop_fits(h, k0, change, (change + k - k0) as nat));
                }
                lemma_capacity_grows(k, (after.level() - 1) as nat);
            }
        }
    }
    let s0 = before.scale_of();
    if packs(with_value(before, bits, incr, s0), before.level(), N as int) {
        if after.scale_of() < s0 {
            assert(!packs(with_value(before, bits, incr, s0), before.level(), N as int));
        }
    }
}

/// Wider counters hold more.
proof fn lemma_capacity_grows(k: nat, k2: nat)
    requires
        k <= k2 <= 6,
    ensures
        capacity(k) <= capacity(k2),
{
}

/// Neither zeros, nor a value that is recorded no times, touch the buckets, the scale or the
/// width.
pub proof fn law_nothing_recorded<const N: usize>(
    before: Histogram<N>,
    after: Histogram<N>,
    bits: u64,
    incr: u64,
    sum: u64,
)
    requires
        zero(bits) || incr == 0,
        recorded(before, after, bits, incr, sum, Ok(())),
    ensures
        after.counts() == before.counts(),
        after.scale_of() == before.scale_of(),
        after.level() == before.level(),
{
}

/// A merge with a histogram of zeros alone leaves the buckets, the scale and the width alone.
pub proof fn law_zeros_merged<const N: usize, const M: usize>(
    before: Histogram<N>,
    other: Histogram<M>,
    after: Histogram<N>,
    sum: u64,
)
    requires
        other.counts() == no_counts(),
        merge_outcome(before, other, after, sum, Ok(())),
    ensures
        after.counts() == before.counts(),
        after.scale_of() == before.scale_of(),
        after.level() == before.level(),
{
}

/// Counters of `2^k` bits hold all counts.
pub open spec fn held(f: Counts, k: nat) -> bool {
    forall|i: int| #[trigger] f(i) < pow2(pow2(k))
}

/// Lowering the scale by hand makes one word of every `2^change` words. It takes the highest
/// scale, at least `change` steps lower, at which the counters in those words hold all counts, and
/// widens the counters no further. Where the present counters hold all counts, the scale drops
/// by `change` and the width stays.
pub proof fn law_downscale<const N: usize>(before: Histogram<N>, after: Histogram<N>, change: nat)
    requires
        before.wf(),
        after.wf(),
        before.counts() != no_counts(),
        change <= before.scale_of() - MIN_SCALE,
        fitted(before, after, before.counts(), change),
    ensures
        MIN_SCALE <= after.scale_of() <= before.scale_of() - change,
        before.level() <= after.level() <= 6,
        after.counts() == seen_at(before, after.scale_of()),
        held(after.counts(), after.level()),
        after.scale_of() > MIN_SCALE ==> after.scale_of() + after.level() == before.scale_of()
            + before.level() - change,
        forall|s: int, k: nat|
            after.scale_of() < s && before.level() <= k <= 6 && s + k <= before.scale_of()
                + before.level() - change ==> !#[trigger] held(seen_at(before, s), k),
        forall|k: nat|
            before.level() <= k < after.level() ==> !#[trigger] held(after.counts(), k),
        held(seen_at(before, before.scale_of() - change), before.level()) ==> after.scale_of()
            == before.scale_of() - change && after.level() == before.level(),
{
    before.lemma_wf();
    after.lemma_wf();
    lemma_packs(after);
    let h = before.counts();
    let k0 = before.level();
    assert forall|s: int, k: nat|
        after.scale_of() <= s && before.level() <= k <= 6 && s + k <= before.scale_of()
            + before.level() - change && #[trigger] held(seen_at(before, s), k) implies drop_fits(
        h,
        k0,
        change,
        (change + k - k0) as nat,
    ) by {
        let e = (before.scale_of() - s) as nat;
        let f = seen_at(before, s);
        lemma_capacity(k);
        assert forall|i: int| #[trigger] coarsen(h, e)(i) <= capacity(k) by {
            assert(f(i) < pow2(pow2(k)));
        }
        lemma_finer_holds(h, (change + k - k0) as nat, e, capacity(k));
    }
    assert forall|k: nat| before.level() <= k < after.level() implies !#[trigger] held(
        after.counts(),
        k,
    ) by {
        if held(after.counts(), k) {
            assert(held(seen_at(before, after.scale_of()), k));
            lemma_capacity(k);
            assert forall|i: int| #[trigger] after.counts()(i) <= capacity(k) by {
                assert(after.counts()(i) < pow2(pow2(k)));
            }
            lemma_capacity_grows(k, (after.level() - 1) as nat);
        }
    }
    let s0 = before.scale_of() - change;
    if held(seen_at(before, s0), before.level()) {
        if after.scale_of() < s0 {
            assert(drop_fits(h, k0, change, (change + k0 - k0) as nat));
        }
    }
}

/// The buckets of two histograms together, at the scale `s`.
pub open spec fn together<const N: usize, const M: usize>(
    a: Histogram<N>,
    b: Histogram<M>,
    s: int,
) -> Counts {
    both(seen_at(a, s), seen_at(b, s))
}

/// The word of a bucket with a count, at a lower resolution, is a word of the union.
proof fn lemma_union_words<const N: usize, const M: usize>(
    a: Histogram<N>,
    b: Histogram<M>,
    s: int,
    k: nat,
    n: int,
)
    requires
        a.wf(),
        b.wf(),
        b.counts() != no_counts(),
        s <= a.scale_of(),
        s <= b.scale_of(),
        a.level() <= k <= 6,
        b.level() <= k,
        s + k <= a.scale_of() + a.level(),
        s + k <= b.scale_of() + b.level(),
        packs(together(a, b, s), k, n),
    ensures
        ({
            let m = common_resolution(a.shape_of(), b.shape_of());
            let p = pow2((m - s - k) as nat) as int;
            (union_last(a.shape_of(), b.shape_of(), m) / p) - (union_first(
                a.shape_of(),
                b.shape_of(),
                m,
            ) / p) < n
        }),
{
    a.lemma_wf();
    b.lemma_wf();
    let m = common_resolution(a.shape_of(), b.shape_of());
    let f = together(a, b, s);
    let c = (m - s - k) as nat;
    let p = pow2(c) as int;
    lemma_pow2_pos(c);
    let (lo, hi) = lemma_extremes(b.counts());
    lemma_shown(b, lo, s, k, m);
    lemma_shown(b, hi, s, k, m);
    let e = (b.scale_of() - s) as nat;
    let i = lo / pow2(e) as int;
    let j = hi / pow2(e) as int;
    assert(f(i) > 0 && f(j) > 0);
    if a.counts() != no_counts() {
        let (la, ha) = lemma_extremes(a.counts());
        lemma_shown(a, la, s, k, m);
        lemma_shown(a, ha, s, k, m);
        let g = (a.scale_of() - s) as nat;
        assert(f(la / pow2(g) as int) > 0 && f(ha / pow2(g) as int) > 0);
    }
}

/// A bucket with a count, at the scale `s`, and its word.
proof fn lemma_shown<const N: usize>(a: Histogram<N>, i: int, s: int, k: nat, m: int)
    requires
        a.wf(),
        a.counts()(i) != 0,
        s <= a.scale_of(),
        a.level() <= k <= 6,
        s + k <= m <= a.scale_of() + a.level(),
    ensures
        seen_at(a, s)(i / pow2((a.scale_of() - s) as nat) as int) > 0,
        (i / pow2((a.scale_of() - s) as nat) as int) / pow2((6 - k) as nat) as int == (word_of(
            i,
            a.level(),
        ) / pow2((a.scale_of() + a.level() - m) as nat) as int) / pow2((m - s - k) as nat) as int,
{
    let e = (a.scale_of() - s) as nat;
    lemma_coarsen_member(a.counts(), e, i);
    lemma_word_shift(i, a.level(), e, k);
    let x = (a.scale_of() + a.level() - m) as nat;
    let y = (m - s - k) as nat;
    crate::arith::lemma_shift_twice(word_of(i, a.level()), x, y);
    assert(x + y == (e + a.level() - k) as nat);
}

/// A merge lowers the scale only as far as it must. It takes the highest scale, no higher than
/// either, at which counters no narrower than either hold the sums in the `N` words of the pool,
/// among those that pairing up the words of both can reach, and there the narrowest counters.
pub proof fn law_merge_scale<const N: usize, const M: usize>(
    before: Histogram<N>,
    other: Histogram<M>,
    after: Histogram<N>,
    sum: u64,
)
    requires
        before.wf(),
        other.wf(),
        other.counts() != no_counts(),
        merge_outcome(before, other, after, sum, Ok(())),
    ensures
        MIN_SCALE <= after.scale_of() <= before.scale_of(),
        after.scale_of() <= other.scale_of(),
        before.level() <= after.level() <= 6,
        other.level() <= after.level(),
        after.counts() == together(before, other, after.scale_of()),
        packs(after.counts(), after.level(), N as int),
        // Words are paired up, not split, but for the lowest scale.
        after.scale_of() > MIN_SCALE ==> after.scale_of() + after.level() <= before.scale_of()
            + before.level() && after.scale_of() + after.level() <= other.scale_of()
            + other.level(),
        // No higher scale would do.
        forall|s: int, k: nat|
            after.scale_of() < s && s <= before.scale_of() && s <= other.scale_of()
                && before.level() <= k <= 6 && other.level() <= k && s + k <= before.scale_of()
                + before.level() && s + k <= other.scale_of() + other.level()
                ==> !#[trigger] packs(together(before, other, s), k, N as int),
        // No narrower counters would do.
        forall|k: nat|
            before.level() <= k < after.level() && other.level() <= k ==> !#[trigger] packs(
                after.counts(),
                k,
                N as int,
            ),
        // At the lower of both scales, with the wider of both counters, if the sums fit there.
        ({
            let s = if before.scale_of() <= other.scale_of() {
                before.scale_of()
            } else {
                other.scale_of()
            };
            let k = if before.level() >= other.level() {
                before.level()
            } else {
                other.level()
            };
            s + k <= before.scale_of() + before.level() && s + k <= other.scale_of() + other.level()
                && packs(together(before, other, s), k, N as int) ==> after.scale_of() == s
                && after.level() == k
        }),
{
    before.lemma_wf();
    other.lemma_wf();
    after.lemma_wf();
    lemma_packs(after);
    let a = before.shape_of();
    let b = other.shape_of();
    let n = N as int;
    assert(other.stats_of().count > 0);
    assert(after.counts() == union_at(a, b, after.scale_of()));
    if a.scale > MIN_SCALE && b.scale > MIN_SCALE {
        let m = common_resolution(a, b);
        let q = choose|q: int| #[trigger]
            fitting_resolution(a, b, n, q) && joined_at(a, b, q, after.shape_of());
        assert(is_change(union_first(a, b, m), union_last(a, b, m), n, (m - q) as nat));
        assert forall|s: int, k: nat|
            after.scale_of() <= s && s <= before.scale_of() && s <= other.scale_of()
                && before.level() <= k <= 6 && other.level() <= k && s + k <= m && #[trigger] packs(
                together(before, other, s),
                k,
                n,
            ) implies union_fits(a, b, q, k) && s + k <= q by {
            lemma_union_words(before, other, s, k, n);
            let c = (m - s - k) as nat;
            if s + k > q {
                assert((union_last(a, b, m) / pow2(c) as int) - (union_first(a, b, m) / pow2(c) as int)
                    >= n);
            }
            let f = together(before, other, s);
            lemma_capacity(k);
            assert forall|i: int| #[trigger] f(i) <= capacity(k) by {
                assert(f(i) < pow2(pow2(k)));
            }
            lemma_finer_union(before, other, s, q - k, capacity(k));
            assert(union_at(a, b, q - k) == together(before, other, q - k));
            assert forall|i: int| #[trigger] union_at(a, b, q - k)(i) <= capacity(k) by {
                assert(together(before, other, q - k)(i) <= capacity(k));
            }
        }
    }
    assert forall|s: int, k: nat|
        after.scale_of() < s && s <= before.scale_of() && s <= other.scale_of() && before.level()
            <= k <= 6 && other.level() <= k && s + k <= before.scale_of() + before.level() && s + k
            <= other.scale_of() + other.level() implies !#[trigger] packs(
        together(before, other, s),
        k,
        n,
    ) by {}
    assert forall|k: nat| before.level() <= k < after.level() && other.level() <= k implies !#[trigger] packs(
        after.counts(),
        k,
        n,
    ) by {
        if packs(after.counts(), k, n) {
            assert(packs(together(before, other, after.scale_of()), k, n));
            lemma_capacity(k);
            assert forall|i: int| #[trigger] after.counts()(i) <= capacity(k) by {
                assert(after.counts()(i) < pow2(pow2(k)));
            }
            lemma_capacity_grows(k, (after.level() - 1) as nat);
        }
    }
}

/// Buckets of a finer scale hold no more, of two histograms together.
proof fn lemma_finer_union<const N: usize, const M: usize>(
    a: Histogram<N>,
    b: Histogram<M>,
    s: int,
    t: int,
    max: nat,
)
    requires
        s <= t <= a.scale_of(),
        t <= b.scale_of(),
        forall|i: int| #[trigger] together(a, b, s)(i) <= max,
    ensures
        forall|i: int| #[trigger] together(a, b, t)(i) <= max,
{
    let e = (t - s) as nat;
    let f = together(a, b, t);
    lemma_coarsen_twice(a.counts(), (a.scale_of() - t) as nat, e);
    lemma_coarsen_twice(b.counts(), (b.scale_of() - t) as nat, e);
    crate::counts::lemma_coarsen_both(seen_at(a, t), seen_at(b, t), e);
    assert((a.scale_of() - t) as nat + e == (a.scale_of() - s) as nat);
    assert((b.scale_of() - t) as nat + e == (b.scale_of() - s) as nat);
    assert(coarsen(f, e) =~= together(a, b, s));
    assert forall|i: int| #[trigger] f(i) <= max by {
        lemma_coarsen_member(f, e, i);
        assert(together(a, b, s)(i / pow2(e) as int) <= max);
    }
}

/// Narrower counters that hold all counts need no more words.
pub proof fn lemma_packs_narrower(f: Counts, k: nat, j: nat, n: int)
    requires
        j <= k <= 6,
        n >= 1,
        packs(f, k, n),
        held(f, j),
    ensures
        packs(f, j, n),
{
    let p = pow2((6 - k) as nat) as int;
    let q = pow2((k - j) as nat) as int;
    lemma_pow2_pos((k - j) as nat);
    assert forall|a: int, b: int|
        #![trigger f(a), f(b)]
        f(a) > 0 && f(b) > 0 implies (a / pow2((6 - j) as nat) as int) - (b / pow2(
        (6 - j) as nat,
    ) as int) < n by {
        crate::arith::lemma_shift_twice(a, (6 - k) as nat, (k - j) as nat);
        crate::arith::lemma_shift_twice(b, (6 - k) as nat, (k - j) as nat);
        assert((6 - k) as nat + (k - j) as nat == (6 - j) as nat);
        if a / p >= b / p {
            crate::layout::lemma_span(b / p, a / p, q);
        } else {
            crate::arith::lemma_div_mono(a / p, b / p, q);
        }
    }
}

/// Counts that are held at a scale are held at each finer one.
pub proof fn lemma_held_finer<const N: usize>(h: Histogram<N>, s: int, t: int, k: nat)
    requires
        s <= t <= h.scale_of(),
        held(seen_at(h, s), k),
    ensures
        held(seen_at(h, t), k),
{
    let f = seen_at(h, t);
    let e = (t - s) as nat;
    lemma_coarsen_twice(h.counts(), (h.scale_of() - t) as nat, e);
    assert((h.scale_of() - t) as nat + e == (h.scale_of() - s) as nat);
    assert forall|i: int| #[trigger] f(i) < pow2(pow2(k)) by {
        lemma_coarsen_member(f, e, i);
        assert(seen_at(h, s)(i / pow2(e) as int) < pow2(pow2(k)));
    }
}

} // verus!
