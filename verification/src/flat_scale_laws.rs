//! How far a flat histogram lowers its scale.
//!
//! The counters of a flat histogram stand in one line from a base up, and the base moves only when
//! buckets are merged. As long as a value has its place in that line and its counter has room,
//! nothing else changes. Otherwise the scale drops: by as little as brings the buckets into the
//! line, or by one step for counters of twice the width.

use crate::arith::{lemma_div_mono, lemma_shift_twice};
use crate::counts::{
    both, bottom, coarsen, lemma_coarsen_twice, lemma_coarsen_zero, no_counts, plus, top, total,
    Counts,
};
use crate::flat::{
    absorb_out, absorbed_into, join_runs_out, joined, receiving, updated, BucketDescriptor,
    Histogram,
};
use crate::flat_laws::{law_literal_transparent, listed, shown};
use crate::layout::{
    any, bucket_at_scale, lemma_change_unique, lemma_span, lemma_trim_high, lemma_trim_low, slots,
    steps_to_fit, Layout,
};
use crate::lookup::TABLE_SCALE;
use crate::mapping::{index_of, MIN_SCALE};
use crate::replay::{
    absorb_runs_out, absorbed, countable, import_key, import_runs_out, import_scale, importable,
    imported, joint_high, joint_low, joint_scale, key_of, lemma_import_key, lemma_key_of, sum_of,
};
use crate::scale_laws::lemma_capacity;
use crate::settle::is_change;
use crate::stats::Stats;
use crate::width::{capacity, lanes, lemma_lanes};
use crate::window_ops::at_most;
use vstd::arithmetic::power2::{lemma2_to64, lemma_pow2_pos, pow2};
use vstd::prelude::*;

verus! {

/// Counters of `2^k` bits that `n` words hold.
pub open spec fn line(n: int, k: nat) -> int {
    n * pow2((6 - k) as nat)
}

/// No bucket has a count.
pub open spec fn blank(p: Layout) -> bool {
    forall|j: int| #[trigger] (p.counts)(j) == 0
}

/// The lower of two indices.
pub open spec fn lower(a: int, b: int) -> int {
    if a <= b {
        a
    } else {
        b
    }
}

/// The higher of two indices.
pub open spec fn upper(a: int, b: int) -> int {
    if a >= b {
        a
    } else {
        b
    }
}

/// Bucket `i` has its place: all live buckets and this one are no more than there are counters
/// and, for counters narrower than a word, this one stands in the line from the base up. An empty
/// pool has place for any bucket.
pub open spec fn has_place(p: Layout, n: int, i: int) -> bool {
    ||| blank(p)
    ||| {
        &&& upper(p.high, i) - lower(p.low, i) < line(n, p.level)
        &&& p.level < 6 ==> p.base <= i < p.base + line(n, p.level)
    }
}

/// The buckets of a layout and `incr` observations of a value, at the scale `s`.
pub open spec fn with_value(p: Layout, bits: u64, incr: u64, s: int) -> Counts {
    plus(shown(p, s), index_of(bits, s), incr as nat)
}

/// A place for a bucket, as the layout sees it.
proof fn lemma_place(p: Layout, n: int, i: int)
    requires
        p.valid(n),
    ensures
        has_place(p, n, i) <==> p.roomy(n, i),
        line(n, p.level) == slots(n, p.level),
        blank(p) <==> p.vacant(),
{
    p.lemma_any(n);
    lemma_lanes(p.level);
}

/// A value that can be counted right away.
proof fn lemma_recorded_now(p: Layout, n: int, key: int, from: int, incr: nat)
    requires
        p.ready(n, key, from, incr),
    ensures
        p.recorded(n, key, from, incr) == p.counted(bucket_at_scale(key, from, p.scale), incr),
        !p.record_runs_out(n, key, from, incr),
{
    assert(p.adjusted_times(n, key, from, 0) == p);
    assert(p.is_settled(n, key, from, incr, 0));
    assert(!p.adjusts_run_out(n, key, from, 0));
    let k = choose|k: nat| p.is_settled(n, key, from, incr, k);
    p.lemma_settled_unique(n, key, from, incr, k, 0);
}

/// A value that can be counted after one adjustment.
proof fn lemma_recorded_next(p: Layout, n: int, key: int, from: int, incr: nat)
    requires
        !p.ready(n, key, from, incr),
        p.adjusted(n, bucket_at_scale(key, from, p.scale)).ready(n, key, from, incr),
    ensures
        ({
            let q = p.adjusted(n, bucket_at_scale(key, from, p.scale));
            p.recorded(n, key, from, incr) == q.counted(bucket_at_scale(key, from, q.scale), incr)
        }),
        !p.adjust_runs_out(n, bucket_at_scale(key, from, p.scale)) ==> !p.record_runs_out(
            n,
            key,
            from,
            incr,
        ),
{
    assert(p.adjusted_times(n, key, from, 0) == p);
    assert(!p.adjusts_run_out(n, key, from, 0));
    assert(p.adjusts_run_out(n, key, from, 1) == p.adjust_runs_out(
        n,
        bucket_at_scale(key, from, p.scale),
    ));
    assert(p.adjusted_times(n, key, from, 1) == p.adjusted(n, bucket_at_scale(key, from, p.scale)));
    assert(p.is_settled(n, key, from, incr, 1));
    let k = choose|k: nat| p.is_settled(n, key, from, incr, k);
    p.lemma_settled_unique(n, key, from, incr, k, 1);
}

/// An adjustment within the supported scales lowers the scale.
proof fn lemma_adjust_drops(p: Layout, n: int, i: int, incr: nat)
    requires
        p.valid(n),
        bottom() <= i < top(),
        !(p.roomy(n, i) && (p.counts)(i) + incr <= capacity(p.level)),
        total(p.counts, bottom(), top()) + incr <= u64::MAX,
        !p.adjust_runs_out(n, i),
    ensures
        p.adjusted(n, i).scale < p.scale,
{
    p.lemma_adjusted(n, i, incr);
    if p.roomy(n, i) {
        p.lemma_seated(n, i);
        p.seated(i).lemma_widened(n);
    } else {
        let by = steps_to_fit(lower(p.low, i), upper(p.high, i), slots(n, p.level));
        if by > 0 {
            p.lemma_lowered(n, by as int);
        } else if p.level < 6 {
            p.lemma_widened(n);
        } else {
            p.lemma_lowered(n, 1);
        }
    }
}

/// Further adjustments never raise the scale.
proof fn lemma_times_fall(p: Layout, n: int, key: int, from: int, incr: nat, m: nat, k: nat)
    requires
        p.valid(n),
        p.scale <= from <= TABLE_SCALE,
        bottom() <= key < top(),
        total(p.counts, bottom(), top()) + incr <= u64::MAX,
        p.is_settled(n, key, from, incr, m),
        1 <= k <= m,
    ensures
        p.adjusted_times(n, key, from, k).scale <= p.adjusted_times(n, key, from, 1).scale,
    decreases k,
{
    if k > 1 {
        let j = (k - 1) as nat;
        lemma_times_fall(p, n, key, from, incr, m, j);
        p.lemma_reaches(n, key, from, incr, m, j);
        let before = p.adjusted_times(n, key, from, j);
        let i = bucket_at_scale(key, from, before.scale);
        before.lemma_key(n, key, from);
        assert(!before.ready(n, key, from, incr));
        before.lemma_adjusted(n, i, incr);
    }
}

/// A value that cannot be counted right away lowers the scale.
proof fn lemma_recorded_drops(p: Layout, n: int, key: int, from: int, incr: nat)
    requires
        p.valid(n),
        p.scale <= from <= TABLE_SCALE,
        bottom() <= key < top(),
        total(p.counts, bottom(), top()) + incr <= u64::MAX,
        !p.ready(n, key, from, incr),
        !p.record_runs_out(n, key, from, incr),
    ensures
        p.recorded(n, key, from, incr).scale < p.scale,
{
    let m = choose|m: nat|
        #[trigger] p.is_settled(n, key, from, incr, m) && !p.adjusts_run_out(n, key, from, m);
    let k = choose|k: nat| p.is_settled(n, key, from, incr, k);
    p.lemma_settled_unique(n, key, from, incr, k, m);
    assert(p.adjusted_times(n, key, from, 0) == p);
    assert(m >= 1);
    if p.adjusts_run_out(n, key, from, 1) {
        p.lemma_still_out(n, key, from, 1, m);
    }
    let i = bucket_at_scale(key, from, p.scale);
    assert(!p.adjusts_run_out(n, key, from, 0));
    assert(!p.adjust_runs_out(n, i));
    p.lemma_key(n, key, from);
    lemma_adjust_drops(p, n, i, incr);
    assert(p.adjusted_times(n, key, from, 1) == p.adjusted(n, i));
    lemma_times_fall(p, n, key, from, incr, m, m);
}

/// The layout that a reader sees after a value, unless it joined the raw values more than once.
proof fn lemma_after<const N: usize>(
    before: Histogram<N>,
    after: Histogram<N>,
    bits: u64,
    incr: u64,
    sum: u64,
)
    requires
        before.wf(),
        after.wf(),
        countable(bits),
        incr > 0,
        incr == 1 || !before.literal() || before.literals().len() + incr > N,
        updated(before, after, bits, incr, sum),
    ensures
        before.layout().valid(N as int),
        before.layout().scale <= TABLE_SCALE,
        after.layout() == before.layout().recorded(
            N as int,
            key_of(bits),
            TABLE_SCALE as int,
            incr as nat,
        ),
        bottom() <= key_of(bits) < top(),
        forall|s: int|
            MIN_SCALE <= s <= TABLE_SCALE ==> #[trigger] bucket_at_scale(
                key_of(bits),
                TABLE_SCALE as int,
                s,
            ) == index_of(bits, s),
        total(before.layout().counts, bottom(), top()) <= before.stats_of().count,
        !before.literal() ==> !before.replay_out(),
{
    before.lemma_wf();
    after.lemma_wf();
    crate::float64::lemma_parts(bits);
    if before.literal() && before.literals().len() + incr <= N {
        law_literal_transparent(before, after, bits, sum);
    }
    assert forall|s: int| MIN_SCALE <= s <= TABLE_SCALE implies #[trigger] bucket_at_scale(
        key_of(bits),
        TABLE_SCALE as int,
        s,
    ) == index_of(bits, s) by {
        lemma_key_of(bits, s);
    }
    lemma_key_of(bits, TABLE_SCALE as int);
    crate::layout::lemma_side(TABLE_SCALE as int);
}

/// A value that has its place, and whose counter has room, is counted there and nothing else
/// changes. The first value of an empty pool sets the base at the start of its word. Any other
/// value lowers the scale.
pub proof fn law_in_place<const N: usize>(
    before: Histogram<N>,
    after: Histogram<N>,
    bits: u64,
    incr: u64,
    sum: u64,
)
    requires
        before.wf(),
        after.wf(),
        countable(bits),
        incr > 0,
        before.stats_of().count + incr <= u64::MAX,
        incr == 1 || !before.literal() || before.literals().len() + incr > N,
        updated(before, after, bits, incr, sum),
    ensures
        ({
            let p = before.layout();
            let q = after.layout();
            let i = index_of(bits, p.scale);
            let fits = has_place(p, N as int, i) && (p.counts)(i) + incr < pow2(pow2(p.level));
            &&& fits ==> {
                &&& q.scale == p.scale
                &&& q.level == p.level
                &&& q.counts == plus(p.counts, i, incr as nat)
                &&& !blank(p) ==> q.base == p.base && q.low == lower(p.low, i) && q.high == upper(
                    p.high,
                    i,
                )
                &&& blank(p) ==> q.base <= i < q.base + pow2((6 - p.level) as nat) && q.low == i
                    && q.high == i && q.base % (pow2((6 - p.level) as nat) as int) == 0
                &&& !before.literal() ==> !before.update_runs_out(bits, incr)
            }
            &&& !fits && !p.record_runs_out(
                N as int,
                key_of(bits),
                TABLE_SCALE as int,
                incr as nat,
            ) ==> q.scale < p.scale
        }),
{
    lemma_after(before, after, bits, incr, sum);
    let n = N as int;
    let p = before.layout();
    let i = index_of(bits, p.scale);
    let key = key_of(bits);
    let from = TABLE_SCALE as int;
    assert(bucket_at_scale(key, from, p.scale) == i);
    lemma_place(p, n, i);
    lemma_capacity(p.level);
    if p.ready(n, key, from, incr as nat) {
        lemma_recorded_now(p, n, key, from, incr as nat);
        lemma_lanes(p.level);
        crate::width::lemma_word_of(i, p.level);
        let w = crate::width::word_of(i, p.level);
        crate::arith::lemma_div_unique(w * lanes(p.level), lanes(p.level), w, 0);
    } else if !p.record_runs_out(n, key, from, incr as nat) {
        lemma_recorded_drops(p, n, key, from, incr as nat);
    }
}

/// Narrow counters that hold the sums are merged in place.
proof fn lemma_merge_exact(p: Layout, n: int, c: nat)
    requires
        p.valid(n),
        p.level < 6,
        !p.vacant(),
        c <= p.scale - MIN_SCALE,
        at_most(coarsen(p.counts, c), capacity(p.level)),
        c > 0 ==> !p.crowded(n),
    ensures
        p.merged_by(n, c as int) == (Layout {
            scale: p.scale - c,
            level: p.level,
            base: p.base / pow2(c) as int,
            low: p.low / pow2(c) as int,
            high: p.high / pow2(c) as int,
            counts: coarsen(p.counts, c),
        }),
        !p.merge_by_runs_out(n, c as int),
    decreases c,
{
    lemma2_to64();
    if c == 0 {
        lemma_coarsen_zero(p.counts);
        assert(p.base / 1 == p.base && p.low / 1 == p.low && p.high / 1 == p.high);
    } else {
        p.lemma_counts(n);
        lemma_coarsen_twice(p.counts, 1, (c - 1) as nat);
        assert(1 + (c - 1) as nat == c);
        crate::scale_laws::lemma_finer_holds(p.counts, 1, c, capacity(p.level));
        p.lemma_merged(n, false);
        let q = p.merged(n, false);
        lemma_lanes(p.level);
        assert(slots(n, p.level) >= 4) by (nonlinear_arith)
            requires
                slots(n, p.level) == n * lanes(p.level),
                n >= 2,
                lanes(p.level) >= 2,
        ;
        assert(q == p.halved(n, false));
        assert(q.level == p.level);
        assert(q.high == p.high / 2);
        p.lemma_not_vacant(q, n);
        if c > 1 {
            assert((q.counts)(q.base + slots(n, q.level) - 1) == 0);
            lemma_merge_exact(q, n, (c - 1) as nat);
        } else {
            lemma_coarsen_zero(q.counts);
        }
        lemma_shift_twice(p.base, 1, (c - 1) as nat);
        lemma_shift_twice(p.low, 1, (c - 1) as nat);
        lemma_shift_twice(p.high, 1, (c - 1) as nat);
    }
}

/// Lowering the scale where the counters hold the sums.
proof fn lemma_lower_exact(p: Layout, n: int, c: nat) -> (q: Layout)
    requires
        p.valid(n),
        !p.vacant(),
        0 < c <= p.scale - MIN_SCALE,
        p.level < 6 ==> at_most(coarsen(p.counts, c), capacity(p.level)) && !p.crowded(n),
    ensures
        q == p.lowered(n, c as int),
        !p.lower_runs_out(n, c as int),
        q.valid(n),
        !q.vacant(),
        q.scale == p.scale - c,
        q.level == p.level,
        p.level < 6 ==> q.base == p.base / pow2(c) as int,
        q.counts == coarsen(p.counts, c),
        p.low / pow2(c) as int <= q.low <= q.high <= p.high / pow2(c) as int,
{
    p.lemma_lowered(n, c as int);
    let q = p.lowered(n, c as int);
    p.lemma_not_vacant(q, n);
    if p.level < 6 {
        lemma_merge_exact(p, n, c);
    }
    let r = p.merged_by(n, c as int);
    lemma_pow2_pos(c);
    lemma_div_mono(p.low, p.high, pow2(c) as int);
    let high = crate::layout::trim_high(r.counts, r.low, r.high);
    lemma_trim_high(r.counts, r.low, r.high);
    lemma_trim_low(r.counts, r.low, high);
    q
}

/// A longer way to the least number of halvings.
proof fn lemma_least(low: int, high: int, size: int, c: nat)
    requires
        low <= high,
        0 < c,
        (high / pow2(c) as int) - (low / pow2(c) as int) < size,
        (high / pow2((c - 1) as nat) as int) - (low / pow2((c - 1) as nat) as int) >= size,
    ensures
        is_change(low, high, size, c),
        steps_to_fit(low, high, size) == c,
{
    assert forall|e: nat| e < c implies #[trigger] (high / pow2(e) as int) - (low / pow2(e) as int)
        >= size by {
        let r = (c - 1 - e) as nat;
        lemma_shift_twice(low, e, r);
        lemma_shift_twice(high, e, r);
        assert(e + r == (c - 1) as nat);
        lemma_pow2_pos(e);
        lemma_pow2_pos(r);
        lemma_div_mono(low, high, pow2(e) as int);
        lemma_span(low / pow2(e) as int, high / pow2(e) as int, pow2(r) as int);
    }
    lemma_change_unique(low, high, size, c, steps_to_fit(low, high, size));
}

/// The scale drops by the least number of steps after which all live buckets and that of the value
/// are no more than there are counters. For counters narrower than a word this takes that they
/// hold all counts there, that the value does not lie below the base nor past the end of the
/// line, and that pairs of counters line up: the base is even or the topmost counter is unused.
/// Counters of 64 bits take nothing more.
pub proof fn law_least_drop<const N: usize>(
    before: Histogram<N>,
    after: Histogram<N>,
    bits: u64,
    incr: u64,
    sum: u64,
    c: nat,
)
    requires
        before.wf(),
        after.wf(),
        countable(bits),
        incr > 0,
        before.stats_of().count + incr <= u64::MAX,
        incr == 1 || !before.literal() || before.literals().len() + incr > N,
        updated(before, after, bits, incr, sum),
        ({
            let p = before.layout();
            let i = index_of(bits, p.scale);
            let low = lower(p.low, i);
            let high = upper(p.high, i);
            let size = line(N as int, p.level);
            &&& !blank(p)
            &&& 0 < c <= p.scale - MIN_SCALE
            &&& (high / pow2(c) as int) - (low / pow2(c) as int) < size
            &&& (high / pow2((c - 1) as nat) as int) - (low / pow2((c - 1) as nat) as int) >= size
            &&& p.level < 6 ==> {
                &&& forall|j: int|
                    #[trigger] with_value(p, bits, incr, p.scale - c)(j) < pow2(pow2(p.level))
                &&& p.base <= i
                &&& i / (pow2(c) as int) < p.base / (pow2(c) as int) + size
                &&& p.base % 2 == 0 || (p.counts)(p.base + size - 1) == 0
            }
        }),
    ensures
        after.layout().scale == before.layout().scale - c,
        after.layout().level == before.layout().level,
        after.layout().counts == with_value(
            before.layout(),
            bits,
            incr,
            before.layout().scale - c,
        ),
        !before.literal() ==> !before.update_runs_out(bits, incr),
{
    lemma_after(before, after, bits, incr, sum);
    let n = N as int;
    let p = before.layout();
    let i = index_of(bits, p.scale);
    let key = key_of(bits);
    let from = TABLE_SCALE as int;
    let low = lower(p.low, i);
    let high = upper(p.high, i);
    assert(bucket_at_scale(key, from, p.scale) == i);
    lemma_place(p, n, i);
    lemma_capacity(p.level);
    let s = p.scale - c;
    let f = with_value(p, bits, incr, s);
    let x = index_of(bits, s);
    assert(bucket_at_scale(key, from, s) == x);
    lemma_shift_twice(key, (from - p.scale) as nat, c);
    assert((from - p.scale) as nat + c == (from - s) as nat);
    assert(x == i / pow2(c) as int);
    lemma_least(low, high, slots(n, p.level), c);
    lemma2_to64();
    assert(is_change(low, high, slots(n, p.level), c));
    assert((high / pow2(0) as int) - (low / pow2(0) as int) >= slots(n, p.level));
    assert(high / 1 == high && low / 1 == low);
    assert(!p.roomy(n, i));
    if p.level < 6 {
        assert forall|j: int| #[trigger] coarsen(p.counts, c)(j) <= capacity(p.level) by {
            assert(f(j) < pow2(pow2(p.level)));
        }
    }
    let q = lemma_lower_exact(p, n, c);
    lemma_pow2_pos(c);
    lemma_div_mono(low, p.low, pow2(c) as int);
    lemma_div_mono(low, i, pow2(c) as int);
    lemma_div_mono(p.high, high, pow2(c) as int);
    lemma_div_mono(i, high, pow2(c) as int);
    if p.level < 6 {
        lemma_div_mono(p.base, i, pow2(c) as int);
    }
    assert((q.counts)(x) + incr <= capacity(p.level)) by {
        if p.level < 6 {
            assert(f(x) < pow2(pow2(p.level)));
        } else {
            p.lemma_counts(n);
            crate::downscale::lemma_coarsen_inside(p.counts, c, top());
            q.lemma_counts(n);
            if (q.counts)(x) != 0 {
                crate::counts::lemma_total_member(q.counts, bottom(), top(), x);
            }
        }
    }
    assert(p.adjusted(n, i) == q);
    assert(q.roomy(n, x));
    lemma_recorded_next(p, n, key, from, incr as nat);
}

/// A value that has its place, but whose counter is full, lowers the scale by one step and doubles
/// the width of the counters, if that is enough and pairs of counters line up: the base is even, or
/// the topmost counter is unused and not that of the value.
pub proof fn law_wider_counters<const N: usize>(
    before: Histogram<N>,
    after: Histogram<N>,
    bits: u64,
    incr: u64,
    sum: u64,
)
    requires
        before.wf(),
        after.wf(),
        countable(bits),
        incr > 0,
        before.stats_of().count + incr <= u64::MAX,
        incr == 1 || !before.literal() || before.literals().len() + incr > N,
        updated(before, after, bits, incr, sum),
        ({
            let p = before.layout();
            let i = index_of(bits, p.scale);
            let end = p.base + line(N as int, p.level) - 1;
            &&& !blank(p)
            &&& p.scale > MIN_SCALE
            &&& p.level < 6
            &&& has_place(p, N as int, i)
            &&& (p.counts)(i) + incr >= pow2(pow2(p.level))
            &&& with_value(p, bits, incr, p.scale - 1)(index_of(bits, p.scale - 1)) < pow2(
                pow2(p.level + 1),
            )
            &&& p.base % 2 == 0 || ((p.counts)(end) == 0 && i < end)
        }),
    ensures
        after.layout().scale == before.layout().scale - 1,
        after.layout().level == before.layout().level + 1,
        after.layout().counts == with_value(
            before.layout(),
            bits,
            incr,
            before.layout().scale - 1,
        ),
        !before.literal() ==> !before.update_runs_out(bits, incr),
{
    lemma_after(before, after, bits, incr, sum);
    let n = N as int;
    let p = before.layout();
    let i = index_of(bits, p.scale);
    let key = key_of(bits);
    let from = TABLE_SCALE as int;
    assert(bucket_at_scale(key, from, p.scale) == i);
    lemma_place(p, n, i);
    lemma_capacity(p.level);
    lemma_capacity(p.level + 1);
    lemma2_to64();
    let s = p.scale - 1;
    let x = index_of(bits, s);
    assert(bucket_at_scale(key, from, s) == x);
    lemma_shift_twice(key, (from - p.scale) as nat, 1);
    assert((from - p.scale) as nat + 1 == (from - s) as nat);
    assert(x == i / 2);
    p.lemma_key(n, key, from);
    p.lemma_seated(n, i);
    p.lemma_counts(n);
    let r = p.seated(i);
    assert(!r.vacant());
    assert(!r.crowded(n));
    r.lemma_halved(n, true);
    let q = p.adjusted(n, i);
    assert(q == r.halved(n, true));
    assert(slots(n, p.level) == 2 * slots(n, q.level));
    assert(r.low <= i <= r.high);
    lemma_div_mono(r.low, i, 2);
    lemma_div_mono(i, r.high, 2);
    assert(x <= q.high) by {
        if p.base % 2 == 0 {
            assert(i <= p.base + 2 * slots(n, q.level) - 1);
        } else {
            assert(i <= p.base + 2 * slots(n, q.level) - 2);
        }
    }
    assert(q.roomy(n, x));
    assert((q.counts)(x) + incr <= capacity(q.level));
    lemma_recorded_next(p, n, key, from, incr as nat);
}

/// The first value of an empty pool widens the counters to what it takes, one step of the scale for
/// each doubling.
pub proof fn law_first_value<const N: usize>(
    before: Histogram<N>,
    after: Histogram<N>,
    bits: u64,
    incr: u64,
    sum: u64,
    k: nat,
)
    requires
        before.wf(),
        after.wf(),
        countable(bits),
        incr > 0,
        before.stats_of().count + incr <= u64::MAX,
        incr == 1 || !before.literal() || before.literals().len() + incr > N,
        updated(before, after, bits, incr, sum),
        blank(before.layout()),
        before.layout().level <= k <= 6,
        incr < pow2(pow2(k)),
        k > before.layout().level ==> incr >= pow2(pow2((k - 1) as nat)),
        before.layout().scale - (k - before.layout().level) >= MIN_SCALE,
    ensures
        after.layout().level == k,
        after.layout().scale == before.layout().scale - (k - before.layout().level),
        after.layout().counts == plus(
            no_counts(),
            index_of(bits, after.layout().scale),
            incr as nat,
        ),
        !before.literal() ==> !before.update_runs_out(bits, incr),
{
    lemma_after(before, after, bits, incr, sum);
    let n = N as int;
    let p = before.layout();
    let key = key_of(bits);
    let from = TABLE_SCALE as int;
    let j = (k - p.level) as nat;
    lemma_place(p, n, 0);
    lemma_widening(p, n, key, from, incr as nat, j, j);
    let q = p.adjusted_times(n, key, from, j);
    let x = bucket_at_scale(key, from, q.scale);
    lemma_capacity(k);
    assert((q.counts)(x) == 0);
    assert(q.ready(n, key, from, incr as nat));
    assert(p.is_settled(n, key, from, incr as nat, j));
    let m = choose|m: nat| p.is_settled(n, key, from, incr as nat, m);
    p.lemma_settled_unique(n, key, from, incr as nat, m, j);
    assert(q.counts =~= no_counts());
}

/// An empty pool widens step by step.
proof fn lemma_widening(p: Layout, n: int, key: int, from: int, incr: nat, j: nat, m: nat)
    requires
        p.valid(n),
        p.vacant(),
        p.scale <= from <= TABLE_SCALE,
        bottom() <= key < top(),
        total(p.counts, bottom(), top()) + incr <= u64::MAX,
        j <= m,
        p.level + m <= 6,
        p.scale - m >= MIN_SCALE,
        m > 0 ==> incr >= pow2(pow2((p.level + m - 1) as nat)),
    ensures
        ({
            let q = p.adjusted_times(n, key, from, j);
            &&& q.valid(n)
            &&& q.vacant()
            &&& q.scale == p.scale - j
            &&& q.level == p.level + j
            &&& forall|i: int| #[trigger] (q.counts)(i) == 0
        }),
        !p.adjusts_run_out(n, key, from, j),
        forall|i: nat| i < j ==> !#[trigger] p.adjusted_times(n, key, from, i).ready(
            n,
            key,
            from,
            incr,
        ),
    decreases j,
{
    if j == 0 {
        lemma_place(p, n, 0);
    } else {
        let h = (j - 1) as nat;
        lemma_widening(p, n, key, from, incr, h, m);
        let r = p.adjusted_times(n, key, from, h);
        let i = bucket_at_scale(key, from, r.scale);
        r.lemma_key(n, key, from);
        r.lemma_seated(n, i);
        lemma_capacity(r.level);
        crate::width::lemma_capacity_mono(r.level, (p.level + m - 1) as nat);
        lemma_capacity((p.level + m - 1) as nat);
        assert(!r.ready(n, key, from, incr));
        let t = r.seated(i);
        assert(t.vacant());
        t.lemma_widened(n);
        let q = p.adjusted_times(n, key, from, j);
        assert(q == r.adjusted(n, i));
        assert(q == t.widened(n));
        assert forall|x: int| #[trigger] (q.counts)(x) == 0 by {
            t.lemma_vacant_coarser(n, 1);
        }
    }
}

/// Foreign bucket `j` of the given scale, at the scale `s`.
pub open spec fn foreign(j: int, scale: int, s: int) -> int {
    j / pow2((scale - s) as nat) as int
}

/// The buckets of a layout and a run of foreign buckets, at the scale `s`.
pub open spec fn with_run(p: Layout, scale: int, offset: int, counts: Seq<u64>, s: int) -> Counts {
    both(
        shown(p, s),
        coarsen(listed(counts, offset, counts.len() as int), (scale - s) as nat),
    )
}

/// Lowest bucket, at the scale `s`, of a layout and a run of foreign buckets.
pub open spec fn run_low(p: Layout, scale: int, offset: int, s: int) -> int {
    let own = p.low / pow2((p.scale - s) as nat) as int;
    if blank(p) {
        foreign(offset, scale, s)
    } else {
        lower(own, foreign(offset, scale, s))
    }
}

/// Highest bucket, likewise, for a run that ends with bucket `last`.
pub open spec fn run_high(p: Layout, scale: int, last: int, s: int) -> int {
    let own = p.high / pow2((p.scale - s) as nat) as int;
    if blank(p) {
        foreign(last, scale, s)
    } else {
        upper(own, foreign(last, scale, s))
    }
}

/// The first `len` foreign buckets have been counted in place.
spec fn placed_run(
    r: Layout,
    n: int,
    scale: int,
    offset: int,
    counts: Seq<u64>,
    len: int,
    base: int,
    low: int,
    high: int,
) -> bool {
    let q = absorbed(r, n, scale, offset, counts, len);
    &&& q.valid(n)
    &&& !q.vacant()
    &&& q.scale == r.scale
    &&& q.level == r.level
    &&& q.level < 6 ==> q.base == base
    &&& low <= q.low
    &&& q.high <= high
    &&& q.counts == both(
        r.counts,
        coarsen(listed(counts, offset, len), (scale - r.scale) as nat),
    )
    &&& !absorb_runs_out(r, n, scale, offset, counts, len)
    &&& total(q.counts, bottom(), top()) == total(r.counts, bottom(), top()) + sum_of(counts, len)
}

/// Fewer buckets of a run, fewer counts.
proof fn lemma_listed_less(counts: Seq<u64>, offset: int, len: int, d: nat, x: int)
    requires
        0 <= len <= counts.len(),
    ensures
        coarsen(listed(counts, offset, len), d)(x) <= coarsen(
            listed(counts, offset, counts.len() as int),
            d,
        )(x),
{
    let f = listed(counts, offset, len);
    let g = listed(counts, offset, counts.len() as int);
    crate::counts::lemma_total_le(f, g, x * pow2(d), (x + 1) * pow2(d));
}

/// One more foreign bucket adds its count where it falls.
proof fn lemma_listed_next(counts: Seq<u64>, offset: int, len: int, d: nat)
    requires
        0 < len <= counts.len(),
    ensures
        coarsen(listed(counts, offset, len), d) =~= plus(
            coarsen(listed(counts, offset, len - 1), d),
            (offset + len - 1) / pow2(d) as int,
            counts[len - 1] as nat,
        ),
{
    let last = offset + len - 1;
    assert(listed(counts, offset, len) =~= plus(
        listed(counts, offset, len - 1),
        last,
        counts[len - 1] as nat,
    ));
    crate::counts::lemma_coarsen_plus(
        listed(counts, offset, len - 1),
        last,
        counts[len - 1] as nat,
        d,
    );
}

/// The bucket of a foreign bucket at a scale that both have.
proof fn lemma_foreign(j: int, scale: int, s: int)
    requires
        s <= import_scale(scale),
    ensures
        bucket_at_scale(import_key(j, scale), import_scale(scale), s) == foreign(j, scale, s),
{
    let from = import_scale(scale);
    lemma_shift_twice(j, (scale - from) as nat, (from - s) as nat);
    assert((scale - from) as nat + (from - s) as nat == (scale - s) as nat);
}

/// Foreign buckets that have their place, and whose counters have room, are counted in place.
proof fn lemma_placed_run(
    r: Layout,
    n: int,
    scale: int,
    offset: int,
    counts: Seq<u64>,
    from: int,
    len: int,
    base: int,
    low: int,
    high: int,
)
    requires
        0 <= from <= len <= counts.len(),
        placed_run(r, n, scale, offset, counts, from, base, low, high),
        MIN_SCALE <= r.scale <= import_scale(scale),
        importable(scale, offset, counts.len() as int),
        high - low < slots(n, r.level),
        r.level < 6 ==> base <= low && high < base + slots(n, r.level),
        forall|j: int|
            0 <= j < counts.len() ==> low <= #[trigger] foreign(offset + j, scale, r.scale) <= high,
        forall|x: int|
            #[trigger] both(
                r.counts,
                coarsen(listed(counts, offset, counts.len() as int), (scale - r.scale) as nat),
            )(x) <= capacity(r.level),
        total(r.counts, bottom(), top()) + sum_of(counts, counts.len() as int) <= u64::MAX,
    ensures
        placed_run(r, n, scale, offset, counts, len, base, low, high),
    decreases len,
{
    if len > from {
        lemma_placed_run(r, n, scale, offset, counts, from, len - 1, base, low, high);
        let d = (scale - r.scale) as nat;
        let q = absorbed(r, n, scale, offset, counts, len - 1);
        let c = counts[len - 1];
        let i = foreign(offset + (len - 1), scale, r.scale);
        let key = import_key(offset + len - 1, scale);
        lemma_listed_next(counts, offset, len, d);
        let now = both(r.counts, coarsen(listed(counts, offset, len), d));
        assert(plus(q.counts, i, c as nat) =~= now);
        if c == 0 {
            assert(now =~= q.counts);
        } else {
            lemma_import_key(scale, offset, counts.len() as int, offset + len - 1);
            lemma_foreign(offset + len - 1, scale, r.scale);
            lemma_listed_less(counts, offset, len, d, i);
            let all = both(
                r.counts,
                coarsen(listed(counts, offset, counts.len() as int), d),
            );
            assert(all(i) <= capacity(r.level));
            assert(now(i) <= all(i));
            assert(low <= i <= high);
            assert(q.roomy(n, i));
            q.lemma_key(n, key, import_scale(scale));
            crate::replay::lemma_sum_of(counts, len, counts.len() as int);
            assert(q.ready(n, key, import_scale(scale), c as nat));
            lemma_recorded_now(q, n, key, import_scale(scale), c as nat);
            q.lemma_counted(n, i, c as nat);
            assert(q.adjusted_times(n, key, import_scale(scale), 0) == q);
            assert(q.is_settled(n, key, import_scale(scale), c as nat, 0));
            assert(!q.adjusts_run_out(n, key, import_scale(scale), 0));
        }
    }
}

/// The conditions under which a run of foreign buckets takes no more than `c` steps below the
/// lower of both scales: the least number after which all buckets of both are no more than there
/// are counters. For counters narrower than a word this takes that they hold all counts there, that
/// all buckets stand in the line from the base up, and that pairs of counters line up.
pub open spec fn run_fits(
    p: Layout,
    n: int,
    scale: int,
    offset: int,
    counts: Seq<u64>,
    c: nat,
) -> bool {
    let s = lower(p.scale, lower(scale, TABLE_SCALE as int)) - c;
    let by = p.scale - s;
    let last = offset + counts.len() - 1;
    let size = line(n, p.level);
    let low = run_low(p, scale, offset, s);
    let high = run_high(p, scale, last, s);
    let base = if blank(p) {
        // The first counted bucket sets the base at the start of its word.
        low / pow2((6 - p.level) as nat) as int * pow2((6 - p.level) as nat)
    } else {
        p.base / pow2(by as nat) as int
    };
    &&& counts.len() > 0
    &&& blank(p) ==> counts[0] > 0
    &&& s >= MIN_SCALE
    &&& high - low < size
    &&& c > 0 ==> run_high(p, scale, last, s + 1) - run_low(p, scale, offset, s + 1) >= size
    &&& forall|x: int|
        #[trigger] with_run(p, scale, offset, counts, s)(x) < pow2(pow2(p.level))
    &&& p.level < 6 ==> {
        &&& base <= low
        &&& high < base + size
        &&& by > 0 ==> p.base % 2 == 0 || (p.counts)(p.base + size - 1) == 0
    }
}

/// The range of a layout and a run at one scale lower.
proof fn lemma_run_range(p: Layout, scale: int, offset: int, last: int, m: int, c: nat)
    requires
        m <= p.scale,
        m <= scale,
        p.low <= p.high,
        offset <= last,
    ensures
        run_low(p, scale, offset, m - c) == run_low(p, scale, offset, m) / pow2(c) as int,
        run_high(p, scale, last, m - c) == run_high(p, scale, last, m) / pow2(c) as int,
        run_low(p, scale, offset, m) <= run_high(p, scale, last, m),
{
    let a = (p.scale - m) as nat;
    let b = (scale - m) as nat;
    lemma_shift_twice(p.low, a, c);
    lemma_shift_twice(p.high, a, c);
    lemma_shift_twice(offset, b, c);
    lemma_shift_twice(last, b, c);
    assert(a + c == (p.scale - (m - c)) as nat && b + c == (scale - (m - c)) as nat);
    lemma_pow2_pos(a);
    lemma_pow2_pos(b);
    lemma_pow2_pos(c);
    lemma_div_mono(p.low, p.high, pow2(a) as int);
    lemma_div_mono(offset, last, pow2(b) as int);
    let x = p.low / pow2(a) as int;
    let y = foreign(offset, scale, m);
    if x <= y {
        lemma_div_mono(x, y, pow2(c) as int);
    } else {
        lemma_div_mono(y, x, pow2(c) as int);
    }
    let x = p.high / pow2(a) as int;
    let y = foreign(last, scale, m);
    if x <= y {
        lemma_div_mono(x, y, pow2(c) as int);
    } else {
        lemma_div_mono(y, x, pow2(c) as int);
    }
}

/// Where a run fits it is merged at that scale, with counters as wide as before.
#[verifier::rlimit(40)]
proof fn lemma_import_exact(p: Layout, n: int, scale: int, offset: int, counts: Seq<u64>, c: nat)
    requires
        p.valid(n),
        importable(scale, offset, counts.len() as int),
        total(p.counts, bottom(), top()) + sum_of(counts, counts.len() as int) <= u64::MAX,
        run_fits(p, n, scale, offset, counts, c),
    ensures
        ({
            let s = lower(p.scale, lower(scale, TABLE_SCALE as int)) - c;
            let q = imported(p, n, scale, offset, counts);
            &&& q.scale == s
            &&& q.level == p.level
            &&& q.counts == with_run(p, scale, offset, counts, s)
            &&& !import_runs_out(p, n, scale, offset, counts)
        }),
{
    let from = import_scale(scale);
    let m = lower(p.scale, from);
    let s = m - c;
    let by = p.scale - s;
    let len = counts.len() as int;
    let last = offset + len - 1;
    let size = slots(n, p.level);
    lemma_place(p, n, 0);
    lemma_capacity(p.level);
    lemma_import_key(scale, offset, len, offset);
    lemma_import_key(scale, offset, len, last);
    lemma_foreign(offset, scale, m);
    lemma_foreign(last, scale, m);
    let a = joint_low(p, m, from, import_key(offset, scale));
    let b = joint_high(p, m, from, import_key(last, scale));
    assert(a == run_low(p, scale, offset, m) && b == run_high(p, scale, last, m));
    lemma_run_range(p, scale, offset, last, m, c);
    let low = run_low(p, scale, offset, s);
    let high = run_high(p, scale, last, s);
    if c > 0 {
        lemma_run_range(p, scale, offset, last, m, (c - 1) as nat);
        assert(m - (c - 1) as nat == s + 1);
        lemma_least(a, b, size, c);
    } else {
        lemma2_to64();
        assert(a / 1 == a && b / 1 == b);
        assert(is_change(a, b, size, 0));
        lemma_change_unique(a, b, size, 0, steps_to_fit(a, b, size));
    }
    assert(joint_scale(p, n, from, import_key(offset, scale), import_key(last, scale)) == s);
    let all = with_run(p, scale, offset, counts, s);
    let f = coarsen(p.counts, by as nat);
    let d = (scale - s) as nat;
    assert forall|x: int| #[trigger] f(x) <= capacity(p.level) by {
        assert(all(x) < pow2(pow2(p.level)));
    }
    lemma_coarsen_zero(p.counts);
    lemma2_to64();
    p.lemma_lowered(n, by);
    p.lemma_counts(n);
    crate::downscale::lemma_coarsen_inside(p.counts, by as nat, top());
    let r = p.lowered(n, by);
    assert(p.base / 1 == p.base && p.low / 1 == p.low && p.high / 1 == p.high);
    assert forall|j: int| 0 <= j < counts.len() implies low <= #[trigger] foreign(
        offset + j,
        scale,
        s,
    ) <= high by {
        lemma_pow2_pos(d);
        lemma_div_mono(offset, offset + j, pow2(d) as int);
        lemma_div_mono(offset + j, last, pow2(d) as int);
    }
    assert forall|x: int|
        #[trigger] both(f, coarsen(listed(counts, offset, len), d))(x) <= capacity(p.level) by {
        assert(all(x) < pow2(pow2(p.level)));
    }
    lemma_coarsen_none_at(counts, offset, d);
    if !p.vacant() {
        if by > 0 {
            let q = lemma_lower_exact(p, n, by as nat);
        }
        assert(absorbed(r, n, scale, offset, counts, 0) == r);
        assert(both(r.counts, no_counts()) =~= r.counts);
        let base = p.base / pow2(by as nat) as int;
        assert(placed_run(r, n, scale, offset, counts, 0, base, low, high));
        lemma_placed_run(r, n, scale, offset, counts, 0, len, base, low, high);
    } else {
        p.lemma_vacant_coarser(n, by as nat);
        r.lemma_any(n);
        assert(r.counts =~= no_counts());
        assert(!any(r.counts));
        assert(r.scale == s && r.level == p.level);
        let i = foreign(offset + 0, scale, s);
        assert(i == low);
        lemma_foreign(offset, scale, s);
        let key = import_key(offset, scale);
        lemma_listed_next(counts, offset, 1, d);
        let now = both(r.counts, coarsen(listed(counts, offset, 1), d));
        assert(plus(r.counts, i, counts[0] as nat) =~= now);
        lemma_listed_less(counts, offset, 1, d, i);
        assert(both(f, coarsen(listed(counts, offset, len), d))(i) <= capacity(p.level));
        assert(r.ready(n, key, from, counts[0] as nat));
        r.lemma_key(n, key, from);
        lemma_recorded_now(r, n, key, from, counts[0] as nat);
        crate::replay::lemma_sum_of(counts, 1, len);
        assert(sum_of(counts, 1) == sum_of(counts, 0) + counts[0]);
        r.lemma_counted(n, i, counts[0] as nat);
        assert(r.adjusted_times(n, key, from, 0) == r);
        assert(r.is_settled(n, key, from, counts[0] as nat, 0));
        assert(!r.adjusts_run_out(n, key, from, 0));
        assert(absorbed(r, n, scale, offset, counts, 0) == r);
        assert(!absorb_runs_out(r, n, scale, offset, counts, 0));
        assert(offset + 1 - 1 == offset);
        assert(absorbed(r, n, scale, offset, counts, 1) == r.counted(i, counts[0] as nat));
        lemma_lanes(p.level);
        let base = low / pow2((6 - p.level) as nat) as int * pow2((6 - p.level) as nat);
        assert(placed_run(r, n, scale, offset, counts, 1, base, low, high));
        lemma_placed_run(r, n, scale, offset, counts, 1, len, base, low, high);
    }
    absorbed(r, n, scale, offset, counts, len).lemma_trimmed(n);
}

/// No foreign bucket, no count.
proof fn lemma_coarsen_none_at(counts: Seq<u64>, offset: int, d: nat)
    ensures
        coarsen(listed(counts, offset, 0), d) == no_counts(),
{
    assert(listed(counts, offset, 0) =~= no_counts());
    crate::counts::lemma_coarsen_none(d);
}

/// Merged foreign buckets lower the scale by no more than they must, and leave the width of the
/// counters alone where they fit.
pub proof fn law_raw_merge_drop<const N: usize>(
    before: Histogram<N>,
    after: Histogram<N>,
    stats: Stats,
    buckets: BucketDescriptor,
    counts: Seq<u64>,
    sum: u64,
    c: nat,
)
    requires
        before.wf(),
        after.wf(),
        importable(buckets.scale as int, buckets.offset as int, counts.len() as int),
        before.stats_of().count + sum_of(counts, counts.len() as int) <= u64::MAX,
        absorbed_into(
            before,
            after,
            before.layout(),
            stats,
            buckets.scale as int,
            buckets.offset as int,
            counts,
            sum,
        ),
        run_fits(
            before.layout(),
            N as int,
            buckets.scale as int,
            buckets.offset as int,
            counts,
            c,
        ),
    ensures
        after.layout().scale == lower(
            before.layout().scale,
            lower(buckets.scale as int, TABLE_SCALE as int),
        ) - c,
        after.layout().level == before.layout().level,
        after.layout().counts == with_run(
            before.layout(),
            buckets.scale as int,
            buckets.offset as int,
            counts,
            after.layout().scale,
        ),
        !before.literal() ==> !absorb_out(
            before,
            before.layout(),
            buckets.scale as int,
            buckets.offset as int,
            counts,
        ),
{
    before.lemma_wf();
    after.lemma_wf();
    lemma_import_exact(
        before.layout(),
        N as int,
        buckets.scale as int,
        buckets.offset as int,
        counts,
        c,
    );
}

/// The layout that takes the buckets of another histogram: an empty one adopts wider counters of
/// a histogram of its own size.
pub open spec fn taking<const N: usize, const M: usize>(
    before: Histogram<N>,
    other: Histogram<M>,
    adopt_width: bool,
) -> Layout {
    let p = before.layout();
    Layout {
        level: if adopt_width && blank(p) && other.counters().level > p.level {
            other.counters().level
        } else {
            p.level
        },
        ..p
    }
}

/// A merge of counters lowers the scale below the lower of both by no more than it must, and leaves
/// the width of the counters alone where they fit. An empty histogram adopts wider counters of
/// another one of its size.
pub proof fn law_merge_drop<const N: usize, const M: usize>(
    before: Histogram<N>,
    after: Histogram<N>,
    other: Histogram<M>,
    adopt_width: bool,
    sum: u64,
    c: nat,
)
    requires
        before.wf(),
        after.wf(),
        other.wf(),
        !other.literal(),
        !blank(other.layout()),
        before.stats_of().count + other.stats_of().count <= u64::MAX,
        joined(before, after, other, adopt_width, sum),
        run_fits(
            taking(before, other, adopt_width),
            N as int,
            other.layout().scale,
            other.layout().low,
            other.layout().live(),
            c,
        ),
    ensures
        after.layout().scale == lower(before.layout().scale, other.layout().scale) - c,
        after.layout().level == taking(before, other, adopt_width).level,
        !before.literal() ==> !join_runs_out(before, other, adopt_width),
{
    before.lemma_wf();
    after.lemma_wf();
    other.lemma_wf();
    let q = other.counters();
    lemma_place(q, M as int, 0);
    lemma_place(before.layout(), N as int, 0);
    let p = receiving(before, other, adopt_width);
    assert(p == taking(before, other, adopt_width));
    crate::flat::lemma_live_sum(q, M as int);
    crate::flat::lemma_live_importable(q, M as int);
    crate::flat_laws::lemma_receiving_valid(before, other, adopt_width);
    lemma_import_exact(p, N as int, q.scale, q.low, q.live(), c);
}

/// Lowering the scale by hand takes exactly `change` steps, and leaves the width of the counters
/// alone, where they hold all counts there and, unless they are 64 bits wide, pairs of them line
/// up.
pub proof fn law_lowered<const N: usize>(before: Histogram<N>, change: nat)
    requires
        before.wf(),
        !before.literal(),
        !blank(before.counters()),
        0 < change <= before.counters().scale - MIN_SCALE,
        before.counters().level < 6 ==> {
            let p = before.counters();
            &&& forall|j: int|
                #[trigger] shown(p, p.scale - change)(j) < pow2(pow2(p.level))
            &&& p.base % 2 == 0 || (p.counts)(p.base + line(N as int, p.level) - 1) == 0
        },
    ensures
        ({
            let p = before.counters();
            let q = p.lowered(N as int, change as int);
            &&& q.scale == p.scale - change
            &&& q.level == p.level
            &&& q.counts == shown(p, q.scale)
            &&& !p.lower_runs_out(N as int, change as int)
        }),
{
    before.lemma_wf();
    let p = before.counters();
    lemma_place(p, N as int, 0);
    lemma_capacity(p.level);
    if p.level < 6 {
        assert forall|j: int| #[trigger] coarsen(p.counts, change)(j) <= capacity(p.level) by {
            assert(shown(p, p.scale - change)(j) < pow2(pow2(p.level)));
        }
    }
    let q = lemma_lower_exact(p, N as int, change);
}

/// Counters widened by hand: each step doubles their width and lowers the scale by one, for an
/// empty pool always and otherwise where pairs of counters line up. Counters of 64 bits do not
/// widen.
pub proof fn law_widened<const N: usize>(before: Histogram<N>, steps: int)
    requires
        before.wf(),
        !before.literal(),
    ensures
        ({
            let p = before.counters();
            let n = N as int;
            let r = p.widened_by(n, steps);
            &&& steps <= 0 ==> r == Some(p)
            &&& steps > 0 && p.level == 6 ==> r is None
            &&& blank(p) && 0 <= steps <= p.scale - MIN_SCALE ==> {
                &&& r is Some <==> p.level + steps <= 6
                &&& r is Some ==> r.unwrap().level == p.level + steps && r.unwrap().scale == p.scale
                    - steps && blank(r.unwrap())
            }
            &&& !blank(p) && steps == 1 && p.level < 6 && p.scale > MIN_SCALE && (p.base % 2 == 0 || (
            p.counts)(p.base + line(n, p.level) - 1) == 0) ==> {
                &&& r is Some
                &&& r.unwrap().level == p.level + 1
                &&& r.unwrap().scale == p.scale - 1
                &&& r.unwrap().counts == shown(p, p.scale - 1)
            }
        }),
{
    before.lemma_wf();
    let p = before.counters();
    let n = N as int;
    lemma_place(p, n, 0);
    if blank(p) && 0 <= steps <= p.scale - MIN_SCALE {
        lemma_widened_blank(p, n, steps);
    }
    if !blank(p) && steps == 1 && p.level < 6 && p.scale > MIN_SCALE {
        p.lemma_widened(n);
    }
}

/// An empty pool widens step by step.
proof fn lemma_widened_blank(p: Layout, n: int, steps: int)
    requires
        p.valid(n),
        blank(p),
        0 <= steps <= p.scale - MIN_SCALE,
    ensures
        ({
            let r = p.widened_by(n, steps);
            &&& r is Some <==> p.level + steps <= 6
            &&& r is Some ==> r.unwrap().level == p.level + steps && r.unwrap().scale == p.scale
                - steps && blank(r.unwrap())
        }),
    decreases steps,
{
    if steps > 0 && p.level < 6 {
        lemma_place(p, n, 0);
        p.lemma_widened(n);
        p.lemma_vacant_coarser(n, 1);
        let q = p.widened(n);
        assert(blank(q));
        lemma_widened_blank(q, n, steps - 1);
    }
}

/// After foreign buckets have been merged, the reported range starts and ends with a bucket that
/// has a count.
pub proof fn law_merge_trims<const N: usize>(
    before: Histogram<N>,
    after: Histogram<N>,
    start: Layout,
    stats: Stats,
    scale: int,
    offset: int,
    counts: Seq<u64>,
    sum: u64,
)
    requires
        before.wf(),
        after.wf(),
        counts.len() > 0,
        absorbed_into(before, after, start, stats, scale, offset, counts, sum),
        !blank(after.layout()),
    ensures
        (after.layout().counts)(after.layout().low) > 0,
        (after.layout().counts)(after.layout().high) > 0,
{
    before.lemma_wf();
    after.lemma_wf();
    let q = after.layout();
    let ready = start.lowered(
        N as int,
        start.scale - joint_scale(
            start,
            N as int,
            import_scale(scale),
            import_key(offset, scale),
            import_key(offset + counts.len() - 1, scale),
        ),
    );
    let r = absorbed(ready, N as int, scale, offset, counts, counts.len() as int);
    assert(q == r.trimmed());
    let j = choose|j: int| #[trigger] (q.counts)(j) != 0;
    assert(q.low <= j <= q.high);
    if r.low <= r.high {
        let high = crate::layout::trim_high(r.counts, r.low, r.high);
        lemma_trim_high(r.counts, r.low, r.high);
        lemma_trim_low(r.counts, r.low, high);
    }
}

/// Every run of buckets of a scale from -10 to 20 whose indices fit 32 bits can be merged.
pub proof fn law_importable(buckets: BucketDescriptor)
    requires
        -10 <= buckets.scale <= 20,
        buckets.offset + buckets.len <= 0x8000_0000,
    ensures
        importable(buckets.scale as int, buckets.offset as int, buckets.len as int),
{
}

/// Start of the word of bucket `low`, for counters of `2^k` bits.
pub open spec fn word_start(low: int, k: nat) -> int {
    low / pow2((6 - k) as nat) as int * pow2((6 - k) as nat)
}

/// Pairs of counters do not line up: the base is odd and the topmost counter is in use.
pub open spec fn askew(p: Layout, n: int) -> bool {
    p.base % 2 != 0 && (p.counts)(p.base + line(n, p.level) - 1) != 0
}

/// A range of buckets has room in the line that starts with the word of its lowest, or in as many
/// counters of 64 bits.
pub open spec fn fits_line(low: int, high: int, n: int, k: nat) -> bool {
    if k < 6 {
        high < word_start(low, k) + line(n, k)
    } else {
        high - low < n
    }
}

/// One merge of counters that do not line up rewrites them from a new base.
proof fn lemma_realigned(p: Layout, n: int, wide: bool, k: nat)
    requires
        p.valid(n),
        p.level < 6,
        !p.vacant(),
        p.scale > MIN_SCALE,
        askew(p, n),
        k == p.merged_level(wide),
        fits_line(p.low / 2, p.high / 2, n, k),
    ensures
        p.merged(n, wide) == (Layout {
            scale: p.scale - 1,
            level: k,
            base: word_start(p.low / 2, k),
            low: p.low / 2,
            high: p.high / 2,
            counts: coarsen(p.counts, 1),
        }),
        !p.merge_runs_out(n, wide),
{
    lemma2_to64();
    lemma_place(p, n, 0);
    lemma_lanes(p.level);
    lemma_lanes(k);
    assert(p.crowded(n));
    let q = p.spread(k, 1);
    assert(q.low == p.low / 2 && q.high == p.high / 2);
    assert(q.has_room(n));
    assert(p.is_spread(n, k, 1));
    let j = choose|j: nat| p.is_spread(n, k, j);
    p.lemma_spread_unique(n, k, 1, j);
    reveal(Layout::scattered);
    reveal(Layout::scatter_runs_out);
}

/// Counters that do not line up are rewritten from a new base at the first merge, and merged in
/// place from there.
proof fn lemma_lower_realigned(p: Layout, n: int, c: nat) -> (q: Layout)
    requires
        p.valid(n),
        p.level < 6,
        !p.vacant(),
        0 < c <= p.scale - MIN_SCALE,
        at_most(coarsen(p.counts, c), capacity(p.level)),
        askew(p, n),
        fits_line(p.low / 2, p.high / 2, n, p.level),
    ensures
        q == p.lowered(n, c as int),
        !p.lower_runs_out(n, c as int),
        q.valid(n),
        !q.vacant(),
        q.scale == p.scale - c,
        q.level == p.level,
        q.base == word_start(p.low / 2, p.level) / pow2((c - 1) as nat) as int,
        q.counts == coarsen(p.counts, c),
        p.low / pow2(c) as int <= q.low <= q.high <= p.high / pow2(c) as int,
{
    lemma2_to64();
    p.lemma_lowered(n, c as int);
    let q = p.lowered(n, c as int);
    p.lemma_not_vacant(q, n);
    p.lemma_counts(n);
    let e = (c - 1) as nat;
    crate::scale_laws::lemma_finer_holds(p.counts, 1, c, capacity(p.level));
    lemma_realigned(p, n, false, p.level);
    let r = p.merged(n, false);
    p.lemma_merged(n, false);
    p.lemma_not_vacant(r, n);
    lemma_coarsen_twice(p.counts, 1, e);
    assert(1 + e == c);
    lemma_lanes(p.level);
    let d = pow2((6 - p.level) as nat) as int;
    let w = (p.low / 2) / d;
    assert(r.base % 2 == 0) by {
        let half = lanes(p.level + 1);
        assert(d == 2 * half);
        assert(w * (2 * half) == 2 * (w * half)) by (nonlinear_arith);
    }
    lemma_merge_exact(r, n, e);
    lemma_shift_twice(p.low, 1, e);
    lemma_shift_twice(p.high, 1, e);
    let m = p.merged_by(n, c as int);
    if c > 1 {
        assert(m == r.merged_by(n, c - 1));
    } else {
        lemma_coarsen_zero(r.counts);
        assert(r.base / 1 == r.base);
    }
    lemma_pow2_pos(c);
    lemma_div_mono(p.low, p.high, pow2(c) as int);
    let high = crate::layout::trim_high(m.counts, m.low, m.high);
    lemma_trim_high(m.counts, m.low, m.high);
    lemma_trim_low(m.counts, m.low, high);
    q
}

/// The least drop where pairs of counters do not line up: the first merge starts the line anew with
/// the word of the lowest bucket, which must leave room for the live buckets, and the value must
/// stand in that line.
pub proof fn law_least_drop_realigned<const N: usize>(
    before: Histogram<N>,
    after: Histogram<N>,
    bits: u64,
    incr: u64,
    sum: u64,
    c: nat,
)
    requires
        before.wf(),
        after.wf(),
        countable(bits),
        incr > 0,
        before.stats_of().count + incr <= u64::MAX,
        incr == 1 || !before.literal() || before.literals().len() + incr > N,
        updated(before, after, bits, incr, sum),
        ({
            let p = before.layout();
            let i = index_of(bits, p.scale);
            let low = lower(p.low, i);
            let high = upper(p.high, i);
            let size = line(N as int, p.level);
            let base = word_start(p.low / 2, p.level) / pow2((c - 1) as nat) as int;
            &&& !blank(p)
            &&& p.level < 6
            &&& askew(p, N as int)
            &&& 0 < c <= p.scale - MIN_SCALE
            &&& (high / pow2(c) as int) - (low / pow2(c) as int) < size
            &&& (high / pow2((c - 1) as nat) as int) - (low / pow2((c - 1) as nat) as int) >= size
            &&& forall|j: int|
                #[trigger] with_value(p, bits, incr, p.scale - c)(j) < pow2(pow2(p.level))
            &&& fits_line(p.low / 2, p.high / 2, N as int, p.level)
            &&& base <= i / pow2(c) as int
            &&& i / (pow2(c) as int) < base + size
        }),
    ensures
        after.layout().scale == before.layout().scale - c,
        after.layout().level == before.layout().level,
        after.layout().counts == with_value(
            before.layout(),
            bits,
            incr,
            before.layout().scale - c,
        ),
        !before.literal() ==> !before.update_runs_out(bits, incr),
{
    lemma_after(before, after, bits, incr, sum);
    let n = N as int;
    let p = before.layout();
    let i = index_of(bits, p.scale);
    let key = key_of(bits);
    let from = TABLE_SCALE as int;
    let low = lower(p.low, i);
    let high = upper(p.high, i);
    assert(bucket_at_scale(key, from, p.scale) == i);
    lemma_place(p, n, i);
    lemma_capacity(p.level);
    let s = p.scale - c;
    let f = with_value(p, bits, incr, s);
    let x = index_of(bits, s);
    assert(bucket_at_scale(key, from, s) == x);
    lemma_shift_twice(key, (from - p.scale) as nat, c);
    assert((from - p.scale) as nat + c == (from - s) as nat);
    assert(x == i / pow2(c) as int);
    lemma_least(low, high, slots(n, p.level), c);
    lemma2_to64();
    assert(is_change(low, high, slots(n, p.level), c));
    assert((high / pow2(0) as int) - (low / pow2(0) as int) >= slots(n, p.level));
    assert(high / 1 == high && low / 1 == low);
    assert(!p.roomy(n, i));
    assert forall|j: int| #[trigger] coarsen(p.counts, c)(j) <= capacity(p.level) by {
        assert(f(j) < pow2(pow2(p.level)));
    }
    let q = lemma_lower_realigned(p, n, c);
    lemma_pow2_pos(c);
    lemma_div_mono(low, p.low, pow2(c) as int);
    lemma_div_mono(low, i, pow2(c) as int);
    lemma_div_mono(p.high, high, pow2(c) as int);
    lemma_div_mono(i, high, pow2(c) as int);
    assert((q.counts)(x) + incr <= capacity(p.level)) by {
        assert(f(x) < pow2(pow2(p.level)));
    }
    assert(p.adjusted(n, i) == q);
    assert(q.roomy(n, x));
    lemma_recorded_next(p, n, key, from, incr as nat);
}

/// A full counter where pairs of counters do not line up: one step of the scale and twice the
/// width, in a line that starts anew with the word of the lowest bucket, if there is room.
pub proof fn law_wider_counters_realigned<const N: usize>(
    before: Histogram<N>,
    after: Histogram<N>,
    bits: u64,
    incr: u64,
    sum: u64,
)
    requires
        before.wf(),
        after.wf(),
        countable(bits),
        incr > 0,
        before.stats_of().count + incr <= u64::MAX,
        incr == 1 || !before.literal() || before.literals().len() + incr > N,
        updated(before, after, bits, incr, sum),
        ({
            let p = before.layout();
            let i = index_of(bits, p.scale);
            &&& !blank(p)
            &&& p.scale > MIN_SCALE
            &&& p.level < 6
            &&& askew(p, N as int)
            &&& has_place(p, N as int, i)
            &&& (p.counts)(i) + incr >= pow2(pow2(p.level))
            &&& with_value(p, bits, incr, p.scale - 1)(index_of(bits, p.scale - 1)) < pow2(
                pow2(p.level + 1),
            )
            &&& fits_line(lower(p.low, i) / 2, upper(p.high, i) / 2, N as int, p.level + 1)
        }),
    ensures
        after.layout().scale == before.layout().scale - 1,
        after.layout().level == before.layout().level + 1,
        after.layout().counts == with_value(
            before.layout(),
            bits,
            incr,
            before.layout().scale - 1,
        ),
        !before.literal() ==> !before.update_runs_out(bits, incr),
{
    lemma_after(before, after, bits, incr, sum);
    let n = N as int;
    let p = before.layout();
    let i = index_of(bits, p.scale);
    let key = key_of(bits);
    let from = TABLE_SCALE as int;
    assert(bucket_at_scale(key, from, p.scale) == i);
    lemma_place(p, n, i);
    lemma_capacity(p.level);
    lemma_capacity(p.level + 1);
    lemma2_to64();
    let s = p.scale - 1;
    let x = index_of(bits, s);
    assert(bucket_at_scale(key, from, s) == x);
    lemma_shift_twice(key, (from - p.scale) as nat, 1);
    assert((from - p.scale) as nat + 1 == (from - s) as nat);
    assert(x == i / 2);
    p.lemma_key(n, key, from);
    p.lemma_seated(n, i);
    let r = p.seated(i);
    assert(!r.vacant());
    lemma_place(r, n, i);
    assert(askew(r, n));
    lemma_realigned(r, n, true, p.level + 1);
    let q = p.adjusted(n, i);
    assert(q == r.merged(n, true));
    lemma_div_mono(r.low, i, 2);
    lemma_div_mono(i, r.high, 2);
    assert(q.roomy(n, x));
    assert((q.counts)(x) + incr <= capacity(q.level));
    lemma_recorded_next(p, n, key, from, incr as nat);
}

/// Adjustments after a first one.
proof fn lemma_times_shift(p: Layout, n: int, key: int, from: int, k: nat)
    ensures
        p.adjusted_times(n, key, from, k + 1) == p.adjusted(
            n,
            bucket_at_scale(key, from, p.scale),
        ).adjusted_times(n, key, from, k),
    decreases k,
{
    assert(p.adjusted_times(n, key, from, 0) == p);
    let q = p.adjusted(n, bucket_at_scale(key, from, p.scale));
    assert(q.adjusted_times(n, key, from, 0) == q);
    if k > 0 {
        lemma_times_shift(p, n, key, from, (k - 1) as nat);
    } else {
        assert(p.adjusted_times(n, key, from, 1) == q);
    }
}

/// A value that needs an adjustment is recorded as if the adjustment had come before.
proof fn lemma_adjust_first(p: Layout, n: int, key: int, from: int, incr: nat)
    requires
        !p.ready(n, key, from, incr),
        !p.record_runs_out(n, key, from, incr),
    ensures
        p.recorded(n, key, from, incr) == p.adjusted(
            n,
            bucket_at_scale(key, from, p.scale),
        ).recorded(n, key, from, incr),
{
    let q = p.adjusted(n, bucket_at_scale(key, from, p.scale));
    let m = choose|m: nat|
        #[trigger] p.is_settled(n, key, from, incr, m) && !p.adjusts_run_out(n, key, from, m);
    assert(p.adjusted_times(n, key, from, 0) == p);
    assert(m >= 1);
    let j = (m - 1) as nat;
    lemma_times_shift(p, n, key, from, j);
    assert forall|i: nat| i < j implies !#[trigger] q.adjusted_times(n, key, from, i).ready(
        n,
        key,
        from,
        incr,
    ) by {
        lemma_times_shift(p, n, key, from, i);
        assert(!p.adjusted_times(n, key, from, i + 1).ready(n, key, from, incr));
    }
    assert(q.is_settled(n, key, from, incr, j));
    let a = choose|k: nat| p.is_settled(n, key, from, incr, k);
    p.lemma_settled_unique(n, key, from, incr, a, m);
    let b = choose|k: nat| q.is_settled(n, key, from, incr, k);
    q.lemma_settled_unique(n, key, from, incr, b, j);
}

/// Where all buckets are no more than there are counters, but the value stands outside the line,
/// it is recorded as if the counters had been widened by hand before. So it is where the value is
/// among the live buckets, but its counter is full.
pub proof fn law_widening_first<const N: usize>(
    before: Histogram<N>,
    mid: Histogram<N>,
    after: Histogram<N>,
    after_mid: Histogram<N>,
    bits: u64,
    incr: u64,
    sums: (u64, u64),
)
    requires
        before.wf(),
        mid.wf(),
        after.wf(),
        after_mid.wf(),
        !before.literal(),
        !mid.literal(),
        countable(bits),
        incr > 0,
        before.stats_of().count + incr <= u64::MAX,
        !before.update_runs_out(bits, incr),
        updated(before, after, bits, incr, sums.0),
        updated(mid, after_mid, bits, incr, sums.1),
        before.counters().widened_by(N as int, 1) == Some(mid.counters()),
        before.counters().level < 6,
        ({
            let p = before.counters();
            let i = index_of(bits, p.scale);
            ||| !has_place(p, N as int, i) && upper(p.high, i) - lower(p.low, i) < line(
                N as int,
                p.level,
            )
            ||| !blank(p) && p.low <= i <= p.high && (p.counts)(i) + incr >= pow2(pow2(p.level))
        }),
    ensures
        after.layout() == after_mid.layout(),
{
    lemma_after(before, after, bits, incr, sums.0);
    lemma_after(mid, after_mid, bits, incr, sums.1);
    before.lemma_wf();
    mid.lemma_wf();
    crate::float64::lemma_parts(bits);
    let n = N as int;
    let p = before.counters();
    let i = index_of(bits, p.scale);
    let key = key_of(bits);
    let from = TABLE_SCALE as int;
    assert(bucket_at_scale(key, from, p.scale) == i);
    lemma_place(p, n, i);
    lemma_capacity(p.level);
    if !p.roomy(n, i) {
        let low = lower(p.low, i);
        let high = upper(p.high, i);
        lemma2_to64();
        assert(low / 1 == low && high / 1 == high);
        assert(is_change(low, high, slots(n, p.level), 0));
        let size = slots(n, p.level);
        lemma_change_unique(low, high, size, 0, steps_to_fit(low, high, size));
    }
    assert(p.adjusted(n, i) == p.widened(n));
    lemma_adjust_first(p, n, key, from, incr as nat);
}

/// Where all buckets are more than there are counters, the value is recorded as if the scale had
/// been lowered by hand before: by the least number of steps after which they are no more.
pub proof fn law_lowering_first<const N: usize>(
    before: Histogram<N>,
    mid: Histogram<N>,
    after: Histogram<N>,
    after_mid: Histogram<N>,
    bits: u64,
    incr: u64,
    sums: (u64, u64),
    c: nat,
)
    requires
        before.wf(),
        mid.wf(),
        after.wf(),
        after_mid.wf(),
        !before.literal(),
        !mid.literal(),
        countable(bits),
        incr > 0,
        before.stats_of().count + incr <= u64::MAX,
        !before.update_runs_out(bits, incr),
        updated(before, after, bits, incr, sums.0),
        updated(mid, after_mid, bits, incr, sums.1),
        mid.counters() == before.counters().lowered(N as int, c as int),
        ({
            let p = before.counters();
            let i = index_of(bits, p.scale);
            let low = lower(p.low, i);
            let high = upper(p.high, i);
            let size = line(N as int, p.level);
            &&& !blank(p)
            &&& 0 < c
            &&& (high / pow2(c) as int) - (low / pow2(c) as int) < size
            &&& (high / pow2((c - 1) as nat) as int) - (low / pow2((c - 1) as nat) as int) >= size
        }),
    ensures
        after.layout() == after_mid.layout(),
{
    lemma_after(before, after, bits, incr, sums.0);
    lemma_after(mid, after_mid, bits, incr, sums.1);
    before.lemma_wf();
    mid.lemma_wf();
    crate::float64::lemma_parts(bits);
    let n = N as int;
    let p = before.counters();
    let i = index_of(bits, p.scale);
    let key = key_of(bits);
    let from = TABLE_SCALE as int;
    assert(bucket_at_scale(key, from, p.scale) == i);
    lemma_place(p, n, i);
    let low = lower(p.low, i);
    let high = upper(p.high, i);
    lemma_least(low, high, slots(n, p.level), c);
    lemma2_to64();
    assert((high / pow2(0) as int) - (low / pow2(0) as int) >= slots(n, p.level));
    assert(high / 1 == high && low / 1 == low);
    assert(!p.roomy(n, i));
    assert(p.adjusted(n, i) == mid.counters());
    lemma_adjust_first(p, n, key, from, incr as nat);
}

} // verus!
