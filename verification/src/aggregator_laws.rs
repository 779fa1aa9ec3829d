//! Laws of the histogram of selectable resolution: its scale drops no further than its buckets
//! demand, and its counters widen no further than its counts demand.

use crate::aggregator::{merged_into, updated, CounterWidth, ExpoHistogram, Range, Resolution};
use crate::arith::lemma_shift_twice;
use crate::counts::{both, coarsen, lemma_coarsen_member, plus, Counts};
use crate::flat::acceptable;
use crate::float64::zero;
use crate::layout::{lemma_side_div, steps_to_fit};
use crate::lookup::TABLE_SCALE;
use crate::mapping::{index_of, MIN_SCALE};
use crate::replay::{countable, key_of, lemma_key_of};
use crate::settle::is_change;
use vstd::arithmetic::power2::{lemma2_to64, pow2};
use vstd::prelude::*;

verus! {

/// All buckets with a count lie in `n` neighbouring ones.
pub open spec fn spans(f: Counts, n: int) -> bool {
    forall|i: int, j: int| #![trigger f(i), f(j)] f(i) > 0 && f(j) > 0 ==> i - j < n
}

/// Buckets that a resolution has.
pub open spec fn bucket_limit(r: Resolution) -> int {
    match r {
        Resolution::Empty => 0,
        Resolution::Small => 16,
        Resolution::Large => 160,
    }
}

/// The buckets of a range at the scale `s`.
pub open spec fn at_scale(range: Range, s: int) -> Counts {
    coarsen(range.counts, (range.scale - s) as nat)
}

/// The buckets of a range and `incr` observations of a value, at the scale `s`.
pub open spec fn with_value(range: Range, bits: u64, incr: u64, s: int) -> Counts {
    plus(at_scale(range, s), index_of(bits, s), incr as nat)
}

/// Counters of the given width hold all counts.
pub open spec fn counts_to(width: CounterWidth, f: Counts) -> bool {
    match width {
        CounterWidth::U16 => forall|i: int| #[trigger] f(i) < 0x1_0000,
        CounterWidth::U32 => forall|i: int| #[trigger] f(i) < 0x1_0000_0000,
        CounterWidth::U64 => forall|i: int| #[trigger] f(i) < 0x1_0000_0000_0000_0000,
    }
}

/// `width` is the narrowest, from `start` up, that holds all counts.
pub open spec fn just_holds(start: CounterWidth, width: CounterWidth, f: Counts) -> bool {
    &&& counts_to(width, f)
    &&& start is U64 ==> width is U64
    &&& start is U32 ==> !(width is U16)
    &&& width is U32 && start is U16 ==> !counts_to(CounterWidth::U16, f)
    &&& width is U64 && !(start is U64) ==> !counts_to(CounterWidth::U32, f)
}

/// Counts bounded by a total that fits 64 bits.
proof fn lemma_held(start: CounterWidth, f: Counts)
    requires
        forall|i: int| #[trigger] f(i) <= u64::MAX,
    ensures
        just_holds(start, start.holding(f), f),
{
    if forall|i: int| #[trigger] f(i) < 0x1_0000 {
        assert forall|i: int| #[trigger] f(i) <= 0xffff by {
            assert(f(i) < 0x1_0000);
        }
    }
    if forall|i: int| #[trigger] f(i) < 0x1_0000_0000 {
        assert forall|i: int| #[trigger] f(i) <= 0xffff_ffff by {
            assert(f(i) < 0x1_0000_0000);
        }
    }
    if crate::window_ops::at_most(f, 0xffff) {
        assert forall|i: int| #[trigger] f(i) < 0x1_0000 by {
            assert(f(i) <= 0xffff);
        }
    }
    if crate::window_ops::at_most(f, 0xffff_ffff) {
        assert forall|i: int| #[trigger] f(i) < 0x1_0000_0000 by {
            assert(f(i) <= 0xffff_ffff);
        }
    }
    assert forall|i: int| #[trigger] f(i) < 0x1_0000_0000_0000_0000 by {
        assert(f(i) <= u64::MAX);
    }
}

/// A valid range keeps its counts in its buckets.
proof fn lemma_valid_spans(range: Range, size: int)
    requires
        range.valid(size),
    ensures
        spans(range.counts, size),
        forall|i: int| #[trigger] (range.counts)(i) <= u64::MAX,
{
    range.lemma_bounds(size);
    assert forall|i: int| #[trigger] (range.counts)(i) <= u64::MAX by {
        if (range.counts)(i) != 0 {
            crate::counts::lemma_total_member(
                range.counts,
                crate::counts::bottom(),
                crate::counts::top(),
                i,
            );
        }
    }
}

/// The bucket of a value at a lower scale is that of a higher one, shifted.
proof fn lemma_index_lower(bits: u64, scale: int, s: int)
    requires
        countable(bits),
        s <= scale <= TABLE_SCALE,
        MIN_SCALE <= s,
    ensures
        index_of(bits, s) == index_of(bits, scale) / pow2((scale - s) as nat) as int,
{
    lemma_key_of(bits, scale);
    lemma_key_of(bits, s);
    lemma_shift_twice(key_of(bits), (TABLE_SCALE - scale) as nat, (scale - s) as nat);
}

/// Recording drops the scale only as far as it must: all buckets lie in the 16 or 160 of the
/// resolution, and at no higher scale would they, up to the one before. Where they do at the scale
/// before, it stays. The counters take the narrowest width, no narrower than before, that holds
/// all counts. Zeros leave the buckets alone.
pub proof fn law_update_scale(
    before: ExpoHistogram,
    after: ExpoHistogram,
    bits: u64,
    incr: u64,
    sum: u64,
)
    requires
        before.wf(),
        before.resolution_of() !is Empty,
        acceptable(bits),
        incr > 0,
        before.stats_of().count_of() + incr <= u64::MAX,
        updated(
            before.size(),
            before.range(),
            before.width_of(),
            before.stats_of(),
            after.range(),
            after.width_of(),
            after.stats_of(),
            bits,
            incr,
            sum,
        ),
    ensures
        zero(bits) ==> after.range() == before.range() && after.width_of() == before.width_of(),
        !zero(bits) ==> ({
            let n = bucket_limit(before.resolution_of());
            let s0 = before.range().scale;
            let f = after.range().counts;
            &&& MIN_SCALE <= after.range().scale <= s0
            &&& f == with_value(before.range(), bits, incr, after.range().scale)
            &&& spans(f, n)
            &&& forall|s: int|
                after.range().scale < s <= s0 ==> !spans(
                    #[trigger] with_value(before.range(), bits, incr, s),
                    n,
                )
            &&& spans(with_value(before.range(), bits, incr, s0), n) ==> after.range().scale == s0
            &&& f(after.range().low) > 0
            &&& f(after.range().high) > 0
            &&& forall|i: int|
                #[trigger] f(i) > 0 ==> after.range().low <= i <= after.range().high
            &&& just_holds(before.width_of(), after.width_of(), f)
        }),
{
    before.lemma_wf();
    let size = before.size();
    let range = before.range();
    let r = after.range();
    if !zero(bits) {
        let i = index_of(bits, range.scale);
        crate::aggregator::law_update_keeps_counts(size, range, bits, incr);
        lemma_key_of(bits, TABLE_SCALE as int);
        lemma_key_of(bits, range.scale);
        lemma_side_div(key_of(bits), TABLE_SCALE as int, (TABLE_SCALE - range.scale) as nat);
        assert(TABLE_SCALE - (TABLE_SCALE - range.scale) == range.scale);
        range.lemma_recorded(size, i, incr as nat);
        lemma_valid_spans(r, size);
        lemma_held(before.width_of(), r.counts);
        lemma2_to64();
        assert(pow2(0) == 1);
        let low = range.low_with(range.scale, i);
        let high = range.high_with(range.scale, i);
        assert(range.low / 1 == range.low && range.high / 1 == range.high);
        crate::aggregator::lemma_fit(low, high, size, range.scale);
        let c = steps_to_fit(low, high, size);
        assert(is_change(low, high, size, c));
        assert forall|s: int| r.scale < s <= range.scale implies !spans(
            #[trigger] with_value(range, bits, incr, s),
            size,
        ) by {
            let e = (range.scale - s) as nat;
            let f = with_value(range, bits, incr, s);
            lemma_index_lower(bits, range.scale, s);
            assert((high / pow2(e) as int) - (low / pow2(e) as int) >= size);
            if !range.vacant() {
                lemma_coarsen_member(range.counts, e, range.low);
                lemma_coarsen_member(range.counts, e, range.high);
            }
            assert(f(high / pow2(e) as int) > 0 && f(low / pow2(e) as int) > 0);
        }
        assert(spans(with_value(range, bits, incr, range.scale), size) ==> r.scale == range.scale);
    }
}

/// The buckets of two ranges together, at the scale `s`.
pub open spec fn together(a: Range, b: Range, s: int) -> Counts {
    both(at_scale(a, s), at_scale(b, s))
}

/// Merging drops the scale only as far as it must: all buckets of both lie in the 16 or 160 of the
/// resolution, and at no scale above, up to the lower of both, would they. A histogram without
/// buckets in use changes nothing.
pub proof fn law_merge_scale(
    before: ExpoHistogram,
    other: ExpoHistogram,
    after: ExpoHistogram,
    sum: u64,
)
    requires
        before.wf(),
        other.wf(),
        before.resolution_of() !is Empty,
        before.stats_of().count_of() + other.stats_of().count_of() <= u64::MAX,
        merged_into(
            before.size(),
            before.range(),
            before.width_of(),
            before.stats_of(),
            after.range(),
            after.width_of(),
            after.stats_of(),
            other.range(),
            other.stats_of(),
            sum,
        ),
    ensures
        (forall|i: int| #[trigger] (other.range().counts)(i) == 0) ==> after.range() == before.range()
            && after.width_of() == before.width_of(),
        !(forall|i: int| #[trigger] (other.range().counts)(i) == 0) ==> ({
            let n = bucket_limit(before.resolution_of());
            let f = after.range().counts;
            &&& MIN_SCALE <= after.range().scale <= before.range().scale
            &&& after.range().scale <= other.range().scale
            &&& f == together(before.range(), other.range(), after.range().scale)
            &&& spans(f, n)
            &&& forall|s: int|
                after.range().scale < s && s <= before.range().scale && s <= other.range().scale
                    ==> !spans(#[trigger] together(before.range(), other.range(), s), n)
            &&& f(after.range().low) > 0
            &&& f(after.range().high) > 0
            &&& forall|i: int|
                #[trigger] f(i) > 0 ==> after.range().low <= i <= after.range().high
            &&& just_holds(before.width_of(), after.width_of(), f)
        }),
{
    before.lemma_wf();
    other.lemma_wf();
    let size = before.size();
    let a = before.range();
    let b = other.range();
    let r = after.range();
    if other.resolution_of() is Empty {
        assert(b.vacant());
    } else if !b.vacant() {
        assert((b.counts)(b.low) != 0);
        let other_size = other.size();
        a.lemma_merged(size, b, other_size);
        a.lemma_bounds(size);
        b.lemma_bounds(other_size);
        lemma_valid_spans(r, size);
        lemma_held(before.width_of(), r.counts);
        let m = if a.scale <= b.scale {
            a.scale
        } else {
            b.scale
        };
        let d = (a.scale - m) as nat;
        let g = (b.scale - m) as nat;
        let p = pow2(g) as int;
        a.lemma_lower(size, d);
        b.lemma_lower(other_size, g);
        assert(a.scale - d == m && b.scale - g == m);
        let low = a.low_with(m, b.low / p);
        let high = a.high_with(m, b.high / p);
        crate::aggregator::lemma_fit(low, high, size, m);
        let c = steps_to_fit(low, high, size);
        assert(is_change(low, high, size, c));
        assert forall|s: int| r.scale < s && s <= a.scale && s <= b.scale implies !spans(
            #[trigger] together(a, b, s),
            size,
        ) by {
            let e = (m - s) as nat;
            let f = together(a, b, s);
            assert((high / pow2(e) as int) - (low / pow2(e) as int) >= size);
            lemma_shift_twice(b.low, g, e);
            lemma_shift_twice(b.high, g, e);
            assert(g + e == (b.scale - s) as nat);
            lemma_coarsen_member(b.counts, g + e, b.low);
            lemma_coarsen_member(b.counts, g + e, b.high);
            if !a.vacant() {
                lemma_shift_twice(a.low, d, e);
                lemma_shift_twice(a.high, d, e);
                assert(d + e == (a.scale - s) as nat);
                lemma_coarsen_member(a.counts, d + e, a.low);
                lemma_coarsen_member(a.counts, d + e, a.high);
            }
            assert(f(high / pow2(e) as int) > 0 && f(low / pow2(e) as int) > 0);
        }
    } else {
        b.lemma_bounds(other.size());
    }
}

} // verus!
