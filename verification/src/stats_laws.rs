//! Laws of the aggregate statistics: every histogram counts all observations, and its extremes are
//! the least and the greatest value of all that it observed, in whatever order they came.

use crate::aggregator::MMSC;
use crate::flat;
use crate::float64::{
    finite, law_order, lemma_parts, lemma_scaled_zero, negative, order, value, zero,
};
use crate::histogram;
use crate::pn;
use crate::sketch;
use crate::sketch_pn;
use crate::stats::{empty_stats, observed, refused, Error, Stats};
use vstd::prelude::*;

verus! {

/// `r` is the lesser of two values.
pub open spec fn lesser(r: u64, a: u64, b: u64) -> bool {
    &&& order(r) <= order(a)
    &&& order(r) <= order(b)
    &&& r == a || r == b
}

/// `r` is the greater of two values.
pub open spec fn greater(r: u64, a: u64, b: u64) -> bool {
    &&& order(r) >= order(a)
    &&& order(r) >= order(b)
    &&& r == a || r == b
}

/// The order in which two values are taken makes no difference to the lesser and the greater.
pub proof fn law_extremes_commute(r: u64, q: u64, a: u64, b: u64)
    ensures
        lesser(r, a, b) && lesser(q, b, a) ==> order(r) == order(q),
        greater(r, a, b) && greater(q, b, a) ==> order(r) == order(q),
{
}

/// The lesser and the greater of two numbers, by value.
pub proof fn law_extremes_by_value(r: u64, a: u64, b: u64)
    requires
        finite(a),
        finite(b),
    ensures
        lesser(r, a, b) ==> value(r) <= value(a) && value(r) <= value(b),
        greater(r, a, b) ==> value(r) >= value(a) && value(r) >= value(b),
{
    law_order(a, b);
    law_order(b, a);
}

/// A histogram of non-negative values refuses a number exactly if it is below zero, and refuses
/// infinities and NaN.
pub proof fn law_refused(bits: u64)
    ensures
        finite(bits) ==> (refused(bits) <==> value(bits) < 0),
        !finite(bits) ==> refused(bits),
{
    lemma_scaled_zero(bits);
}

/// Both zeros, and no other number, are zero.
pub proof fn law_zero(bits: u64)
    requires
        finite(bits),
    ensures
        zero(bits) <==> value(bits) == 0,
{
    lemma_scaled_zero(bits);
}

/// A flat histogram takes every number that is not below zero, and positive infinity, but no NaN
/// and no other infinity.
pub proof fn law_acceptable(bits: u64)
    ensures
        finite(bits) ==> (flat::acceptable(bits) <==> value(bits) >= 0),
        flat::acceptable(0x7ff0_0000_0000_0000),
        !finite(bits) && bits != 0x7ff0_0000_0000_0000 ==> !flat::acceptable(bits),
{
    lemma_scaled_zero(bits);
    lemma_parts(bits);
}

/// The magnitude of a number is not negative, and off from the number by its sign alone.
pub proof fn law_absolute(bits: u64)
    ensures
        finite(sketch_pn::absolute(bits)) <==> finite(bits),
        value(sketch_pn::absolute(bits)) == if value(bits) < 0 {
            -value(bits)
        } else {
            value(bits)
        },
        !negative(sketch_pn::absolute(bits)),
{
    lemma_parts(bits);
    lemma_parts(sketch_pn::absolute(bits));
    lemma_scaled_zero(bits);
}

/// The first number that joins empty statistics is both extremes.
pub proof fn law_first_observation(bits: u64, incr: u64, sum: u64)
    requires
        finite(bits),
    ensures
        observed(empty_stats(), bits, incr, sum).count == incr,
        observed(empty_stats(), bits, incr, sum).min == bits,
        observed(empty_stats(), bits, incr, sum).max == bits,
        empty_stats().count == 0,
        empty_stats().sum == 0,
{
    lemma_parts(bits);
}

/// What is reported of a histogram for both signs: its total count, the sum and the extremes of all
/// values, and zeros while there are none.
pub proof fn law_pn_reported<const K: usize, const L: usize>(h: pn::HistogramPN<K, L>)
    requires
        h.wf(),
    ensures
        h.reported().count == h.total(),
        h.total() == 0 ==> h.reported() == (Stats { count: 0, sum: 0, min: 0, max: 0 }),
        h.total() > 0 ==> {
            &&& h.reported().sum == h.sum_of()
            &&& finite(h.min_of()) ==> h.reported().min == h.min_of()
            &&& finite(h.max_of()) ==> h.reported().max == h.max_of()
        },
{
}

/// What is reported of a sketch for both signs: its total count, the sum and the extremes of all
/// values, and zeros while there are none.
pub proof fn law_sketch_pn_reported<const K: usize, const L: usize>(s: sketch_pn::SketchPN<K, L>)
    requires
        s.wf(),
    ensures
        s.reported().count == s.total(),
        s.total() == 0 ==> s.reported() == (Stats { count: 0, sum: 0, min: 0, max: 0 }),
        s.total() > 0 ==> {
            &&& s.reported().sum == s.sum_of()
            &&& finite(s.min_of()) ==> s.reported().min == s.min_of()
            &&& finite(s.max_of()) ==> s.reported().max == s.max_of()
        },
        s.scale_of() == s.negative_of().scale_of(),
{
}

/// A recorded value counts as often as it is recorded, and joins the extremes; a zero leaves the
/// extremes and the sum alone. A refused value changes nothing.
pub proof fn law_histogram_recording<const N: usize>(
    before: histogram::Histogram<N>,
    after: histogram::Histogram<N>,
    bits: u64,
    incr: u64,
    sum: u64,
    r: Result<(), Error>,
)
    requires
        histogram::recorded(before, after, bits, incr, sum, r),
    ensures
        r.is_ok() <==> before.stats_of().count + incr <= u64::MAX && !refused(bits),
        r == Err::<(), Error>(Error::Overflow) <==> before.stats_of().count + incr > u64::MAX,
        r is Err ==> r->Err_0 is Overflow || r->Err_0 is Extreme,
        r.is_err() ==> after == before,
        r.is_ok() ==> after.stats_of().count == before.stats_of().count + incr,
        r.is_ok() && !zero(bits) ==> {
            &&& lesser(after.stats_of().min, before.stats_of().min, bits)
            &&& greater(after.stats_of().max, before.stats_of().max, bits)
            &&& after.stats_of().sum == sum
        },
        r.is_ok() && zero(bits) ==> {
            &&& after.stats_of().min == before.stats_of().min
            &&& after.stats_of().max == before.stats_of().max
            &&& after.stats_of().sum == before.stats_of().sum
        },
{
}

/// A merge adds the counts and takes the extremes of both.
pub proof fn law_histogram_merge<const N: usize, const M: usize>(
    before: histogram::Histogram<N>,
    other: histogram::Histogram<M>,
    after: histogram::Histogram<N>,
    sum: u64,
    r: Result<(), Error>,
)
    requires
        histogram::merge_outcome(before, other, after, sum, r),
    ensures
        r.is_ok() <==> before.stats_of().count + other.stats_of().count <= u64::MAX,
        r is Err ==> r->Err_0 is Overflow,
        r.is_err() || other.stats_of().count == 0 ==> after == before,
        r.is_ok() ==> after.stats_of().count == before.stats_of().count + other.stats_of().count,
        r.is_ok() && other.stats_of().count > 0 ==> {
            &&& lesser(after.stats_of().min, before.stats_of().min, other.stats_of().min)
            &&& greater(after.stats_of().max, before.stats_of().max, other.stats_of().max)
            &&& after.stats_of().sum == sum
        },
{
}

/// A recorded value counts as often as it is recorded, and joins the extremes; a zero leaves the
/// extremes and the sum alone. A refused value changes nothing.
pub proof fn law_sketch_recording<const N: usize>(
    before: sketch::Sketch<N>,
    after: sketch::Sketch<N>,
    bits: u64,
    incr: u64,
    sum: u64,
    r: Result<(), Error>,
)
    requires
        sketch::recorded(before, after, bits, incr, sum, r),
    ensures
        r.is_ok() <==> before.stats_of().count + incr <= u64::MAX && !refused(bits),
        r == Err::<(), Error>(Error::Overflow) <==> before.stats_of().count + incr > u64::MAX,
        r is Err ==> r->Err_0 is Overflow || r->Err_0 is Extreme,
        r.is_err() ==> after == before,
        r.is_ok() ==> after.stats_of().count == before.stats_of().count + incr,
        r.is_ok() && !zero(bits) ==> {
            &&& lesser(after.stats_of().min, before.stats_of().min, bits)
            &&& greater(after.stats_of().max, before.stats_of().max, bits)
            &&& after.stats_of().sum == sum
        },
        r.is_ok() && zero(bits) ==> {
            &&& after.stats_of().min == before.stats_of().min
            &&& after.stats_of().max == before.stats_of().max
            &&& after.stats_of().sum == before.stats_of().sum
        },
{
}

/// A merge adds the counts and takes the extremes of both. Sketches of different scales do not
/// merge, unless there is nothing to add.
pub proof fn law_sketch_merge<const N: usize, const M: usize>(
    before: sketch::Sketch<N>,
    other: sketch::Sketch<M>,
    after: sketch::Sketch<N>,
    sum: u64,
    r: Result<(), Error>,
)
    requires
        sketch::merge_outcome(before, other, after, sum, r),
    ensures
        r.is_ok() <==> other.stats_of().count == 0 || (before.scale_of() == other.scale_of()
            && before.stats_of().count + other.stats_of().count <= u64::MAX),
        r == Err::<(), Error>(Error::ScaleMismatch) <==> other.stats_of().count > 0
            && before.scale_of() != other.scale_of(),
        r is Err ==> r->Err_0 is Overflow || r->Err_0 is ScaleMismatch,
        r.is_err() || other.stats_of().count == 0 ==> after == before,
        r.is_ok() ==> after.stats_of().count == before.stats_of().count + other.stats_of().count,
        r.is_ok() && other.stats_of().count > 0 ==> {
            &&& lesser(after.stats_of().min, before.stats_of().min, other.stats_of().min)
            &&& greater(after.stats_of().max, before.stats_of().max, other.stats_of().max)
            &&& after.stats_of().sum == sum
        },
{
}

/// A recorded value of any sign counts as often as it is recorded, and joins the extremes, zero
/// among them; a zero leaves the sum alone. NaN and infinities change nothing.
pub proof fn law_pn_recording<const K: usize, const L: usize>(
    before: pn::HistogramPN<K, L>,
    after: pn::HistogramPN<K, L>,
    bits: u64,
    incr: u64,
    sum: u64,
    side_sum: u64,
    r: Result<(), Error>,
)
    requires
        pn::recorded_pn(before, after, bits, incr, sum, side_sum, r),
    ensures
        r.is_ok() <==> before.total() + incr <= u64::MAX && finite(bits),
        r == Err::<(), Error>(Error::Overflow) <==> before.total() + incr > u64::MAX,
        r is Err ==> r->Err_0 is Overflow || r->Err_0 is Extreme,
        r.is_err() ==> after == before,
        r.is_ok() ==> {
            let seen = if zero(bits) {
                0
            } else {
                bits
            };
            &&& after.total() == before.total() + incr
            &&& after.zeros() == before.zeros() + if zero(bits) {
                incr
            } else {
                0
            }
            &&& lesser(after.min_of(), before.min_of(), seen)
            &&& greater(after.max_of(), before.max_of(), seen)
            &&& after.sum_of() == if zero(bits) {
                before.sum_of()
            } else {
                sum
            }
        },
{
}

/// A merge adds the counts and takes the extremes of both.
pub proof fn law_pn_merge<const K: usize, const L: usize, const K2: usize, const L2: usize>(
    before: pn::HistogramPN<K, L>,
    other: pn::HistogramPN<K2, L2>,
    after: pn::HistogramPN<K, L>,
    sums: (u64, u64, u64),
    r: Result<(), Error>,
)
    requires
        before.wf(),
        pn::merged_pn(before, other, after, sums, r),
    ensures
        r.is_ok() <==> before.total() + other.total() <= u64::MAX,
        r is Err ==> r->Err_0 is Overflow,
        r.is_err() || other.total() == 0 ==> after == before,
        r.is_ok() ==> after.total() == before.total() + other.total(),
        r.is_ok() && other.total() > 0 ==> {
            &&& after.zeros() == before.zeros() + other.zeros()
            &&& lesser(after.min_of(), before.min_of(), other.min_of())
            &&& greater(after.max_of(), before.max_of(), other.max_of())
            &&& after.sum_of() == sums.0
        },
{
}

/// A recorded value of any sign counts as often as it is recorded, and joins the extremes, zero
/// among them; a zero leaves the sum alone. NaN and infinities change nothing.
pub proof fn law_sketch_pn_recording<const K: usize, const L: usize>(
    before: sketch_pn::SketchPN<K, L>,
    after: sketch_pn::SketchPN<K, L>,
    bits: u64,
    incr: u64,
    sum: u64,
    side_sum: u64,
    r: Result<(), Error>,
)
    requires
        sketch_pn::recorded_pn(before, after, bits, incr, sum, side_sum, r),
    ensures
        r.is_ok() <==> before.total() + incr <= u64::MAX && finite(bits),
        r == Err::<(), Error>(Error::Overflow) <==> before.total() + incr > u64::MAX,
        r is Err ==> r->Err_0 is Overflow || r->Err_0 is Extreme,
        r.is_err() ==> after == before,
        r.is_ok() ==> {
            let seen = if zero(bits) {
                0
            } else {
                bits
            };
            &&& after.total() == before.total() + incr
            &&& after.zeros() == before.zeros() + if zero(bits) {
                incr
            } else {
                0
            }
            &&& lesser(after.min_of(), before.min_of(), seen)
            &&& greater(after.max_of(), before.max_of(), seen)
            &&& after.sum_of() == if zero(bits) {
                before.sum_of()
            } else {
                sum
            }
        },
{
}

/// A value of either sign is recorded by its magnitude on its own side, and leaves the other side
/// alone; a zero leaves both alone.
pub proof fn law_sketch_pn_sides<const K: usize, const L: usize>(
    before: sketch_pn::SketchPN<K, L>,
    after: sketch_pn::SketchPN<K, L>,
    bits: u64,
    incr: u64,
    sum: u64,
    side_sum: u64,
)
    requires
        sketch_pn::recorded_pn(before, after, bits, incr, sum, side_sum, Ok(())),
    ensures
        zero(bits) || negative(bits) ==> after.positive_of() == before.positive_of(),
        zero(bits) || !negative(bits) ==> after.negative_of() == before.negative_of(),
        !zero(bits) && !negative(bits) ==> sketch::recorded(
            before.positive_of(),
            after.positive_of(),
            bits,
            incr,
            side_sum,
            Ok(()),
        ),
        !zero(bits) && negative(bits) ==> sketch::recorded(
            before.negative_of(),
            after.negative_of(),
            (bits - 0x8000_0000_0000_0000) as u64,
            incr,
            side_sum,
            Ok(()),
        ),
{
}

/// A merge adds the counts and takes the extremes of both. Sketches of different scales do not
/// merge, unless there is nothing to add.
pub proof fn law_sketch_pn_merge<
    const K: usize,
    const L: usize,
    const K2: usize,
    const L2: usize,
>(
    before: sketch_pn::SketchPN<K, L>,
    other: sketch_pn::SketchPN<K2, L2>,
    after: sketch_pn::SketchPN<K, L>,
    sums: (u64, u64, u64),
    r: Result<(), Error>,
)
    requires
        sketch_pn::merged_pn(before, other, after, sums, r),
    ensures
        r.is_ok() <==> other.total() == 0 || (before.scale_of() == other.scale_of()
            && before.total() + other.total() <= u64::MAX),
        r == Err::<(), Error>(Error::ScaleMismatch) <==> other.total() > 0 && before.scale_of()
            != other.scale_of(),
        r is Err ==> r->Err_0 is Overflow || r->Err_0 is ScaleMismatch,
        r.is_err() || other.total() == 0 ==> after == before,
        r.is_ok() ==> after.total() == before.total() + other.total(),
        r.is_ok() && other.total() > 0 ==> {
            &&& after.zeros() == before.zeros() + other.zeros()
            &&& lesser(after.min_of(), before.min_of(), other.min_of())
            &&& greater(after.max_of(), before.max_of(), other.max_of())
            &&& after.sum_of() == sums.0
        },
{
}

/// `after` are the statistics of `before` and of further observations between `min` and `max`. The
/// first observations set the extremes.
pub open spec fn gathers(
    after: Stats,
    before: Stats,
    count: int,
    min: u64,
    max: u64,
    sum: u64,
) -> bool {
    &&& after.count == before.count + count
    &&& after.sum == sum
    &&& before.count == 0 ==> after.min == min && after.max == max
    &&& before.count > 0 ==> lesser(after.min, before.min, min) && greater(
        after.max,
        before.max,
        max,
    )
}

/// A recorded value counts as often as it is recorded, and joins the extremes, zero among them.
pub proof fn law_flat_recording<const N: usize>(
    before: flat::Histogram<N>,
    after: flat::Histogram<N>,
    bits: u64,
    incr: u64,
    sum: u64,
)
    requires
        before.stats_of().count + incr <= u64::MAX,
        flat::updated(before, after, bits, incr, sum),
    ensures
        gathers(after.stats_of(), before.stats_of(), incr as int, bits, bits, sum),
{
}

/// A merge adds the counts, and its extremes are those of both: the least bounds both minima and
/// is one of them, and likewise the greatest.
pub proof fn law_flat_merge<const N: usize, const M: usize>(
    before: flat::Histogram<N>,
    other: flat::Histogram<M>,
    after: flat::Histogram<N>,
    adopt_width: bool,
    sum: u64,
)
    requires
        before.stats_of().count + other.stats_of().count <= u64::MAX,
        other.stats_of().count > 0,
        flat::joined(before, after, other, adopt_width, sum),
    ensures
        gathers(
            after.stats_of(),
            before.stats_of(),
            other.stats_of().count as int,
            other.stats_of().min,
            other.stats_of().max,
            sum,
        ),
{
}

/// Merging in either order gives the same count and the same extremes.
pub proof fn law_flat_merges_commute<const N: usize, const M: usize>(
    a: flat::Histogram<N>,
    b: flat::Histogram<M>,
    into_a: flat::Histogram<N>,
    into_b: flat::Histogram<M>,
    adopt_width: bool,
    sums: (u64, u64),
)
    requires
        a.stats_of().count + b.stats_of().count <= u64::MAX,
        a.stats_of().count > 0,
        b.stats_of().count > 0,
        flat::joined(a, into_a, b, adopt_width, sums.0),
        flat::joined(b, into_b, a, adopt_width, sums.1),
    ensures
        into_a.stats_of().count == into_b.stats_of().count,
        order(into_a.stats_of().min) == order(into_b.stats_of().min),
        order(into_a.stats_of().max) == order(into_b.stats_of().max),
{
    law_flat_merge(a, b, into_a, adopt_width, sums.0);
    law_flat_merge(b, a, into_b, adopt_width, sums.1);
}

/// Merged foreign buckets bring their own count and extremes.
pub proof fn law_flat_raw_merge<const N: usize>(
    before: flat::Histogram<N>,
    after: flat::Histogram<N>,
    stats: Stats,
    buckets: flat::BucketDescriptor,
    counts: Seq<u64>,
    sum: u64,
)
    requires
        before.stats_of().count + stats.count <= u64::MAX,
        flat::absorbed_into(
            before,
            after,
            before.layout(),
            stats,
            buckets.scale as int,
            buckets.offset as int,
            counts,
            sum,
        ),
    ensures
        gathers(
            after.stats_of(),
            before.stats_of(),
            stats.count as int,
            stats.min,
            stats.max,
            sum,
        ),
{
}

/// A recorded value counts as often as it is recorded, and joins the extremes, zero among them; a
/// zero leaves the sum alone.
pub proof fn law_mmsc_recording(before: MMSC, after: MMSC, bits: u64, incr: u64, sum: u64)
    requires
        before.observed(after, bits, incr, sum),
    ensures
        after.count_of() == before.count_of() + incr,
        after.zeros_of() == before.zeros_of() + if zero(bits) {
            incr
        } else {
            0
        },
        after.sum_of() == if zero(bits) {
            before.sum_of()
        } else {
            sum
        },
        before.count_of() == 0 ==> after.min_of() == bits && after.max_of() == bits,
        before.count_of() > 0 ==> lesser(after.min_of(), before.min_of(), bits) && greater(
            after.max_of(),
            before.max_of(),
            bits,
        ),
{
}

/// A merge adds the counts and takes the extremes of both.
pub proof fn law_mmsc_merge(before: MMSC, other: MMSC, after: MMSC, sum: u64)
    requires
        before.combined(after, other, sum),
        other.wf(),
    ensures
        other.count_of() == 0 ==> after == before,
        after.count_of() == before.count_of() + other.count_of(),
        after.zeros_of() == before.zeros_of() + other.zeros_of(),
        other.count_of() > 0 ==> after.sum_of() == sum,
        other.count_of() > 0 && before.count_of() == 0 ==> after.min_of() == other.min_of()
            && after.max_of() == other.max_of(),
        other.count_of() > 0 && before.count_of() > 0 ==> lesser(
            after.min_of(),
            before.min_of(),
            other.min_of(),
        ) && greater(after.max_of(), before.max_of(), other.max_of()),
{
}

} // verus!
