//! What holds of every auto-scaling histogram, whatever it has recorded.
//!
//! A histogram forgets resolution, never observations. Seen at a scale no finer than its own, it
//! shows the distribution of all values that it has recorded, in whatever order they came and
//! through however many merges.

use crate::counts::{
    both, bottom, coarsen, lemma_coarsen_both, lemma_coarsen_plus, lemma_coarsen_twice,
    lemma_coarsen_zero, lemma_plus_commutes, no_counts, plus, top, total, Counts,
};
use crate::float64::{biased, zero};
use crate::histogram::{merge_outcome, recorded, Histogram};
use crate::lookup::{law_index_coarser, TABLE_SCALE};
use crate::mapping::slot_of;
use crate::stats::refused;
use vstd::prelude::*;

verus! {

/// The buckets of a histogram, seen at the scale `s`.
pub open spec fn seen_at<const N: usize>(h: Histogram<N>, s: int) -> Counts {
    coarsen(h.counts(), (h.scale_of() - s) as nat)
}

/// A bucket of a lower scale is the bucket of a higher scale, shifted.
pub proof fn lemma_slot_coarser(bits: u64, scale: int, s: int)
    requires
        s <= scale <= TABLE_SCALE,
    ensures
        slot_of(bits, s) == slot_of(bits, scale) / vstd::arithmetic::power2::pow2(
            (scale - s) as nat,
        ) as int,
{
    let d = (scale - s) as nat;
    if biased(bits) == 0 {
        law_index_coarser(1, -1022, scale, d);
    } else {
        law_index_coarser(
            crate::float64::significand(bits),
            biased(bits) - 1023,
            scale,
            d,
        );
    }
    assert(scale - d == s);
}

/// A value that is recorded joins the bucket that it maps to, and every earlier observation stays
/// in its own: true at each scale that the histogram still resolves.
pub proof fn law_update_keeps_distribution<const N: usize>(
    before: Histogram<N>,
    after: Histogram<N>,
    bits: u64,
    incr: u64,
    sum: u64,
    s: int,
)
    requires
        before.wf(),
        before.stats_of().count + incr <= u64::MAX,
        !refused(bits),
        !zero(bits),
        recorded(before, after, bits, incr, sum, Ok(())),
        s <= after.scale_of(),
    ensures
        after.scale_of() <= before.scale_of(),
        seen_at(after, s) == plus(seen_at(before, s), slot_of(bits, s), incr as nat),
{
    before.lemma_wf();
    let slot = slot_of(bits, before.scale_of());
    let h = plus(before.counts(), slot, incr as nat);
    lemma_coarsen_zero(before.counts());
    lemma_coarsen_zero(h);
    if incr == 0 {
        assert(h =~= before.counts());
    }
    let d = (before.scale_of() - after.scale_of()) as nat;
    assert(after.counts() == coarsen(h, d));
    let e = (after.scale_of() - s) as nat;
    lemma_coarsen_twice(h, d, e);
    assert(d + e == (before.scale_of() - s) as nat);
    lemma_coarsen_plus(before.counts(), slot, incr as nat, d + e);
    lemma_slot_coarser(bits, before.scale_of(), s);
}

/// Zeros leave the buckets alone.
pub proof fn law_zeros_keep_distribution<const N: usize>(
    before: Histogram<N>,
    after: Histogram<N>,
    bits: u64,
    incr: u64,
    sum: u64,
    s: int,
)
    requires
        before.wf(),
        before.stats_of().count + incr <= u64::MAX,
        zero(bits),
        recorded(before, after, bits, incr, sum, Ok(())),
    ensures
        after.scale_of() == before.scale_of(),
        seen_at(after, s) == seen_at(before, s),
{
}

/// The order of two updates does not matter: either way the histograms show the same
/// distribution at every scale that both resolve.
pub proof fn law_updates_commute<const N: usize>(
    before: Histogram<N>,
    mid: (Histogram<N>, Histogram<N>),
    after: (Histogram<N>, Histogram<N>),
    first: (u64, u64),
    second: (u64, u64),
    sums: (u64, u64, u64, u64),
    s: int,
)
    requires
        before.wf(),
        before.stats_of().count + first.1 + second.1 <= u64::MAX,
        !refused(first.0),
        !zero(first.0),
        !refused(second.0),
        !zero(second.0),
        recorded(before, mid.0, first.0, first.1, sums.0, Ok(())),
        recorded(mid.0, after.0, second.0, second.1, sums.1, Ok(())),
        recorded(before, mid.1, second.0, second.1, sums.2, Ok(())),
        recorded(mid.1, after.1, first.0, first.1, sums.3, Ok(())),
        s <= after.0.scale_of(),
        s <= after.1.scale_of(),
    ensures
        seen_at(after.0, s) == seen_at(after.1, s),
{
    law_update_keeps_distribution(mid.0, after.0, second.0, second.1, sums.1, s);
    law_update_keeps_distribution(before, mid.0, first.0, first.1, sums.0, s);
    law_update_keeps_distribution(mid.1, after.1, first.0, first.1, sums.3, s);
    law_update_keeps_distribution(before, mid.1, second.0, second.1, sums.2, s);
    lemma_plus_commutes(
        seen_at(before, s),
        slot_of(first.0, s),
        first.1 as nat,
        slot_of(second.0, s),
        second.1 as nat,
    );
}

/// A merged histogram shows the sum of both distributions, at each scale that it resolves: the
/// same as if it had recorded the values of the other one by one.
pub proof fn law_merge_adds_distributions<const N: usize, const M: usize>(
    before: Histogram<N>,
    other: Histogram<M>,
    after: Histogram<N>,
    sum: u64,
    s: int,
)
    requires
        before.wf(),
        other.wf(),
        before.stats_of().count + other.stats_of().count <= u64::MAX,
        merge_outcome(before, other, after, sum, Ok(())),
        s <= after.scale_of(),
        s <= other.scale_of(),
    ensures
        after.scale_of() <= before.scale_of(),
        seen_at(after, s) == both(seen_at(before, s), seen_at(other, s)),
{
    before.lemma_wf();
    other.lemma_wf();
    let e = (after.scale_of() - s) as nat;
    if other.counts() == no_counts() || other.stats_of().count == 0 {
        assert(other.counts() == no_counts());
        assert(seen_at(other, s) =~= no_counts()) by {
            assert forall|i: int| #[trigger] seen_at(other, s)(i) == no_counts()(i) by {
                let p = vstd::arithmetic::power2::pow2((other.scale_of() - s) as nat);
                crate::counts::lemma_total_zero(no_counts(), i * p, (i + 1) * p);
            }
        }
        assert(both(seen_at(before, s), no_counts()) =~= seen_at(before, s));
    } else {
        let f = coarsen(before.counts(), (before.scale_of() - after.scale_of()) as nat);
        let g = coarsen(other.counts(), (other.scale_of() - after.scale_of()) as nat);
        assert(after.counts() == both(f, g));
        lemma_coarsen_both(f, g, e);
        lemma_coarsen_twice(
            before.counts(),
            (before.scale_of() - after.scale_of()) as nat,
            e,
        );
        lemma_coarsen_twice(other.counts(), (other.scale_of() - after.scale_of()) as nat, e);
        assert((before.scale_of() - after.scale_of()) as nat + e == (before.scale_of() - s) as nat);
        assert((other.scale_of() - after.scale_of()) as nat + e == (other.scale_of() - s) as nat);
    }
}

/// Merging in either order shows the same distribution at every scale that both results resolve.
pub proof fn law_merges_commute<const N: usize, const M: usize>(
    a: Histogram<N>,
    b: Histogram<M>,
    into_a: Histogram<N>,
    into_b: Histogram<M>,
    sums: (u64, u64),
    s: int,
)
    requires
        a.wf(),
        b.wf(),
        a.stats_of().count + b.stats_of().count <= u64::MAX,
        merge_outcome(a, b, into_a, sums.0, Ok(())),
        merge_outcome(b, a, into_b, sums.1, Ok(())),
        s <= into_a.scale_of(),
        s <= into_b.scale_of(),
        s <= a.scale_of(),
        s <= b.scale_of(),
    ensures
        seen_at(into_a, s) == seen_at(into_b, s),
{
    law_merge_adds_distributions(a, b, into_a, sums.0, s);
    law_merge_adds_distributions(b, a, into_b, sums.1, s);
    assert(both(seen_at(a, s), seen_at(b, s)) =~= both(seen_at(b, s), seen_at(a, s)));
}

/// Observations that no bucket holds.
pub open spec fn unbucketed<const N: usize>(h: Histogram<N>) -> int {
    h.stats_of().count - total(h.counts(), bottom(), top())
}

/// The observations outside the buckets are the zeros: a recorded zero adds to them, any other
/// value does not.
pub proof fn law_zero_count<const N: usize>(
    before: Histogram<N>,
    after: Histogram<N>,
    bits: u64,
    incr: u64,
    sum: u64,
)
    requires
        before.wf(),
        recorded(before, after, bits, incr, sum, Ok(())),
    ensures
        unbucketed(after) == unbucketed(before) + if zero(bits) {
            incr
        } else {
            0
        },
{
}

/// A merge adds the zeros of both.
pub proof fn law_zero_counts_add<const N: usize, const M: usize>(
    before: Histogram<N>,
    other: Histogram<M>,
    after: Histogram<N>,
    sum: u64,
)
    requires
        before.wf(),
        other.wf(),
        merge_outcome(before, other, after, sum, Ok(())),
    ensures
        unbucketed(after) == unbucketed(before) + unbucketed(other),
{
    other.lemma_wf();
}

} // verus!
