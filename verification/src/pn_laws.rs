//! Laws of the histogram for both signs: no observation is lost, each counts in the bucket of its
//! magnitude on its own side, and both sides share one scale.

use crate::counts::{
    bottom, both, lemma_coarsen_none, lemma_coarsen_twice, lemma_coarsen_zero, lemma_total_zero,
    no_counts, plus, top, total,
};
use crate::float64::{finite, lemma_parts, negative, zero};
use crate::histogram::{merge_outcome, recorded, Histogram};
use crate::histogram_laws::{law_merge_adds_distributions, law_update_keeps_distribution, seen_at};
use crate::mapping::slot_of;
use crate::pn::{is_sync_path, merged_pn, recorded_pn, same_mass, sync_step, synced, HistogramPN};
use crate::scale_laws::{
    held, law_downscale, law_merge_scale, law_recording_scale, lemma_capacity, lemma_held_finer,
    lemma_packs_narrower, packs, together, with_value,
};
use crate::width::capacity;
use crate::sketch_pn::absolute;
use crate::stats::{refused, Error};
use vstd::arithmetic::power2::{lemma_pow2_pos, pow2};
use vstd::prelude::*;

verus! {

/// One call that records a value, and its outcome.
pub struct RecordingPN {
    /// Pattern of the value.
    pub bits: u64,
    /// How often it is recorded.
    pub incr: u64,
    /// The new sum of all values.
    pub sum: u64,
    /// The new sum of the magnitudes on the side of the value.
    pub side_sum: u64,
    /// What the call returned.
    pub outcome: Result<(), Error>,
}

/// Sum of all bucket counts.
pub open spec fn mass<const N: usize>(h: Histogram<N>) -> nat {
    total(h.counts(), bottom(), top())
}

/// The buckets of either range hold all observations of that range.
pub open spec fn tallied<const K: usize, const L: usize>(h: HistogramPN<K, L>) -> bool {
    &&& mass(h.ranges().0) == h.ranges().0.stats_of().count
    &&& mass(h.ranges().1) == h.ranges().1.stats_of().count
}

/// The histogram `path[0]` is empty, and each call of `calls` leads from one histogram of the path
/// to the next.
pub open spec fn history_pn<const K: usize, const L: usize>(
    path: Seq<HistogramPN<K, L>>,
    calls: Seq<RecordingPN>,
) -> bool {
    &&& path.len() == calls.len() + 1
    &&& path[0].wf()
    &&& path[0].is_blank()
    &&& forall|i: int|
        0 <= i < calls.len() ==> recorded_pn(
            path[i],
            path[i + 1],
            (#[trigger] calls[i]).bits,
            calls[i].incr,
            calls[i].sum,
            calls[i].side_sum,
            calls[i].outcome,
        )
}

/// How many values with a given property the first `len` calls recorded: zeros, positive or
/// negative ones.
pub open spec fn weight(calls: Seq<RecordingPN>, len: int, of: spec_fn(u64) -> bool) -> nat
    decreases len,
{
    if len <= 0 {
        0
    } else {
        let c = calls[len - 1];
        weight(calls, len - 1, of) + if c.outcome.is_ok() && of(c.bits) {
            c.incr as nat
        } else {
            0
        }
    }
}

/// A value above zero.
pub open spec fn is_above() -> spec_fn(u64) -> bool {
    |bits: u64| !zero(bits) && !negative(bits)
}

/// A value below zero.
pub open spec fn is_below() -> spec_fn(u64) -> bool {
    |bits: u64| !zero(bits) && negative(bits)
}

/// Positive or negative zero.
pub open spec fn is_zero_of() -> spec_fn(u64) -> bool {
    |bits: u64| zero(bits)
}

/// A recording adds its weight to the buckets of its side, or to the zeros.
pub proof fn law_recording_tallies<const K: usize, const L: usize>(
    before: HistogramPN<K, L>,
    after: HistogramPN<K, L>,
    c: RecordingPN,
)
    requires
        before.wf(),
        tallied(before),
        recorded_pn(before, after, c.bits, c.incr, c.sum, c.side_sum, c.outcome),
    ensures
        after.wf(),
        tallied(after),
        c.outcome.is_err() ==> after == before,
        c.outcome.is_ok() ==> {
            &&& mass(after.ranges().0) == mass(before.ranges().0) + if is_above()(c.bits) {
                c.incr
            } else {
                0
            }
            &&& mass(after.ranges().1) == mass(before.ranges().1) + if is_below()(c.bits) {
                c.incr
            } else {
                0
            }
            &&& after.zeros() == before.zeros() + if zero(c.bits) {
                c.incr
            } else {
                0
            }
        },
{
    if c.outcome.is_ok() && !zero(c.bits) {
        lemma_parts(c.bits);
        lemma_parts(absolute(c.bits));
        if negative(c.bits) {
            let side = choose|side: Histogram<L>|
                #[trigger] recorded(
                    before.ranges().1,
                    side,
                    absolute(c.bits),
                    c.incr,
                    c.side_sum,
                    c.outcome,
                ) && synced((before.ranges().0, side), after.ranges());
            assert(!zero(absolute(c.bits)) && finite(absolute(c.bits)));
            assert(mass(side) == mass(before.ranges().1) + c.incr);
        } else {
            let side = choose|side: Histogram<K>|
                #[trigger] recorded(
                    before.ranges().0,
                    side,
                    c.bits,
                    c.incr,
                    c.side_sum,
                    c.outcome,
                ) && synced((side, before.ranges().1), after.ranges());
            assert(mass(side) == mass(before.ranges().0) + c.incr);
        }
    }
}

/// A merge adds the buckets of either side, and the zeros.
pub proof fn law_merge_tallies<
    const K: usize,
    const L: usize,
    const K2: usize,
    const L2: usize,
>(
    before: HistogramPN<K, L>,
    other: HistogramPN<K2, L2>,
    after: HistogramPN<K, L>,
    sums: (u64, u64, u64),
)
    requires
        before.wf(),
        other.wf(),
        tallied(before),
        tallied(other),
        merged_pn(before, other, after, sums, Ok(())),
    ensures
        tallied(after),
        mass(after.ranges().0) == mass(before.ranges().0) + mass(other.ranges().0),
        mass(after.ranges().1) == mass(before.ranges().1) + mass(other.ranges().1),
        after.zeros() == before.zeros() + other.zeros(),
{
    if other.total() != 0 {
        let (p, n) = choose|p: Histogram<K>, n: Histogram<L>|
            #![trigger synced((p, n), after.ranges())]
            merge_outcome(before.ranges().0, other.ranges().0, p, sums.1, Ok::<(), Error>(()))
                && merge_outcome(
                before.ranges().1,
                other.ranges().1,
                n,
                sums.2,
                Ok::<(), Error>(()),
            ) && synced((p, n), after.ranges());
        assert(mass(p) == mass(before.ranges().0) + mass(other.ranges().0));
        assert(mass(n) == mass(before.ranges().1) + mass(other.ranges().1));
    }
}

/// The scale of a histogram is that of each range that holds a value.
pub proof fn law_shared_scale<const K: usize, const L: usize>(h: HistogramPN<K, L>)
    requires
        h.wf(),
    ensures
        h.ranges().0.counts() != no_counts() ==> h.scale_of() == h.ranges().0.scale_of(),
        h.ranges().1.counts() != no_counts() ==> h.scale_of() == h.ranges().1.scale_of(),
{
}

/// A range at a lower scale shows the same distribution.
proof fn lemma_seen_mass<const N: usize>(before: Histogram<N>, after: Histogram<N>, s: int)
    requires
        same_mass(before, after),
        s <= after.scale_of(),
    ensures
        seen_at(after, s) == seen_at(before, s),
{
    let a = (before.scale_of() - after.scale_of()) as nat;
    let b = (after.scale_of() - s) as nat;
    lemma_coarsen_twice(before.counts(), a, b);
    assert(a + b == (before.scale_of() - s) as nat);
}

/// A recorded value joins the bucket of its magnitude on the side of its sign, and every earlier
/// observation stays in its own: true at each scale that the histogram still resolves.
pub proof fn law_recording_keeps_distributions<const K: usize, const L: usize>(
    before: HistogramPN<K, L>,
    after: HistogramPN<K, L>,
    c: RecordingPN,
    s: int,
)
    requires
        before.wf(),
        recorded_pn(before, after, c.bits, c.incr, c.sum, c.side_sum, c.outcome),
        c.outcome.is_ok(),
        s <= after.ranges().0.scale_of(),
        s <= after.ranges().1.scale_of(),
    ensures
        zero(c.bits) ==> after.ranges() == before.ranges(),
        !zero(c.bits) && !negative(c.bits) ==> {
            &&& seen_at(after.ranges().0, s) == plus(
                seen_at(before.ranges().0, s),
                slot_of(c.bits, s),
                c.incr as nat,
            )
            &&& seen_at(after.ranges().1, s) == seen_at(before.ranges().1, s)
        },
        !zero(c.bits) && negative(c.bits) ==> {
            &&& seen_at(after.ranges().0, s) == seen_at(before.ranges().0, s)
            &&& seen_at(after.ranges().1, s) == plus(
                seen_at(before.ranges().1, s),
                slot_of((c.bits - 0x8000_0000_0000_0000) as u64, s),
                c.incr as nat,
            )
        },
{
    if !zero(c.bits) {
        lemma_parts(c.bits);
        if negative(c.bits) {
            lemma_parts(absolute(c.bits));
            let side = choose|side: Histogram<L>|
                #[trigger] recorded(
                    before.ranges().1,
                    side,
                    absolute(c.bits),
                    c.incr,
                    c.side_sum,
                    c.outcome,
                ) && synced((before.ranges().0, side), after.ranges());
            lemma_seen_mass(before.ranges().0, after.ranges().0, s);
            lemma_seen_mass(side, after.ranges().1, s);
            assert(!zero(absolute(c.bits)) && finite(absolute(c.bits)) && !negative(
                absolute(c.bits),
            ));
            law_update_keeps_distribution(
                before.ranges().1,
                side,
                absolute(c.bits),
                c.incr,
                c.side_sum,
                s,
            );
        } else {
            let side = choose|side: Histogram<K>|
                #[trigger] recorded(
                    before.ranges().0,
                    side,
                    c.bits,
                    c.incr,
                    c.side_sum,
                    c.outcome,
                ) && synced((side, before.ranges().1), after.ranges());
            lemma_seen_mass(side, after.ranges().0, s);
            lemma_seen_mass(before.ranges().1, after.ranges().1, s);
            law_update_keeps_distribution(
                before.ranges().0,
                side,
                c.bits,
                c.incr,
                c.side_sum,
                s,
            );
        }
    }
}

/// A merged histogram shows, on either side, the sum of both distributions.
pub proof fn law_merge_adds_sides<
    const K: usize,
    const L: usize,
    const K2: usize,
    const L2: usize,
>(
    before: HistogramPN<K, L>,
    other: HistogramPN<K2, L2>,
    after: HistogramPN<K, L>,
    sums: (u64, u64, u64),
    s: int,
)
    requires
        before.wf(),
        other.wf(),
        other.total() > 0,
        merged_pn(before, other, after, sums, Ok(())),
        s <= after.ranges().0.scale_of(),
        s <= after.ranges().1.scale_of(),
        s <= other.ranges().0.scale_of(),
        s <= other.ranges().1.scale_of(),
    ensures
        seen_at(after.ranges().0, s) == both(
            seen_at(before.ranges().0, s),
            seen_at(other.ranges().0, s),
        ),
        seen_at(after.ranges().1, s) == both(
            seen_at(before.ranges().1, s),
            seen_at(other.ranges().1, s),
        ),
{
    let (p, n) = choose|p: Histogram<K>, n: Histogram<L>|
        #![trigger synced((p, n), after.ranges())]
        merge_outcome(before.ranges().0, other.ranges().0, p, sums.1, Ok::<(), Error>(()))
            && merge_outcome(
            before.ranges().1,
            other.ranges().1,
            n,
            sums.2,
            Ok::<(), Error>(()),
        ) && synced((p, n), after.ranges());
    lemma_seen_mass(p, after.ranges().0, s);
    lemma_seen_mass(n, after.ranges().1, s);
    law_merge_adds_distributions(before.ranges().0, other.ranges().0, p, sums.1, s);
    law_merge_adds_distributions(before.ranges().1, other.ranges().1, n, sums.2, s);
}

/// Bringing both ranges to one scale takes the lower of the two scales, unless a counter would
/// overflow there. Ranges of one scale, and ranges of which one holds no value, stay as they are.
pub proof fn law_sync<const K: usize, const L: usize>(
    before: (Histogram<K>, Histogram<L>),
    after: (Histogram<K>, Histogram<L>),
)
    requires
        before.0.wf(),
        before.1.wf(),
        synced(before, after),
    ensures
        before.0.counts() == no_counts() || before.1.counts() == no_counts()
            || before.0.scale_of() == before.1.scale_of() ==> after == before,
        before.0.counts() != no_counts() && before.1.counts() != no_counts() ==> {
            let m = if before.0.scale_of() <= before.1.scale_of() {
                before.0.scale_of()
            } else {
                before.1.scale_of()
            };
            &&& after.0.scale_of() == after.1.scale_of() <= m
            &&& after.0.counts() == seen_at(before.0, after.0.scale_of())
            &&& after.1.counts() == seen_at(before.1, after.1.scale_of())
            &&& held(seen_at(before.0, m), before.0.level()) && held(
                seen_at(before.1, m),
                before.1.level(),
            ) ==> after.0.scale_of() == m && after.0.level() == before.0.level()
                && after.1.level() == before.1.level()
        },
{
    let path = choose|path: Seq<(Histogram<K>, Histogram<L>)>| is_sync_path(path, before, after);
    before.0.lemma_wf();
    before.1.lemma_wf();
    if path.len() > 1 {
        let next = path[0int + 1];
        assert(sync_step(path[0int], next));
        if before.0.scale_of() < before.1.scale_of() {
            let change = (before.1.scale_of() - before.0.scale_of()) as nat;
            law_downscale(before.1, next.1, change);
        } else {
            let change = (before.0.scale_of() - before.1.scale_of()) as nat;
            law_downscale(before.0, next.0, change);
        }
        if path.len() > 2 {
            assert(sync_step(path[1int], path[1int + 1]));
        }
    }
    if before.0.counts() != no_counts() && before.1.counts() != no_counts() {
        lemma_total_zero(no_counts(), bottom(), top());
    }
}

/// Recording a positive value lowers the shared scale only as far as it must: at any higher scale
/// that pairing up words can reach, either the positive counts do not fit their pool, or a counter
/// of the negative range would overflow. A value that fits as things are changes nothing else.
pub proof fn law_positive_scale<const K: usize, const L: usize>(
    before: HistogramPN<K, L>,
    after: HistogramPN<K, L>,
    c: RecordingPN,
)
    requires
        before.wf(),
        recorded_pn(before, after, c.bits, c.incr, c.sum, c.side_sum, c.outcome),
        c.outcome.is_ok(),
        c.incr > 0,
        !zero(c.bits),
        !negative(c.bits),
    ensures
        ({
            let own = before.ranges().0;
            let other = before.ranges().1;
            let shared = after.ranges().0.scale_of();
            &&& shared <= own.scale_of()
            &&& forall|s: int, k: nat|
                shared < s <= own.scale_of() && (other.counts() == no_counts() || s
                    <= other.scale_of()) && own.level() <= k <= 6 && s + k <= own.scale_of()
                    + own.level() && #[trigger] packs(
                    with_value(own, c.bits, c.incr, s),
                    k,
                    K as int,
                ) ==> other.counts() != no_counts() && !held(seen_at(other, s), other.level())
            &&& packs(with_value(own, c.bits, c.incr, own.scale_of()), own.level(), K as int) && (
            other.counts() == no_counts() || other.scale_of() == own.scale_of()) ==> {
                &&& shared == own.scale_of()
                &&& after.ranges().0.level() == own.level()
                &&& after.ranges().1 == other
            }
        }),
{
    let own = before.ranges().0;
    let other = before.ranges().1;
    let side = choose|side: Histogram<K>|
        #[trigger] recorded(own, side, c.bits, c.incr, c.side_sum, c.outcome) && synced(
            (side, other),
            after.ranges(),
        );
    law_recording_scale(own, side, c.bits, c.incr, c.side_sum);
    law_sync((side, other), after.ranges());
    let slot = slot_of(c.bits, side.scale_of());
    assert(side.counts()(slot) != no_counts()(slot));
    assert forall|s: int, k: nat|
        after.ranges().0.scale_of() < s <= own.scale_of() && (other.counts() == no_counts() || s
            <= other.scale_of()) && own.level() <= k <= 6 && s + k <= own.scale_of() + own.level()
            && #[trigger] packs(with_value(own, c.bits, c.incr, s), k, K as int) implies other.counts()
        != no_counts() && !held(seen_at(other, s), other.level()) by {
        assert(s <= side.scale_of());
        if other.counts() != no_counts() && held(seen_at(other, s), other.level()) {
            lemma_shared_scale(own, other, side, c.bits, c.incr, c.side_sum, s);
        }
    }
}

/// Recording a negative value lowers the shared scale only as far as it must: at any higher scale
/// that pairing up words can reach, either the negative counts do not fit their pool, or a counter
/// of the positive range would overflow. A value that fits as things are changes nothing else.
pub proof fn law_negative_scale<const K: usize, const L: usize>(
    before: HistogramPN<K, L>,
    after: HistogramPN<K, L>,
    c: RecordingPN,
)
    requires
        before.wf(),
        recorded_pn(before, after, c.bits, c.incr, c.sum, c.side_sum, c.outcome),
        c.outcome.is_ok(),
        c.incr > 0,
        !zero(c.bits),
        negative(c.bits),
    ensures
        ({
            let own = before.ranges().1;
            let other = before.ranges().0;
            let shared = after.ranges().1.scale_of();
            let magnitude = (c.bits - 0x8000_0000_0000_0000) as u64;
            &&& shared <= own.scale_of()
            &&& forall|s: int, k: nat|
                shared < s <= own.scale_of() && (other.counts() == no_counts() || s
                    <= other.scale_of()) && own.level() <= k <= 6 && s + k <= own.scale_of()
                    + own.level() && #[trigger] packs(
                    with_value(own, magnitude, c.incr, s),
                    k,
                    L as int,
                ) ==> other.counts() != no_counts() && !held(seen_at(other, s), other.level())
            &&& packs(with_value(own, magnitude, c.incr, own.scale_of()), own.level(), L as int) && (
            other.counts() == no_counts() || other.scale_of() == own.scale_of()) ==> {
                &&& shared == own.scale_of()
                &&& after.ranges().1.level() == own.level()
                &&& after.ranges().0 == other
            }
        }),
{
    lemma_parts(c.bits);
    lemma_parts(absolute(c.bits));
    let magnitude = absolute(c.bits);
    let own = before.ranges().1;
    let other = before.ranges().0;
    let side = choose|side: Histogram<L>|
        #[trigger] recorded(own, side, magnitude, c.incr, c.side_sum, c.outcome) && synced(
            (other, side),
            after.ranges(),
        );
    assert(!zero(magnitude) && finite(magnitude) && !negative(magnitude));
    law_recording_scale(own, side, magnitude, c.incr, c.side_sum);
    law_sync((other, side), after.ranges());
    let slot = slot_of(magnitude, side.scale_of());
    assert(side.counts()(slot) != no_counts()(slot));
    assert forall|s: int, k: nat|
        after.ranges().1.scale_of() < s <= own.scale_of() && (other.counts() == no_counts() || s
            <= other.scale_of()) && own.level() <= k <= 6 && s + k <= own.scale_of() + own.level()
            && #[trigger] packs(with_value(own, magnitude, c.incr, s), k, L as int) implies other.counts()
        != no_counts() && !held(seen_at(other, s), other.level()) by {
        assert(s <= side.scale_of());
        if other.counts() != no_counts() && held(seen_at(other, s), other.level()) {
            lemma_shared_scale(own, other, side, magnitude, c.incr, c.side_sum, s);
        }
    }
}

/// Where the other range holds its counts at a scale, both do at the lower of their own.
proof fn lemma_shared_scale<const A: usize, const B: usize>(
    own: Histogram<A>,
    other: Histogram<B>,
    side: Histogram<A>,
    bits: u64,
    incr: u64,
    sum: u64,
    s: int,
)
    requires
        own.wf(),
        other.wf(),
        side.wf(),
        incr > 0,
        !zero(bits),
        !refused(bits),
        recorded(own, side, bits, incr, sum, Ok(())),
        own.counts() == no_counts() || own.scale_of() == other.scale_of(),
        s <= side.scale_of(),
        s <= other.scale_of(),
        held(seen_at(other, s), other.level()),
    ensures
        ({
            let m = if side.scale_of() <= other.scale_of() {
                side.scale_of()
            } else {
                other.scale_of()
            };
            &&& s <= m
            &&& held(seen_at(side, m), side.level())
            &&& held(seen_at(other, m), other.level())
        }),
{
    let m = if side.scale_of() <= other.scale_of() {
        side.scale_of()
    } else {
        other.scale_of()
    };
    lemma_held_finer(other, s, m, other.level());
    lemma_own_held(side);
    if m < side.scale_of() {
        law_update_keeps_distribution(own, side, bits, incr, sum, m);
        law_update_keeps_distribution(own, side, bits, incr, sum, side.scale_of());
        lemma_coarsen_none((own.scale_of() - m) as nat);
        lemma_coarsen_none((own.scale_of() - side.scale_of()) as nat);
        let f = seen_at(side, m);
        let at = slot_of(bits, side.scale_of());
        assert(side.counts()(at) == incr);
        assert(seen_at(side, side.scale_of())(at) < pow2(pow2(side.level())));
        assert forall|i: int| #[trigger] f(i) < pow2(pow2(side.level())) by {
            lemma_pow2_pos(pow2(side.level()));
        }
    }
}

/// The counters of a range hold its counts.
proof fn lemma_own_held<const N: usize>(h: Histogram<N>)
    requires
        h.wf(),
    ensures
        held(seen_at(h, h.scale_of()), h.level()),
        seen_at(h, h.scale_of()) == h.counts(),
{
    h.lemma_wf();
    lemma_coarsen_zero(h.counts());
    lemma_capacity(h.level());
    let f = seen_at(h, h.scale_of());
    assert forall|i: int| #[trigger] f(i) < pow2(pow2(h.level())) by {
        assert(h.counts()(i) <= capacity(h.level()));
    }
}

/// The counts of two ranges together fit at the scale `s` as they are: at no higher scale than either
/// has, with the wider of both counters, in words that pairing up can reach.
pub open spec fn sum_fits<const N: usize, const M: usize>(
    a: Histogram<N>,
    b: Histogram<M>,
    s: int,
) -> bool {
    let k = if a.level() >= b.level() {
        a.level()
    } else {
        b.level()
    };
    if b.counts() == no_counts() {
        a.counts() == no_counts() || (s <= a.scale_of() && held(seen_at(a, s), a.level()))
    } else {
        &&& s <= a.scale_of()
        &&& s <= b.scale_of()
        &&& s + k <= a.scale_of() + a.level()
        &&& s + k <= b.scale_of() + b.level()
        &&& packs(together(a, b, s), k, N as int)
    }
}

/// A range after a merge whose sums fit at a scale.
proof fn lemma_sum_fits<const N: usize, const M: usize>(
    a: Histogram<N>,
    b: Histogram<M>,
    after: Histogram<N>,
    sum: u64,
    s: int,
)
    requires
        a.wf(),
        b.wf(),
        after.wf(),
        merge_outcome(a, b, after, sum, Ok(())),
        a.stats_of().count + b.stats_of().count <= u64::MAX,
        sum_fits(a, b, s),
        after.counts() != no_counts(),
    ensures
        s <= after.scale_of(),
        held(seen_at(after, s), after.level()),
{
    a.lemma_wf();
    b.lemma_wf();
    after.lemma_wf();
    if b.counts() != no_counts() {
        let k = if a.level() >= b.level() {
            a.level()
        } else {
            b.level()
        };
        law_merge_scale(a, b, after, sum);
        assert(s <= after.scale_of());
        law_merge_adds_distributions(a, b, after, sum, s);
        let f = seen_at(after, s);
        assert(held(f, k)) by {
            assert forall|i: int| #[trigger] f(i) < pow2(pow2(k)) by {
                assert(together(a, b, s)(i) < pow2(pow2(k)));
            }
        }
        lemma_held_finer(after, s, after.scale_of(), k);
        lemma_own_held(after);
        if after.level() > k {
            lemma_packs_narrower(after.counts(), after.level(), k, N as int);
        }
    }
}

/// A merge lowers the shared scale only as far as it must: where the sums of both sides fit at a
/// scale as they are, the shared scale is at least that.
pub proof fn law_merge_shared_scale<
    const K: usize,
    const L: usize,
    const K2: usize,
    const L2: usize,
>(
    before: HistogramPN<K, L>,
    other: HistogramPN<K2, L2>,
    after: HistogramPN<K, L>,
    sums: (u64, u64, u64),
    s: int,
)
    requires
        before.wf(),
        other.wf(),
        other.total() > 0,
        merged_pn(before, other, after, sums, Ok(())),
        sum_fits(before.ranges().0, other.ranges().0, s),
        sum_fits(before.ranges().1, other.ranges().1, s),
    ensures
        after.ranges().0.counts() != no_counts() ==> after.ranges().0.scale_of() >= s,
        after.ranges().1.counts() != no_counts() ==> after.ranges().1.scale_of() >= s,
{
    let (p, n) = choose|p: Histogram<K>, n: Histogram<L>|
        #![trigger synced((p, n), after.ranges())]
        merge_outcome(before.ranges().0, other.ranges().0, p, sums.1, Ok::<(), Error>(()))
            && merge_outcome(
            before.ranges().1,
            other.ranges().1,
            n,
            sums.2,
            Ok::<(), Error>(()),
        ) && synced((p, n), after.ranges());
    law_sync((p, n), after.ranges());
    if p.counts() != no_counts() {
        lemma_sum_fits(before.ranges().0, other.ranges().0, p, sums.1, s);
    }
    if n.counts() != no_counts() {
        lemma_sum_fits(before.ranges().1, other.ranges().1, n, sums.2, s);
    }
    if p.counts() != no_counts() && n.counts() != no_counts() {
        let m = if p.scale_of() <= n.scale_of() {
            p.scale_of()
        } else {
            n.scale_of()
        };
        lemma_held_finer(p, s, m, p.level());
        lemma_held_finer(n, s, m, n.level());
    }
}

/// After any sequence of recordings into an empty histogram, the positive buckets hold the positive
/// values, the negative buckets the negative ones, and together with the zeros they are all that
/// was counted.
pub proof fn law_history_pn<const K: usize, const L: usize>(
    path: Seq<HistogramPN<K, L>>,
    calls: Seq<RecordingPN>,
    i: int,
)
    requires
        history_pn(path, calls),
        0 <= i <= calls.len(),
    ensures
        path[i].wf(),
        tallied(path[i]),
        mass(path[i].ranges().0) == weight(calls, i, is_above()),
        mass(path[i].ranges().1) == weight(calls, i, is_below()),
        path[i].zeros() == weight(calls, i, is_zero_of()),
        mass(path[i].ranges().0) + mass(path[i].ranges().1) + path[i].zeros() == path[i].total(),
        i > 0 && calls[i - 1].outcome.is_err() ==> path[i] == path[i - 1],
    decreases i,
{
    if i > 0 {
        law_history_pn(path, calls, i - 1);
        assert(path[i - 1 + 1] == path[i]);
        law_recording_tallies(path[i - 1], path[i], calls[i - 1]);
    } else {
        lemma_total_zero(no_counts(), bottom(), top());
    }
}

} // verus!
