//! What holds of every flat histogram, whatever it has recorded.

use crate::arith::lemma_shift_twice;
use crate::counts::{
    both, bottom, coarsen, lemma_coarsen_none, lemma_coarsen_plus, lemma_coarsen_twice,
    lemma_total_zero, no_counts, plus, top, total, Counts,
};
use crate::flat::{
    absorb_out, absorbed_into, join_runs_out, joined, lemma_live_importable, lemma_live_sum,
    receiving, updated, Histogram,
};
use crate::layout::{bucket_at_scale, lemma_side, side, Layout};
use crate::lookup::TABLE_SCALE;
use crate::mapping::{index_of, MIN_SCALE};
use crate::replay::{
    absorb_runs_out, absorbed, all_countable, countable, import_key, import_runs_out, import_scale,
    importable, imported, key_of, lemma_absorbed, lemma_import_key, lemma_import_start,
    lemma_imported, lemma_key_of, lemma_replayed, lemma_replayed_push, replay_runs_out, replayed,
    sum_of,
};
use crate::stats::Stats;
use vstd::prelude::*;

verus! {

/// Raw values are invisible: after a single value, a reader sees the layout that counting the
/// value at once would have given, whether the histogram holds raw values or counters.
pub proof fn law_literal_transparent<const N: usize>(
    before: Histogram<N>,
    after: Histogram<N>,
    bits: u64,
    sum: u64,
)
    requires
        before.wf(),
        after.wf(),
        countable(bits),
        updated(before, after, bits, 1, sum),
    ensures
        after.layout() == before.layout().recorded(
            N as int,
            key_of(bits),
            TABLE_SCALE as int,
            1,
        ),
{
    before.lemma_wf();
    after.lemma_wf();
    crate::float64::lemma_parts(bits);
    if before.literal() && before.literals().len() + 1 <= N {
        assert(after.literals() =~= before.literals().push(bits));
        lemma_replayed_push(before.counters(), N as int, before.literals(), bits);
    }
}

/// Replaying two runs of values one after the other.
proof fn lemma_replayed_add(p: Layout, n: int, a: Seq<u64>, b: Seq<u64>)
    ensures
        replayed(p, n, a + b) == replayed(replayed(p, n, a), n, b),
    decreases b.len(),
{
    if b.len() == 0 {
        assert(a + b =~= a);
    } else {
        lemma_replayed_add(p, n, a, b.drop_last());
        assert((a + b).drop_last() =~= a + b.drop_last());
        assert((a + b).last() == b.last());
    }
}

/// The buckets of a layout, seen at the scale `s`.
pub open spec fn shown(p: Layout, s: int) -> Counts {
    coarsen(p.counts, (p.scale - s) as nat)
}

/// How many of the values fall into each bucket of the scale `s`.
pub open spec fn tallied(values: Seq<u64>, s: int) -> Counts
    decreases values.len(),
{
    if values.len() == 0 {
        no_counts()
    } else {
        plus(tallied(values.drop_last(), s), index_of(values.last(), s), 1)
    }
}

/// A run of counts as buckets: the first `len` of them, from `offset` up.
pub open spec fn listed(counts: Seq<u64>, offset: int, len: int) -> Counts {
    |i: int|
        if offset <= i < offset + len {
            counts[i - offset] as nat
        } else {
            0
        }
}

/// A layout of a lower scale that holds the same observations shows the same buckets.
proof fn lemma_shown_coarser(p: Layout, q: Layout, s: int)
    requires
        p.coarser(q),
        s <= q.scale,
    ensures
        shown(q, s) == shown(p, s),
{
    lemma_coarsen_twice(p.counts, (p.scale - q.scale) as nat, (q.scale - s) as nat);
    assert((p.scale - q.scale) as nat + (q.scale - s) as nat == (p.scale - s) as nat);
}

/// An observation shows in its own bucket, at every scale that is still resolved.
pub proof fn lemma_shown_recorded(p: Layout, n: int, key: int, from: int, incr: nat, s: int)
    requires
        p.valid(n),
        p.scale <= from <= TABLE_SCALE,
        bottom() <= key < top(),
        (p.inside() && -side(from) <= key < side(from)) || !p.record_runs_out(n, key, from, incr),
        total(p.counts, bottom(), top()) + incr <= u64::MAX,
        incr > 0,
        s <= p.recorded(n, key, from, incr).scale,
    ensures
        shown(p.recorded(n, key, from, incr), s) == plus(
            shown(p, s),
            bucket_at_scale(key, from, s),
            incr,
        ),
{
    p.lemma_recorded(n, key, from, incr);
    let q = p.recorded(n, key, from, incr);
    let a = (p.scale - q.scale) as nat;
    let b = (q.scale - s) as nat;
    let at = bucket_at_scale(key, from, q.scale);
    lemma_coarsen_plus(coarsen(p.counts, a), at, incr, b);
    lemma_coarsen_twice(p.counts, a, b);
    lemma_shift_twice(key, (from - q.scale) as nat, b);
    assert(a + b == (p.scale - s) as nat);
    assert((from - q.scale) as nat + b == (from - s) as nat);
}

/// Replayed values show in their own buckets.
proof fn lemma_shown_replayed(p: Layout, n: int, values: Seq<u64>, s: int)
    requires
        p.valid(n),
        p.inside() || !replay_runs_out(p, n, values),
        all_countable(values),
        total(p.counts, bottom(), top()) + values.len() <= u64::MAX,
        MIN_SCALE <= s <= replayed(p, n, values).scale,
    ensures
        shown(replayed(p, n, values), s) =~= both(shown(p, s), tallied(values, s)),
    decreases values.len(),
{
    if values.len() > 0 {
        let rest = values.drop_last();
        assert forall|i: int| 0 <= i < rest.len() implies countable(#[trigger] rest[i]) by {
            assert(rest[i] == values[i]);
        }
        let bits = values[values.len() - 1];
        assert(countable(bits));
        lemma_replayed(p, n, rest);
        lemma_key_of(bits, TABLE_SCALE as int);
        lemma_side(TABLE_SCALE as int);
        let before = replayed(p, n, rest);
        before.lemma_recorded(n, key_of(bits), TABLE_SCALE as int, 1);
        lemma_key_of(bits, s);
        lemma_shown_replayed(p, n, rest, s);
        lemma_shown_recorded(before, n, key_of(bits), TABLE_SCALE as int, 1, s);
    }
}

/// Copies of one value fall into one bucket.
proof fn lemma_tallied_copies(bits: u64, k: nat, s: int)
    ensures
        tallied(Seq::new(k, |i: int| bits), s) =~= plus(no_counts(), index_of(bits, s), k),
    decreases k,
{
    let all = Seq::new(k, |i: int| bits);
    if k > 0 {
        assert(all.drop_last() =~= Seq::new((k - 1) as nat, |i: int| bits));
        lemma_tallied_copies(bits, (k - 1) as nat, s);
    }
}

/// A value that is recorded joins the bucket that it maps to, and every earlier observation stays
/// in its own: true at each scale that the histogram still resolves, whether it holds raw values
/// or counters.
pub proof fn law_update_keeps_counts<const N: usize>(
    before: Histogram<N>,
    after: Histogram<N>,
    bits: u64,
    incr: u64,
    sum: u64,
    s: int,
)
    requires
        before.wf(),
        after.wf(),
        countable(bits),
        incr > 0,
        before.stats_of().count + incr <= u64::MAX,
        !before.update_runs_out(bits, incr),
        updated(before, after, bits, incr, sum),
        MIN_SCALE <= s <= after.layout().scale,
    ensures
        after.layout().scale <= before.layout().scale,
        shown(after.layout(), s) == plus(shown(before.layout(), s), index_of(bits, s), incr as nat),
{
    before.lemma_wf();
    after.lemma_wf();
    crate::float64::lemma_parts(bits);
    let n = N as int;
    lemma_key_of(bits, TABLE_SCALE as int);
    lemma_side(TABLE_SCALE as int);
    lemma_key_of(bits, s);
    let p = before.layout();
    if before.literal() && before.literals().len() + incr <= N {
        let copies = Seq::new(incr as nat, |i: int| bits);
        lemma_replayed_add(before.counters(), n, before.literals(), copies);
        lemma_replayed(p, n, copies);
        lemma_shown_replayed(p, n, copies, s);
        lemma_tallied_copies(bits, incr as nat, s);
        assert(shown(after.layout(), s) =~= plus(shown(p, s), index_of(bits, s), incr as nat));
    } else {
        p.lemma_recorded(n, key_of(bits), TABLE_SCALE as int, incr as nat);
        lemma_shown_recorded(p, n, key_of(bits), TABLE_SCALE as int, incr as nat, s);
    }
}

/// The buckets hold every positive observation: recording `incr` of them adds `incr` to the sum
/// of all buckets, and zeros add nothing.
pub proof fn law_update_conserves<const N: usize>(
    before: Histogram<N>,
    after: Histogram<N>,
    bits: u64,
    incr: u64,
    sum: u64,
)
    requires
        before.wf(),
        after.wf(),
        incr > 0,
        before.stats_of().count + incr <= u64::MAX,
        crate::flat::acceptable(bits),
        !before.update_runs_out(bits, incr),
        updated(before, after, bits, incr, sum),
    ensures
        total(after.layout().counts, bottom(), top()) == total(
            before.layout().counts,
            bottom(),
            top(),
        ) + if crate::float64::zero(bits) {
            0
        } else {
            incr as int
        },
{
    before.lemma_wf();
    after.lemma_wf();
    let n = N as int;
    crate::float64::lemma_parts(bits);
    if !crate::float64::zero(bits) {
        lemma_key_of(bits, TABLE_SCALE as int);
        lemma_side(TABLE_SCALE as int);
        lemma_side(before.limit());
        if before.literal() && before.literals().len() + incr <= N {
            lemma_replayed(before.counters(), n, before.literals());
            lemma_replayed(after.counters(), n, after.literals());
        } else {
            before.layout().lemma_recorded(n, key_of(bits), TABLE_SCALE as int, incr as nat);
        }
    }
}

/// The layout that takes the buckets of another histogram is valid.
pub proof fn lemma_receiving_valid<const N: usize, const M: usize>(
    before: Histogram<N>,
    other: Histogram<M>,
    adopt_width: bool,
)
    requires
        before.wf(),
        other.wf(),
    ensures
        receiving(before, other, adopt_width).valid(N as int),
{
    before.lemma_wf();
    other.lemma_wf();
    let n = N as int;
    let p = before.layout();
    let start = receiving(before, other, adopt_width);
    if start != p {
        p.lemma_vacant_coarser(n, 0);
        crate::width::lemma_lanes(start.level);
        assert(crate::layout::slots(n, start.level) >= 1) by (nonlinear_arith)
            requires
                crate::layout::slots(n, start.level) == n * crate::width::lanes(start.level),
                n >= 2,
                crate::width::lanes(start.level) >= 1,
        ;
    }
}

/// Merging adds the buckets: the sum of all buckets afterwards is that of both histograms
/// before, for any two sizes.
pub proof fn law_merge_conserves<const N: usize, const M: usize>(
    before: Histogram<N>,
    after: Histogram<N>,
    other: Histogram<M>,
    adopt_width: bool,
    sum: u64,
)
    requires
        before.wf(),
        after.wf(),
        other.wf(),
        before.stats_of().count + other.stats_of().count <= u64::MAX,
        !join_runs_out(before, other, adopt_width),
        joined(before, after, other, adopt_width, sum),
    ensures
        total(after.layout().counts, bottom(), top()) == total(
            before.layout().counts,
            bottom(),
            top(),
        ) + total(other.layout().counts, bottom(), top()),
{
    before.lemma_wf();
    after.lemma_wf();
    other.lemma_wf();
    let n = N as int;
    let p = before.layout();
    if other.literal() {
        lemma_side(other.limit());
        lemma_replayed(p, n, other.literals());
        lemma_replayed(other.counters(), M as int, other.literals());
        crate::counts::lemma_total_zero(crate::counts::no_counts(), bottom(), top());
    } else {
        let q = other.counters();
        lemma_live_sum(q, M as int);
        lemma_live_importable(q, M as int);
        let start = receiving(before, other, adopt_width);
        if q.live().len() > 0 {
            lemma_receiving_valid(before, other, adopt_width);
            lemma_imported(start, n, q.scale, q.low, q.live());
        } else if !before.literal() {
            p.lemma_trimmed(n);
        }
    }
}

/// Counted foreign buckets show in the buckets that hold them.
proof fn lemma_shown_absorbed(
    p: Layout,
    n: int,
    scale: int,
    offset: int,
    counts: Seq<u64>,
    len: int,
    s: int,
)
    requires
        p.valid(n),
        p.scale <= import_scale(scale),
        importable(scale, offset, counts.len() as int),
        0 <= len <= counts.len(),
        !absorb_runs_out(p, n, scale, offset, counts, len),
        total(p.counts, bottom(), top()) + sum_of(counts, len) <= u64::MAX,
        s <= absorbed(p, n, scale, offset, counts, len).scale,
    ensures
        shown(absorbed(p, n, scale, offset, counts, len), s) =~= both(
            shown(p, s),
            coarsen(listed(counts, offset, len), (scale - s) as nat),
        ),
    decreases len,
{
    let d = (scale - s) as nat;
    if len == 0 {
        assert(listed(counts, offset, 0) =~= no_counts());
        lemma_coarsen_none(d);
    } else {
        let last = offset + len - 1;
        let c = counts[len - 1];
        let before = absorbed(p, n, scale, offset, counts, len - 1);
        let from = import_scale(scale);
        let key = import_key(last, scale);
        lemma_absorbed(p, n, scale, offset, counts, len - 1);
        lemma_import_key(scale, offset, counts.len() as int, last);
        assert(listed(counts, offset, len) =~= plus(
            listed(counts, offset, len - 1),
            last,
            c as nat,
        ));
        lemma_coarsen_plus(listed(counts, offset, len - 1), last, c as nat, d);
        if c != 0 {
            before.lemma_recorded(n, key, from, c as nat);
            lemma_shown_absorbed(p, n, scale, offset, counts, len - 1, s);
            lemma_shown_recorded(before, n, key, from, c as nat, s);
            lemma_shift_twice(last, (scale - from) as nat, (from - s) as nat);
            assert((scale - from) as nat + (from - s) as nat == d);
        } else {
            lemma_shown_absorbed(p, n, scale, offset, counts, len - 1, s);
        }
    }
}

/// Merged foreign buckets show in the buckets that hold them.
proof fn lemma_shown_imported(
    p: Layout,
    n: int,
    scale: int,
    offset: int,
    counts: Seq<u64>,
    s: int,
)
    requires
        p.valid(n),
        counts.len() > 0,
        importable(scale, offset, counts.len() as int),
        !import_runs_out(p, n, scale, offset, counts),
        total(p.counts, bottom(), top()) + sum_of(counts, counts.len() as int) <= u64::MAX,
        s <= imported(p, n, scale, offset, counts).scale,
    ensures
        imported(p, n, scale, offset, counts).scale <= p.scale,
        shown(imported(p, n, scale, offset, counts), s) =~= both(
            shown(p, s),
            coarsen(listed(counts, offset, counts.len() as int), (scale - s) as nat),
        ),
{
    let len = counts.len() as int;
    let ready = lemma_import_start(p, n, scale, offset, counts);
    lemma_absorbed(ready, n, scale, offset, counts, len);
    absorbed(ready, n, scale, offset, counts, len).lemma_trimmed(n);
    lemma_shown_absorbed(ready, n, scale, offset, counts, len, s);
    lemma_shown_coarser(p, ready, s);
}

/// Merging foreign buckets adds them to the buckets of the histogram, at each scale that it
/// resolves afterwards.
pub proof fn law_raw_merge_adds_counts<const N: usize>(
    before: Histogram<N>,
    after: Histogram<N>,
    stats: Stats,
    scale: int,
    offset: int,
    counts: Seq<u64>,
    sum: u64,
    s: int,
)
    requires
        before.wf(),
        after.wf(),
        before.stats_of().count + sum_of(counts, counts.len() as int) <= u64::MAX,
        counts.len() > 0 ==> importable(scale, offset, counts.len() as int),
        !absorb_out(before, before.layout(), scale, offset, counts),
        absorbed_into(before, after, before.layout(), stats, scale, offset, counts, sum),
        MIN_SCALE <= s <= after.layout().scale,
    ensures
        after.layout().scale <= before.layout().scale,
        shown(after.layout(), s) == both(
            shown(before.layout(), s),
            coarsen(listed(counts, offset, counts.len() as int), (scale - s) as nat),
        ),
{
    before.lemma_wf();
    after.lemma_wf();
    let p = before.layout();
    if counts.len() > 0 {
        lemma_shown_imported(p, N as int, scale, offset, counts, s);
    } else {
        if !before.literal() {
            p.lemma_trimmed(N as int);
        }
        assert(listed(counts, offset, 0) =~= no_counts());
        lemma_coarsen_none((scale - s) as nat);
        assert(shown(after.layout(), s) =~= both(shown(p, s), no_counts()));
    }
}

/// The live counts of a layout, as buckets, are all its counts.
proof fn lemma_listed_live(p: Layout, n: int)
    requires
        p.valid(n),
    ensures
        listed(p.live(), p.low, p.live().len() as int) =~= p.counts,
{
    if p.vacant() {
        p.lemma_vacant_coarser(n, 0);
    }
    assert forall|i: int|
        #[trigger] listed(p.live(), p.low, p.live().len() as int)(i) == (p.counts)(i) by {
        if !p.vacant() {
            assert((p.counts)(i) <= crate::width::capacity(p.level));
            crate::width::lemma_capacity_mono(p.level, 6);
        }
    }
}

/// A merged histogram shows the sum of both distributions, at each scale that it resolves: the
/// same as if it had recorded the values of the other one by one.
pub proof fn law_merge_adds_counts<const N: usize, const M: usize>(
    before: Histogram<N>,
    after: Histogram<N>,
    other: Histogram<M>,
    adopt_width: bool,
    sum: u64,
    s: int,
)
    requires
        before.wf(),
        after.wf(),
        other.wf(),
        before.stats_of().count + other.stats_of().count <= u64::MAX,
        !join_runs_out(before, other, adopt_width),
        joined(before, after, other, adopt_width, sum),
        MIN_SCALE <= s <= after.layout().scale,
        s <= other.layout().scale,
    ensures
        after.layout().scale <= before.layout().scale,
        shown(after.layout(), s) == both(shown(before.layout(), s), shown(other.layout(), s)),
{
    before.lemma_wf();
    after.lemma_wf();
    other.lemma_wf();
    let n = N as int;
    let p = before.layout();
    let q = other.counters();
    let goal = both(shown(p, s), shown(other.layout(), s));
    if other.literal() {
        lemma_side(other.limit());
        lemma_replayed(p, n, other.literals());
        lemma_shown_replayed(p, n, other.literals(), s);
        lemma_replayed(q, M as int, other.literals());
        lemma_shown_replayed(q, M as int, other.literals(), s);
        lemma_coarsen_none((q.scale - s) as nat);
        assert(shown(after.layout(), s) =~= goal);
    } else {
        lemma_live_sum(q, M as int);
        lemma_live_importable(q, M as int);
        lemma_listed_live(q, M as int);
        let start = receiving(before, other, adopt_width);
        if q.live().len() > 0 {
            lemma_receiving_valid(before, other, adopt_width);
            lemma_shown_imported(start, n, q.scale, q.low, q.live(), s);
            assert(shown(after.layout(), s) =~= goal);
        } else {
            if !before.literal() {
                p.lemma_trimmed(n);
            }
            q.lemma_vacant_coarser(M as int, (q.scale - s) as nat);
            assert(shown(after.layout(), s) =~= goal);
        }
    }
}

/// Merging in either order shows the same distribution at every scale that both results resolve.
pub proof fn law_merges_commute<const N: usize, const M: usize>(
    a: Histogram<N>,
    b: Histogram<M>,
    into_a: Histogram<N>,
    into_b: Histogram<M>,
    adopt_width: bool,
    sums: (u64, u64),
    s: int,
)
    requires
        a.wf(),
        b.wf(),
        into_a.wf(),
        into_b.wf(),
        a.stats_of().count + b.stats_of().count <= u64::MAX,
        !join_runs_out(a, b, adopt_width),
        !join_runs_out(b, a, adopt_width),
        joined(a, into_a, b, adopt_width, sums.0),
        joined(b, into_b, a, adopt_width, sums.1),
        MIN_SCALE <= s <= into_a.layout().scale,
        s <= into_b.layout().scale,
        s <= a.layout().scale,
        s <= b.layout().scale,
    ensures
        shown(into_a.layout(), s) == shown(into_b.layout(), s),
{
    law_merge_adds_counts(a, into_a, b, adopt_width, sums.0, s);
    law_merge_adds_counts(b, into_b, a, adopt_width, sums.1, s);
    assert(shown(into_a.layout(), s) =~= shown(into_b.layout(), s));
}

/// A histogram keeps its values as they are while they fit the `N` words of its pool, oldest first.
/// The value that would exceed them ends that phase for good, a zero does not.
pub proof fn law_literal_phase<const N: usize>(
    before: Histogram<N>,
    after: Histogram<N>,
    bits: u64,
    incr: u64,
    sum: u64,
)
    requires
        updated(before, after, bits, incr, sum),
        incr > 0,
    ensures
        crate::float64::zero(bits) ==> after.literal() == before.literal() && after.literals()
            == before.literals(),
        !crate::float64::zero(bits) ==> {
            &&& after.literal() <==> before.literal() && before.literals().len() + incr <= N
            &&& after.literal() ==> {
                &&& after.literals().len() == before.literals().len() + incr
                &&& forall|i: int|
                    0 <= i < before.literals().len() ==> after.literals()[i]
                        == #[trigger] before.literals()[i]
                &&& forall|i: int|
                    before.literals().len() <= i < after.literals().len()
                        ==> #[trigger] after.literals()[i] == bits
            }
        },
{
}

/// Merging a histogram that still holds its values as they are is recording them one by one: a
/// reader sees the same layout either way.
pub proof fn law_merge_is_updates<const N: usize, const M: usize>(
    before: Histogram<N>,
    after: Histogram<N>,
    other: Histogram<M>,
    adopt_width: bool,
    sum: u64,
    path: Seq<Histogram<N>>,
    sums: Seq<u64>,
)
    requires
        before.wf(),
        after.wf(),
        other.wf(),
        other.literal(),
        joined(before, after, other, adopt_width, sum),
        path.len() == other.literals().len() + 1,
        path[0].layout() == before.layout(),
        forall|i: int| 0 <= i < path.len() ==> (#[trigger] path[i]).wf() && !path[i].literal(),
        forall|i: int|
            0 <= i < other.literals().len() ==> updated(
                path[i],
                path[i + 1],
                #[trigger] other.literals()[i],
                1,
                sums[i],
            ),
    ensures
        after.layout() == path[path.len() - 1].layout(),
{
    after.lemma_wf();
    other.lemma_wf();
    let n = other.literals().len() as int;
    lemma_updates_replay(before, other.literals(), path, sums, n);
    assert(other.literals().take(n) =~= other.literals());
}

/// Updates of counters replay the values.
proof fn lemma_updates_replay<const N: usize>(
    before: Histogram<N>,
    values: Seq<u64>,
    path: Seq<Histogram<N>>,
    sums: Seq<u64>,
    k: int,
)
    requires
        0 <= k <= values.len(),
        path.len() == values.len() + 1,
        all_countable(values),
        path[0].layout() == before.layout(),
        forall|i: int| 0 <= i < path.len() ==> (#[trigger] path[i]).wf() && !path[i].literal(),
        forall|i: int|
            0 <= i < values.len() ==> updated(
                path[i],
                path[i + 1],
                #[trigger] values[i],
                1,
                sums[i],
            ),
    ensures
        path[k].layout() == replayed(before.layout(), N as int, values.take(k)),
    decreases k,
{
    if k > 0 {
        lemma_updates_replay(before, values, path, sums, k - 1);
        assert(updated(path[k - 1], path[k - 1 + 1], values[k - 1], 1, sums[k - 1]));
        assert(values.take(k) =~= values.take(k - 1).push(values[k - 1]));
        lemma_replayed_push(before.layout(), N as int, values.take(k - 1), values[k - 1]);
        assert(countable(values[k - 1]));
        crate::float64::lemma_parts(values[k - 1]);
        path[k].lemma_wf();
        path[k - 1].lemma_wf();
    }
}

/// Zeros leave the layout alone.
pub proof fn law_zeros_keep_layout<const N: usize>(
    before: Histogram<N>,
    after: Histogram<N>,
    bits: u64,
    incr: u64,
    sum: u64,
)
    requires
        crate::float64::zero(bits),
        updated(before, after, bits, incr, sum),
    ensures
        after.layout() == before.layout(),
{
}

/// Reading a histogram ends the phase of raw values, and changes nothing that a reader sees.
pub proof fn law_reading<const N: usize>(before: Histogram<N>, after: Histogram<N>)
    requires
        before.wf(),
        after.wf(),
        crate::flat::same_contents(before, after),
    ensures
        !after.literal(),
        after.layout() == before.layout(),
        after.stats_of() == before.stats_of(),
        after.limit() == before.limit(),
        after.min_level() == before.min_level(),
{
    after.lemma_wf();
}

} // verus!
