//! Values and foreign buckets counted one after another.

use crate::arith::shr;
use crate::buckets::Buckets;
use crate::counts::{bottom, top, total};
use crate::float64::{biased, get_biased_exponent, get_significand, significand, unbias_exponent};
use crate::layout::{
    bucket_at_scale, lemma_change_exists, lemma_index_div, lemma_side, side, slots, steps_to_fit,
    Layout,
};
use crate::lookup::{fine_index, lemma_bucket, TABLE_SCALE};
use crate::mapping::{index_of, Scale, MIN_SCALE};
use crate::settle::HighLow;
use vstd::arithmetic::power2::{lemma2_to64, lemma_pow2_pos, pow2};
use vstd::prelude::*;

verus! {

/// A pattern that a flat histogram counts in a bucket: positive, and not NaN.
pub open spec fn countable(bits: u64) -> bool {
    0 < bits <= 0x7ff0_0000_0000_0000
}

/// Bucket of a value at the finest scale.
pub open spec fn key_of(bits: u64) -> int {
    index_of(bits, TABLE_SCALE as int)
}

/// The bucket of a value at any scale follows from its bucket at the finest.
pub proof fn lemma_key_of(bits: u64, scale: int)
    requires
        countable(bits),
        MIN_SCALE <= scale <= TABLE_SCALE,
    ensures
        -side(TABLE_SCALE as int) <= key_of(bits) < side(TABLE_SCALE as int),
        bucket_at_scale(key_of(bits), TABLE_SCALE as int, scale) == index_of(bits, scale),
{
    lemma2_to64();
    let (sig, exp) = if biased(bits) == 0 {
        (0, -1022)
    } else {
        (significand(bits), biased(bits) - 1023)
    };
    assert(pow2(18) == 0x4_0000);
    crate::float64::lemma_parts(bits);
    lemma_bucket(sig);
    crate::lookup::lemma_bucket_zero(0);
    crate::lookup::law_index_coarser(sig, exp, TABLE_SCALE as int, (TABLE_SCALE - scale) as nat);
    assert(fine_index(sig, exp) / 1 == fine_index(sig, exp));
}

/// Finds the bucket of a value at the finest scale.
pub fn finest_bucket(bits: u64) -> (r: i32)
    requires
        countable(bits),
    ensures
        r == key_of(bits),
{
    let mut biased_exp = get_biased_exponent(bits);
    let mut sig = get_significand(bits);
    if biased_exp == 0 {
        // Values below the smallest normal value count as that value.
        biased_exp = 1;
        sig = 0;
    }
    Scale::finest().map_decomposed(sig, unbias_exponent(biased_exp))
}

/// Finds the bucket of a value at the given scale. Infinity falls into the bucket of the largest
/// number, and values below the smallest normal value into the bucket of that value.
pub fn bucket_of(bits: u64, scale: &Scale) -> (r: i32)
    requires
        countable(bits),
        scale.wf(),
    ensures
        r == index_of(bits, scale.value()),
{
    proof {
        lemma_key_of(bits, scale.value());
    }
    shr(finest_bucket(bits), (TABLE_SCALE - scale.scale()) as u32)
}

/// The layout after one observation of each value.
pub open spec fn replayed(p: Layout, n: int, values: Seq<u64>) -> Layout
    decreases values.len(),
{
    if values.len() == 0 {
        p
    } else {
        replayed(p, n, values.drop_last()).recorded(
            n,
            key_of(values.last()),
            TABLE_SCALE as int,
            1,
        )
    }
}

/// Counting one observation of each value needs a scale below the lowest one.
pub open spec fn replay_runs_out(p: Layout, n: int, values: Seq<u64>) -> bool
    decreases values.len(),
{
    if values.len() == 0 {
        false
    } else {
        let before = replayed(p, n, values.drop_last());
        replay_runs_out(p, n, values.drop_last()) || before.record_runs_out(
            n,
            key_of(values.last()),
            TABLE_SCALE as int,
            1,
        )
    }
}

/// Every value can be counted.
pub open spec fn all_countable(values: Seq<u64>) -> bool {
    forall|i: int| 0 <= i < values.len() ==> countable(#[trigger] values[i])
}

/// Replaying keeps the layout valid and counts each value once.
pub proof fn lemma_replayed(p: Layout, n: int, values: Seq<u64>)
    requires
        p.valid(n),
        p.inside() || !replay_runs_out(p, n, values),
        all_countable(values),
        total(p.counts, bottom(), top()) + values.len() <= u64::MAX,
    ensures
        replayed(p, n, values).valid(n),
        p.inside() ==> replayed(p, n, values).inside(),
        replayed(p, n, values).scale <= p.scale,
        total(replayed(p, n, values).counts, bottom(), top()) == total(p.counts, bottom(), top())
            + values.len(),
        values.len() > 0 ==> !replayed(p, n, values).vacant(),
    decreases values.len(),
{
    if values.len() > 0 {
        let rest = values.drop_last();
        assert forall|i: int| 0 <= i < rest.len() implies countable(#[trigger] rest[i]) by {
            assert(rest[i] == values[i]);
        }
        lemma_replayed(p, n, rest);
        assert(countable(values[values.len() - 1]));
        lemma_key_of(values.last(), TABLE_SCALE as int);
        lemma_side(TABLE_SCALE as int);
        replayed(p, n, rest).lemma_recorded(n, key_of(values.last()), TABLE_SCALE as int, 1);
    }
}

/// Once the scale has run out it has run out for more values too.
pub proof fn lemma_replay_still_out(p: Layout, n: int, values: Seq<u64>, k: int)
    requires
        0 <= k <= values.len(),
        replay_runs_out(p, n, values.take(k)),
    ensures
        replay_runs_out(p, n, values),
    decreases values.len(),
{
    if k == values.len() {
        assert(values.take(k) =~= values);
    } else {
        assert(values.drop_last().take(k) =~= values.take(k));
        lemma_replay_still_out(p, n, values.drop_last(), k);
    }
}

/// One more value.
pub proof fn lemma_replayed_push(p: Layout, n: int, values: Seq<u64>, bits: u64)
    ensures
        replayed(p, n, values.push(bits)) == replayed(p, n, values).recorded(
            n,
            key_of(bits),
            TABLE_SCALE as int,
            1,
        ),
        replay_runs_out(p, n, values.push(bits)) <==> replay_runs_out(p, n, values) || replayed(
            p,
            n,
            values,
        ).record_runs_out(n, key_of(bits), TABLE_SCALE as int, 1),
{
    assert(values.push(bits).drop_last() =~= values);
    assert(values.push(bits).last() == bits);
}

/// Scale of the buckets that are counted for a foreign scale: no finer than the finest here.
pub open spec fn import_scale(scale: int) -> int {
    if scale <= TABLE_SCALE {
        scale
    } else {
        TABLE_SCALE as int
    }
}

/// Bucket at the import scale for the foreign bucket `i` of the given scale.
pub open spec fn import_key(i: int, scale: int) -> int {
    i / pow2((scale - import_scale(scale)) as nat) as int
}

/// Highest foreign scale whose bucket indices can be shifted to the finest scale here.
pub const IMPORT_LIMIT: i32 = 39;

/// A run of `len` foreign buckets from `offset` up can be merged: its scale is not below the lowest
/// one, and its buckets have an index, also at the finest scale here.
pub open spec fn importable(scale: int, offset: int, len: int) -> bool {
    &&& MIN_SCALE <= scale <= IMPORT_LIMIT
    &&& bottom() <= offset
    &&& offset + len <= top()
}

/// Checks if a run of foreign buckets can be merged.
pub fn is_importable(scale: i32, offset: i32, len: usize) -> (r: bool)
    ensures
        r <==> importable(scale as int, offset as int, len as int),
{
    MIN_SCALE <= scale && scale <= IMPORT_LIMIT && offset as i128 + len as i128 <= 0x8000_0000
}

/// Foreign buckets have an index at the scale that they are counted for.
pub proof fn lemma_import_key(scale: int, offset: int, len: int, i: int)
    requires
        importable(scale, offset, len),
        offset <= i < offset + len,
    ensures
        MIN_SCALE <= import_scale(scale) <= TABLE_SCALE,
        bottom() <= import_key(i, scale) < top(),
        scale - import_scale(scale) <= 31,
{
    lemma_index_div(i, (scale - import_scale(scale)) as nat);
}

/// Sum of the first `len` counts.
pub open spec fn sum_of(counts: Seq<u64>, len: int) -> nat
    decreases len,
{
    if len <= 0 {
        0
    } else {
        sum_of(counts, len - 1) + counts[len - 1] as nat
    }
}

pub proof fn lemma_sum_of(counts: Seq<u64>, a: int, b: int)
    requires
        0 <= a <= b,
    ensures
        sum_of(counts, a) <= sum_of(counts, b),
    decreases b,
{
    if a < b {
        lemma_sum_of(counts, a, b - 1);
    }
}

/// The layout after the first `len` foreign buckets have been counted.
pub open spec fn absorbed(p: Layout, n: int, scale: int, offset: int, counts: Seq<u64>, len: int) -> Layout
    decreases len,
{
    if len <= 0 {
        p
    } else {
        let before = absorbed(p, n, scale, offset, counts, len - 1);
        if counts[len - 1] == 0 {
            before
        } else {
            before.recorded(
                n,
                import_key(offset + len - 1, scale),
                import_scale(scale),
                counts[len - 1] as nat,
            )
        }
    }
}

/// Counting the first `len` foreign buckets needs a scale below the lowest one.
pub open spec fn absorb_runs_out(
    p: Layout,
    n: int,
    scale: int,
    offset: int,
    counts: Seq<u64>,
    len: int,
) -> bool
    decreases len,
{
    if len <= 0 {
        false
    } else {
        let before = absorbed(p, n, scale, offset, counts, len - 1);
        absorb_runs_out(p, n, scale, offset, counts, len - 1) || (counts[len - 1] != 0
            && before.record_runs_out(
            n,
            import_key(offset + len - 1, scale),
            import_scale(scale),
            counts[len - 1] as nat,
        ))
    }
}

/// Once the scale has run out it has run out for more buckets too.
proof fn lemma_absorb_still_out(
    p: Layout,
    n: int,
    scale: int,
    offset: int,
    counts: Seq<u64>,
    a: int,
    b: int,
)
    requires
        absorb_runs_out(p, n, scale, offset, counts, a),
        0 <= a <= b,
    ensures
        absorb_runs_out(p, n, scale, offset, counts, b),
    decreases b,
{
    if a < b {
        lemma_absorb_still_out(p, n, scale, offset, counts, a, b - 1);
    }
}

/// Counting foreign buckets keeps the layout valid.
pub proof fn lemma_absorbed(p: Layout, n: int, scale: int, offset: int, counts: Seq<u64>, len: int)
    requires
        p.valid(n),
        p.scale <= import_scale(scale),
        importable(scale, offset, counts.len() as int),
        0 <= len <= counts.len(),
        !absorb_runs_out(p, n, scale, offset, counts, len),
        total(p.counts, bottom(), top()) + sum_of(counts, len) <= u64::MAX,
    ensures
        absorbed(p, n, scale, offset, counts, len).valid(n),
        absorbed(p, n, scale, offset, counts, len).scale <= p.scale,
        total(absorbed(p, n, scale, offset, counts, len).counts, bottom(), top()) == total(
            p.counts,
            bottom(),
            top(),
        ) + sum_of(counts, len),
    decreases len,
{
    if len > 0 {
        lemma_absorbed(p, n, scale, offset, counts, len - 1);
        if counts[len - 1] != 0 {
            let before = absorbed(p, n, scale, offset, counts, len - 1);
            let key = import_key(offset + len - 1, scale);
            lemma_import_key(scale, offset, counts.len() as int, offset + len - 1);
            before.lemma_recorded(n, key, import_scale(scale), counts[len - 1] as nat);
        }
    }
}

/// The lower of two scales.
pub open spec fn lower_scale(a: int, b: int) -> int {
    if a <= b {
        a
    } else {
        b
    }
}

/// Lowest bucket, at the scale `m`, of the live range and of the foreign range that starts at
/// `low` of the scale `from`.
pub open spec fn joint_low(p: Layout, m: int, from: int, low: int) -> int {
    let a = p.low / pow2((p.scale - m) as nat) as int;
    let b = bucket_at_scale(low, from, m);
    if p.vacant() || b <= a {
        b
    } else {
        a
    }
}

/// Highest bucket, likewise.
pub open spec fn joint_high(p: Layout, m: int, from: int, high: int) -> int {
    let a = p.high / pow2((p.scale - m) as nat) as int;
    let b = bucket_at_scale(high, from, m);
    if p.vacant() || b >= a {
        b
    } else {
        a
    }
}

/// The scale at which the live range and the foreign range `low..=high` of the scale `from`
/// together span no more buckets than there are counters.
pub open spec fn joint_scale(p: Layout, n: int, from: int, low: int, high: int) -> int {
    let m = lower_scale(p.scale, from);
    m - steps_to_fit(
        joint_low(p, m, from, low),
        joint_high(p, m, from, high),
        slots(n, p.level),
    )
}

/// The layout after foreign buckets have been merged: the scale drops first, as far as the
/// joint range needs, and the buckets are counted one by one.
pub open spec fn imported(p: Layout, n: int, scale: int, offset: int, counts: Seq<u64>) -> Layout {
    let from = import_scale(scale);
    let low = import_key(offset, scale);
    let high = import_key(offset + counts.len() - 1, scale);
    let ready = p.lowered(n, p.scale - joint_scale(p, n, from, low, high));
    absorbed(ready, n, scale, offset, counts, counts.len() as int).trimmed()
}

/// Merging foreign buckets needs a scale below the lowest one.
pub open spec fn import_runs_out(
    p: Layout,
    n: int,
    scale: int,
    offset: int,
    counts: Seq<u64>,
) -> bool {
    let from = import_scale(scale);
    let low = import_key(offset, scale);
    let high = import_key(offset + counts.len() - 1, scale);
    let by = p.scale - joint_scale(p, n, from, low, high);
    p.lower_runs_out(n, by) || absorb_runs_out(
        p.lowered(n, by),
        n,
        scale,
        offset,
        counts,
        counts.len() as int,
    )
}

/// The joint range fits at some scale.
pub proof fn lemma_joint_scale(p: Layout, n: int, from: int, low: int, high: int)
    requires
        p.valid(n),
        MIN_SCALE <= from <= TABLE_SCALE,
        bottom() <= low <= high < top(),
    ensures
        ({
            let m = lower_scale(p.scale, from);
            let a = joint_low(p, m, from, low);
            let b = joint_high(p, m, from, high);
            &&& bottom() <= a <= b < top()
            &&& steps_to_fit(a, b, slots(n, p.level)) <= 31
            &&& crate::settle::is_change(a, b, slots(n, p.level), steps_to_fit(a, b, slots(n, p.level)))
        }),
        joint_scale(p, n, from, low, high) <= from,
        joint_scale(p, n, from, low, high) <= p.scale,
{
    let m = lower_scale(p.scale, from);
    let a = joint_low(p, m, from, low);
    let b = joint_high(p, m, from, high);
    let size = slots(n, p.level);
    p.lemma_counts(n);
    lemma_index_div(low, (from - m) as nat);
    lemma_index_div(high, (from - m) as nat);
    p.lemma_coarser(n, (p.scale - m) as nat);
    lemma_pow2_pos((from - m) as nat);
    crate::arith::lemma_div_mono(low, high, pow2((from - m) as nat) as int);
    let w = lemma_change_exists(a, b, size);
    let c = steps_to_fit(a, b, size);
    assert(crate::settle::is_change(a, b, size, c));
    crate::layout::lemma_change_unique(a, b, size, c, w);
}

/// The layout that counts foreign buckets: valid, and of a scale that they have too.
pub proof fn lemma_import_start(p: Layout, n: int, scale: int, offset: int, counts: Seq<u64>) -> (ready: Layout)
    requires
        p.valid(n),
        counts.len() > 0,
        importable(scale, offset, counts.len() as int),
        !import_runs_out(p, n, scale, offset, counts),
    ensures
        !absorb_runs_out(ready, n, scale, offset, counts, counts.len() as int),
        imported(p, n, scale, offset, counts) == absorbed(
            ready,
            n,
            scale,
            offset,
            counts,
            counts.len() as int,
        ).trimmed(),
        ready.valid(n),
        p.coarser(ready),
        ready.scale <= import_scale(scale),
        total(ready.counts, bottom(), top()) == total(p.counts, bottom(), top()),
{
    let from = import_scale(scale);
    let low = import_key(offset, scale);
    let last = offset + counts.len() - 1;
    let high = import_key(last, scale);
    lemma_import_key(scale, offset, counts.len() as int, offset);
    lemma_import_key(scale, offset, counts.len() as int, last);
    lemma_pow2_pos((scale - from) as nat);
    crate::arith::lemma_div_mono(offset, last, pow2((scale - from) as nat) as int);
    lemma_joint_scale(p, n, from, low, high);
    let by = p.scale - joint_scale(p, n, from, low, high);
    p.lemma_lowered(n, by);
    p.lemma_counts(n);
    let ready = p.lowered(n, by);
    crate::downscale::lemma_coarsen_inside(p.counts, (p.scale - ready.scale) as nat, top());
    assert(ready.scale <= from) by {
        if by <= 0 {
            assert(ready == p);
        }
    }
    ready
}

/// Merging foreign buckets keeps every observation.
pub proof fn lemma_imported(p: Layout, n: int, scale: int, offset: int, counts: Seq<u64>)
    requires
        p.valid(n),
        counts.len() > 0,
        importable(scale, offset, counts.len() as int),
        !import_runs_out(p, n, scale, offset, counts),
        total(p.counts, bottom(), top()) + sum_of(counts, counts.len() as int) <= u64::MAX,
    ensures
        imported(p, n, scale, offset, counts).valid(n),
        total(imported(p, n, scale, offset, counts).counts, bottom(), top()) == total(
            p.counts,
            bottom(),
            top(),
        ) + sum_of(counts, counts.len() as int),
{
    let ready = lemma_import_start(p, n, scale, offset, counts);
    lemma_absorbed(ready, n, scale, offset, counts, counts.len() as int);
    absorbed(ready, n, scale, offset, counts, counts.len() as int).lemma_trimmed(n);
}

impl<const N: usize> Buckets<N> {
    /// Counts `incr` observations of a value. Returns false if the scale runs out.
    pub fn update_buckets(&mut self, bits: u64, incr: u64) -> (r: bool)
        requires
            old(self).wf(),
            incr > 0,
            countable(bits),
            total(old(self).layout().counts, bottom(), top()) + incr <= u64::MAX,
        ensures
            final(self).wf(),
            r <==> !old(self).layout().record_runs_out(
                N as int,
                key_of(bits),
                TABLE_SCALE as int,
                incr as nat,
            ),
            r || old(self).layout().inside() ==> {
                &&& final(self).layout() == old(self).layout().recorded(
                    N as int,
                    key_of(bits),
                    TABLE_SCALE as int,
                    incr as nat,
                )
                &&& final(self).layout().valid(N as int)
                &&& old(self).layout().inside() ==> final(self).layout().inside()
                &&& !final(self).layout().vacant()
                &&& total(final(self).layout().counts, bottom(), top()) == total(
                    old(self).layout().counts,
                    bottom(),
                    top(),
                ) + incr
            },
    {
        proof {
            self.lemma_wf();
            lemma_key_of(bits, TABLE_SCALE as int);
            lemma_side(TABLE_SCALE as int);
            if self.layout().inside() || !self.layout().record_runs_out(
                N as int,
                key_of(bits),
                TABLE_SCALE as int,
                incr as nat,
            ) {
                self.layout().lemma_recorded(
                    N as int,
                    key_of(bits),
                    TABLE_SCALE as int,
                    incr as nat,
                );
            }
        }
        self.retry_increment(finest_bucket(bits), TABLE_SCALE, incr)
    }

    /// Merges a run of foreign buckets that starts at `offset` of the given scale. Returns false if
    /// the scale runs out.
    pub fn import(&mut self, scale: i32, offset: i32, counts: &Vec<u64>) -> (r: bool)
        requires
            old(self).wf(),
            counts@.len() > 0,
            importable(scale as int, offset as int, counts@.len() as int),
            total(old(self).layout().counts, bottom(), top()) + sum_of(
                counts@,
                counts@.len() as int,
            ) <= u64::MAX,
        ensures
            final(self).wf(),
            r ==> final(self).layout() == imported(
                old(self).layout(),
                N as int,
                scale as int,
                offset as int,
                counts@,
            ),
            r <==> !import_runs_out(
                old(self).layout(),
                N as int,
                scale as int,
                offset as int,
                counts@,
            ),
    {
        let ghost n = N as int;
        let ghost p = self.layout();
        let len = counts.len();
        let ghost last = offset + len - 1;
        proof {
            self.lemma_wf();
            lemma_import_key(scale as int, offset as int, len as int, offset as int);
            lemma_import_key(scale as int, offset as int, len as int, last);
            p.lemma_counts(n);
        }
        let from: i32 = if scale <= TABLE_SCALE {
            scale
        } else {
            TABLE_SCALE
        };
        let skip: u32 = (scale - from) as u32;
        let low = shr(offset, skip);
        let high = shr((offset as i64 + len as i64 - 1) as i32, skip);
        proof {
            lemma_pow2_pos(skip as nat);
            crate::arith::lemma_div_mono(offset as int, last, pow2(skip as nat) as int);
            lemma_joint_scale(p, n, from as int, low as int, high as int);
        }
        let own = self.scale().scale();
        let m: i32 = if own <= from {
            own
        } else {
            from
        };
        proof {
            lemma_pow2_pos((from - m) as nat);
            lemma_pow2_pos((own - m) as nat);
            crate::arith::lemma_div_mono(low as int, high as int, pow2((from - m) as nat) as int);
            crate::arith::lemma_div_mono(p.low, p.high, pow2((own - m) as nat) as int);
        }
        let mut hl = HighLow {
            low: shr(low, (from - m) as u32),
            high: shr(high, (from - m) as u32),
        };
        if !self.is_effectively_empty() {
            hl = HighLow {
                low: shr(self.start(), (own - m) as u32),
                high: shr(self.end(), (own - m) as u32),
            }.merge(hl);
        }
        proof {
            assert(hl.low == joint_low(p, m as int, from as int, low as int));
            assert(hl.high == joint_high(p, m as int, from as int, high as int));
        }
        let size = self.bucket_capacity();
        let steps = hl.change_steps(size);
        proof {
            crate::layout::lemma_change_unique(
                hl.low as int,
                hl.high as int,
                size as int,
                steps as nat,
                steps_to_fit(hl.low as int, hl.high as int, size as int),
            );
            p.lemma_lowered(n, p.scale - (m - steps));
            crate::downscale::lemma_coarsen_inside(
                p.counts,
                (p.scale - p.lowered(n, p.scale - (m - steps)).scale) as nat,
                top(),
            );
        }
        if !self.downscale_to(m - steps as i32) {
            return false;
        }
        let ghost ready = self.layout();
        assert(ready.scale <= from);
        let mut i: usize = 0;
        while i < len
            invariant
                self.wf(),
                n == N,
                i <= len,
                len == counts@.len(),
                importable(scale as int, offset as int, len as int),
                from == import_scale(scale as int),
                skip == scale - from,
                skip <= 31,
                p == old(self).layout(),
                import_runs_out(p, n, scale as int, offset as int, counts@) <==> absorb_runs_out(
                    ready,
                    n,
                    scale as int,
                    offset as int,
                    counts@,
                    len as int,
                ),
                ready.valid(n),
                ready.scale <= from <= TABLE_SCALE,
                MIN_SCALE <= scale,
                total(ready.counts, bottom(), top()) + sum_of(counts@, len as int) <= u64::MAX,
                self.layout() == absorbed(
                    ready,
                    n,
                    scale as int,
                    offset as int,
                    counts@,
                    i as int,
                ),
                !absorb_runs_out(ready, n, scale as int, offset as int, counts@, i as int),
            decreases len - i,
        {
            let count = counts[i];
            if count != 0 {
                proof {
                    lemma_sum_of(counts@, i + 1, len as int);
                    lemma_absorbed(ready, n, scale as int, offset as int, counts@, i as int);
                    lemma_import_key(scale as int, offset as int, len as int, offset + i);
                }
                let key = shr((offset as i64 + i as i64) as i32, skip);
                if !self.retry_increment(key, from, count) {
                    proof {
                        lemma_absorb_still_out(
                            ready,
                            n,
                            scale as int,
                            offset as int,
                            counts@,
                            i + 1,
                            len as int,
                        );
                    }
                    return false;
                }
            }
            i = i + 1;
        }
        self.trim_bucket_range();
        true
    }
}

} // verus!
