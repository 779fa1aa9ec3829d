//! What a sketch says of the values that were recorded: their order does not matter, and the value
//! of a rank lies in the bucket that is found for the rank, within the relative error of the scale.

use crate::counts::{
    bottom, lemma_total_plus, lemma_total_wider, lemma_total_zero, no_counts, plus, total, Counts,
};
use crate::edges::{beyond, lemma_pow_base};
use crate::float64::{biased, lemma_parts, scaled, significand, zero, MIN_VALUE};
use crate::lookup::{fine_index, index_at, law_index_brackets, lemma_fine_range, TABLE_SCALE};
use crate::mapping::{lemma_index_range, slot_of, MIN_SCALE};
use crate::sketch::Sketch;
use crate::sketch_history::{
    history, law_history, lemma_slots, subnormal, subnormal_in, zeros_in, Recording,
};
use crate::sketch_laws::{
    accurate, holds, law_first_recording, law_quantile_accurate, law_recording,
    law_recording_accurate, law_representative, law_same_distribution,
};
use crate::sketch_view::{locates, Rank};
use crate::stats::{refused, Error};
use vstd::arithmetic::power::{lemma_pow_distributes, lemma_pow_multiplies, pow};
use vstd::arithmetic::power2::{
    lemma2_to64, lemma_pow2, lemma_pow2_adds, lemma_pow2_pos, lemma_pow2_strictly_increases, pow2,
};
use vstd::prelude::*;

verus! {

/// The call recorded a value that has a bucket.
pub open spec fn counted(c: Recording) -> bool {
    c.outcome.is_ok() && !zero(c.bits)
}

/// The distribution that the first `len` calls recorded: how often each bucket was hit.
pub open spec fn distribution(calls: Seq<Recording>, len: int, scale: int) -> Counts
    decreases len,
{
    if len <= 0 {
        no_counts()
    } else {
        let before = distribution(calls, len - 1, scale);
        let c = calls[len - 1];
        if counted(c) {
            plus(before, slot_of(c.bits, scale), c.incr as nat)
        } else {
            before
        }
    }
}

/// The sketch after some calls holds, and shows accurately, what they recorded.
proof fn lemma_distribution<const N: usize>(path: Seq<Sketch<N>>, calls: Seq<Recording>, i: int)
    requires
        history(path, calls),
        0 <= i <= calls.len(),
    ensures
        path[i].min_level() == path[0].min_level(),
        accurate(path[i], distribution(calls, i, path[0].scale_of())),
        path[i].live() == 0 ==> distribution(calls, i, path[0].scale_of()) == no_counts(),
        path[i].live() > 0 ==> holds(path[i], distribution(calls, i, path[0].scale_of())),
    decreases i,
{
    let scale = path[0].scale_of();
    law_history(path, calls, i);
    path[i].lemma_wf();
    if i == 0 {
        crate::counts::lemma_folded_none(no_counts(), bottom(), 0x10_0000);
    } else {
        lemma_distribution(path, calls, i - 1);
        law_history(path, calls, i - 1);
        let c = calls[i - 1];
        let before = path[i - 1];
        let after = path[i];
        let h = distribution(calls, i - 1, scale);
        before.lemma_wf();
        assert(path[i - 1 + 1] == after);
        if counted(c) {
            let slot = slot_of(c.bits, scale);
            lemma_parts(c.bits);
            lemma_index_range(
                if biased(c.bits) == 0 {
                    1
                } else {
                    significand(c.bits)
                },
                if biased(c.bits) == 0 {
                    -1022
                } else {
                    biased(c.bits) - 1023
                },
                scale,
            );
            law_recording_accurate(before, after, h, slot, c.incr as nat);
            if before.live() == 0 {
                law_first_recording(before, after, slot, c.incr as nat);
            } else {
                law_recording(before, after, h, slot, c.incr as nat);
            }
        } else {
            assert(after.counts() == before.counts());
            assert(after.live() == before.live());
            assert(after.level() == before.level());
        }
    }
}

/// The values and weights that were asked to be recorded.
pub open spec fn given(calls: Seq<Recording>) -> Seq<(u64, u64)> {
    calls.map_values(|c: Recording| (c.bits, c.incr))
}

/// One more value in a distribution, unless it is refused or zero.
spec fn add_given(scale: int) -> spec_fn(Counts, (u64, u64)) -> Counts {
    |h: Counts, v: (u64, u64)|
        if refused(v.0) || zero(v.0) {
            h
        } else {
            plus(h, slot_of(v.0, scale), v.1 as nat)
        }
}

/// Without an overflow the distribution follows from the given values alone.
proof fn lemma_given<const N: usize>(path: Seq<Sketch<N>>, calls: Seq<Recording>, i: int, scale: int)
    requires
        history(path, calls),
        forall|j: int|
            0 <= j < calls.len() ==> (#[trigger] calls[j]).outcome != Err::<(), Error>(
                Error::Overflow,
            ),
        0 <= i <= calls.len(),
    ensures
        distribution(calls, i, scale) == given(calls).take(i).fold_left(
            no_counts(),
            add_given(scale),
        ),
    decreases i,
{
    let f = add_given(scale);
    let g = given(calls);
    if i > 0 {
        lemma_given(path, calls, i - 1, scale);
        assert(g.take(i).drop_last() =~= g.take(i - 1));
        assert(g.take(i).last() == (calls[i - 1].bits, calls[i - 1].incr));
        let c = calls[i - 1];
        assert(path[i - 1 + 1] == path[i]);
        assert(counted(c) <==> !refused(c.bits) && !zero(c.bits));
    } else {
        assert(g.take(0) =~= Seq::empty());
    }
}

/// The order in which values are recorded makes no difference: two sketches that start alike and
/// are given the same values, in any two orders, end with the same width, the same buckets and the
/// same underflow placeholder, as long as no call overflows.
pub proof fn law_any_order<const N: usize>(
    path: Seq<Sketch<N>>,
    calls: Seq<Recording>,
    path2: Seq<Sketch<N>>,
    calls2: Seq<Recording>,
)
    requires
        history(path, calls),
        history(path2, calls2),
        path[0].scale_of() == path2[0].scale_of(),
        path[0].min_level() == path2[0].min_level(),
        given(calls).to_multiset() == given(calls2).to_multiset(),
        forall|j: int|
            0 <= j < calls.len() ==> (#[trigger] calls[j]).outcome != Err::<(), Error>(
                Error::Overflow,
            ),
        forall|j: int|
            0 <= j < calls2.len() ==> (#[trigger] calls2[j]).outcome != Err::<(), Error>(
                Error::Overflow,
            ),
    ensures
        path.last().level() == path2.last().level(),
        path.last().counts() == path2.last().counts(),
        path.last().has_collapsed() == path2.last().has_collapsed(),
        path.last().own_floor() == path2.last().own_floor(),
        path.last().live() == path2.last().live(),
{
    let scale = path[0].scale_of();
    let n = calls.len() as int;
    let m = calls2.len() as int;
    lemma_distribution(path, calls, n);
    lemma_distribution(path2, calls2, m);
    law_history(path, calls, n);
    law_history(path2, calls2, m);
    lemma_given(path, calls, n, scale);
    lemma_given(path2, calls2, m, scale);
    let f = add_given(scale);
    assert forall|v: (u64, u64), w: (u64, u64), h: Counts| #[trigger] f(f(h, v), w) == f(
        f(h, w),
        v,
    ) by {
        assert(f(f(h, v), w) =~= f(f(h, w), v));
    }
    vstd::seq_lib::lemma_fold_left_permutation(given(calls), given(calls2), f, no_counts());
    assert(given(calls).take(n) =~= given(calls));
    assert(given(calls2).take(m) =~= given(calls2));
    let h = distribution(calls, n, scale);
    let a = path.last();
    let b = path2.last();
    a.lemma_wf();
    b.lemma_wf();
    if a.live() > 0 && b.live() > 0 {
        law_same_distribution(a, b, h);
        assert(a.live() == b.live());
    } else {
        lemma_no_mass(a, h);
        lemma_no_mass(b, h);
        lemma_rest(path, calls, n);
        lemma_rest(path2, calls2, m);
    }
}

/// A sketch with counts holds a distribution with some.
proof fn lemma_no_mass<const N: usize>(s: Sketch<N>, h: Counts)
    requires
        s.buckets_wf(),
        s.live() > 0 ==> holds(s, h),
        s.live() == 0 ==> h == no_counts(),
    ensures
        s.live() == 0 <==> h == no_counts(),
{
}

/// A sketch without counts has kept the width that it started with.
proof fn lemma_rest<const N: usize>(path: Seq<Sketch<N>>, calls: Seq<Recording>, i: int)
    requires
        history(path, calls),
        0 <= i <= calls.len(),
    ensures
        path[i].live() == 0 ==> path[i].level() == path[0].min_level(),
    decreases i,
{
    if i > 0 {
        lemma_rest(path, calls, i - 1);
        law_history(path, calls, i - 1);
        law_history(path, calls, i);
        path[i - 1].lemma_wf();
        path[i].lemma_wf();
        assert(path[i - 1 + 1] == path[i]);
        assert(calls[i - 1].incr > 0);
    }
}

/// How many of the values that the first `len` calls recorded are below `x`, or also equal to it.
pub open spec fn recorded_below(calls: Seq<Recording>, len: int, x: u64, equal: bool) -> nat
    decreases len,
{
    if len <= 0 {
        0
    } else {
        let c = calls[len - 1];
        recorded_below(calls, len - 1, x, equal) + if counted(c) && (c.bits < x || (equal && c.bits
            == x)) {
            c.incr as nat
        } else {
            0
        }
    }
}

/// `x` is the recorded value of rank `rank`, counted from 1: zeros come first, then the other
/// values in increasing order. Patterns of positive values order as the values do.
pub open spec fn has_rank(calls: Seq<Recording>, len: int, x: u64, rank: int) -> bool {
    zeros_in(calls, len) + recorded_below(calls, len, x, false) < rank <= zeros_in(calls, len)
        + recorded_below(calls, len, x, true)
}

/// Ranks of values and ranks of buckets.
proof fn lemma_ranks<const N: usize>(
    path: Seq<Sketch<N>>,
    calls: Seq<Recording>,
    i: int,
    x: u64,
    all: int,
)
    requires
        history(path, calls),
        0 <= i <= all <= calls.len(),
        MIN_VALUE <= x < 0x7ff0_0000_0000_0000,
        !(x == MIN_VALUE && subnormal_in(calls, all)),
    ensures
        ({
            let h = distribution(calls, i, path[0].scale_of());
            let t = slot_of(x, path[0].scale_of());
            &&& total(h, bottom(), t) <= recorded_below(calls, i, x, false)
            &&& total(h, bottom(), t + 1) >= recorded_below(calls, i, x, true)
        }),
    decreases i,
{
    let scale = path[0].scale_of();
    let t = slot_of(x, scale);
    law_history(path, calls, 0);
    path[0].lemma_wf();
    lemma_total_zero(no_counts(), bottom(), t);
    lemma_total_zero(no_counts(), bottom(), t + 1);
    if i > 0 {
        lemma_ranks(path, calls, i - 1, x, all);
        let c = calls[i - 1];
        let h = distribution(calls, i - 1, scale);
        if counted(c) {
            let v = c.bits;
            let slot = slot_of(v, scale);
            assert(path[i - 1 + 1] == path[i]);
            lemma_parts(v);
            assert(0 < v < 0x7ff0_0000_0000_0000);
            lemma_total_plus(h, slot, c.incr as nat, bottom(), t);
            lemma_total_plus(h, slot, c.incr as nat, bottom(), t + 1);
            lemma_index_range(
                if biased(v) == 0 {
                    1
                } else {
                    significand(v)
                },
                if biased(v) == 0 {
                    -1022
                } else {
                    biased(v) - 1023
                },
                scale,
            );
            if v <= x {
                lemma_slots(v, x, scale);
                if subnormal(v) && x == MIN_VALUE {
                    assert(calls[i - 1].outcome.is_ok());
                }
            } else {
                lemma_slots(x, v, scale);
            }
        }
    }
}

/// Exponent of the lower edge of bucket `i`: the 256th power of the edge, in units of `2^-1074`, is
/// `2` to it.
pub open spec fn edge_exponent(i: int, scale: int) -> int {
    256 * 1074 + i * pow2((TABLE_SCALE - scale) as nat)
}

/// A normal value lies above the lower edge of its bucket and not above the upper one, at every
/// scale: with `base = 2^(1 / 2^scale)`, the edges of bucket `i` are `base^i` and `base^(i + 1)`.
pub proof fn law_value_edges(bits: u64, scale: int)
    requires
        MIN_VALUE <= bits < 0x7ff0_0000_0000_0000,
        MIN_SCALE <= scale <= TABLE_SCALE,
    ensures
        0 <= edge_exponent(slot_of(bits, scale), scale),
        pow(scaled(bits) as int, 256) > pow2(edge_exponent(slot_of(bits, scale), scale) as nat),
        pow(scaled(bits) as int, 256) <= pow2(
            edge_exponent(slot_of(bits, scale) + 1, scale) as nat,
        ),
{
    lemma_parts(bits);
    lemma2_to64();
    let sig = significand(bits);
    let e = biased(bits) - 1023;
    let m = 0x10_0000_0000_0000 + sig;
    let q = (biased(bits) - 1) as nat;
    let f = fine_index(sig, e);
    let k = f - 256 * e;
    law_index_brackets(sig, e, TABLE_SCALE as int);
    assert(pow2(0) == 1);
    assert(pow2(8) == 256);
    assert(index_at(sig, e, TABLE_SCALE as int) == f) by {
        assert((TABLE_SCALE - TABLE_SCALE) as nat == 0);
        crate::arith::lemma_div_unique(f, 1, f, 0);
    }
    let octave = pow2(TABLE_SCALE as nat) as int;
    assert(octave == 256);
    assert(e * octave == 256 * e) by (nonlinear_arith)
        requires
            octave == 256,
    ;
    assert(pow2((TABLE_SCALE - TABLE_SCALE) as nat) == 1);
    let place = index_at(sig, e, TABLE_SCALE as int) - e * octave;
    let one = pow2((TABLE_SCALE - TABLE_SCALE) as nat) as int;
    assert(one * place == k && one * (place + 1) == k + 1) by (nonlinear_arith)
        requires
            one == 1,
            place == k,
    ;
    assert(beyond(sig, one * place) && !beyond(sig, one * (place + 1)));
    let lower = pow2((13312 + k) as nat) as int;
    let upper = pow2((13312 + k + 1) as nat) as int;
    assert(pow(m, 256) > lower);
    assert(pow(m, 256) <= upper);
    // The power of two of the value itself.
    let unit = pow2(256 * q) as int;
    assert(pow(pow2(q) as int, 256) == unit) by {
        lemma_pow2(q);
        lemma_pow2(256 * q);
        lemma_pow_multiplies(2, q, 256);
        assert(q * 256 == 256 * q);
    }
    lemma_pow_distributes(m, pow2(q) as int, 256);
    assert(scaled(bits) == m * pow2(q));
    lemma_fine_range(sig, e);
    crate::lookup::lemma_bucket(sig);
    lemma_pow2_pos(256 * q);
    lemma_pow2_adds((13312 + k) as nat, 256 * q);
    lemma_pow2_adds((13312 + k + 1) as nat, 256 * q);
    let big = pow(m, 256);
    assert(big * unit > lower * unit && big * unit <= upper * unit) by (nonlinear_arith)
        requires
            big > lower,
            big <= upper,
            unit >= 1,
    ;
    assert(13312 + k + 256 * q == 256 * 1074 + f);
    // From the finest scale to the given one.
    let d = pow2((TABLE_SCALE - scale) as nat) as int;
    lemma_pow2_pos((TABLE_SCALE - scale) as nat);
    let i = slot_of(bits, scale);
    assert(i == f / d);
    crate::arith::lemma_div_bracket(f, d, i);
    let p = pow2((scale - MIN_SCALE) as nat) as int;
    lemma_pow2_adds((scale - MIN_SCALE) as nat, (TABLE_SCALE - scale) as nat);
    assert(pow2(18) == 0x4_0000);
    lemma_pow2_pos((scale - MIN_SCALE) as nat);
    assert(i >= -p) by (nonlinear_arith)
        requires
            p * d == 0x4_0000,
            d >= 1,
            f < (i + 1) * d,
            f >= -0x4_0000,
    ;
    assert(i * d >= -0x4_0000) by (nonlinear_arith)
        requires
            p * d == 0x4_0000,
            d >= 1,
            i >= -p,
    ;
    let a = edge_exponent(i, scale);
    let b = edge_exponent(i + 1, scale);
    assert(b == 256 * 1074 + (i + 1) * d);
    if a < 256 * 1074 + f {
        lemma_pow2_strictly_increases(a as nat, (256 * 1074 + f) as nat);
    }
    if 256 * 1074 + f + 1 < b {
        lemma_pow2_strictly_increases((256 * 1074 + f + 1) as nat, b as nat);
    }
}

/// The guarantee of a sketch: for a rank above the zeros and the underflow placeholder, the bucket
/// that is found for the rank is the bucket of the recorded value of that rank. The representative
/// `2lu / (l + u)` of its edges `l` and `u` is then off from that value by a relative error of at
/// most `(u - l) / (u + l)`.
///
/// Edges are no whole numbers, so `l` and `u` stand for any fractions, over `part`, at or below the
/// lower edge and at or above the upper one, in units of `2^-1074`. The value is normal; it is not
/// the smallest normal one if subnormal values were recorded, which count as values just above it.
pub proof fn law_quantile_error<const N: usize>(
    path: Seq<Sketch<N>>,
    calls: Seq<Recording>,
    i: int,
    rank: int,
    bucket: i32,
    x: u64,
    l: int,
    u: int,
    part: int,
)
    requires
        history(path, calls),
        0 <= i <= calls.len(),
        locates(
            Rank::Bucket(bucket),
            path[i].counts(),
            path[i].stats_of().count - path[i].live(),
            rank,
        ),
        rank > path[i].stats_of().count - path[i].live() + if path[i].has_collapsed() {
            path[i].counts()(path[i].low())
        } else {
            0
        },
        has_rank(calls, i, x, rank),
        MIN_VALUE <= x < 0x7ff0_0000_0000_0000,
        !(x == MIN_VALUE && subnormal_in(calls, i)),
        0 < l,
        0 < u,
        0 < part,
        pow(l, 256) <= pow(part, 256) * pow2(edge_exponent(bucket as int, path[i].scale_of()) as nat),
        pow(u, 256) >= pow(part, 256) * pow2(edge_exponent(bucket + 1, path[i].scale_of()) as nat),
    ensures
        slot_of(x, path[i].scale_of()) == bucket,
        l <= part * scaled(x) <= u,
        -(u - l) * (part * scaled(x)) <= 2 * l * u - (part * scaled(x)) * (l + u) <= (u - l) * (part
            * scaled(x)),
{
    law_history(path, calls, i);
    lemma_distribution(path, calls, i);
    let s = path[i];
    s.lemma_wf();
    let scale = s.scale_of();
    let h = distribution(calls, i, scale);
    let zeros = s.stats_of().count - s.live();
    law_quantile_accurate(s, h, zeros, rank, bucket);
    lemma_ranks(path, calls, i, x, i);
    let t = slot_of(x, scale);
    if bucket < t {
        lemma_total_wider(h, bottom(), bucket + 1, bottom(), t);
    }
    if t < bucket {
        lemma_index_range(significand(x), biased(x) - 1023, scale);
        lemma_parts(x);
        lemma_total_wider(h, bottom(), t + 1, bottom(), bucket as int);
    }
    assert(t == bucket);
    law_value_edges(x, scale);
    let v = part * scaled(x);
    lemma_pow_distributes(part, scaled(x) as int, 256);
    lemma_pow_base(0, part, 256);
    let w = pow(part, 256);
    let y = pow(scaled(x) as int, 256);
    let lower = pow2(edge_exponent(bucket as int, scale) as nat) as int;
    let upper = pow2(edge_exponent(bucket + 1, scale) as nat) as int;
    assert(w * lower <= w * y && w * y <= w * upper) by (nonlinear_arith)
        requires
            w >= 0,
            lower < y,
            y <= upper,
    ;
    lemma_pow_order(l, v, 256);
    lemma_pow_order(v, u, 256);
    law_representative(l, u, v);
}

/// Bases order as their powers do.
proof fn lemma_pow_order(a: int, b: int, n: nat)
    requires
        0 <= a,
        0 <= b,
        n > 0,
        pow(a, n) <= pow(b, n),
    ensures
        a <= b,
{
    if b < a {
        lemma_pow_base(b, a, (n - 1) as nat);
        reveal(pow);
        let p = pow(b, (n - 1) as nat);
        let q = pow(a, (n - 1) as nat);
        if a > 0 {
            vstd::arithmetic::power::lemma_pow_positive(a, (n - 1) as nat);
        }
        assert(b * p < a * q) by (nonlinear_arith)
            requires
                0 <= b < a,
                0 <= p <= q,
                q > 0,
        ;
    }
}

} // verus!
