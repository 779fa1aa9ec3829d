//! What holds of a sketch after any sequence of recordings.

use crate::collapse::{floor_slot, lemma_back_off};
use crate::counts::{bottom, lemma_total_member, plus, top, total};
use crate::float64::{biased, lemma_parts, significand, zero, MIN_VALUE};
use crate::lookup::{law_index_monotone, TABLE_SCALE};
use crate::mapping::{lemma_index_range, slot_of};
use crate::sketch::{is_peak, lemma_peak, placed, recorded, Sketch};
use crate::stats::{empty_stats, Error};
use crate::width::{in_range, lanes, lemma_lanes, lemma_word_of, word_of};
use crate::window::is_highest;
use vstd::prelude::*;

verus! {

/// One call that records a value, and its outcome.
pub struct Recording {
    /// Pattern of the value.
    pub bits: u64,
    /// How often it is recorded.
    pub incr: u64,
    /// The new sum of all values.
    pub sum: u64,
    /// What the call returned.
    pub outcome: Result<(), Error>,
}

/// The sketch `path[0]` is empty, and each call of `calls` leads from one sketch of the path to the
/// next.
pub open spec fn history<const N: usize>(path: Seq<Sketch<N>>, calls: Seq<Recording>) -> bool {
    &&& path.len() == calls.len() + 1
    &&& path[0].wf()
    &&& path[0].live() == 0
    &&& path[0].level() == path[0].min_level()
    &&& path[0].stats_of() == empty_stats()
    &&& forall|i: int|
        0 <= i < calls.len() ==> (#[trigger] calls[i]).incr > 0 && recorded(
            path[i],
            path[i + 1],
            calls[i].bits,
            calls[i].incr,
            calls[i].sum,
            calls[i].outcome,
        )
}

/// Number of zeros that the first `len` calls recorded.
pub open spec fn zeros_in(calls: Seq<Recording>, len: int) -> nat
    decreases len,
{
    if len <= 0 {
        0
    } else {
        let c = calls[len - 1];
        zeros_in(calls, len - 1) + if c.outcome.is_ok() && zero(c.bits) {
            c.incr as nat
        } else {
            0
        }
    }
}

/// A positive value below the smallest normal one.
pub open spec fn subnormal(bits: u64) -> bool {
    0 < bits < MIN_VALUE
}

/// One of the first `len` calls recorded a subnormal value.
pub open spec fn subnormal_in(calls: Seq<Recording>, len: int) -> bool {
    exists|i: int|
        0 <= i < len && (#[trigger] calls[i]).outcome.is_ok() && subnormal(calls[i].bits)
}

/// The highest bucket is that of the maximum; or of the subnormal values, which count as values
/// just above the smallest normal one, when that is the maximum.
spec fn topped<const N: usize>(s: Sketch<N>, mixed: bool) -> bool {
    let max = s.stats_of().max;
    if s.live() == 0 {
        max == empty_stats().max
    } else {
        &&& 0 < max < 0x7ff0_0000_0000_0000
        &&& subnormal(max) ==> mixed
        &&& is_highest(s.counts(), slot_of(max, s.scale_of())) || (mixed && max == MIN_VALUE
            && is_highest(s.counts(), slot_of(1, s.scale_of())))
    }
}

/// A larger value has no lower bucket, but for subnormal values and the smallest normal one.
pub proof fn lemma_slots(a: u64, b: u64, scale: int)
    requires
        0 < a <= b < 0x7ff0_0000_0000_0000,
        scale <= TABLE_SCALE,
    ensures
        !(subnormal(a) && b == MIN_VALUE) ==> slot_of(a, scale) <= slot_of(b, scale),
        subnormal(a) ==> slot_of(a, scale) == slot_of(1, scale),
        a == MIN_VALUE ==> slot_of(a, scale) <= slot_of(1, scale),
        b > MIN_VALUE ==> slot_of(1, scale) <= slot_of(b, scale),
{
    lemma_parts(a);
    lemma_parts(b);
    lemma_parts(1);
    let (sa, ea) = if biased(a) == 0 {
        (1int, -1022int)
    } else {
        (significand(a), biased(a) - 1023)
    };
    let (sb, eb) = if biased(b) == 0 {
        (1int, -1022int)
    } else {
        (significand(b), biased(b) - 1023)
    };
    if !(subnormal(a) && b == MIN_VALUE) {
        law_index_monotone(sa, ea, sb, eb, scale);
    }
    if a == MIN_VALUE {
        law_index_monotone(sa, ea, 1, -1022, scale);
    }
    if b > MIN_VALUE {
        law_index_monotone(1, -1022, sb, eb, scale);
    }
}

/// The highest bucket after a recording.
proof fn lemma_placed_top<const N: usize>(before: Sketch<N>, after: Sketch<N>, slot: int, incr: nat, t: int)
    requires
        before.wf(),
        after.wf(),
        incr > 0,
        in_range(slot),
        placed(before, after, slot, incr),
        before.live() > 0 ==> is_highest(before.counts(), t),
    ensures
        before.live() == 0 ==> is_highest(after.counts(), slot),
        before.live() > 0 ==> is_highest(
            after.counts(),
            if slot > t {
                slot
            } else {
                t
            },
        ),
        before.has_collapsed() ==> after.has_collapsed(),
        before.live() == 0 ==> after.level() >= before.min_level(),
        before.live() > 0 ==> after.level() >= before.level(),
{
    before.lemma_wf();
    after.lemma_wf();
    let h = plus(before.counts(), slot, incr);
    if before.live() > 0 {
        let high = if slot > t {
            slot
        } else {
            t
        };
        assert(is_peak(before.counts(), slot, high));
        lemma_peak(before.counts(), slot, high);
        let k = after.level();
        let keep = before.kept_floor(slot);
        let floor = floor_slot(high, k, N as int, keep);
        assert(h(high) != 0);
        assert(bottom() <= floor <= high) by {
            lemma_word_of(high, k);
            lemma_lanes(k);
            lemma_back_off(word_of(high, k), N - 1, k);
            let d = lanes(k);
            assert(0 <= (N - 1) * d <= 249 * 64) by (nonlinear_arith)
                requires
                    1 <= N <= 250,
                    1 <= d <= 64,
            ;
            before.lemma_low_aligned(k);
            assert(before.low() <= t);
            lemma_word_of(bottom(), k);
        }
        lemma_total_member(h, bottom(), high + 1, high);
        assert forall|j: int| j > high implies #[trigger] after.counts()(j) == 0 by {
            assert(before.counts()(j) == 0);
        }
    }
}

/// One call keeps the highest bucket at the maximum.
proof fn lemma_topped<const N: usize>(before: Sketch<N>, after: Sketch<N>, c: Recording, mixed: bool)
    requires
        before.wf(),
        c.incr > 0,
        topped(before, mixed),
        recorded(before, after, c.bits, c.incr, c.sum, c.outcome),
    ensures
        after.wf(),
        topped(after, mixed || (c.outcome.is_ok() && subnormal(c.bits))),
        before.has_collapsed() ==> after.has_collapsed(),
        after.min_level() == before.min_level(),
        before.live() == 0 && before.level() == before.min_level() ==> after.live() > 0
            || after.level() == after.min_level(),
        before.live() > 0 ==> after.live() > 0,
        before.live() > 0 || before.level() == before.min_level() ==> after.level()
            >= before.level(),
{
    before.lemma_wf();
    after.lemma_wf();
    let bits = c.bits;
    if c.outcome.is_ok() && !zero(bits) {
        lemma_parts(bits);
        let scale = before.scale_of();
        let slot = slot_of(bits, scale);
        assert(0 < bits < 0x7ff0_0000_0000_0000);
        lemma_index_range(
            if biased(bits) == 0 {
                1
            } else {
                significand(bits)
            },
            if biased(bits) == 0 {
                -1022
            } else {
                biased(bits) - 1023
            },
            scale,
        );
        let max = before.stats_of().max;
        if before.live() == 0 {
            lemma_placed_top(before, after, slot, c.incr as nat, slot);
        } else {
            let t = if is_highest(before.counts(), slot_of(max, scale)) {
                slot_of(max, scale)
            } else {
                slot_of(1, scale)
            };
            lemma_placed_top(before, after, slot, c.incr as nat, t);
            if bits > max {
                lemma_slots(max, bits, scale);
            } else {
                lemma_slots(bits, max, scale);
            }
            lemma_slots(1, bits, scale);
            lemma_slots(1, max, scale);
            lemma_slots(bits, bits, scale);
            lemma_slots(max, max, scale);
        }
    }
}

/// After any sequence of recordings into an empty sketch: the scale is the one it started with,
/// every observation is in a bucket or is a zero, the window spans no more words than the pool has,
/// and the highest bucket with a count is that of the maximum. A sketch that has collapsed stays
/// so, its counters never narrow, and a call that fails changes nothing.
///
/// The one exception: where the maximum is the smallest normal value, the highest bucket may be
/// that of subnormal values, which count as values just above it.
pub proof fn law_history<const N: usize>(path: Seq<Sketch<N>>, calls: Seq<Recording>, i: int)
    requires
        history(path, calls),
        0 <= i <= calls.len(),
    ensures
        path[i].wf(),
        path[i].scale_of() == path[0].scale_of(),
        path[i].live() == total(path[i].counts(), bottom(), top()),
        path[i].live() + zeros_in(calls, i) == path[i].stats_of().count,
        path[i].first_word() <= path[i].last_word() < path[i].first_word() + N,
        path[i].live() > 0 && !(path[i].stats_of().max == MIN_VALUE && subnormal_in(calls, i))
            ==> is_highest(
            path[i].counts(),
            slot_of(path[i].stats_of().max, path[i].scale_of()),
        ),
        forall|j: int|
            0 <= j <= i ==> {
                &&& (#[trigger] path[j]).has_collapsed() ==> path[i].has_collapsed()
                &&& path[j].level() <= path[i].level()
            },
        i > 0 && calls[i - 1].outcome.is_err() ==> path[i] == path[i - 1],
{
    lemma_history(path, calls, i);
    path[i].lemma_wf();
}

proof fn lemma_history<const N: usize>(path: Seq<Sketch<N>>, calls: Seq<Recording>, i: int)
    requires
        history(path, calls),
        0 <= i <= calls.len(),
    ensures
        path[i].wf(),
        path[i].scale_of() == path[0].scale_of(),
        path[i].live() + zeros_in(calls, i) == path[i].stats_of().count,
        path[i].live() > 0 || path[i].level() == path[i].min_level(),
        topped(path[i], subnormal_in(calls, i)),
        forall|j: int|
            0 <= j <= i ==> {
                &&& (#[trigger] path[j]).has_collapsed() ==> path[i].has_collapsed()
                &&& path[j].level() <= path[i].level()
            },
        i > 0 && calls[i - 1].outcome.is_err() ==> path[i] == path[i - 1],
    decreases i,
{
    if i > 0 {
        lemma_history(path, calls, i - 1);
        let c = calls[i - 1];
        let before = path[i - 1];
        let after = path[i];
        assert(path[i - 1 + 1] == after);
        lemma_topped(before, after, c, subnormal_in(calls, i - 1));
        let now = subnormal_in(calls, i - 1) || (c.outcome.is_ok() && subnormal(c.bits));
        assert(now <==> subnormal_in(calls, i)) by {
            if subnormal_in(calls, i) {
                let m = choose|m: int|
                    0 <= m < i && (#[trigger] calls[m]).outcome.is_ok() && subnormal(calls[m].bits);
                if m < i - 1 {
                    assert(subnormal_in(calls, i - 1));
                }
            }
            if subnormal_in(calls, i - 1) {
                let m = choose|m: int|
                    0 <= m < i - 1 && (#[trigger] calls[m]).outcome.is_ok() && subnormal(
                        calls[m].bits,
                    );
                assert(calls[m].outcome.is_ok());
            }
        }
        assert forall|j: int| 0 <= j <= i implies {
            &&& (#[trigger] path[j]).has_collapsed() ==> after.has_collapsed()
            &&& path[j].level() <= after.level()
        } by {
            if j < i {
                assert(path[j].level() <= before.level());
            }
        }
    } else {
        assert(!subnormal_in(calls, 0));
    }
}

} // verus!
