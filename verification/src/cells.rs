//! Packed counters of a slice of words, numbered through all words.

use crate::arith::lemma_div_unique;
use crate::bucket_width::BucketWidth;
use crate::lane::{
    compact, lane, lane_count, lane_max, lemma_compact, lemma_join, lemma_lane_bound,
    lemma_low_part, lemma_pair_sums, lemma_shifted_up, lemma_with_lane, pair_sums, shifted_up,
};
use crate::layout::MAX_WORDS;
use crate::swar::word_or_zero;
use crate::width::{capacity, lanes, lemma_lanes, lemma_word_of, word_of};
use vstd::prelude::*;

verus! {

/// Counter `s` of words with counters of `2^k` bits.
pub open spec fn cell(data: Seq<u64>, k: nat, s: int) -> nat {
    lane(data[word_of(s, k)], k as u64, (s % lanes(k)) as u64) as nat
}

/// The word of a counter lies in the slice.
pub proof fn lemma_cell_word(len: int, k: nat, s: int)
    requires
        k <= 6,
        0 <= s < len * lanes(k),
    ensures
        0 <= word_of(s, k) < len,
        0 <= s % lanes(k) < lanes(k),
        s == word_of(s, k) * lanes(k) + s % lanes(k),
{
    lemma_lanes(k);
    lemma_word_of(s, k);
    let q = word_of(s, k);
    let d = lanes(k);
    assert(0 <= q < len) by (nonlinear_arith)
        requires
            d > 0,
            q * d <= s < (q + 1) * d,
            0 <= s < len * d,
    ;
}

/// Reads a counter.
pub fn bucket_get(data: &[u64], width: BucketWidth, slot: usize) -> (r: u64)
    requires
        width !is B0,
        data@.len() <= MAX_WORDS,
        slot < data@.len() * lanes(width.counter().level()),
    ensures
        r == cell(data@, width.counter().level(), slot as int),
        r <= capacity(width.counter().level()),
{
    proof {
        let k = width.counter().level();
        lemma_lanes(k);
        lemma_cell_word(data@.len() as int, k, slot as int);
        let d = lanes(k);
        assert(data@.len() * d <= 0x7c00_0000) by (nonlinear_arith)
            requires
                data@.len() <= MAX_WORDS,
                d <= 64,
        ;
    }
    let addr = width.width().slot_addr(slot as i32);
    addr.retrieve_counter(data[addr.word as usize])
}

/// Writes a counter.
pub fn bucket_set(data: &mut [u64], width: BucketWidth, slot: usize, value: u64)
    requires
        width !is B0,
        old(data)@.len() <= MAX_WORDS,
        slot < old(data)@.len() * lanes(width.counter().level()),
        value <= capacity(width.counter().level()),
    ensures
        final(data)@.len() == old(data)@.len(),
        forall|s: int|
            0 <= s < old(data)@.len() * lanes(width.counter().level()) ==> #[trigger] cell(
                final(data)@,
                width.counter().level(),
                s,
            ) == if s == slot {
                value as nat
            } else {
                cell(old(data)@, width.counter().level(), s)
            },
{
    let ghost k = width.counter().level();
    let ghost before = data@;
    proof {
        lemma_lanes(k);
        lemma_cell_word(data@.len() as int, k, slot as int);
        let d = lanes(k);
        assert(data@.len() * d <= 0x7c00_0000) by (nonlinear_arith)
            requires
                data@.len() <= MAX_WORDS,
                d <= 64,
        ;
    }
    let addr = width.width().slot_addr(slot as i32);
    let i: usize = addr.word as usize;
    let word = data[i];
    data[i] = addr.update_counter_in_word(word, value);
    proof {
        assert forall|s: int| 0 <= s < before.len() * lanes(k) implies #[trigger] cell(data@, k, s)
            == if s == slot {
            value as nat
        } else {
            cell(before, k, s)
        } by {
            lemma_cell_word(before.len() as int, k, s);
            if word_of(s, k) == i {
                lemma_with_lane(
                    word,
                    k as u64,
                    (slot as int % lanes(k)) as u64,
                    (s % lanes(k)) as u64,
                    value,
                );
            }
        }
    }
}

/// Pairwise sums, counter by counter.
pub proof fn lemma_step_cell(before: Seq<u64>, after: Seq<u64>, k: nat, s: int)
    requires
        k < 6,
        after.len() == before.len(),
        forall|i: int|
            0 <= i < after.len() ==> #[trigger] after[i] == pair_sums(before[i], k as u64),
        0 <= s < after.len() * lanes(k + 1),
    ensures
        cell(after, k + 1, s) == cell(before, k, 2 * s) + cell(before, k, 2 * s + 1),
{
    lemma_lanes(k);
    lemma_cell_word(after.len() as int, k + 1, s);
    let w = word_of(s, k + 1);
    let e = s % lanes(k + 1);
    assert(2 * s == w * lanes(k) + 2 * e) by (nonlinear_arith)
        requires
            s == w * lanes(k + 1) + e,
            lanes(k) == 2 * lanes(k + 1),
    ;
    lemma_div_unique(2 * s, lanes(k), w, 2 * e);
    lemma_div_unique(2 * s + 1, lanes(k), w, 2 * e + 1);
    lemma_pair_sums(before[w], k as u64, e as u64);
    assert(after[w] == pair_sums(before[w], k as u64));
    assert((k as u64 + 1) as u64 == (k + 1) as u64);
}

/// Sums that fit, cut back to the narrower width.
pub proof fn lemma_compact_cell(before: Seq<u64>, after: Seq<u64>, k: nat, s: int)
    requires
        k < 6,
        after.len() == before.len(),
        forall|i: int|
            0 <= i < after.len() ==> #[trigger] after[i] == if 2 * i < before.len() {
                compact(before[2 * i], k as u64) | (compact(
                    word_or_zero(before, 2 * i + 1),
                    k as u64,
                ) << 32)
            } else {
                0
            },
        0 <= s < after.len() * lanes(k),
        0 <= s < after.len() * lanes(k + 1) ==> cell(before, k + 1, s) <= capacity(k),
    ensures
        cell(after, k, s) == if s < after.len() * lanes(k + 1) {
            cell(before, k + 1, s)
        } else {
            0
        },
{
    lemma_lanes(k);
    let n = after.len() as int;
    let h = lanes(k + 1);
    lemma_cell_word(n, k, s);
    let w = word_of(s, k);
    let e = s % lanes(k);
    let u = k as u64;
    assert((u + 1) as u64 == (k + 1) as u64);
    let lo = compact(before[2 * w], u);
    let upper = word_or_zero(before, 2 * w + 1);
    let hi = compact(upper, u);
    lemma_compact(before[2 * w], u, 0);
    lemma_compact(upper, u, 0);
    if 2 * w < n {
        assert(after[w] == lo | (hi << 32));
        lemma_join(lo, hi, u, e as u64);
        if e < h {
            assert(s == (2 * w) * h + e) by (nonlinear_arith)
                requires
                    s == w * lanes(k) + e,
                    lanes(k) == 2 * h,
            ;
            lemma_div_unique(s, h, 2 * w, e);
            assert(s < n * h) by (nonlinear_arith)
                requires
                    s == (2 * w) * h + e,
                    e < h,
                    2 * w + 1 <= n,
                    h > 0,
            ;
            lemma_compact(before[2 * w], u, e as u64);
            lemma_low_part(lane(before[2 * w], (k + 1) as u64, e as u64), u);
        } else {
            assert(s == (2 * w + 1) * h + (e - h)) by (nonlinear_arith)
                requires
                    s == w * lanes(k) + e,
                    lanes(k) == 2 * h,
            ;
            lemma_div_unique(s, h, 2 * w + 1, e - h);
            lemma_compact(upper, u, (e - h) as u64);
            if 2 * w + 1 < n {
                assert(s < n * h) by (nonlinear_arith)
                    requires
                        s == (2 * w + 1) * h + (e - h),
                        e - h < h,
                        2 * w + 2 <= n,
                        h > 0,
                ;
                lemma_low_part(lane(upper, (k + 1) as u64, (e - h) as u64), u);
            } else {
                assert(s >= n * h) by (nonlinear_arith)
                    requires
                        s == (2 * w + 1) * h + (e - h),
                        e >= h,
                        2 * w + 1 >= n,
                        h > 0,
                ;
                lemma_lane_bound(0, (k + 1) as u64, (e - h) as u64);
                lemma_low_part(0, u);
            }
        }
    } else {
        assert(after[w] == 0);
        lemma_lane_bound(0, u, e as u64);
        assert(s >= n * h) by (nonlinear_arith)
            requires
                s == w * lanes(k) + e,
                lanes(k) == 2 * h,
                2 * w >= n,
                e >= 0,
                h > 0,
        ;
    }
}

/// Pairwise sums that all fit, cut back and packed: the first half of the counters are the sums of
/// pairs, and the second half are zero.
pub proof fn law_step_then_narrow(
    before: Seq<u64>,
    summed: Seq<u64>,
    after: Seq<u64>,
    k: nat,
    s: int,
)
    requires
        k < 6,
        summed.len() == before.len(),
        after.len() == before.len(),
        forall|i: int|
            0 <= i < summed.len() ==> #[trigger] summed[i] == pair_sums(before[i], k as u64),
        forall|i: int, j: u64|
            0 <= i < summed.len() && j < lane_count((k + 1) as u64) ==> #[trigger] lane(
                summed[i],
                (k + 1) as u64,
                j,
            ) <= lane_max(k as u64),
        forall|i: int|
            0 <= i < after.len() ==> #[trigger] after[i] == if 2 * i < summed.len() {
                compact(summed[2 * i], k as u64) | (compact(
                    word_or_zero(summed, 2 * i + 1),
                    k as u64,
                ) << 32)
            } else {
                0
            },
        0 <= s < after.len() * lanes(k),
    ensures
        cell(after, k, s) == if 2 * s < before.len() * lanes(k) {
            cell(before, k, 2 * s) + cell(before, k, 2 * s + 1)
        } else {
            0
        },
{
    let n = before.len() as int;
    lemma_lanes(k);
    assert(n * lanes(k) == 2 * (n * lanes(k + 1))) by (nonlinear_arith)
        requires
            lanes(k) == 2 * lanes(k + 1),
    ;
    if s < n * lanes(k + 1) {
        lemma_step_cell(before, summed, k, s);
        lemma_cell_word(n, k + 1, s);
        assert(lane(summed[word_of(s, k + 1)], (k + 1) as u64, (s % lanes(k + 1)) as u64)
            <= lane_max(k as u64));
    }
    lemma_compact_cell(summed, after, k, s);
}

/// Counters moved up by one place.
pub proof fn lemma_shift_cell(before: Seq<u64>, after: Seq<u64>, k: nat, s: int)
    requires
        k < 6,
        after.len() == before.len(),
        forall|i: int|
            0 <= i < after.len() ==> #[trigger] after[i] == shifted_up(
                before[i],
                if i == 0 {
                    0
                } else {
                    before[i - 1]
                },
                k as u64,
            ),
        0 <= s < after.len() * lanes(k),
    ensures
        cell(after, k, s) == if s == 0 {
            0
        } else {
            cell(before, k, s - 1)
        },
{
    lemma_lanes(k);
    lemma_cell_word(after.len() as int, k, s);
    let d = lanes(k);
    let w = word_of(s, k);
    let e = s % d;
    let below = if w == 0 {
        0
    } else {
        before[w - 1]
    };
    assert(after[w] == shifted_up(before[w], below, k as u64));
    lemma_shifted_up(before[w], below, k as u64, e as u64);
    assert(s == 0 <==> w == 0 && e == 0) by (nonlinear_arith)
        requires
            s == w * d + e,
            d > 0,
            w >= 0,
            e >= 0,
    ;
    if e > 0 {
        lemma_div_unique(s - 1, d, w, e - 1);
    } else if w > 0 {
        assert(s - 1 == (w - 1) * d + (d - 1)) by (nonlinear_arith)
            requires
                s == w * d,
        ;
        lemma_div_unique(s - 1, d, w - 1, d - 1);
    } else {
        lemma_lane_bound(0, k as u64, (lane_count(k as u64) - 1) as u64);
    }
}

/// Words of zeros hold no count.
pub proof fn lemma_zero_cell(data: Seq<u64>, k: nat, s: int)
    requires
        k <= 6,
        forall|i: int| 0 <= i < data.len() ==> #[trigger] data[i] == 0,
        0 <= s < data.len() * lanes(k),
    ensures
        cell(data, k, s) == 0,
{
    lemma_cell_word(data.len() as int, k, s);
    lemma_lane_bound(0, k as u64, (s % lanes(k)) as u64);
}

/// Every counter is at most the maximum of its width.
pub proof fn lemma_cell_bound(data: Seq<u64>, k: nat, s: int)
    ensures
        cell(data, k, s) <= capacity(k),
{
    lemma_lane_bound(data[word_of(s, k)], k as u64, (s % lanes(k)) as u64);
}

} // verus!
