//! Arithmetic on packed counters, all counters of a word at once.

use crate::bucket_width::BucketWidth;
use crate::lane::{
    compact, even_mask, gather, lane, lane_count, lane_max, lemma_compact, lemma_field_sums,
    lemma_join, lemma_lane_bound, lemma_pair_sums, lemma_pair_sums_fit, lemma_sums_fit,
    lemma_sums_overflow, lemma_upper_halves, pair_sums, shifted_up, lemma_shift_bits,
    lemma_shift_none,
};
use crate::width::Width;
use vstd::prelude::*;

verus! {

/// Number of bits in a counter below 64 bits.
fn shift_of(level: usize) -> (r: u64)
    requires
        level < 6,
    ensures
        r == 1u64 << (level as u64),
        r <= 32,
{
    let k: u64 = level as u64;
    proof {
        assert((1u64 << k) <= 32) by (bit_vector)
            requires
                k < 6,
        ;
    }
    1u64 << k
}

/// Mask of the even counters.
fn mask_of(level: usize) -> (r: u64)
    requires
        level < 6,
    ensures
        r == even_mask(level as u64),
{
    match level {
        0 => 0x5555_5555_5555_5555,
        1 => 0x3333_3333_3333_3333,
        2 => 0x0f0f_0f0f_0f0f_0f0f,
        3 => 0x00ff_00ff_00ff_00ff,
        4 => 0x0000_ffff_0000_ffff,
        _ => 0x0000_0000_ffff_ffff,
    }
}

/// Sums adjacent counters of one word into counters of twice the width.
pub fn widen_once(word: u64, width: Width) -> (r: u64)
    requires
        width.level() < 6,
    ensures
        r == pair_sums(word, width.level() as u64),
        forall|i: u64|
            i < lane_count((width.level() + 1) as u64) ==> #[trigger] lane(
                r,
                (width.level() + 1) as u64,
                i,
            ) == lane(word, width.level() as u64, (2 * i) as u64) + lane(
                word,
                width.level() as u64,
                (2 * i + 1) as u64,
            ),
{
    let level = width.log2();
    let shift = shift_of(level);
    let mask = mask_of(level);
    proof {
        let k = level as u64;
        lemma_pair_sums_fit(word, k);
        assert forall|i: u64| i < lane_count((k + 1) as u64) implies #[trigger] lane(
            pair_sums(word, k),
            (k + 1) as u64,
            i,
        ) == lane(word, k, (2 * i) as u64) + lane(word, k, (2 * i + 1) as u64) by {
            lemma_pair_sums(word, k, i);
        }
    }
    ((word >> shift) & mask) + (word & mask)
}

/// A word after `steps` pairwise summations, starting with counters of `2^k` bits.
pub open spec fn widened(word: u64, k: nat, steps: nat) -> u64
    decreases steps,
{
    if steps == 0 {
        word
    } else {
        pair_sums(widened(word, k, (steps - 1) as nat), (k + steps - 1) as u64)
    }
}

/// Sums groups of adjacent counters of one word until they have the width `after`.
pub fn widen(before: Width, after: Width, word: u64) -> (r: u64)
    requires
        before.level() <= after.level(),
    ensures
        r == widened(word, before.level(), (after.level() - before.level()) as nat),
{
    let mut cur = word;
    let from = before.log2();
    let to = after.log2();
    let mut k: usize = from;
    while k < to
        invariant
            from <= k <= to <= 6,
            from == before.level(),
            to == after.level(),
            cur == widened(word, before.level(), (k - from) as nat),
        decreases to - k,
    {
        cur = widen_once(cur, Width::from_level(k));
        k = k + 1;
    }
    cur
}

/// Cuts the counters of a word that are twice as wide as `width` down to it, and moves them
/// together into the low half of the word.
pub fn narrow_once(word: u64, width: Width) -> (r: u64)
    requires
        width.level() < 6,
    ensures
        r == compact(word, width.level() as u64),
        r <= 0xffff_ffff,
        forall|i: u64|
            i < lane_count((width.level() + 1) as u64) ==> #[trigger] lane(
                r,
                width.level() as u64,
                i,
            ) == lane(word, (width.level() + 1) as u64, i) & lane_max(width.level() as u64),
{
    let level = width.log2();
    let mut x: u64 = word & mask_of(level);
    let mut j: usize = level;
    let ghost k = level as u64;
    let ghost x0 = x;
    while j < 5
        invariant
            level <= j,
            level < 6,
            j <= 5,
            k == level,
            x0 == word & even_mask(k),
            x == stage(x0, k, j as u64),
        decreases 5 - j,
    {
        let shift = shift_of(j);
        x = (x | (x >> shift)) & mask_of(j + 1);
        j = j + 1;
    }
    proof {
        assert(x == compact(word, k));
        assert forall|i: u64| i < lane_count((k + 1) as u64) implies #[trigger] lane(x, k, i) == lane(
            word,
            (k + 1) as u64,
            i,
        ) & lane_max(k) by {
            lemma_compact(word, k, i);
        }
        lemma_compact(word, k, 0);
    }
    x
}

/// The word before stage `j` of a compaction that starts at stage `k`.
spec fn stage(x0: u64, k: u64, j: u64) -> u64 {
    let x1 = if k <= 0 && j > 0 {
        gather(x0, 0)
    } else {
        x0
    };
    let x2 = if k <= 1 && j > 1 {
        gather(x1, 1)
    } else {
        x1
    };
    let x3 = if k <= 2 && j > 2 {
        gather(x2, 2)
    } else {
        x2
    };
    let x4 = if k <= 3 && j > 3 {
        gather(x3, 3)
    } else {
        x3
    };
    if k <= 4 && j > 4 {
        gather(x4, 4)
    } else {
        x4
    }
}

/// Cuts the counters of a word from the width `before` down to `after`, keeping the low bits of
/// each, and moves them together at the low end; the rest of the word is zero.
pub fn narrow(before: Width, after: Width, word: u64) -> (r: u64)
    requires
        after.level() <= before.level(),
    ensures
        forall|i: u64|
            i < lane_count(before.level() as u64) ==> #[trigger] lane(
                r,
                after.level() as u64,
                i,
            ) == lane(word, before.level() as u64, i) & lane_max(after.level() as u64),
        forall|i: u64|
            lane_count(before.level() as u64) <= i < lane_count(after.level() as u64)
                ==> #[trigger] lane(r, after.level() as u64, i) == 0,
{
    let mut cur = word;
    let top = before.log2();
    let to = after.log2();
    let mut k: usize = top;
    proof {
        assert forall|i: u64| i < lane_count(top as u64) implies #[trigger] lane(cur, top as u64, i)
            == lane(word, top as u64, i) & lane_max(top as u64) by {
            lemma_lane_bound(word, top as u64, i);
            crate::lane::lemma_low_part(lane(word, top as u64, i), top as u64);
        }
    }
    while k > to
        invariant
            to <= k <= top <= 6,
            top == before.level(),
            to == after.level(),
            forall|i: u64|
                i < lane_count(top as u64) ==> #[trigger] lane(cur, k as u64, i) == lane(
                    word,
                    top as u64,
                    i,
                ) & lane_max(k as u64),
            forall|i: u64|
                lane_count(top as u64) <= i < lane_count(k as u64) ==> #[trigger] lane(
                    cur,
                    k as u64,
                    i,
                ) == 0,
        decreases k - to,
    {
        let ghost prev = cur;
        cur = narrow_once(cur, Width::from_level(k - 1));
        proof {
            let j = (k - 1) as u64;
            assert(lane_count(top as u64) <= lane_count(k as u64) <= lane_count(j));
            assert forall|i: u64| i < lane_count(top as u64) implies #[trigger] lane(cur, j, i)
                == lane(word, top as u64, i) & lane_max(j) by {
                assert(lane(prev, k as u64, i) == lane(word, top as u64, i) & lane_max(k as u64));
                lemma_mask_twice(lane(word, top as u64, i), j);
            }
            assert forall|i: u64| lane_count(top as u64) <= i < lane_count(j) implies #[trigger] lane(
                cur,
                j,
                i,
            ) == 0 by {
                if i < lane_count(k as u64) {
                    assert(lane(prev, k as u64, i) == 0);
                    lemma_mask_twice(0, j);
                } else {
                    lemma_join(cur, 0, j, i);
                    lemma_lane_bound(0, j, (i - lane_count(k as u64)) as u64);
                    assert(cur | (0u64 << 32) == cur) by (bit_vector);
                }
            }
        }
        k = k - 1;
    }
    cur
}

/// Masking to a wider counter first makes no difference.
proof fn lemma_mask_twice(v: u64, k: u64)
    requires
        k < 6,
    ensures
        (v & lane_max((k + 1) as u64)) & lane_max(k) == v & lane_max(k),
        0u64 & lane_max(k) == 0,
{
    assert((v & lane_max((k + 1) as u64)) & lane_max(k) == v & lane_max(k) && 0u64 & lane_max(k) == 0)
        by (bit_vector)
        requires
            k < 6,
    ;
}

/// Adds the counters of two words, or returns `None` if a sum exceeds its counter.
pub fn swar_add_checked(a: u64, b: u64, width: Width) -> (r: Option<u64>)
    ensures
        r.is_some() <==> forall|i: u64|
            i < lane_count(width.level() as u64) ==> #[trigger] lane(a, width.level() as u64, i)
                + lane(b, width.level() as u64, i) <= lane_max(width.level() as u64),
        r.is_some() ==> forall|i: u64|
            i < lane_count(width.level() as u64) ==> #[trigger] lane(
                r.unwrap(),
                width.level() as u64,
                i,
            ) == lane(a, width.level() as u64, i) + lane(b, width.level() as u64, i),
{
    let level = width.log2();
    if level == 6 {
        proof {
            lemma_lane_bound(a, 6, 0);
            lemma_lane_bound(b, 6, 0);
        }
        if a > u64::MAX - b {
            proof {
                assert(lane(a, 6, 0) + lane(b, 6, 0) > lane_max(6));
            }
            return None;
        }
        proof {
            lemma_lane_bound((a + b) as u64, 6, 0);
        }
        return Some(a + b);
    }
    let shift = shift_of(level);
    let mask = mask_of(level);
    proof {
        lemma_field_sums(a, b, level as u64);
    }
    let even: u64 = (a & mask) + (b & mask);
    let odd: u64 = ((a >> shift) & mask) + ((b >> shift) & mask);
    if even & !mask != 0 || odd & !mask != 0 {
        proof {
            if forall|i: u64|
                i < lane_count(level as u64) ==> #[trigger] lane(a, level as u64, i) + lane(
                    b,
                    level as u64,
                    i,
                ) <= lane_max(level as u64) {
                lemma_sums_overflow(a, b, level as u64);
            }
        }
        return None;
    }
    let sum = even | (odd << shift);
    proof {
        let k = level as u64;
        assert forall|i: u64| i < lane_count(k) implies #[trigger] lane(sum, k, i) == lane(a, k, i)
            + lane(b, k, i) by {
            lemma_sums_fit(a, b, k, i);
        }
        assert forall|i: u64| i < lane_count(k) implies #[trigger] lane(a, k, i) + lane(b, k, i)
            <= lane_max(k) by {
            lemma_sums_fit(a, b, k, i);
            lemma_lane_bound(sum, k, i);
        }
    }
    Some(sum)
}

/// Sums adjacent counters into the next wider width, in every word.
pub fn swar_step(data: &mut [u64], width: BucketWidth)
    requires
        width !is B0,
        width !is U64,
    ensures
        final(data)@.len() == old(data)@.len(),
        forall|i: int|
            0 <= i < final(data)@.len() ==> #[trigger] final(data)@[i] == pair_sums(
                old(data)@[i],
                width.counter().level() as u64,
            ),
{
    let w = width.width();
    let n = data.len();
    let ghost before = data@;
    let mut i: usize = 0;
    while i < n
        invariant
            n == data@.len(),
            n == before.len(),
            i <= n,
            w.level() < 6,
            w == width.counter(),
            forall|j: int|
                0 <= j < i ==> #[trigger] data@[j] == pair_sums(before[j], w.level() as u64),
            forall|j: int| i <= j < n ==> #[trigger] data@[j] == before[j],
        decreases n - i,
    {
        let x = widen_once(data[i], w);
        data[i] = x;
        i = i + 1;
    }
}

/// Returns true if any widened sum exceeds a counter of the original width.
pub fn swar_has_overflow(data: &[u64], original_width: BucketWidth) -> (r: bool)
    requires
        original_width !is B0,
    ensures
        original_width is U64 ==> !r,
        original_width !is U64 ==> (r <==> exists|i: int, j: u64|
            0 <= i < data@.len() && j < lane_count((original_width.counter().level() + 1) as u64)
                && #[trigger] lane(data@[i], (original_width.counter().level() + 1) as u64, j)
                > lane_max(original_width.counter().level() as u64)),
{
    let level = original_width.level();
    if level == 6 {
        return false;
    }
    let mask = mask_of(level);
    let ghost k = level as u64;
    let mut i: usize = 0;
    while i < data.len()
        invariant
            level < 6,
            k == level,
            level == original_width.counter().level(),
            original_width !is U64,
            mask == even_mask(k),
            i <= data@.len(),
            forall|m: int, j: u64|
                0 <= m < i && j < lane_count((k + 1) as u64) ==> #[trigger] lane(
                    data@[m],
                    (k + 1) as u64,
                    j,
                ) <= lane_max(k),
        decreases data@.len() - i,
    {
        proof {
            lemma_upper_halves(data@[i as int], k);
        }
        if data[i] & !mask != 0 {
            proof {
                let k2 = (original_width.counter().level() + 1) as u64;
                assert(k2 == (k + 1) as u64);
                let j = choose|j: u64|
                    j < lane_count(k2) && #[trigger] lane(data@[i as int], k2, j) > lane_max(k);
                assert(j < lane_count(k2) && lane(data@[i as int], k2, j) > lane_max(k));
            }
            return true;
        }
        i = i + 1;
    }
    false
}

/// Cuts the counters of one word from twice the width `original_width` back to it, into the low
/// 32 bits.
pub fn narrow_word(w: u64, original_width: BucketWidth) -> (r: u64)
    requires
        original_width !is B0,
        original_width !is U64,
    ensures
        r <= 0xffff_ffff,
        forall|i: u64|
            i < lane_count((original_width.counter().level() + 1) as u64) ==> #[trigger] lane(
                r,
                original_width.counter().level() as u64,
                i,
            ) == lane(w, (original_width.counter().level() + 1) as u64, i) & lane_max(
                original_width.counter().level() as u64,
            ),
{
    narrow_once(w, original_width.width())
}

/// The word `i` of `data`, 0 past its end.
pub open spec fn word_or_zero(data: Seq<u64>, i: int) -> u64 {
    if i < data.len() {
        data[i]
    } else {
        0
    }
}

/// Narrows widened sums back to the original width and packs each two words into one, in the
/// first half of the data; the rest becomes zero.
pub fn swar_narrow_compact(data: &mut [u64], original_width: BucketWidth)
    requires
        original_width !is B0,
        original_width !is U64,
    ensures
        final(data)@.len() == old(data)@.len(),
        forall|i: int|
            0 <= i < final(data)@.len() ==> #[trigger] final(data)@[i] == if 2 * i < old(
                data,
            )@.len() {
                let k = original_width.counter().level() as u64;
                compact(old(data)@[2 * i], k) | (compact(word_or_zero(old(data)@, 2 * i + 1), k) << 32)
            } else {
                0
            },
{
    let w = original_width.width();
    let n = data.len();
    let ghost before = data@;
    let ghost k = w.level() as u64;
    let mut i: usize = 0;
    while i < n
        invariant
            n == data@.len(),
            n == before.len(),
            i <= n,
            w.level() < 6,
            k == w.level(),
            forall|j: int|
                0 <= j < i ==> #[trigger] data@[j] == if 2 * j < n {
                    compact(before[2 * j], k) | (compact(word_or_zero(before, 2 * j + 1), k) << 32)
                } else {
                    0
                },
            forall|j: int| i <= j < n ==> #[trigger] data@[j] == before[j],
        decreases n - i,
    {
        if i < n - i {
            let lo = narrow_once(data[2 * i], w);
            let upper: u64 = if 2 * i + 1 < n {
                data[2 * i + 1]
            } else {
                0
            };
            let hi = narrow_once(upper, w);
            data[i] = lo | (hi << 32);
        } else {
            data[i] = 0;
        }
        i = i + 1;
    }
}

/// Moves every counter up by one place, across words, and clears the lowest.
pub fn swar_shift_up_one(data: &mut [u64], width: BucketWidth)
    requires
        width !is B0,
        width !is U64,
    ensures
        final(data)@.len() == old(data)@.len(),
        forall|i: int|
            0 <= i < final(data)@.len() ==> #[trigger] final(data)@[i] == shifted_up(
                old(data)@[i],
                if i == 0 {
                    0
                } else {
                    old(data)@[i - 1]
                },
                width.counter().level() as u64,
            ),
{
    let n = data.len();
    if n == 0 {
        return;
    }
    let bits = shift_of(width.level());
    let ghost before = data@;
    let ghost k = width.counter().level() as u64;
    proof {
        lemma_shift_bits(k);
    }
    let mut i: usize = n - 1;
    while i > 0
        invariant
            n == data@.len(),
            n == before.len(),
            i < n,
            k < 6,
            bits == 1u64 << k,
            0 < bits <= 32,
            forall|j: int| 0 <= j <= i ==> #[trigger] data@[j] == before[j],
            forall|j: int|
                i < j < n ==> #[trigger] data@[j] == shifted_up(before[j], before[j - 1], k),
        decreases i,
    {
        // From the top down, so that each word reads the word below before it changes.
        data[i] = (data[i] << bits) | (data[i - 1] >> (64 - bits));
        i = i - 1;
    }
    proof {
        lemma_shift_none(before[0], k);
    }
    data[0] = data[0] << bits;
}

} // verus!
