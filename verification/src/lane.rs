//! Counters of `2^k` bits packed into a 64-bit word.

use vstd::prelude::*;

verus! {

/// Largest value that fits in a counter of `2^k` bits.
pub open spec fn lane_max(k: u64) -> u64 {
    if k == 0 {
        0x1
    } else if k == 1 {
        0x3
    } else if k == 2 {
        0xf
    } else if k == 3 {
        0xff
    } else if k == 4 {
        0xffff
    } else if k == 5 {
        0xffff_ffff
    } else {
        0xffff_ffff_ffff_ffff
    }
}

/// Number of counters of `2^k` bits in one word.
pub open spec fn lane_count(k: u64) -> u64 {
    if k == 0 {
        64
    } else if k == 1 {
        32
    } else if k == 2 {
        16
    } else if k == 3 {
        8
    } else if k == 4 {
        4
    } else if k == 5 {
        2
    } else {
        1
    }
}

/// The even counters of `2^k` bits, each in a field of twice its width.
pub open spec fn even_mask(k: u64) -> u64 {
    if k == 0 {
        0x5555_5555_5555_5555
    } else if k == 1 {
        0x3333_3333_3333_3333
    } else if k == 2 {
        0x0f0f_0f0f_0f0f_0f0f
    } else if k == 3 {
        0x00ff_00ff_00ff_00ff
    } else if k == 4 {
        0x0000_ffff_0000_ffff
    } else {
        0x0000_0000_ffff_ffff
    }
}

/// The `i`-th counter of `2^k` bits in `word`, counted from the low end.
pub open spec fn lane(word: u64, k: u64, i: u64) -> u64 {
    (word >> (i << k)) & lane_max(k)
}

/// `word` with its `i`-th counter of `2^k` bits replaced by `v`.
pub open spec fn with_lane(word: u64, k: u64, i: u64, v: u64) -> u64 {
    (word & !(lane_max(k) << (i << k))) | (v << (i << k))
}

/// Adjacent counters of `2^k` bits summed into counters of twice the width.
pub open spec fn pair_sums(word: u64, k: u64) -> u64 {
    (((word >> (1u64 << k)) & even_mask(k)) + (word & even_mask(k))) as u64
}

/// One halving step of a compaction: fields of `2^(k + 1)` bits that hold values of `2^k` bits
/// move together in pairs.
pub open spec fn gather(word: u64, k: u64) -> u64 {
    (word | (word >> (1u64 << k))) & even_mask((k + 1) as u64)
}

/// Writing one counter leaves the others alone.
pub proof fn lemma_with_lane(word: u64, k: u64, i: u64, j: u64, v: u64)
    requires
        k <= 6,
        i < lane_count(k),
        j < lane_count(k),
        v <= lane_max(k),
    ensures
        lane(with_lane(word, k, i, v), k, j) == if i == j {
            v
        } else {
            lane(word, k, j)
        },
{
    assert(lane(with_lane(word, k, i, v), k, j) == if i == j {
        v
    } else {
        lane(word, k, j)
    }) by (bit_vector)
        requires
            k <= 6,
            i < lane_count(k),
            j < lane_count(k),
            v <= lane_max(k),
    ;
}

/// A counter never exceeds the width's maximum, and an empty word has empty counters.
pub proof fn lemma_lane_bound(word: u64, k: u64, i: u64)
    ensures
        lane(word, k, i) <= lane_max(k),
        lane(0, k, i) == 0,
        word == 0 <==> lane(word, 6, 0) == 0,
        lane(word, 6, 0) == word,
{
    assert((word >> (i << k)) & lane_max(k) <= lane_max(k)) by (bit_vector);
    assert((0u64 >> (i << k)) & lane_max(k) == 0) by (bit_vector);
    assert((word >> (0u64 << 6u64)) & 0xffff_ffff_ffff_ffff == word) by (bit_vector);
}

/// The bit position of a counter lies inside the word.
pub proof fn lemma_lane_shift(k: u64, i: u64)
    requires
        k <= 6,
        i < lane_count(k),
    ensures
        (i << k) < 64,
{
    assert((i << k) < 64) by (bit_vector)
        requires
            k <= 6,
            i < lane_count(k),
    ;
}

/// Two words with the same counters are the same word.
pub proof fn lemma_lane_ext(a: u64, b: u64, k: u64)
    requires
        k <= 6,
        forall|i: u64| i < lane_count(k) ==> lane(a, k, i) == #[trigger] lane(b, k, i),
    ensures
        a == b,
{
    if a != b {
        let i = lemma_lane_differs(a, b, k);
        assert(lane(a, k, i) == lane(b, k, i));
    }
}

/// Two different words differ in a counter.
proof fn lemma_lane_differs(a: u64, b: u64, k: u64) -> (i: u64)
    requires
        k <= 6,
        a != b,
    ensures
        i < lane_count(k),
        lane(a, k, i) != lane(b, k, i),
{
    let x = a ^ b;
    assert(x != 0) by (bit_vector)
        requires
            a != b,
            x == a ^ b,
    ;
    vstd::std_specs::bits::axiom_u64_trailing_zeros(x);
    let t = vstd::std_specs::bits::u64_trailing_zeros(x) as u64;
    let i = t >> k;
    assert(i < lane_count(k) && (a >> (i << k)) & lane_max(k) != (b >> (i << k)) & lane_max(k))
        by (bit_vector)
        requires
            k <= 6,
            t < 64,
            i == t >> k,
            ((a ^ b) >> t) & 1 == 1,
    ;
    i
}

/// Pairwise summation gives the sum of each even counter and the odd counter above it.
pub proof fn lemma_pair_sums(word: u64, k: u64, i: u64)
    requires
        k < 6,
        i < lane_count((k + 1) as u64),
    ensures
        lane(pair_sums(word, k), (k + 1) as u64, i) == lane(word, k, (2 * i) as u64) + lane(
            word,
            k,
            (2 * i + 1) as u64,
        ),
        (2 * i + 1) < lane_count(k),
{
    assert(lane(pair_sums(word, k), (k + 1) as u64, i) == lane(word, k, (2 * i) as u64) + lane(
        word,
        k,
        (2 * i + 1) as u64,
    ) && (2 * i + 1) < lane_count(k)) by (bit_vector)
        requires
            k < 6,
            i < lane_count((k + 1) as u64),
    ;
}

/// No carry leaves its field during pairwise summation.
pub proof fn lemma_pair_sums_fit(word: u64, k: u64)
    requires
        k < 6,
    ensures
        ((word >> (1u64 << k)) & even_mask(k)) + (word & even_mask(k)) <= u64::MAX,
{
    assert(((word >> (1u64 << k)) & even_mask(k)) + (word & even_mask(k)) <= 0xffff_ffff_ffff_ffff)
        by (bit_vector)
        requires
            k < 6,
    ;
}

/// Fields of `2^(k + 1)` bits cut down to their low `2^k` bits and moved together into the low
/// half of the word.
pub open spec fn compact(word: u64, k: u64) -> u64 {
    let x0 = word & even_mask(k);
    let x1 = if k <= 0 {
        gather(x0, 0)
    } else {
        x0
    };
    let x2 = if k <= 1 {
        gather(x1, 1)
    } else {
        x1
    };
    let x3 = if k <= 2 {
        gather(x2, 2)
    } else {
        x2
    };
    let x4 = if k <= 3 {
        gather(x3, 3)
    } else {
        x3
    };
    if k <= 4 {
        gather(x4, 4)
    } else {
        x4
    }
}

/// Compaction keeps the order of the counters and the low bits of each.
pub proof fn lemma_compact(word: u64, k: u64, i: u64)
    requires
        k < 6,
        i < lane_count((k + 1) as u64),
    ensures
        lane(compact(word, k), k, i) == lane(word, (k + 1) as u64, i) & lane_max(k),
        compact(word, k) <= 0xffff_ffff,
{
    assert(lane(compact(word, k), k, i) == lane(word, (k + 1) as u64, i) & lane_max(k) && compact(
        word,
        k,
    ) <= 0xffff_ffff) by (bit_vector)
        requires
            k < 6,
            i < lane_count((k + 1) as u64),
    ;
}

/// Two compacted words side by side: the counters of `lo`, then those of `hi`.
pub proof fn lemma_join(lo: u64, hi: u64, k: u64, i: u64)
    requires
        k < 6,
        lo <= 0xffff_ffff,
        hi <= 0xffff_ffff,
        i < lane_count(k),
    ensures
        lane(lo | (hi << 32), k, i) == if i < lane_count((k + 1) as u64) {
            lane(lo, k, i)
        } else {
            lane(hi, k, (i - lane_count((k + 1) as u64)) as u64)
        },
        lane_count(k) == 2 * lane_count((k + 1) as u64),
{
    assert(lane(lo | (hi << 32), k, i) == (if i < lane_count((k + 1) as u64) {
        lane(lo, k, i)
    } else {
        lane(hi, k, (i - lane_count((k + 1) as u64)) as u64)
    })) by (bit_vector)
        requires
            k < 6,
            lo <= 0xffff_ffff,
            hi <= 0xffff_ffff,
            i < lane_count(k),
    ;
}

/// A value that fits is its own low part.
pub proof fn lemma_low_part(v: u64, k: u64)
    requires
        k <= 6,
        v <= lane_max(k),
    ensures
        v & lane_max(k) == v,
{
    assert(v & lane_max(k) == v) by (bit_vector)
        requires
            k <= 6,
            v <= lane_max(k),
    ;
}

/// The even counters of two words added in fields of twice the width.
pub open spec fn even_sums(a: u64, b: u64, k: u64) -> u64 {
    ((a & even_mask(k)) + (b & even_mask(k))) as u64
}

/// The odd counters of two words, likewise.
pub open spec fn odd_sums(a: u64, b: u64, k: u64) -> u64 {
    (((a >> (1u64 << k)) & even_mask(k)) + ((b >> (1u64 << k)) & even_mask(k))) as u64
}

/// Field sums never leave their fields.
pub proof fn lemma_field_sums(a: u64, b: u64, k: u64)
    requires
        k < 6,
    ensures
        (a & even_mask(k)) + (b & even_mask(k)) <= u64::MAX,
        ((a >> (1u64 << k)) & even_mask(k)) + ((b >> (1u64 << k)) & even_mask(k)) <= u64::MAX,
        (1u64 << k) < 64,
{
    assert((a & even_mask(k)) + (b & even_mask(k)) <= 0xffff_ffff_ffff_ffff && ((a >> (1u64 << k))
        & even_mask(k)) + ((b >> (1u64 << k)) & even_mask(k)) <= 0xffff_ffff_ffff_ffff && (1u64 << k)
        < 64) by (bit_vector)
        requires
            k < 6,
    ;
}

/// When no field sum exceeds a counter, the recombined word holds the sums of all counters.
pub proof fn lemma_sums_fit(a: u64, b: u64, k: u64, i: u64)
    requires
        k < 6,
        i < lane_count(k),
        even_sums(a, b, k) & !even_mask(k) == 0,
        odd_sums(a, b, k) & !even_mask(k) == 0,
    ensures
        lane(even_sums(a, b, k) | (odd_sums(a, b, k) << (1u64 << k)), k, i) == lane(a, k, i) + lane(
            b,
            k,
            i,
        ),
{
    assert(lane(even_sums(a, b, k) | (odd_sums(a, b, k) << (1u64 << k)), k, i) == lane(a, k, i)
        + lane(b, k, i)) by (bit_vector)
        requires
            k < 6,
            i < lane_count(k),
            even_sums(a, b, k) & !even_mask(k) == 0,
            odd_sums(a, b, k) & !even_mask(k) == 0,
    ;
}

/// When every sum of two counters fits, no field sum exceeds a counter.
pub proof fn lemma_sums_overflow(a: u64, b: u64, k: u64)
    requires
        k < 6,
        forall|i: u64|
            i < lane_count(k) ==> #[trigger] lane(a, k, i) + lane(b, k, i) <= lane_max(k),
    ensures
        even_sums(a, b, k) & !even_mask(k) == 0,
        odd_sums(a, b, k) & !even_mask(k) == 0,
{
    let e = even_sums(a, b, k) & !even_mask(k);
    if e != 0 {
        vstd::std_specs::bits::axiom_u64_trailing_zeros(e);
        let t = vstd::std_specs::bits::u64_trailing_zeros(e) as u64;
        let i = ((t >> ((k + 1) as u64)) * 2) as u64;
        assert(i < lane_count(k) && lane(a, k, i) + lane(b, k, i) > lane_max(k)) by (bit_vector)
            requires
                k < 6,
                t < 64,
                i == ((t >> ((k + 1) as u64)) * 2) as u64,
                ((even_sums(a, b, k) & !even_mask(k)) >> t) & 1 == 1,
        ;
        assert(lane(a, k, i) + lane(b, k, i) <= lane_max(k));
    }
    let o = odd_sums(a, b, k) & !even_mask(k);
    if o != 0 {
        vstd::std_specs::bits::axiom_u64_trailing_zeros(o);
        let t = vstd::std_specs::bits::u64_trailing_zeros(o) as u64;
        let i = ((t >> ((k + 1) as u64)) * 2 + 1) as u64;
        assert(i < lane_count(k) && lane(a, k, i) + lane(b, k, i) > lane_max(k)) by (bit_vector)
            requires
                k < 6,
                t < 64,
                i == ((t >> ((k + 1) as u64)) * 2 + 1) as u64,
                ((odd_sums(a, b, k) & !even_mask(k)) >> t) & 1 == 1,
        ;
        assert(lane(a, k, i) + lane(b, k, i) <= lane_max(k));
    }
}

/// The upper halves of all fields are clear exactly when every field holds a value of half the
/// width.
pub proof fn lemma_upper_halves(word: u64, k: u64)
    requires
        k < 6,
    ensures
        word & !even_mask(k) == 0 <==> forall|i: u64|
            i < lane_count((k + 1) as u64) ==> #[trigger] lane(word, (k + 1) as u64, i) <= lane_max(k),
{
    let e = word & !even_mask(k);
    if e != 0 {
        vstd::std_specs::bits::axiom_u64_trailing_zeros(e);
        let t = vstd::std_specs::bits::u64_trailing_zeros(e) as u64;
        let i = t >> ((k + 1) as u64);
        assert(i < lane_count((k + 1) as u64) && lane(word, (k + 1) as u64, i) > lane_max(k))
            by (bit_vector)
            requires
                k < 6,
                t < 64,
                i == t >> ((k + 1) as u64),
                ((word & !even_mask(k)) >> t) & 1 == 1,
        ;
        assert(!(lane(word, (k + 1) as u64, i) <= lane_max(k)));
    } else {
        assert forall|i: u64| i < lane_count((k + 1) as u64) implies #[trigger] lane(
            word,
            (k + 1) as u64,
            i,
        ) <= lane_max(k) by {
            assert(lane(word, (k + 1) as u64, i) <= lane_max(k)) by (bit_vector)
                requires
                    k < 6,
                    i < lane_count((k + 1) as u64),
                    word & !even_mask(k) == 0,
            ;
        }
    }
}

/// `word` with its counters moved up by one place; the top counter of `below` enters at the low
/// end.
pub open spec fn shifted_up(word: u64, below: u64, k: u64) -> u64 {
    (word << (1u64 << k)) | (below >> ((64 - (1u64 << k)) as u64))
}

/// Bits of a counter narrower than a word.
pub proof fn lemma_shift_bits(k: u64)
    requires
        k < 6,
    ensures
        0 < (1u64 << k) <= 32,
{
    assert(0 < (1u64 << k) <= 32) by (bit_vector)
        requires
            k < 6,
    ;
}

/// Nothing enters from an empty word.
pub proof fn lemma_shift_none(word: u64, k: u64)
    requires
        k < 6,
    ensures
        shifted_up(word, 0, k) == word << (1u64 << k),
{
    assert(shifted_up(word, 0, k) == word << (1u64 << k)) by (bit_vector)
        requires
            k < 6,
    ;
}

/// The counters after a move by one place.
pub proof fn lemma_shifted_up(word: u64, below: u64, k: u64, i: u64)
    requires
        k < 6,
        i < lane_count(k),
    ensures
        lane(shifted_up(word, below, k), k, i) == if i == 0 {
            lane(below, k, (lane_count(k) - 1) as u64)
        } else {
            lane(word, k, (i - 1) as u64)
        },
{
    assert(lane(shifted_up(word, below, k), k, i) == if i == 0 {
        lane(below, k, (lane_count(k) - 1) as u64)
    } else {
        lane(word, k, (i - 1) as u64)
    }) by (bit_vector)
        requires
            k < 6,
            i < lane_count(k),
    ;
}

} // verus!
