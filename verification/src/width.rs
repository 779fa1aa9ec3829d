//! Counter widths and the address of a counter inside packed words.

use crate::arith::{lemma_div_parts, lemma_div_unique, shr};
use crate::lane::{lane, lane_count, lane_max, with_lane};
use vstd::arithmetic::power2::{lemma2_to64, lemma_pow2_adds, pow2};
use vstd::prelude::*;

verus! {

/// The current width of bucket counters, in bits.
///
/// Counters start at 1 bit, which gives the most buckets per word, and widen through
/// the chain 1, 2, 4, 8, 16, 32, 64 bits.
#[derive(Debug, Clone, Copy, PartialEq, Eq, PartialOrd, Ord, Structural)]
pub enum Width {
    /// 1-bit counters: a presence bitmap.
    B1,
    /// 2-bit counters, at most 3 per bucket.
    B2,
    /// 4-bit counters, at most 15 per bucket.
    B4,
    /// 1-byte counters, at most 255 per bucket.
    U8,
    /// 2-byte counters, at most 65,535 per bucket.
    U16,
    /// 4-byte counters.
    U32,
    /// 8-byte counters.
    U64,
}

/// Largest count that a counter of `2^k` bits holds.
pub open spec fn capacity(k: nat) -> nat {
    lane_max(k as u64) as nat
}

/// Number of counters of `2^k` bits in one word.
pub open spec fn lanes(k: nat) -> int {
    lane_count(k as u64) as int
}

/// Word that holds bucket `slot` when counters have `2^k` bits.
pub open spec fn word_of(slot: int, k: nat) -> int {
    slot / lanes(k)
}

/// First bucket of word `word` when counters have `2^k` bits.
pub open spec fn first_slot(word: int, k: nat) -> int {
    word * lanes(k)
}

/// Bucket indices stay inside this range at every supported scale.
pub open spec fn in_range(slot: int) -> bool {
    -0x10_0000 <= slot < 0x10_0000
}

/// Width needed to count to `value`, as a level: the least `k` with `value <= capacity(k)`.
pub open spec fn level_for(value: nat) -> nat {
    if value <= capacity(0) {
        0
    } else if value <= capacity(1) {
        1
    } else if value <= capacity(2) {
        2
    } else if value <= capacity(3) {
        3
    } else if value <= capacity(4) {
        4
    } else if value <= capacity(5) {
        5
    } else {
        6
    }
}

/// Wider counters hold at least as much.
pub proof fn lemma_capacity_mono(j: nat, k: nat)
    requires
        j <= k <= 6,
    ensures
        capacity(j) <= capacity(k),
        1 <= capacity(j),
{
}

/// `level_for` is the least level whose capacity covers the value.
pub proof fn lemma_level_for(value: nat, k: nat)
    requires
        value <= u64::MAX,
        k <= 6,
    ensures
        level_for(value) <= 6,
        value <= capacity(level_for(value)),
        value <= capacity(k) <==> level_for(value) <= k,
{
}

/// `lanes` as a power of two.
pub proof fn lemma_lanes(k: nat)
    requires
        k <= 6,
    ensures
        lanes(k) == pow2((6 - k) as nat),
        1 <= lanes(k) <= 64,
        k < 6 ==> lanes(k) == 2 * lanes(k + 1),
{
    lemma2_to64();
}

/// The word of a bucket, and the bucket's place in the word.
pub proof fn lemma_word_of(slot: int, k: nat)
    requires
        k <= 6,
    ensures
        first_slot(word_of(slot, k), k) <= slot < first_slot(word_of(slot, k) + 1, k),
        slot == first_slot(word_of(slot, k), k) + slot % lanes(k),
        0 <= slot % lanes(k) < lanes(k),
        first_slot(word_of(slot, k) + 1, k) == first_slot(word_of(slot, k), k) + lanes(k),
{
    lemma_lanes(k);
    lemma_div_parts(slot, lanes(k));
    let w = word_of(slot, k);
    assert((w + 1) * lanes(k) == w * lanes(k) + lanes(k)) by (nonlinear_arith);
}

/// Words do not reach past the ends of the index type.
pub proof fn lemma_word_ends(index: i32, k: nat)
    requires
        k <= 6,
    ensures
        i32::MIN <= first_slot(word_of(index as int, k), k),
        first_slot(word_of(index as int, k) + 1, k) - 1 <= i32::MAX,
{
    lemma_lanes(k);
    lemma2_to64();
    let n = lanes(k);
    let m = pow2((25 + k) as nat) as int;
    lemma_pow2_adds((25 + k) as nat, (6 - k) as nat);
    assert(m * n == 0x8000_0000);
    lemma_word_of(index as int, k);
    let w = word_of(index as int, k);
    assert(-m <= w < m) by (nonlinear_arith)
        requires
            m * n == 0x8000_0000,
            n >= 1,
            w * n <= index < (w + 1) * n,
            -0x8000_0000 <= index < 0x8000_0000,
    ;
    assert(-(m * n) <= w * n && (w + 1) * n <= m * n) by (nonlinear_arith)
        requires
            -m <= w < m,
            n >= 1,
    ;
}

/// The words partition the buckets: a word has as many buckets as counters, from a multiple of
/// that number on, and each of them has that word.
pub proof fn law_words_partition(i: int, j: int, k: nat)
    requires
        k <= 6,
    ensures
        first_slot(word_of(i, k), k) <= i < first_slot(word_of(i, k) + 1, k),
        first_slot(word_of(i, k) + 1, k) - first_slot(word_of(i, k), k) == lanes(k),
        first_slot(word_of(i, k), k) % lanes(k) == 0,
        first_slot(word_of(i, k), k) <= j < first_slot(word_of(i, k) + 1, k) <==> word_of(j, k)
            == word_of(i, k),
{
    lemma_lanes(k);
    lemma_word_of(i, k);
    lemma_word_bracket(j, word_of(i, k), k);
    lemma_div_unique(first_slot(word_of(i, k), k), lanes(k), word_of(i, k), 0);
}

/// A bucket lies in word `word` exactly when it lies between that word's first bucket and the
/// next word's.
pub proof fn lemma_word_bracket(slot: int, word: int, k: nat)
    requires
        k <= 6,
    ensures
        word_of(slot, k) >= word <==> slot >= first_slot(word, k),
        word_of(slot, k) <= word <==> slot < first_slot(word + 1, k),
        word_of(slot, k) == word <==> first_slot(word, k) <= slot < first_slot(word + 1, k),
        word_of(first_slot(word, k), k) == word,
{
    lemma_lanes(k);
    lemma_word_of(slot, k);
    let d = lanes(k);
    let q = word_of(slot, k);
    assert(q >= word ==> q * d >= word * d) by (nonlinear_arith)
        requires
            d > 0,
    ;
    assert(q < word ==> (q + 1) * d <= word * d) by (nonlinear_arith)
        requires
            d > 0,
    ;
    assert(q <= word ==> (q + 1) * d <= (word + 1) * d) by (nonlinear_arith)
        requires
            d > 0,
    ;
    assert(q > word ==> q * d >= (word + 1) * d) by (nonlinear_arith)
        requires
            d > 0,
    ;
    lemma_div_unique(word * d, d, word, 0);
}

/// `first_slot` is monotone.
pub proof fn lemma_first_slot_mono(a: int, b: int, k: nat)
    requires
        k <= 6,
        a <= b,
    ensures
        first_slot(a, k) <= first_slot(b, k),
{
    lemma_lanes(k);
    let d = lanes(k);
    assert(a * d <= b * d) by (nonlinear_arith)
        requires
            d > 0,
            a <= b,
    ;
}

/// Bounds on the word of a bucket in range.
pub proof fn lemma_word_range(slot: int, k: nat)
    requires
        k <= 6,
        in_range(slot),
    ensures
        -0x10_0000 <= word_of(slot, k) < 0x10_0000,
{
    lemma_lanes(k);
    lemma_word_of(slot, k);
    let d = lanes(k);
    let q = word_of(slot, k);
    assert(-0x10_0000 <= q < 0x10_0000) by (nonlinear_arith)
        requires
            1 <= d,
            q * d <= slot < (q + 1) * d,
            -0x10_0000 <= slot < 0x10_0000,
    ;
}

impl Width {
    /// The logarithm of the number of bits.
    pub open spec fn level(self) -> nat {
        match self {
            Width::B1 => 0,
            Width::B2 => 1,
            Width::B4 => 2,
            Width::U8 => 3,
            Width::U16 => 4,
            Width::U32 => 5,
            Width::U64 => 6,
        }
    }

    /// Returns the log2 of bits.
    pub fn log2(self) -> (r: usize)
        ensures
            r == self.level(),
            r <= 6,
    {
        match self {
            Width::B1 => 0,
            Width::B2 => 1,
            Width::B4 => 2,
            Width::U8 => 3,
            Width::U16 => 4,
            Width::U32 => 5,
            Width::U64 => 6,
        }
    }

    /// The width with `2^level` bits per counter.
    pub fn from_level(level: usize) -> (r: Width)
        requires
            level <= 6,
        ensures
            r.level() == level,
    {
        match level {
            0 => Width::B1,
            1 => Width::B2,
            2 => Width::B4,
            3 => Width::U8,
            4 => Width::U16,
            5 => Width::U32,
            _ => Width::U64,
        }
    }

    /// Number of widening steps that are possible inside a word.
    pub fn to_u64_widen_by(self) -> (r: u32)
        ensures
            r == 6 - self.level(),
            r <= 6,
    {
        6 - self.log2() as u32
    }

    /// Number of bits in one counter.
    pub fn bits_per_slot(self) -> (r: usize)
        ensures
            r == pow2(self.level()),
            r * self.slots() == 64,
    {
        proof {
            lemma2_to64();
        }
        match self {
            Width::B1 => 1,
            Width::B2 => 2,
            Width::B4 => 4,
            Width::U8 => 8,
            Width::U16 => 16,
            Width::U32 => 32,
            Width::U64 => 64,
        }
    }

    /// Counters per word, as a mathematical integer.
    pub open spec fn slots(self) -> int {
        lanes(self.level())
    }

    /// Number of counters per u64.
    pub fn slots_per_u64(self) -> (r: usize)
        ensures
            r == self.slots(),
            1 <= r <= 64,
    {
        match self {
            Width::B1 => 64,
            Width::B2 => 32,
            Width::B4 => 16,
            Width::U8 => 8,
            Width::U16 => 4,
            Width::U32 => 2,
            Width::U64 => 1,
        }
    }

    /// Largest place of a counter inside its word.
    pub fn slot_mask_u64(self) -> (r: i32)
        ensures
            r == self.slots() - 1,
    {
        self.slots_per_u64() as i32 - 1
    }

    /// Word index of a bucket.
    pub fn slot_to_word_index(self, index: i32) -> (r: i32)
        ensures
            r == word_of(index as int, self.level()),
    {
        proof {
            lemma_lanes(self.level());
        }
        shr(index, self.to_u64_widen_by())
    }

    /// First bucket of a word.
    pub fn word_to_slot_index(self, word: i32) -> (r: i32)
        requires
            i32::MIN <= first_slot(word as int, self.level()) <= i32::MAX,
        ensures
            r == first_slot(word as int, self.level()),
    {
        word * self.slots_per_u64() as i32
    }

    /// Rounds a bucket index down to the first bucket in its word.
    pub fn slot_start_u64(self, index: i32) -> (r: i32)
        ensures
            r == first_slot(word_of(index as int, self.level()), self.level()),
    {
        let addr = self.slot_addr(index);
        proof {
            lemma_word_of(index as int, self.level());
            lemma_word_ends(index, self.level());
        }
        index - addr.lane as i32
    }

    /// Rounds a bucket index up to the last bucket in its word.
    pub fn slot_end_u64(self, index: i32) -> (r: i32)
        ensures
            r == first_slot(word_of(index as int, self.level()) + 1, self.level()) - 1,
    {
        proof {
            lemma_word_of(index as int, self.level());
            lemma_word_ends(index, self.level());
        }
        self.slot_start_u64(index) + self.slot_mask_u64()
    }

    /// The width `change` steps wider, or `None` past 64 bits.
    pub fn wider_by(self, change: u32) -> (r: Option<Width>)
        ensures
            r.is_some() <==> self.level() + change <= 6,
            r.is_some() ==> r.unwrap().level() == self.level() + change,
    {
        if change > self.to_u64_widen_by() {
            None
        } else {
            Some(Width::from_level(self.log2() + change as usize))
        }
    }

    /// Number of steps from `narrower` up to this width; 0 when it is not wider.
    pub fn subtract(self, narrower: Width) -> (r: u32)
        ensures
            r == if self.level() >= narrower.level() {
                self.level() - narrower.level()
            } else {
                0
            },
    {
        let a = self.log2();
        let b = narrower.log2();
        if a >= b {
            (a - b) as u32
        } else {
            0
        }
    }

    /// The wider of two widths.
    pub fn wider_of(self, other: Width) -> (r: Width)
        ensures
            r.level() == if self.level() >= other.level() {
                self.level()
            } else {
                other.level()
            },
            r == self || r == other,
    {
        if self.log2() >= other.log2() {
            self
        } else {
            other
        }
    }

    /// The maximum value of one counter at this width.
    pub fn counter_max(self) -> (r: u64)
        ensures
            r == capacity(self.level()),
    {
        match self {
            Width::B1 => 0x1,
            Width::B2 => 0x3,
            Width::B4 => 0xf,
            Width::U8 => 0xff,
            Width::U16 => 0xffff,
            Width::U32 => 0xffff_ffff,
            Width::U64 => 0xffff_ffff_ffff_ffff,
        }
    }

    /// The narrowest width whose counters hold `value`.
    pub fn from_max_value(value: u64) -> (r: Self)
        ensures
            r.level() == level_for(value as nat),
    {
        if value <= 0x1 {
            Width::B1
        } else if value <= 0x3 {
            Width::B2
        } else if value <= 0xf {
            Width::B4
        } else if value <= 0xff {
            Width::U8
        } else if value <= 0xffff {
            Width::U16
        } else if value <= 0xffff_ffff {
            Width::U32
        } else {
            Width::U64
        }
    }

    /// The address of a bucket at this width.
    pub fn slot_addr(self, slot: i32) -> (r: SlotAddr)
        ensures
            r.width == self,
            r.word == word_of(slot as int, self.level()),
            r.lane == slot as int % lanes(self.level()),
            r.lane < lanes(self.level()),
    {
        let word = self.slot_to_word_index(slot);
        proof {
            lemma_lanes(self.level());
            lemma_word_of(slot as int, self.level());
        }
        let n: i64 = self.slots_per_u64() as i64;
        proof {
            assert(-0x80_0000_0000 <= word as int * n as int <= 0x80_0000_0000) by (nonlinear_arith)
                requires
                    1 <= n <= 64,
                    i32::MIN <= word <= i32::MAX,
            ;
        }
        let lane: i64 = slot as i64 - word as i64 * n;
        SlotAddr { width: self, word, lane: lane as u32 }
    }
}

/// Where a bucket's counter stands: a word index and a place inside the word.
#[derive(Debug, Clone, Copy)]
pub struct SlotAddr {
    /// Counter width that the address is for.
    pub width: Width,
    /// Index of the word.
    pub word: i32,
    /// Place of the counter inside the word, from the low end.
    pub lane: u32,
}

impl SlotAddr {
    /// Index of the word that holds the counter.
    pub fn word_index(&self) -> (r: i32)
        ensures
            r == self.word,
    {
        self.word
    }

    /// Position in a ring of `n` words whose position 0 holds word `base`.
    pub fn data_index(&self, n: usize, base: i32) -> (r: usize)
        requires
            0 < n,
        ensures
            r == (self.word - base) % (n as int),
            r < n,
    {
        ring_index(self.word, n, base)
    }

    /// Reads the counter out of its word.
    pub fn retrieve_counter(&self, word: u64) -> (r: u64)
        requires
            self.lane < lanes(self.width.level()),
        ensures
            r == lane(word, self.width.level() as u64, self.lane as u64),
            r <= capacity(self.width.level()),
    {
        let k: u64 = self.width.log2() as u64;
        let i: u64 = self.lane as u64;
        let shift: u64 = i << k;
        proof {
            crate::lane::lemma_lane_bound(word, k, i);
            crate::lane::lemma_lane_shift(k, i);
        }
        (word >> shift) & self.width.counter_max()
    }

    /// `word` with the counter replaced by `count`.
    pub fn update_counter_in_word(&self, word: u64, count: u64) -> (r: u64)
        requires
            self.lane < lanes(self.width.level()),
            count <= capacity(self.width.level()),
        ensures
            r == with_lane(word, self.width.level() as u64, self.lane as u64, count),
    {
        let k: u64 = self.width.log2() as u64;
        let i: u64 = self.lane as u64;
        let shift: u64 = i << k;
        proof {
            crate::lane::lemma_lane_shift(k, i);
        }
        (word & !(self.width.counter_max() << shift)) | (count << shift)
    }
}

/// Position of word `word` in a ring of `n` words whose position 0 holds word `base`.
pub fn ring_index(word: i32, n: usize, base: i32) -> (r: usize)
    requires
        0 < n,
    ensures
        r == (word - base) % (n as int),
        r < n,
{
    let d: i64 = word as i64 - base as i64;
    let m: u64 = n as u64;
    if d >= 0 {
        (d as u64 % m) as usize
    } else {
        let e: u64 = (-(d + 1)) as u64 % m;
        proof {
            let q = (-(d + 1)) as int / (m as int);
            lemma_div_parts((-(d + 1)) as int, m as int);
            assert(d as int == (-q - 1) * (m as int) + (m - 1 - e)) by (nonlinear_arith)
                requires
                    -(d as int) - 1 == q * (m as int) + e as int,
            ;
            lemma_div_unique(d as int, m as int, -q - 1, m - 1 - e);
        }
        (m - 1 - e) as usize
    }
}

} // verus!
