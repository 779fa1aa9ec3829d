//! Counter width of a histogram that may start with literal values.

use crate::width::{capacity, first_slot, level_for, lanes, word_of, Width};
use vstd::arithmetic::power2::pow2;
use vstd::prelude::*;

verus! {

/// The current width of bucket counters, in bits.
///
/// Counters widen through the chain 1, 2, 4, 8, 16, 32, 64 bits. The variant `B0` stands for
/// literal mode, where the data pool holds raw values in place of counters.
#[derive(Debug, Clone, Copy, PartialEq, Eq, PartialOrd, Ord, Structural)]
pub enum BucketWidth {
    /// Literal mode: the pool holds raw values, not counters.
    B0,
    /// 1-bit counters: a presence bitmap.
    B1,
    /// 2-bit counters, at most 3 per bucket.
    B2,
    /// 4-bit counters, at most 15 per bucket.
    B4,
    /// 1-byte counters, at most 255 per bucket.
    U8,
    /// 2-byte counters, at most 65,535 per bucket.
    U16,
    /// 4-byte counters.
    U32,
    /// 8-byte counters.
    U64,
}

impl BucketWidth {
    /// The counter width of a mode with counters.
    pub open spec fn counter(self) -> Width {
        match self {
            BucketWidth::B0 => Width::B1,
            BucketWidth::B1 => Width::B1,
            BucketWidth::B2 => Width::B2,
            BucketWidth::B4 => Width::B4,
            BucketWidth::U8 => Width::U8,
            BucketWidth::U16 => Width::U16,
            BucketWidth::U32 => Width::U32,
            BucketWidth::U64 => Width::U64,
        }
    }

    /// Returns true if this is literal mode.
    pub fn is_literal(self) -> (r: bool)
        ensures
            r <==> self is B0,
    {
        matches!(self, BucketWidth::B0)
    }

    /// The counter width; that of 1-bit counters in literal mode.
    pub fn width(self) -> (r: Width)
        ensures
            r == self.counter(),
    {
        match self {
            BucketWidth::B0 => Width::B1,
            BucketWidth::B1 => Width::B1,
            BucketWidth::B2 => Width::B2,
            BucketWidth::B4 => Width::B4,
            BucketWidth::U8 => Width::U8,
            BucketWidth::U16 => Width::U16,
            BucketWidth::U32 => Width::U32,
            BucketWidth::U64 => Width::U64,
        }
    }

    /// The mode with counters of the given width.
    pub fn from_width(width: Width) -> (r: Self)
        ensures
            r !is B0,
            r.counter() == width,
    {
        match width {
            Width::B1 => BucketWidth::B1,
            Width::B2 => BucketWidth::B2,
            Width::B4 => BucketWidth::B4,
            Width::U8 => BucketWidth::U8,
            Width::U16 => BucketWidth::U16,
            Width::U32 => BucketWidth::U32,
            Width::U64 => BucketWidth::U64,
        }
    }

    /// Returns the bit width of one counter.
    pub fn bits(self) -> (r: usize)
        requires
            self !is B0,
        ensures
            r == pow2(self.counter().level()),
            1 <= r <= 64,
            r * lanes(self.counter().level()) == 64,
    {
        proof {
            vstd::arithmetic::power2::lemma2_to64();
        }
        self.width().bits_per_slot()
    }

    /// Returns the ordinal level, 0 for 1-bit to 6 for 64-bit counters.
    pub fn level(self) -> (r: usize)
        requires
            self !is B0,
        ensures
            r == self.counter().level(),
    {
        self.width().log2()
    }

    /// Returns the number of buckets that fit in `word_count` words.
    pub fn capacity(self, word_count: usize) -> (r: usize)
        requires
            self !is B0,
            word_count * lanes(self.counter().level()) <= usize::MAX,
        ensures
            r == word_count * lanes(self.counter().level()),
    {
        word_count * self.width().slots_per_u64()
    }

    /// Returns the number of counters per word.
    pub fn slots_per_word(self) -> (r: usize)
        requires
            self !is B0,
        ensures
            r == lanes(self.counter().level()),
    {
        self.width().slots_per_u64()
    }

    /// Rounds a bucket index down to the first bucket in its word.
    pub fn word_start(self, index: i32) -> (r: i32)
        requires
            self !is B0,
        ensures
            r == first_slot(
                word_of(index as int, self.counter().level()),
                self.counter().level(),
            ),
    {
        self.width().slot_start_u64(index)
    }

    /// Returns the next wider counter width, or `None` at 64 bits. Literal mode widens to 1-bit
    /// counters.
    pub fn wider(self) -> (r: Option<BucketWidth>)
        ensures
            r.is_none() <==> self is U64,
            r.is_some() ==> r.unwrap() !is B0,
            self is B0 ==> r == Some(BucketWidth::B1),
            self !is B0 && self !is U64 ==> r.unwrap().counter().level() == self.counter().level()
                + 1,
    {
        if self.is_literal() {
            return Some(BucketWidth::B1);
        }
        self.widen_by(1)
    }

    /// Returns the counter width `steps` wider, or `None` past 64 bits.
    pub fn widen_by(self, steps: u32) -> (r: Option<BucketWidth>)
        requires
            self !is B0,
        ensures
            r.is_some() <==> self.counter().level() + steps <= 6,
            r.is_some() ==> r.unwrap() !is B0 && r.unwrap().counter().level()
                == self.counter().level() + steps,
    {
        match self.width().wider_by(steps) {
            Some(w) => Some(BucketWidth::from_width(w)),
            None => None,
        }
    }

    /// Returns the maximum value of one counter at this width.
    pub fn counter_max(self) -> (r: u64)
        requires
            self !is B0,
        ensures
            r == capacity(self.counter().level()),
    {
        self.width().counter_max()
    }

    /// Returns the narrowest width whose counters hold `value`, or `None` for 0, which needs no
    /// counter.
    pub fn from_max_value(value: u64) -> (r: Option<Self>)
        ensures
            r.is_none() <==> value == 0,
            r.is_some() ==> r.unwrap() !is B0 && r.unwrap().counter().level() == level_for(
                value as nat,
            ),
    {
        if value == 0 {
            None
        } else {
            Some(BucketWidth::from_width(Width::from_max_value(value)))
        }
    }
}

} // verus!
