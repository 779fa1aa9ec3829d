//! A window of packed counters over a fixed pool of words.
//!
//! The pool is a ring: word `w` of the window stands at position `(w - base) mod N`. The window
//! covers the words `start..=end`, at most `N` of them, and every other word of the pool is zero.

use crate::arith::lemma_mod_injective;
use crate::counts::{no_counts, plus, within, Counts};
use crate::lane::{lane, lemma_lane_bound, lemma_with_lane};
use crate::width::{
    capacity, first_slot, lanes, lemma_first_slot_mono, lemma_lanes, lemma_word_bracket,
    lemma_word_of, word_of, Width,
};
use vstd::prelude::*;

verus! {

/// Every bucket of a window has an index in `-reach()..reach()`.
pub open spec fn reach() -> int {
    0x20_0000
}

/// Packed counters for the buckets of the words `start..=end`.
#[derive(Debug, Clone, Copy)]
pub struct Window<const N: usize> {
    /// Width of the counters.
    pub width: Width,
    /// Word at position 0 of the ring.
    pub base: i32,
    /// First word of the window.
    pub start: i32,
    /// Last word of the window.
    pub end: i32,
    /// The ring of words.
    pub data: [u64; N],
}

/// The word at ring position `(w - base) mod n`.
pub open spec fn ring(data: Seq<u64>, base: int, w: int) -> u64 {
    data[(w - base) % (data.len() as int)]
}

impl<const N: usize> Window<N> {
    /// The word `w` of the ring.
    pub open spec fn at(self, w: int) -> u64 {
        ring(self.data@, self.base as int, w)
    }

    /// Word `w` belongs to the window.
    pub open spec fn covers(self, w: int) -> bool {
        self.start <= w <= self.end
    }

    /// The count of one bucket.
    pub open spec fn count(self, slot: int) -> nat {
        let k = self.width.level();
        if self.covers(word_of(slot, k)) {
            lane(self.at(word_of(slot, k)), k as u64, (slot % lanes(k)) as u64) as nat
        } else {
            0
        }
    }

    /// The counts of all buckets.
    pub open spec fn counts(self) -> Counts {
        |slot: int| self.count(slot)
    }

    /// First bucket of the window.
    pub open spec fn low(self) -> int {
        first_slot(self.start as int, self.width.level())
    }

    /// Bucket just above the window.
    pub open spec fn high(self) -> int {
        first_slot(self.end + 1, self.width.level())
    }

    /// The window is valid: it fits the pool, its buckets are in reach, and the words outside
    /// it are zero.
    pub open spec fn wf(self) -> bool {
        &&& 1 <= N <= 250
        &&& self.data@.len() == N
        &&& -reach() <= self.start <= self.end < reach()
        &&& -reach() <= self.base <= reach()
        &&& self.end - self.start < N
        &&& -reach() <= self.low()
        &&& self.high() <= reach()
        &&& forall|w: int|
            #![trigger self.at(w)]
            self.end - N < w < self.start + N && !self.covers(w) ==> self.at(w) == 0
    }

    /// Every bucket with a count lies inside the window, and holds at most the counter maximum.
    pub proof fn lemma_support(self)
        requires
            self.wf(),
        ensures
            within(self.counts(), self.low(), self.high()),
            within(self.counts(), -reach(), reach()),
            forall|s: int| #[trigger] self.counts()(s) <= capacity(self.width.level()),
            self.low() < self.high(),
    {
        let k = self.width.level();
        assert forall|s: int| #[trigger] self.counts()(s) != 0 implies self.low() <= s < self.high() by {
            lemma_word_bracket(s, self.start as int, k);
            lemma_word_bracket(s, self.end as int, k);
        }
        assert forall|s: int| #[trigger] self.counts()(s) <= capacity(k) by {
            lemma_lane_bound(self.at(word_of(s, k)), k as u64, (s % lanes(k)) as u64);
        }
        lemma_first_slot_mono(self.start + 1, self.end + 1, k);
        lemma_word_of(self.low(), k);
        lemma_word_bracket(self.low(), self.start as int, k);
    }

    /// The buckets inside the window are those of its words.
    pub proof fn lemma_covers(self, slot: int)
        requires
            self.wf(),
        ensures
            self.covers(word_of(slot, self.width.level())) <==> self.low() <= slot < self.high(),
    {
        lemma_word_bracket(slot, self.start as int, self.width.level());
        lemma_word_bracket(slot, self.end as int, self.width.level());
    }

    /// An empty window of the given counter width.
    pub fn new(width: Width) -> (r: Self)
        requires
            1 <= N <= 250,
        ensures
            r.wf(),
            r.width == width,
            r.base == 0,
            r.start == 0,
            r.end == 0,
            r.counts() == no_counts(),
    {
        Self::spanning(width, 0, 0)
    }

    /// An empty window over the words `start..=end`.
    pub fn spanning(width: Width, start: i32, end: i32) -> (r: Self)
        requires
            1 <= N <= 250,
            -reach() <= start <= end < reach(),
            end - start < N,
            -reach() <= first_slot(start as int, width.level()),
            first_slot(end + 1, width.level()) <= reach(),
        ensures
            r.wf(),
            r.width == width,
            r.base == start,
            r.start == start,
            r.end == end,
            r.counts() == no_counts(),
    {
        Self::anchored(width, start, start, end)
    }

    /// An empty window over the words `start..=end`, with word `base` at position 0 of the ring.
    pub fn anchored(width: Width, base: i32, start: i32, end: i32) -> (r: Self)
        requires
            1 <= N <= 250,
            -reach() <= base <= reach(),
            -reach() <= start <= end < reach(),
            end - start < N,
            -reach() <= first_slot(start as int, width.level()),
            first_slot(end + 1, width.level()) <= reach(),
        ensures
            r.wf(),
            r.width == width,
            r.base == base,
            r.start == start,
            r.end == end,
            r.counts() == no_counts(),
    {
        let r = Window { width, base, start, end, data: [0u64;N] };
        proof {
            r.lemma_blank();
        }
        r
    }

    /// A window whose words are all zero counts nothing.
    pub proof fn lemma_blank(self)
        requires
            1 <= N,
            forall|i: int| 0 <= i < N ==> #[trigger] self.data@[i] == 0,
        ensures
            self.counts() == no_counts(),
    {
        let k = self.width.level();
        lemma_lanes(k);
        assert forall|w: int| #[trigger] self.at(w) == 0 by {
            assert(0 <= (w - self.base) % (N as int) < N);
        }
        assert forall|s: int| #[trigger] self.counts()(s) == 0 by {
            lemma_lane_bound(0, k as u64, (s % lanes(k)) as u64);
        }
        assert(self.counts() =~= no_counts());
    }

    /// First bucket of the window.
    pub fn low_slot(&self) -> (r: i32)
        requires
            self.wf(),
        ensures
            r == self.low(),
    {
        proof {
            self.lemma_support();
        }
        self.width.word_to_slot_index(self.start)
    }

    /// Last bucket of the window.
    pub fn high_slot(&self) -> (r: i32)
        requires
            self.wf(),
        ensures
            r == self.high() - 1,
    {
        proof {
            self.lemma_support();
        }
        self.width.word_to_slot_index(self.end + 1) - 1
    }

    /// The count of bucket `slot`, which is 0 outside the window.
    pub fn get(&self, slot: i32) -> (r: u64)
        requires
            self.wf(),
        ensures
            r == self.counts()(slot as int),
            r <= capacity(self.width.level()),
    {
        let addr = self.width.slot_addr(slot);
        if addr.word < self.start || addr.word > self.end {
            return 0;
        }
        let idx = addr.data_index(N, self.base);
        addr.retrieve_counter(self.data[idx])
    }

    /// Adds `incr` to bucket `slot` of the window, whose counter must hold the sum.
    pub fn write_add(&mut self, slot: i32, incr: u64)
        requires
            old(self).wf(),
            old(self).covers(word_of(slot as int, old(self).width.level())),
            old(self).counts()(slot as int) + incr <= capacity(old(self).width.level()),
        ensures
            final(self).wf(),
            final(self).width == old(self).width,
            final(self).base == old(self).base,
            final(self).start == old(self).start,
            final(self).end == old(self).end,
            final(self).counts() == plus(old(self).counts(), slot as int, incr as nat),
    {
        let addr = self.width.slot_addr(slot);
        let idx = addr.data_index(N, self.base);
        let word = self.data[idx];
        let count = addr.retrieve_counter(word);
        let ghost before = *self;
        self.data[idx] = addr.update_counter_in_word(word, count + incr);
        proof {
            let k = self.width.level();
            let wd = word_of(slot as int, k);
            let n = N as int;
            lemma_lanes(k);
            assert forall|w: int| #![trigger self.at(w)] -n < w - wd < n && w != wd implies self.at(w)
                == before.at(w) by {
                assert(0 <= (w - self.base) % n < n);
                if (w - self.base) % n == (wd - self.base) % n {
                    lemma_mod_injective(w - self.base, wd - self.base, n);
                }
            }
            assert forall|s: int| #[trigger]
                self.counts()(s) == plus(before.counts(), slot as int, incr as nat)(s) by {
                let ws = word_of(s, k);
                lemma_word_of(s, k);
                lemma_word_of(slot as int, k);
                if self.covers(ws) {
                    if ws == wd {
                        lemma_with_lane(
                            word,
                            k as u64,
                            (slot as int % lanes(k)) as u64,
                            (s % lanes(k)) as u64,
                            (count + incr) as u64,
                        );
                    } else {
                        assert(self.at(ws) == before.at(ws));
                    }
                }
            }
            assert(self.counts() =~= plus(before.counts(), slot as int, incr as nat));
            assert forall|w: int| #![trigger self.at(w)]
                self.end - N < w < self.start + N && !self.covers(w) implies self.at(w) == 0 by {
                assert(before.at(w) == 0);
            }
        }
    }

    /// Adds `incr` to bucket `slot` of the window, or reports the total that its counter could
    /// not hold and changes nothing.
    pub fn try_add(&mut self, slot: i32, incr: u64) -> (r: Result<(), u64>)
        requires
            old(self).wf(),
            old(self).covers(word_of(slot as int, old(self).width.level())),
            old(self).counts()(slot as int) + incr <= u64::MAX,
        ensures
            final(self).wf(),
            final(self).width == old(self).width,
            final(self).base == old(self).base,
            final(self).start == old(self).start,
            final(self).end == old(self).end,
            r.is_ok() <==> old(self).counts()(slot as int) + incr <= capacity(
                old(self).width.level(),
            ),
            r.is_ok() ==> final(self).counts() == plus(
                old(self).counts(),
                slot as int,
                incr as nat,
            ),
            r.is_err() ==> *final(self) == *old(self) && r->Err_0 == old(self).counts()(slot as int)
                + incr,
    {
        let count: u64 = self.get(slot);
        let sum: u64 = count + incr;
        if sum > self.width.counter_max() {
            return Err(sum);
        }
        self.write_add(slot, incr);
        Ok(())
    }

    /// Grows the window so that it covers word `w`.
    pub fn extend_to(&mut self, w: i32)
        requires
            old(self).wf(),
            -reach() <= w < reach(),
            old(self).end - w < N,
            w - old(self).start < N,
            -reach() <= first_slot(w as int, old(self).width.level()),
            first_slot(w + 1, old(self).width.level()) <= reach(),
        ensures
            final(self).wf(),
            final(self).width == old(self).width,
            final(self).base == old(self).base,
            final(self).covers(w as int),
            final(self).start == if w < old(self).start { w } else { old(self).start },
            final(self).end == if w > old(self).end { w } else { old(self).end },
            final(self).counts() == old(self).counts(),
    {
        let ghost before = *self;
        if w < self.start {
            self.start = w;
        }
        if w > self.end {
            self.end = w;
        }
        proof {
            let k = self.width.level();
            assert forall|v: int| #[trigger] self.at(v) == before.at(v) by {}
            assert forall|s: int| #[trigger] self.counts()(s) == before.counts()(s) by {
                let ws = word_of(s, k);
                if self.covers(ws) && !before.covers(ws) {
                    assert(before.at(ws) == 0);
                    lemma_lane_bound(0, k as u64, (s % lanes(k)) as u64);
                }
            }
            assert(self.counts() =~= before.counts());
        }
    }

    /// The lowest bucket with a count, or `None` when all are empty.
    pub fn lowest(&self) -> (r: Option<i32>)
        requires
            self.wf(),
        ensures
            r.is_none() <==> self.counts() == no_counts(),
            r.is_some() ==> is_lowest(self.counts(), r.unwrap() as int) && self.low() <= r.unwrap()
                < self.high(),
    {
        let high = self.high_slot();
        let mut s = self.low_slot();
        proof {
            self.lemma_support();
        }
        while s <= high
            invariant
                self.wf(),
                high == self.high() - 1,
                self.low() <= s <= self.high() <= reach(),
                -reach() <= self.low(),
                forall|i: int| i < s ==> #[trigger] self.counts()(i) == 0,
                within(self.counts(), self.low(), self.high()),
            decreases high + 1 - s,
        {
            if self.get(s) != 0 {
                assert(self.counts()(s as int) != no_counts()(s as int));
                return Some(s);
            }
            s = s + 1;
        }
        assert(self.counts() =~= no_counts());
        None
    }

    /// The highest bucket with a count, or `None` when all are empty.
    pub fn highest(&self) -> (r: Option<i32>)
        requires
            self.wf(),
        ensures
            r.is_none() <==> self.counts() == no_counts(),
            r.is_some() ==> is_highest(self.counts(), r.unwrap() as int) && self.low() <= r.unwrap()
                < self.high(),
    {
        let low = self.low_slot();
        let mut s = self.high_slot();
        proof {
            self.lemma_support();
        }
        while s >= low
            invariant
                self.wf(),
                low == self.low(),
                self.low() - 1 <= s < self.high() <= reach(),
                -reach() <= self.low(),
                forall|i: int| i > s ==> #[trigger] self.counts()(i) == 0,
                within(self.counts(), self.low(), self.high()),
            decreases s - low + 1,
        {
            if self.get(s) != 0 {
                assert(self.counts()(s as int) != no_counts()(s as int));
                return Some(s);
            }
            s = s - 1;
        }
        assert(self.counts() =~= no_counts());
        None
    }
}

/// `i` is the lowest bucket with a count.
pub open spec fn is_lowest(f: Counts, i: int) -> bool {
    f(i) != 0 && forall|j: int| j < i ==> #[trigger] f(j) == 0
}

/// `i` is the highest bucket with a count.
pub open spec fn is_highest(f: Counts, i: int) -> bool {
    f(i) != 0 && forall|j: int| j > i ==> #[trigger] f(j) == 0
}

/// A window with one observation of weight `incr` in bucket `slot`.
pub fn single(slot: i32, incr: u64) -> (r: Window<1>)
    requires
        crate::width::in_range(slot as int),
    ensures
        r.wf(),
        r.counts() == plus(no_counts(), slot as int, incr as nat),
{
    let width = Width::from_max_value(incr);
    let w = width.slot_to_word_index(slot);
    proof {
        lemma_slot_in_reach(slot as int, width.level());
        crate::width::lemma_level_for(incr as nat, width.level());
    }
    let mut r = Window::<1>::spanning(width, w, w);
    r.write_add(slot, incr);
    r
}

/// The word of a bucket in range lies in reach.
pub proof fn lemma_slot_in_reach(slot: int, k: nat)
    requires
        crate::width::in_range(slot),
        k <= 6,
    ensures
        -reach() <= word_of(slot, k) < reach(),
        -reach() <= first_slot(word_of(slot, k), k),
        first_slot(word_of(slot, k) + 1, k) <= reach(),
{
    crate::width::lemma_word_range(slot, k);
    lemma_word_of(slot, k);
    lemma_lanes(k);
}

} // verus!
