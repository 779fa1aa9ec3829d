//! Read-only views of a sketch, shaped like the exponential histogram of OpenTelemetry.

use crate::counts::{
    bottom, lemma_total_member, lemma_total_split, lemma_total_zero, top, total, within, Counts,
};
use crate::sketch::Sketch;
use crate::stats::Stats;
use crate::width::{in_range, Width};
use crate::window::{is_highest, is_lowest};
use vstd::prelude::*;

verus! {

/// Where the observation of a given rank lies.
#[derive(Debug, Clone, Copy, PartialEq, Eq, Structural)]
pub enum Rank {
    /// Among the observations of zero.
    Zero,
    /// In this bucket.
    Bucket(i32),
    /// Past the last observation.
    Beyond,
}

/// `r` locates the observation of rank `rank`, counted from 1: first the zeros, then the buckets
/// in increasing order.
pub open spec fn locates(r: Rank, counts: Counts, zeros: int, rank: int) -> bool {
    match r {
        Rank::Zero => rank <= zeros,
        Rank::Bucket(i) => zeros + total(counts, bottom(), i as int) < rank <= zeros + total(
            counts,
            bottom(),
            i + 1,
        ),
        Rank::Beyond => rank > zeros + total(counts, bottom(), top()),
    }
}

/// A rank lies in one place, and a higher rank never in a lower one: first the zeros, then the
/// buckets in increasing order, then nothing. The first rank after the zeros is in the lowest
/// bucket with a count, and the last one in the highest.
pub proof fn law_ranks_in_order(a: Rank, b: Rank, counts: Counts, zeros: int, r: int, q: int)
    requires
        zeros >= 0,
        within(counts, bottom(), top()),
        1 <= r <= q,
        locates(a, counts, zeros, r),
        locates(b, counts, zeros, q),
    ensures
        r == q ==> a == b,
        a is Zero <==> r <= zeros,
        a is Beyond <==> r > zeros + total(counts, bottom(), top()),
        a matches Rank::Bucket(i) ==> {
            &&& counts(i as int) > 0
            &&& b matches Rank::Bucket(j) ==> i <= j
            &&& r == zeros + 1 ==> is_lowest(counts, i as int)
            &&& r == zeros + total(counts, bottom(), top()) ==> is_highest(counts, i as int)
        },
{
    if let Rank::Bucket(i) = a {
        assert(counts(i as int) != 0);
        lemma_total_split(counts, bottom(), i + 1, top());
        assert(bottom() <= i < top());
        if let Rank::Bucket(j) = b {
            if i < j {
                lemma_total_split(counts, bottom(), i + 1, j as int);
            }
            if j < i {
                lemma_total_split(counts, bottom(), j + 1, i as int);
            }
        }
        if r == zeros + 1 {
            assert forall|j: int| j < i implies #[trigger] counts(j) == 0 by {
                if counts(j) != 0 {
                    lemma_total_member(counts, bottom(), i as int, j);
                }
            }
        }
        if r == zeros + total(counts, bottom(), top()) {
            assert forall|j: int| j > i implies #[trigger] counts(j) == 0 by {
                if counts(j) != 0 {
                    lemma_total_member(counts, i + 1, top(), j);
                }
            }
        }
    }
    if let Rank::Bucket(j) = b {
        assert(counts(j as int) != 0);
        lemma_total_split(counts, bottom(), j + 1, top());
    }
}

/// View of a [`Sketch`].
///
/// When [`collapsed`](Self::collapsed) is true the lowest bucket is the underflow placeholder,
/// and [`underflow_count`](Self::underflow_count) reports its count: the relative-error
/// guarantee holds for ranks above it.
#[derive(Debug)]
pub struct SketchView<'a, const N: usize> {
    sketch: &'a Sketch<N>,
}

impl<const N: usize> Sketch<N> {
    /// Returns a read-only view of the sketch.
    pub fn view(&self) -> (r: SketchView<'_, N>)
        ensures
            r.of() == *self,
    {
        SketchView { sketch: self }
    }

    /// Returns a read-only view of the buckets.
    pub fn buckets(&self) -> (r: SketchBucketView<'_, N>)
        ensures
            r.of() == *self,
    {
        SketchBucketView { sketch: self }
    }

    /// Locates the observation of rank `rank`, counted from 1, among the zeros and the buckets.
    pub fn quantile(&self, rank: u64) -> (r: Rank)
        requires
            self.wf(),
        ensures
            locates(r, self.counts(), self.stats_of().count - self.live(), rank as int),
    {
        proof {
            self.lemma_wf();
        }
        let zeros: u64 = self.count() - self.live_count();
        if rank <= zeros {
            return Rank::Zero;
        }
        let mut seen: u64 = zeros;
        if let Some((lo, hi)) = self.bucket_bounds() {
            let mut s: i32 = lo;
            proof {
                assert forall|i: int| bottom() <= i < lo implies #[trigger] self.counts()(i) == 0 by {}
                lemma_total_zero(self.counts(), bottom(), lo as int);
            }
            while s <= hi
                invariant
                    self.wf(),
                    in_range(lo as int),
                    in_range(hi as int),
                    lo <= s <= hi + 1,
                    zeros == self.stats_of().count - self.live(),
                    self.live() == total(self.counts(), bottom(), top()),
                    seen == zeros + total(self.counts(), bottom(), s as int),
                    seen < rank,
                decreases hi + 1 - s,
            {
                let c = self.count_at_slot(s);
                proof {
                    lemma_total_split(self.counts(), bottom(), s + 1, top());
                }
                if rank - seen <= c {
                    return Rank::Bucket(s);
                }
                seen = seen + c;
                s = s + 1;
            }
            proof {
                lemma_total_split(self.counts(), bottom(), s as int, top());
                lemma_total_zero(self.counts(), s as int, top());
            }
        }
        Rank::Beyond
    }
}

impl<const N: usize> SketchView<'_, N> {
    /// The sketch behind the view.
    pub closed spec fn of(self) -> Sketch<N> {
        *self.sketch
    }

    /// Returns the scale, 0 when no non-zero value is recorded.
    pub fn scale(&self) -> (r: i32)
        ensures
            r == if self.of().live() == 0 {
                0
            } else {
                self.of().scale_of()
            },
    {
        if self.sketch.buckets_empty() {
            0
        } else {
            self.sketch.scale()
        }
    }

    /// Returns the aggregate statistics. When no value has been bucketed, min, max and sum are
    /// reported as 0.
    pub fn stats(&self) -> (r: Stats)
        ensures
            r == if self.of().live() == 0 {
                (Stats { count: self.of().stats_of().count, sum: 0, min: 0, max: 0 })
            } else {
                self.of().stats_of()
            },
    {
        let s = self.sketch.raw_stats();
        if self.sketch.buckets_empty() {
            Stats { count: s.count, sum: 0, min: 0, max: 0 }
        } else {
            s
        }
    }

    /// Returns the count of exactly-zero observations.
    pub fn zero_count(&self) -> (r: u64)
        requires
            self.of().wf(),
        ensures
            r == self.of().stats_of().count - self.of().live(),
    {
        self.sketch.count() - self.sketch.live_count()
    }

    /// Returns true once the lowest bucket is the underflow placeholder.
    pub fn collapsed(&self) -> (r: bool)
        ensures
            r == self.of().has_collapsed(),
    {
        self.sketch.collapsed()
    }

    /// Returns the count in the underflow placeholder, 0 if not collapsed.
    pub fn underflow_count(&self) -> (r: u64)
        requires
            self.of().wf(),
        ensures
            r == if self.of().has_collapsed() {
                self.of().counts()(self.of().low())
            } else {
                0
            },
    {
        self.sketch.underflow_count()
    }

    /// Returns a view of the positive buckets.
    pub fn positive(&self) -> (r: SketchBucketView<'_, N>)
        ensures
            r.of() == self.of(),
    {
        self.sketch.buckets()
    }
}

/// Contiguous view of a sketch's buckets, from the first to the last one with a count.
#[derive(Debug)]
pub struct SketchBucketView<'a, const N: usize> {
    sketch: &'a Sketch<N>,
}

impl<const N: usize> SketchBucketView<'_, N> {
    /// The sketch behind the view.
    pub closed spec fn of(self) -> Sketch<N> {
        *self.sketch
    }

    /// Index of the first bucket with a count, 0 when empty.
    pub fn offset(&self) -> (r: i32)
        requires
            self.of().wf(),
        ensures
            self.of().live() == 0 ==> r == 0,
            self.of().live() > 0 ==> is_lowest(self.of().counts(), r as int),
    {
        match self.sketch.bucket_bounds() {
            Some((lo, _)) => lo,
            None => 0,
        }
    }

    /// Number of buckets from the first to the last one with a count.
    pub fn len(&self) -> (r: u32)
        requires
            self.of().wf(),
        ensures
            self.of().live() == 0 <==> r == 0,
            self.of().live() > 0 ==> exists|lo: int, hi: int|
                #![trigger is_lowest(self.of().counts(), lo), is_highest(self.of().counts(), hi)]
                is_lowest(self.of().counts(), lo) && is_highest(self.of().counts(), hi) && r == hi - lo
                    + 1,
    {
        match self.sketch.bucket_bounds() {
            Some((lo, hi)) => {
                proof {
                    assert(is_lowest(self.of().counts(), lo as int) && is_highest(
                        self.of().counts(),
                        hi as int,
                    ));
                }
                (hi - lo + 1) as u32
            },
            None => 0,
        }
    }

    /// Returns true when no bucket is in use.
    pub fn is_empty(&self) -> (r: bool)
        ensures
            r <==> self.of().live() == 0,
    {
        self.sketch.buckets_empty()
    }

    /// Returns the current counter width.
    pub fn width(&self) -> (r: Width)
        ensures
            r == self.of().width_of(),
    {
        self.sketch.width()
    }

    /// Returns a cursor over the contiguous bucket counts.
    pub fn iter(&self) -> (r: SketchBucketsIter<'_, N>)
        requires
            self.of().wf(),
        ensures
            r.of() == self.of(),
            r.wf(),
            self.of().live() == 0 ==> r.left() == 0,
            self.of().live() > 0 ==> is_lowest(self.of().counts(), r.position()) && is_highest(
                self.of().counts(),
                r.position() + r.left() - 1,
            ),
    {
        match self.sketch.bucket_bounds() {
            Some((lo, hi)) => SketchBucketsIter { sketch: self.sketch, next: lo, last: hi },
            None => SketchBucketsIter { sketch: self.sketch, next: 0, last: -1 },
        }
    }
}

/// Cursor over contiguous bucket counts.
#[derive(Debug)]
pub struct SketchBucketsIter<'a, const N: usize> {
    sketch: &'a Sketch<N>,
    next: i32,
    last: i32,
}

impl<const N: usize> SketchBucketsIter<'_, N> {
    /// The sketch that is walked.
    pub closed spec fn of(self) -> Sketch<N> {
        *self.sketch
    }

    /// The bucket that comes next.
    pub closed spec fn position(self) -> int {
        self.next as int
    }

    /// How many counts are left.
    pub closed spec fn left(self) -> nat {
        (self.last - self.next + 1) as nat
    }

    /// The cursor is valid.
    pub closed spec fn wf(self) -> bool {
        &&& self.of().wf()
        &&& -0x10_0000 <= self.next <= self.last + 1 <= 0x10_0000
    }

    /// Returns the next count, or `None` at the end.
    pub fn next(&mut self) -> (r: Option<u64>)
        requires
            old(self).wf(),
        ensures
            final(self).wf(),
            final(self).of() == old(self).of(),
            r.is_none() <==> old(self).left() == 0,
            r.is_none() ==> *final(self) == *old(self),
            r.is_some() ==> {
                &&& r.unwrap() == old(self).of().counts()(old(self).position())
                &&& final(self).position() == old(self).position() + 1
                &&& final(self).left() == old(self).left() - 1
            },
    {
        if self.next > self.last {
            return None;
        }
        let c = self.sketch.count_at_slot(self.next);
        self.next = self.next + 1;
        Some(c)
    }

    /// Number of counts that are left.
    pub fn len(&self) -> (r: usize)
        requires
            self.wf(),
        ensures
            r == self.left(),
    {
        (self.last - self.next + 1) as usize
    }
}

} // verus!
