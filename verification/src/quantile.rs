//! Quantile estimation: a walk over the cumulative distribution of a histogram.
//!
//! A quantile is asked for by the rank of an observation. The walk finds the bucket that holds
//! it, and how many observations lie below; the value inside the bucket is a matter of
//! interpolation, which the caller does.

use crate::counts::{
    bottom, lemma_total_member, lemma_total_split, lemma_total_zero, no_counts, top, total, within,
    Counts,
};
use crate::histogram::{Histogram, HistogramView};
use crate::window::{is_highest, is_lowest, reach};
use vstd::prelude::*;

verus! {

/// A quantile that is asked for.
#[derive(Debug, Clone, Copy, PartialEq, Eq, Structural)]
pub enum Target {
    /// Quantile 0.
    Lowest,
    /// The observation of this rank, counted from 1.
    Rank(u64),
    /// Quantile 1.
    Highest,
}

/// Where the value of a quantile lies.
#[derive(Debug, Clone, Copy, PartialEq, Eq, Structural)]
pub enum Estimate {
    /// Nowhere: the histogram holds no observation.
    Undefined,
    /// At zero.
    Zero,
    /// At the minimum.
    Min,
    /// At the maximum.
    Max,
    /// In a bucket with `count` observations, above `below` others.
    Within {
        /// Index of the bucket.
        index: i32,
        /// Number of observations below the bucket.
        below: u64,
        /// Number of observations in the bucket.
        count: u64,
    },
}

/// Order of targets along the distribution.
pub open spec fn place(t: Target) -> int {
    match t {
        Target::Lowest => -1,
        Target::Rank(r) => r as int,
        Target::Highest => u64::MAX + 1,
    }
}

/// `e` is the estimate of `t` for a histogram of `zeros` zeros and the given buckets. Zeros come
/// first, then the buckets in increasing order.
pub open spec fn estimates(e: Estimate, t: Target, counts: Counts, zeros: int) -> bool {
    let all = zeros + total(counts, bottom(), top());
    if all == 0 {
        e == Estimate::Undefined
    } else {
        match t {
            Target::Lowest => e == if zeros > 0 {
                Estimate::Zero
            } else {
                Estimate::Min
            },
            Target::Highest => e == Estimate::Max,
            Target::Rank(r) => if r <= zeros {
                e == Estimate::Zero
            } else if r > all {
                e == Estimate::Max
            } else {
                e matches Estimate::Within { index, below, count } && {
                    &&& below == zeros + total(counts, bottom(), index as int)
                    &&& count == counts(index as int)
                    &&& below < r <= below + count
                }
            },
        }
    }
}

/// No rank lies in two buckets: the estimate of a target is unique.
pub proof fn law_estimate_unique(a: Estimate, b: Estimate, t: Target, counts: Counts, zeros: int)
    requires
        zeros >= 0,
        estimates(a, t, counts, zeros),
        estimates(b, t, counts, zeros),
    ensures
        a == b,
{
    if let Estimate::Within { index: i, below: x, count: c } = a {
        if let Estimate::Within { index: j, below: y, count: d } = b {
            if i < j {
                lemma_total_split(counts, bottom(), i + 1, j as int);
            }
            if j < i {
                lemma_total_split(counts, bottom(), j + 1, i as int);
            }
        }
    }
}

/// A rank is counted from 1.
pub open spec fn proper(t: Target) -> bool {
    t matches Target::Rank(r) ==> r >= 1
}

/// Order of estimates: zero, then the minimum, then the buckets in increasing order, then the
/// maximum.
pub open spec fn precedes(a: Estimate, b: Estimate) -> bool {
    match (a, b) {
        (Estimate::Undefined, _) => b is Undefined,
        (_, Estimate::Undefined) => false,
        (Estimate::Zero, _) => true,
        (Estimate::Min, _) => !(b is Zero),
        (Estimate::Within { index: i, below: x, .. }, Estimate::Within { index: j, below: y, .. })
            => i <= j && x <= y,
        (Estimate::Within { .. }, _) => b is Max,
        (Estimate::Max, _) => b is Max,
    }
}

/// The estimate of a higher target never comes before that of a lower one.
pub proof fn law_estimate_monotone(
    a: Estimate,
    b: Estimate,
    s: Target,
    t: Target,
    counts: Counts,
    zeros: int,
)
    requires
        zeros >= 0,
        proper(s),
        proper(t),
        place(s) <= place(t),
        estimates(a, s, counts, zeros),
        estimates(b, t, counts, zeros),
    ensures
        precedes(a, b),
{
    if let Estimate::Within { index: i, .. } = a {
        if let Estimate::Within { index: j, .. } = b {
            if j < i {
                lemma_total_split(counts, bottom(), j + 1, i as int);
            }
            if i < j {
                lemma_total_split(counts, bottom(), i as int, j as int);
            }
        }
    }
}

/// A rank is found where it lies: among the zeros, of which there are at least as many, or in the
/// bucket that holds it, with fewer observations below and enough together with its own, or
/// beyond all observations. The first rank after the zeros is in the lowest bucket with a count,
/// and the last one in the highest.
pub proof fn law_rank_found(e: Estimate, r: u64, counts: Counts, zeros: int)
    requires
        zeros >= 0,
        within(counts, bottom(), top()),
        zeros + total(counts, bottom(), top()) > 0,
        estimates(e, Target::Rank(r), counts, zeros),
    ensures
        e is Zero <==> r <= zeros,
        e is Max <==> r > zeros + total(counts, bottom(), top()),
        e matches Estimate::Within { index, below, count } ==> {
            &&& below == zeros + total(counts, bottom(), index as int)
            &&& below < r <= zeros + total(counts, bottom(), index + 1)
            &&& count == counts(index as int) > 0
            &&& r == zeros + 1 ==> is_lowest(counts, index as int)
            &&& r == zeros + total(counts, bottom(), top()) ==> is_highest(counts, index as int)
        },
        e is Zero || e is Max || e is Within,
{
    if let Estimate::Within { index, .. } = e {
        let i = index as int;
        assert(counts(i) != 0);
        lemma_total_split(counts, bottom(), i + 1, top());
        if r == zeros + 1 {
            assert forall|j: int| j < i implies #[trigger] counts(j) == 0 by {
                if counts(j) != 0 {
                    lemma_total_member(counts, bottom(), i, j);
                }
            }
        }
        if r == zeros + total(counts, bottom(), top()) {
            assert forall|j: int| j > i implies #[trigger] counts(j) == 0 by {
                if counts(j) != 0 {
                    lemma_total_member(counts, i + 1, top(), j);
                }
            }
        }
    }
}

/// A cursor that is run to its end estimates each target once, in order, and then ends. Without
/// any observation no estimate is defined. Otherwise quantile 0 is at zero if zeros were recorded
/// and at the minimum if not, quantile 1 is at the maximum, an estimate is at zero only if zeros
/// were recorded, and no estimate comes before an earlier one.
pub proof fn law_quantile_run<const N: usize>(
    path: Seq<QuantileIter<'_, N>>,
    items: Seq<Option<Estimate>>,
    i: int,
    j: int,
)
    requires
        path.len() == items.len() + 1,
        path[0].wf(),
        path[0].position() == 0,
        items.len() == path[0].targets_of().len() + 1,
        forall|k: int|
            0 <= k < items.len() ==> stepped(path[k], path[k + 1], #[trigger] items[k]),
        forall|k: int| 0 <= k < path[0].targets_of().len() ==> proper(
            #[trigger] path[0].targets_of()[k],
        ),
        0 <= i <= j < path[0].targets_of().len(),
    ensures
        items[items.len() - 1].is_none(),
        items[i].is_some(),
        items[j].is_some(),
        estimates(
            items[i].unwrap(),
            path[0].targets_of()[i],
            path[0].of().counts(),
            path[0].zeros_of(),
        ),
        precedes(items[i].unwrap(), items[j].unwrap()),
        items[i].unwrap() is Undefined <==> path[0].of().stats_of().count == 0,
        items[i].unwrap() is Zero ==> path[0].zeros_of() > 0,
        path[0].of().stats_of().count > 0 && path[0].targets_of()[i] is Lowest ==> items[i].unwrap()
            == if path[0].zeros_of() > 0 {
            Estimate::Zero
        } else {
            Estimate::Min
        },
        path[0].of().stats_of().count > 0 && path[0].targets_of()[i] is Highest
            ==> items[i].unwrap() == Estimate::Max,
{
    let n = path[0].targets_of().len() as int;
    lemma_run(path, items, i);
    lemma_run(path, items, j);
    lemma_run(path, items, n);
    path[0].lemma_wf();
    assert(stepped(path[i], path[i + 1], items[i]));
    assert(stepped(path[j], path[j + 1], items[j]));
    assert(stepped(path[n], path[n + 1], items[n]));
    law_estimate_monotone(
        items[i].unwrap(),
        items[j].unwrap(),
        path[0].targets_of()[i],
        path[0].targets_of()[j],
        path[0].of().counts(),
        path[0].zeros_of(),
    );
}

/// The cursor after `k` steps has estimated `k` targets.
proof fn lemma_run<const N: usize>(
    path: Seq<QuantileIter<'_, N>>,
    items: Seq<Option<Estimate>>,
    k: int,
)
    requires
        path.len() == items.len() + 1,
        path[0].wf(),
        path[0].position() == 0,
        forall|k: int|
            0 <= k < items.len() ==> stepped(path[k], path[k + 1], #[trigger] items[k]),
        0 <= k <= path[0].targets_of().len(),
        k <= items.len(),
    ensures
        path[k].wf(),
        path[k].position() == k,
        path[k].of() == path[0].of(),
        path[k].targets_of() == path[0].targets_of(),
    decreases k,
{
    if k > 0 {
        lemma_run(path, items, k - 1);
        assert(stepped(path[k - 1], path[k - 1 + 1], items[k - 1]));
    }
}

/// Cursor that walks the distribution of a histogram and estimates one target after another.
#[derive(Debug)]
pub struct QuantileIter<'a, const N: usize> {
    hist: &'a Histogram<N>,
    targets: &'a [Target],
    qi: usize,
    next: i32,
    last: i32,
    zeros: u64,
    cumulative: u64,
    walked: bool,
}

impl<const N: usize> HistogramView<'_, N> {
    /// Returns a cursor that estimates the requested targets, which must be sorted.
    ///
    /// The cursor walks the distribution once. Zero observations come before any bucket.
    pub fn quantiles<'a>(&'a self, targets: &'a [Target]) -> (r: QuantileIter<'a, N>)
        requires
            self.of().wf(),
            forall|i: int, j: int|
                0 <= i <= j < targets@.len() ==> place(#[trigger] targets@[i]) <= place(
                    #[trigger] targets@[j],
                ),
        ensures
            r.wf(),
            r.of() == self.of(),
            r.targets_of() == targets@,
            r.position() == 0,
    {
        let hist = self.histogram();
        proof {
            hist.lemma_wf();
        }
        let zeros: u64 = hist.view().zero_count();
        match hist.bucket_bounds() {
            Some((lo, hi)) => {
                proof {
                    assert forall|i: int| bottom() <= i < lo implies #[trigger] hist.counts()(i) == 0 by {}
                    lemma_total_zero(hist.counts(), bottom(), lo as int);
                }
                QuantileIter {
                    hist,
                    targets,
                    qi: 0,
                    next: lo,
                    last: hi,
                    zeros,
                    cumulative: zeros,
                    walked: false,
                }
            },
            None => {
                proof {
                    lemma_total_zero(no_counts(), bottom(), 0);
                }
                QuantileIter {
                    hist,
                    targets,
                    qi: 0,
                    next: 0,
                    last: -1,
                    zeros,
                    cumulative: zeros,
                    walked: false,
                }
            },
        }
    }
}

/// What one step of a cursor returns and leaves.
pub open spec fn stepped<const N: usize>(
    before: QuantileIter<'_, N>,
    after: QuantileIter<'_, N>,
    r: Option<Estimate>,
) -> bool {
    &&& after.wf()
    &&& after.of() == before.of()
    &&& after.targets_of() == before.targets_of()
    &&& r.is_none() <==> before.position() == before.targets_of().len()
    &&& r.is_none() ==> after.position() == before.position()
    &&& r.is_some() ==> {
        &&& after.position() == before.position() + 1
        &&& estimates(
            r.unwrap(),
            before.targets_of()[before.position()],
            before.of().counts(),
            before.zeros_of(),
        )
    }
}

impl<const N: usize> QuantileIter<'_, N> {
    /// The histogram behind the cursor.
    pub closed spec fn of(self) -> Histogram<N> {
        *self.hist
    }

    /// All targets.
    pub closed spec fn targets_of(self) -> Seq<Target> {
        self.targets@
    }

    /// Number of targets that have been estimated.
    pub closed spec fn position(self) -> int {
        self.qi as int
    }

    /// Number of zero observations.
    pub open spec fn zeros_of(self) -> int {
        self.of().stats_of().count - total(self.of().counts(), bottom(), top())
    }

    /// The cursor is valid: it has not walked past the bucket of any target that is left.
    pub closed spec fn wf(self) -> bool {
        &&& self.of().wf()
        &&& self.qi <= self.targets@.len()
        &&& self.zeros == self.zeros_of()
        &&& -reach() <= self.next <= self.last + 1 <= reach()
        &&& self.cumulative == self.zeros + total(self.of().counts(), bottom(), self.next as int)
        &&& !self.walked ==> self.cumulative == self.zeros
        &&& forall|i: int| i > self.last ==> #[trigger] self.of().counts()(i) == 0
        &&& forall|i: int, j: int|
            0 <= i <= j < self.targets@.len() ==> place(#[trigger] self.targets@[i]) <= place(
                #[trigger] self.targets@[j],
            )
        &&& self.walked ==> self.qi > 0 && self.cumulative < place(self.targets@[self.qi - 1])
    }

    /// What validity says about the parts that contracts speak of.
    pub proof fn lemma_wf(self)
        requires
            self.wf(),
        ensures
            self.zeros_of() >= 0,
            0 <= self.position() <= self.targets_of().len(),
            forall|i: int, j: int|
                0 <= i <= j < self.targets_of().len() ==> place(#[trigger] self.targets_of()[i])
                    <= place(#[trigger] self.targets_of()[j]),
    {
    }

    /// Number of targets that are left.
    pub fn len(&self) -> (r: usize)
        requires
            self.wf(),
        ensures
            r == self.targets_of().len() - self.position(),
    {
        self.targets.len() - self.qi
    }

    /// Estimates the next target, or returns `None` at the end.
    pub fn next(&mut self) -> (r: Option<Estimate>)
        requires
            old(self).wf(),
        ensures
            stepped(*old(self), *final(self), r),
    {
        if self.qi >= self.targets.len() {
            return None;
        }
        let target = self.targets[self.qi];
        let ghost before = *self;
        let ghost counts = self.of().counts();
        proof {
            self.hist.lemma_wf();
            if self.walked {
                assert(place(self.targets@[self.qi - 1]) <= place(self.targets@[self.qi as int]));
            }
        }
        self.qi = self.qi + 1;
        if self.hist.raw_stats().count == 0 {
            return Some(Estimate::Undefined);
        }
        let rank: u64 = match target {
            Target::Lowest => {
                return Some(
                    if self.zeros > 0 {
                        Estimate::Zero
                    } else {
                        Estimate::Min
                    },
                );
            },
            Target::Highest => {
                return Some(Estimate::Max);
            },
            Target::Rank(r) => r,
        };
        // Zeros come first.
        if self.cumulative >= rank {
            return Some(Estimate::Zero);
        }
        while self.next <= self.last
            invariant
                self.wf(),
                before == *old(self),
                self.of() == before.of(),
                counts == self.of().counts(),
                self.targets == before.targets,
                self.qi == before.qi + 1,
                self.qi <= self.targets@.len(),
                self.targets@[self.qi - 1] == Target::Rank(rank),
                self.zeros == before.zeros,
                self.cumulative < rank,
                total(counts, bottom(), top()) + self.zeros == self.of().stats_of().count,
                self.of().stats_of().count > 0,
            decreases self.last + 1 - self.next,
        {
            let index = self.next;
            let count = self.hist.count_at_slot(index);
            proof {
                lemma_total_split(counts, bottom(), index + 1, top());
            }
            if rank - self.cumulative <= count {
                // The next target may lie in the same bucket.
                return Some(Estimate::Within { index, below: self.cumulative, count });
            }
            self.cumulative = self.cumulative + count;
            self.next = self.next + 1;
            self.walked = true;
        }
        proof {
            lemma_total_split(counts, bottom(), self.next as int, top());
            assert forall|i: int| self.next <= i < top() implies #[trigger] counts(i) == 0 by {}
            lemma_total_zero(counts, self.next as int, top());
        }
        Some(Estimate::Max)
    }
}

} // verus!
