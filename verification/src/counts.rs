//! Bucket counts as mathematical functions of the bucket index.

use crate::arith::lemma_div_bracket;
use vstd::arithmetic::power2::{lemma_pow2_adds, lemma_pow2_pos, pow2};
use vstd::prelude::*;

verus! {

/// A count for every bucket index.
pub type Counts = spec_fn(int) -> nat;

/// No bucket of any histogram lies below this index.
pub open spec fn bottom() -> int {
    -0x8000_0000
}

/// No bucket of any histogram lies at or above this index.
pub open spec fn top() -> int {
    0x8000_0000
}

/// The count of an empty histogram.
pub open spec fn no_counts() -> Counts {
    |i: int| 0nat
}

/// Sum of the counts with index in `lo..hi`.
pub open spec fn total(f: Counts, lo: int, hi: int) -> nat
    decreases hi - lo,
{
    if hi <= lo {
        0
    } else {
        total(f, lo, hi - 1) + f(hi - 1)
    }
}

/// `f` with `n` more observations in bucket `at`.
pub open spec fn plus(f: Counts, at: int, n: nat) -> Counts {
    |i: int| if i == at { f(i) + n } else { f(i) }
}

/// Pointwise sum of two histograms at the same scale.
pub open spec fn both(f: Counts, g: Counts) -> Counts {
    |i: int| f(i) + g(i)
}

/// The histogram at a scale lower by `k`: bucket `i` gathers the `2^k` buckets
/// `i * 2^k .. (i + 1) * 2^k`.
pub open spec fn coarsen(f: Counts, k: nat) -> Counts {
    |i: int| total(f, i * pow2(k), (i + 1) * pow2(k))
}

/// All counts below `floor` moved into bucket `floor`.
pub open spec fn folded(f: Counts, floor: int) -> Counts {
    |i: int|
        if i < floor {
            0
        } else if i == floor {
            total(f, bottom(), floor + 1)
        } else {
            f(i)
        }
}

/// Every index with a non-zero count lies in `lo..hi`.
pub open spec fn within(f: Counts, lo: int, hi: int) -> bool {
    forall|i: int| #[trigger] f(i) != 0 ==> lo <= i < hi
}

pub proof fn lemma_total_split(f: Counts, lo: int, mid: int, hi: int)
    requires
        lo <= mid <= hi,
    ensures
        total(f, lo, hi) == total(f, lo, mid) + total(f, mid, hi),
    decreases hi - mid,
{
    if mid < hi {
        lemma_total_split(f, lo, mid, hi - 1);
    }
}

pub proof fn lemma_total_same(f: Counts, g: Counts, lo: int, hi: int)
    requires
        forall|i: int| lo <= i < hi ==> f(i) == #[trigger] g(i),
    ensures
        total(f, lo, hi) == total(g, lo, hi),
    decreases hi - lo,
{
    if lo < hi {
        lemma_total_same(f, g, lo, hi - 1);
        assert(f(hi - 1) == g(hi - 1));
    }
}

pub proof fn lemma_total_le(f: Counts, g: Counts, lo: int, hi: int)
    requires
        forall|i: int| lo <= i < hi ==> f(i) <= #[trigger] g(i),
    ensures
        total(f, lo, hi) <= total(g, lo, hi),
    decreases hi - lo,
{
    if lo < hi {
        lemma_total_le(f, g, lo, hi - 1);
        assert(f(hi - 1) <= g(hi - 1));
    }
}

pub proof fn lemma_total_zero(f: Counts, lo: int, hi: int)
    requires
        forall|i: int| lo <= i < hi ==> #[trigger] f(i) == 0,
    ensures
        total(f, lo, hi) == 0,
    decreases hi - lo,
{
    if lo < hi {
        lemma_total_zero(f, lo, hi - 1);
    }
}

/// One bucket is at most the sum over a range that holds it.
pub proof fn lemma_total_member(f: Counts, lo: int, hi: int, i: int)
    requires
        lo <= i < hi,
    ensures
        f(i) <= total(f, lo, hi),
{
    lemma_total_split(f, lo, i, hi);
    lemma_total_split(f, i, i + 1, hi);
    assert(total(f, i, i + 1) == total(f, i, i) + f(i));
}

/// A sum over a wider range is at least as large.
pub proof fn lemma_total_wider(f: Counts, lo: int, hi: int, lo2: int, hi2: int)
    requires
        lo2 <= lo,
        hi <= hi2,
    ensures
        total(f, lo, hi) <= total(f, lo2, hi2),
{
    if lo < hi {
        lemma_total_split(f, lo2, lo, hi2);
        lemma_total_split(f, lo, hi, hi2);
    }
}

/// Outside its support a function adds nothing.
pub proof fn lemma_total_within(f: Counts, lo: int, hi: int, lo2: int, hi2: int)
    requires
        within(f, lo, hi),
        lo2 <= lo <= hi <= hi2,
    ensures
        total(f, lo2, hi2) == total(f, lo, hi),
{
    lemma_total_split(f, lo2, lo, hi2);
    lemma_total_split(f, lo, hi, hi2);
    assert forall|i: int| lo2 <= i < lo implies #[trigger] f(i) == 0 by {}
    assert forall|i: int| hi <= i < hi2 implies #[trigger] f(i) == 0 by {}
    lemma_total_zero(f, lo2, lo);
    lemma_total_zero(f, hi, hi2);
}

pub proof fn lemma_total_plus(f: Counts, at: int, n: nat, lo: int, hi: int)
    ensures
        total(plus(f, at, n), lo, hi) == total(f, lo, hi) + if lo <= at < hi { n } else { 0 },
    decreases hi - lo,
{
    if lo < hi {
        lemma_total_plus(f, at, n, lo, hi - 1);
    }
}

pub proof fn lemma_total_both(f: Counts, g: Counts, lo: int, hi: int)
    ensures
        total(both(f, g), lo, hi) == total(f, lo, hi) + total(g, lo, hi),
    decreases hi - lo,
{
    if lo < hi {
        lemma_total_both(f, g, lo, hi - 1);
    }
}

/// Coarsening keeps sums over aligned ranges.
pub proof fn lemma_coarsen_total(f: Counts, k: nat, lo: int, hi: int)
    requires
        lo <= hi,
    ensures
        total(coarsen(f, k), lo, hi) == total(f, lo * pow2(k), hi * pow2(k)),
    decreases hi - lo,
{
    let d = pow2(k) as int;
    lemma_pow2_pos(k);
    if lo < hi {
        lemma_coarsen_total(f, k, lo, hi - 1);
        assert(lo * d <= (hi - 1) * d <= hi * d) by (nonlinear_arith)
            requires
                d > 0,
                lo <= hi - 1,
        ;
        lemma_total_split(f, lo * d, (hi - 1) * d, hi * d);
        assert(hi - 1 + 1 == hi);
    }
}

/// Coarsening by `a` and then by `b` is coarsening by `a + b`.
pub proof fn lemma_coarsen_twice(f: Counts, a: nat, b: nat)
    ensures
        coarsen(coarsen(f, a), b) =~= coarsen(f, a + b),
{
    lemma_pow2_pos(a);
    lemma_pow2_pos(b);
    lemma_pow2_adds(a, b);
    assert forall|i: int| #[trigger] coarsen(coarsen(f, a), b)(i) == coarsen(f, a + b)(i) by {
        let p = pow2(a) as int;
        let q = pow2(b) as int;
        assert(i * q <= (i + 1) * q) by (nonlinear_arith)
            requires
                q > 0,
        ;
        lemma_coarsen_total(f, a, i * q, (i + 1) * q);
        assert((i * q) * p == i * (p * q) && ((i + 1) * q) * p == (i + 1) * (p * q))
            by (nonlinear_arith);
    }
}

/// Coarsening by nothing changes nothing.
pub proof fn lemma_coarsen_zero(f: Counts)
    ensures
        coarsen(f, 0) =~= f,
{
    vstd::arithmetic::power2::lemma2_to64();
    assert forall|i: int| #[trigger] coarsen(f, 0)(i) == f(i) by {
        assert(i * pow2(0) == i && (i + 1) * pow2(0) == i + 1);
        assert(total(f, i, i + 1) == total(f, i, i) + f(i));
    }
}

/// No counts are no counts at any scale.
pub proof fn lemma_coarsen_none(k: nat)
    ensures
        coarsen(no_counts(), k) =~= no_counts(),
{
    assert forall|i: int| #[trigger] coarsen(no_counts(), k)(i) == no_counts()(i) by {
        lemma_total_zero(no_counts(), i * pow2(k), (i + 1) * pow2(k));
    }
}

/// An observation in bucket `at` lands in bucket `at / 2^k` of the coarser histogram.
pub proof fn lemma_coarsen_plus(f: Counts, at: int, n: nat, k: nat)
    ensures
        coarsen(plus(f, at, n), k) =~= plus(coarsen(f, k), at / pow2(k) as int, n),
{
    lemma_pow2_pos(k);
    let d = pow2(k) as int;
    assert forall|i: int|
        #[trigger] coarsen(plus(f, at, n), k)(i) == plus(coarsen(f, k), at / d, n)(i) by {
        lemma_total_plus(f, at, n, i * d, (i + 1) * d);
        lemma_div_bracket(at, d, i);
    }
}

/// Coarsening a pointwise sum.
pub proof fn lemma_coarsen_both(f: Counts, g: Counts, k: nat)
    ensures
        coarsen(both(f, g), k) =~= both(coarsen(f, k), coarsen(g, k)),
{
    assert forall|i: int|
        #[trigger] coarsen(both(f, g), k)(i) == both(coarsen(f, k), coarsen(g, k))(i) by {
        lemma_total_both(f, g, i * pow2(k), (i + 1) * pow2(k));
    }
}

/// The support shrinks with the index range.
pub proof fn lemma_coarsen_within(f: Counts, k: nat, lo: int, hi: int)
    requires
        within(f, lo, hi),
        lo <= hi,
    ensures
        within(coarsen(f, k), lo / pow2(k) as int, (hi - 1) / pow2(k) as int + 1),
{
    let d = pow2(k) as int;
    lemma_pow2_pos(k);
    assert forall|i: int| #[trigger] coarsen(f, k)(i) != 0 implies lo / d <= i < (hi - 1) / d + 1 by {
        if i < lo / d {
            lemma_div_bracket(lo, d, lo / d);
            assert((i + 1) * d <= (lo / d) * d) by (nonlinear_arith)
                requires
                    d > 0,
                    i + 1 <= lo / d,
            ;
            lemma_total_zero(f, i * d, (i + 1) * d);
        }
        if i > (hi - 1) / d {
            let q = (hi - 1) / d;
            lemma_div_bracket(hi - 1, d, q);
            assert((q + 1) * d <= i * d) by (nonlinear_arith)
                requires
                    d > 0,
                    q + 1 <= i,
            ;
            lemma_total_zero(f, i * d, (i + 1) * d);
        }
    }
}

/// A count never shrinks when its bucket is merged with others.
pub proof fn lemma_coarsen_member(f: Counts, k: nat, i: int)
    ensures
        f(i) <= coarsen(f, k)(i / pow2(k) as int),
{
    lemma_pow2_pos(k);
    let d = pow2(k) as int;
    lemma_div_bracket(i, d, i / d);
    lemma_total_member(f, (i / d) * d, (i / d + 1) * d, i);
}

/// Folding keeps the sum of all counts.
pub proof fn lemma_folded_total(f: Counts, floor: int, hi: int)
    requires
        bottom() <= floor < hi,
    ensures
        total(folded(f, floor), bottom(), hi) == total(f, bottom(), hi),
{
    let g = folded(f, floor);
    lemma_total_split(g, bottom(), floor, hi);
    lemma_total_split(g, floor, floor + 1, hi);
    lemma_total_split(f, bottom(), floor + 1, hi);
    lemma_total_zero(g, bottom(), floor);
    lemma_total_same(g, f, floor + 1, hi);
    assert(total(g, floor, floor + 1) == total(g, floor, floor) + g(floor));
}

/// Folding at a lower floor first makes no difference.
pub proof fn lemma_folded_twice(f: Counts, floor: int, floor2: int)
    requires
        bottom() <= floor <= floor2,
    ensures
        folded(folded(f, floor), floor2) =~= folded(f, floor2),
{
    lemma_folded_total(f, floor, floor2 + 1);
}

/// Folding a pointwise sum.
pub proof fn lemma_folded_both(f: Counts, g: Counts, floor: int)
    ensures
        folded(both(f, g), floor) =~= both(folded(f, floor), folded(g, floor)),
{
    lemma_total_both(f, g, bottom(), floor + 1);
}

/// Folding a histogram with no count below the floor changes nothing.
pub proof fn lemma_folded_none(f: Counts, floor: int, hi: int)
    requires
        bottom() <= floor,
        within(f, floor, hi),
    ensures
        folded(f, floor) =~= f,
{
    assert forall|i: int| #[trigger] folded(f, floor)(i) == f(i) by {
        if i == floor {
            lemma_total_zero(f, bottom(), floor);
        } else if i < floor {
            assert(f(i) == 0);
        }
    }
}

/// An observation at or below the floor may be recorded at the floor.
pub proof fn lemma_folded_plus(f: Counts, floor: int, at: int, n: nat)
    requires
        bottom() <= floor,
        bottom() <= at,
    ensures
        folded(plus(f, at, n), floor) =~= plus(folded(f, floor), if at < floor { floor } else { at }, n),
{
    lemma_total_plus(f, at, n, bottom(), floor + 1);
}

/// Adding the same observations in either order gives the same histogram.
pub proof fn lemma_plus_commutes(f: Counts, a: int, m: nat, b: int, n: nat)
    ensures
        plus(plus(f, a, m), b, n) =~= plus(plus(f, b, n), a, m),
{
}

} // verus!
