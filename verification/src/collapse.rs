//! Rebuilding a window so that the largest buckets keep their resolution.
//!
//! When the buckets no longer fit a pool of `N` words, the words below a floor are folded into
//! the lowest bucket that is kept. Wider counters leave room for fewer buckets, which raises the
//! floor and may ask for still wider counters; the narrowest width that fits is chosen.

use crate::counts::{
    bottom, both, folded, lemma_folded_plus, lemma_total_le, lemma_total_member, lemma_total_wider,
    lemma_total_zero, plus, top, total, within, Counts,
};
use crate::width::{
    capacity, first_slot, in_range, lanes, lemma_first_slot_mono, lemma_lanes, lemma_level_for,
    lemma_word_bracket, lemma_word_of, lemma_word_range, word_of, Width,
};
use crate::window::{reach, Window};
use vstd::prelude::*;

verus! {

/// First bucket of the word that holds `slot`.
pub open spec fn aligned(slot: int, k: nat) -> int {
    first_slot(word_of(slot, k), k)
}

/// Lowest bucket that `n` words of `2^k`-bit counters keep when their last word holds `high`,
/// but not below the word of `keep`.
pub open spec fn floor_slot(high: int, k: nat, n: int, keep: int) -> int {
    let a = first_slot(word_of(high, k) - (n - 1), k);
    if a >= aligned(keep, k) {
        a
    } else {
        aligned(keep, k)
    }
}

/// Counters of `2^k` bits hold every bucket above `floor`, and the sum of all others.
pub open spec fn fits(h: Counts, floor: int, k: nat) -> bool {
    &&& total(h, bottom(), floor + 1) <= capacity(k)
    &&& forall|i: int| i > floor ==> #[trigger] h(i) <= capacity(k)
}

/// `k` is the narrowest width, from `from` up, for which the buckets fit after folding.
pub open spec fn narrowest(h: Counts, high: int, n: int, keep: int, from: nat, k: nat) -> bool {
    &&& from <= k <= 6
    &&& fits(h, floor_slot(high, k, n, keep), k)
    &&& forall|j: nat| from <= j < k ==> !#[trigger] fits(h, floor_slot(high, j, n, keep), j)
}

/// Alignment is finer for wider counters.
pub proof fn lemma_aligned_mono(slot: int, j: nat, k: nat)
    requires
        j <= k <= 6,
    ensures
        aligned(slot, j) <= aligned(slot, k) <= slot,
    decreases k - j,
{
    lemma_word_of(slot, k);
    if j < k {
        lemma_aligned_mono(slot, j, (k - 1) as nat);
        lemma_lanes((k - 1) as nat);
        lemma_lanes(k);
        let w = word_of(slot, (k - 1) as nat);
        lemma_word_of(slot, (k - 1) as nat);
        let d = lanes(k);
        assert(w * (2 * d) == (2 * w) * d) by (nonlinear_arith);
        lemma_word_bracket(slot, 2 * w, k);
        lemma_first_slot_mono(2 * w, word_of(slot, k), k);
    }
}

/// An aligned bucket stays aligned for wider counters.
pub proof fn lemma_aligned_stable(word: int, j: nat, k: nat)
    requires
        j <= k <= 6,
    ensures
        aligned(first_slot(word, j), k) == first_slot(word, j),
{
    let s = first_slot(word, j);
    lemma_word_bracket(s, word, j);
    lemma_aligned_mono(s, j, k);
}

/// Wider counters never lower the floor.
pub proof fn lemma_floor_mono(high: int, n: int, keep: int, j: nat, k: nat)
    requires
        j <= k <= 6,
        n >= 1,
    ensures
        floor_slot(high, j, n, keep) <= floor_slot(high, k, n, keep),
{
    lemma_aligned_mono(high, j, k);
    lemma_aligned_mono(keep, j, k);
    lemma_lanes_mono(j, k);
    lemma_back_off(word_of(high, j), n - 1, j);
    lemma_back_off(word_of(high, k), n - 1, k);
    let a = lanes(j);
    let b = lanes(k);
    assert((n - 1) * a >= (n - 1) * b) by (nonlinear_arith)
        requires
            n >= 1,
            a >= b,
    ;
}

/// Words hold no more buckets when the counters are wider.
pub proof fn lemma_lanes_mono(j: nat, k: nat)
    requires
        j <= k <= 6,
    ensures
        lanes(j) >= lanes(k),
{
}

/// Stepping back `m` words steps back `m` times the buckets of a word.
pub proof fn lemma_back_off(word: int, m: int, k: nat)
    ensures
        first_slot(word - m, k) == first_slot(word, k) - m * lanes(k),
{
    let d = lanes(k);
    assert((word - m) * d == word * d - m * d) by (nonlinear_arith);
}

/// If width `k` is too narrow then so is every width whose counters do not hold what `k` folds
/// or keeps.
pub proof fn lemma_too_narrow(h: Counts, high: int, n: int, keep: int, k: nat, j: nat, at: int)
    requires
        k <= j <= 6,
        n >= 1,
        bottom() <= floor_slot(high, k, n, keep),
        total(h, bottom(), floor_slot(high, k, n, keep) + 1) > capacity(j) || (at > floor_slot(
            high,
            k,
            n,
            keep,
        ) && h(at) > capacity(j)),
    ensures
        !fits(h, floor_slot(high, j, n, keep), j),
{
    let fk = floor_slot(high, k, n, keep);
    let fj = floor_slot(high, j, n, keep);
    lemma_floor_mono(high, n, keep, k, j);
    if total(h, bottom(), fk + 1) > capacity(j) {
        lemma_total_wider(h, bottom(), fk + 1, bottom(), fj + 1);
    } else if at <= fj {
        lemma_total_member(h, bottom(), fj + 1, at);
    }
}

/// Counts of the buckets below `s` only.
pub open spec fn upto(h: Counts, s: int) -> Counts {
    |i: int|
        if i < s {
            h(i)
        } else {
            0
        }
}

/// The count of bucket `slot` in two windows together.
fn joint_count<const N: usize, const M: usize>(
    a: &Window<N>,
    b: &Window<M>,
    slot: i32,
) -> (r: u64)
    requires
        a.wf(),
        b.wf(),
        both(a.counts(), b.counts())(slot as int) <= u64::MAX,
    ensures
        r == both(a.counts(), b.counts())(slot as int),
{
    a.get(slot) + b.get(slot)
}

/// What the buckets of two windows amount to below, at and above a floor.
struct Weights {
    at_or_below: u64,
    above_max: u64,
    below: bool,
}

/// Weighs the buckets `lo..=high` of two windows against the floor `low`.
fn weigh<const N: usize, const M: usize>(
    a: &Window<N>,
    b: &Window<M>,
    lo: i32,
    high: i32,
    low: i32,
) -> (r: (Weights, Ghost<int>))
    requires
        a.wf(),
        b.wf(),
        -reach() <= lo <= high < reach(),
        within(both(a.counts(), b.counts()), lo as int, high + 1),
        total(both(a.counts(), b.counts()), bottom(), top()) <= u64::MAX,
        -reach() <= low <= high,
    ensures
        ({
            let h = both(a.counts(), b.counts());
            &&& r.0.at_or_below == total(h, bottom(), low + 1)
            &&& r.0.below <==> total(h, bottom(), low as int) > 0
            &&& forall|i: int| i > low ==> #[trigger] h(i) <= r.0.above_max
            &&& r.0.above_max > 0 ==> r.1@ > low && h(r.1@) == r.0.above_max
        }),
{
    let ghost h = both(a.counts(), b.counts());
    let mut at_or_below: u64 = 0;
    let mut above_max: u64 = 0;
    let mut below: bool = false;
    let ghost mut peak: int = 0;
    let mut s: i32 = lo;
    proof {
        lemma_total_within_floor(h, lo as int, lo as int);
        lemma_total_within_floor(h, lo as int, low + 1);
        lemma_total_within_floor(h, lo as int, low as int);
    }
    while s <= high
        invariant
            a.wf(),
            b.wf(),
            h == both(a.counts(), b.counts()),
            -reach() <= lo <= s <= high + 1,
            high < reach(),
            -reach() <= low <= high,
            total(h, bottom(), top()) <= u64::MAX,
            at_or_below == total(h, bottom(), if s <= low {
                s as int
            } else {
                low + 1
            }),
            below <==> total(h, bottom(), if s <= low {
                s as int
            } else {
                low as int
            }) > 0,
            forall|i: int| low < i < s ==> #[trigger] h(i) <= above_max,
            above_max > 0 ==> low < peak < s && h(peak) == above_max,
            within(h, lo as int, high + 1),
            s > low ==> total(h, bottom(), low + 1) == at_or_below,
        decreases high + 1 - s,
    {
        proof {
            lemma_total_member(h, bottom(), top(), s as int);
            lemma_total_wider(h, bottom(), s + 1, bottom(), top());
        }
        let c = joint_count(a, b, s);
        if s <= low {
            at_or_below = at_or_below + c;
            if s < low && c != 0 {
                below = true;
            }
        } else if c > above_max {
            above_max = c;
            proof {
                peak = s as int;
            }
        }
        s = s + 1;
    }
    proof {
        assert forall|i: int| i > low implies #[trigger] h(i) <= above_max by {
            if i >= s {
                assert(h(i) == 0);
            }
        }
    }
    (Weights { at_or_below, above_max, below }, Ghost(peak))
}

/// Below its support a function sums to nothing.
proof fn lemma_total_within_floor(h: Counts, lo: int, s: int)
    requires
        forall|i: int| i < lo ==> #[trigger] h(i) == 0,
    ensures
        s <= lo ==> total(h, bottom(), s) == 0,
{
    if s <= lo {
        lemma_total_zero(h, bottom(), s);
    }
}

/// Copies the buckets `lo..=high` of two windows into an empty window, those below its first
/// bucket into that bucket.
fn scatter<const N: usize, const M: usize>(
    a: &Window<N>,
    b: &Window<M>,
    lo: i32,
    high: i32,
    target: Window<N>,
) -> (r: Window<N>)
    requires
        a.wf(),
        b.wf(),
        target.wf(),
        target.counts() == crate::counts::no_counts(),
        -reach() <= lo <= high < reach(),
        within(both(a.counts(), b.counts()), lo as int, high + 1),
        total(both(a.counts(), b.counts()), bottom(), top()) <= u64::MAX,
        target.low() <= high < target.high(),
        fits(both(a.counts(), b.counts()), target.low(), target.width.level()),
    ensures
        r.wf(),
        r.width == target.width,
        r.base == target.base,
        r.start == target.start,
        r.end == target.end,
        r.counts() == folded(both(a.counts(), b.counts()), target.low()),
{
    let ghost h = both(a.counts(), b.counts());
    let ghost floor = target.low();
    let ghost k = target.width.level();
    let mut window = target;
    let low = window.low_slot();
    let mut s: i32 = lo;
    proof {
        assert forall|i: int| #[trigger] folded(upto(h, lo as int), floor)(i) == 0 by {
            if i == floor {
                assert forall|j: int| bottom() <= j < floor + 1 implies #[trigger] upto(
                    h,
                    lo as int,
                )(j) == 0 by {
                    if j < lo {
                        assert(h(j) == 0);
                    }
                }
                lemma_total_zero(upto(h, lo as int), bottom(), floor + 1);
            } else if i < lo {
                assert(h(i) == 0);
            }
        }
        assert(window.counts() =~= folded(upto(h, lo as int), floor));
    }
    while s <= high
        invariant
            a.wf(),
            b.wf(),
            window.wf(),
            window.width == target.width,
            window.base == target.base,
            window.start == target.start,
            window.end == target.end,
            h == both(a.counts(), b.counts()),
            k == target.width.level(),
            floor == target.low(),
            floor == window.low(),
            low == floor,
            -reach() <= floor,
            -reach() <= lo <= s <= high + 1,
            high < reach(),
            high < window.high(),
            total(h, bottom(), top()) <= u64::MAX,
            fits(h, floor, k),
            window.counts() == folded(upto(h, s as int), floor),
            floor <= high,
        decreases high + 1 - s,
    {
        proof {
            lemma_total_member(h, bottom(), top(), s as int);
        }
        let c = joint_count(a, b, s);
        let dest: i32 = if s < low {
            low
        } else {
            s
        };
        proof {
            let g = upto(h, s as int);
            let g2 = upto(h, s + 1);
            assert(g2 =~= plus(g, s as int, c as nat));
            lemma_folded_plus(g, floor, s as int, c as nat);
            // The destination has room: it never holds more than in the complete result.
            if s <= floor {
                lemma_total_le(g2, h, bottom(), floor + 1);
                assert(folded(g2, floor)(floor) <= capacity(k));
            } else {
                assert(folded(g2, floor)(s as int) == h(s as int));
            }
            window.lemma_covers(dest as int);
        }
        window.write_add(dest, c);
        s = s + 1;
    }
    proof {
        let g = upto(h, s as int);
        assert forall|i: int| #[trigger] g(i) == h(i) by {
            if i >= s {
                assert(h(i) == 0);
            }
        }
        assert(g =~= h);
    }
    window
}

/// Rebuilds the union of two windows in `N` words whose last word holds `high`.
///
/// Buckets below the floor are folded into it; the flag reports whether any were. The counters
/// are the narrowest that fit, but no narrower than `want`.
#[verifier::rlimit(60)]
#[verifier::spinoff_prover]
pub fn rebuild<const N: usize, const M: usize>(
    a: &Window<N>,
    b: &Window<M>,
    lo: i32,
    high: i32,
    keep: Option<i32>,
    want: Width,
) -> (r: (Window<N>, bool))
    requires
        a.wf(),
        b.wf(),
        -reach() <= lo <= high,
        in_range(high as int),
        within(both(a.counts(), b.counts()), lo as int, high + 1),
        total(both(a.counts(), b.counts()), bottom(), top()) <= u64::MAX,
        keep.is_some() ==> -reach() <= keep.unwrap() <= high && aligned(
            keep.unwrap() as int,
            want.level(),
        ) == keep.unwrap(),
    ensures
        ({
            let h = both(a.counts(), b.counts());
            let floor_at = if keep.is_some() {
                keep.unwrap() as int
            } else {
                bottom()
            };
            let k = r.0.width.level();
            let floor = floor_slot(high as int, k, N as int, floor_at);
            &&& r.0.wf()
            &&& narrowest(h, high as int, N as int, floor_at, want.level(), k)
            &&& r.0.low() == floor
            &&& r.0.base == r.0.start
            &&& r.0.end == word_of(high as int, k)
            &&& r.0.counts() == folded(h, floor)
            &&& r.1 <==> total(h, bottom(), floor) > 0
            &&& floor <= high
        }),
{
    let ghost h = both(a.counts(), b.counts());
    let ghost floor_at = if keep.is_some() {
        keep.unwrap() as int
    } else {
        bottom()
    };
    let n: i32 = N as i32;
    let mut w = want;
    loop
        invariant
            a.wf(),
            b.wf(),
            1 <= N <= 250,
            n == N,
            h == both(a.counts(), b.counts()),
            -reach() <= lo <= high,
            in_range(high as int),
            within(h, lo as int, high + 1),
            total(h, bottom(), top()) <= u64::MAX,
            keep.is_some() ==> -reach() <= keep.unwrap() <= high && aligned(
                keep.unwrap() as int,
                want.level(),
            ) == keep.unwrap(),
            floor_at == if keep.is_some() {
                keep.unwrap() as int
            } else {
                bottom()
            },
            want.level() <= w.level(),
            forall|j: nat|
                want.level() <= j < w.level() ==> !#[trigger] fits(
                    h,
                    floor_slot(high as int, j, N as int, floor_at),
                    j,
                ),
        decreases 6 - w.level(),
    {
        let ghost k = w.level();
        let end = w.slot_to_word_index(high);
        proof {
            lemma_word_range(high as int, k);
        }
        let mut start: i32 = end - (n - 1);
        if let Some(f) = keep {
            let fw = w.slot_to_word_index(f);
            proof {
                lemma_word_bracket(f as int, word_of(high as int, k), k);
                lemma_word_of(high as int, k);
                lemma_first_slot_mono(word_of(f as int, k), word_of(high as int, k), k);
                lemma_word_bracket(high as int, word_of(f as int, k), k);
                lemma_word_of(f as int, k);
            }
            if fw > start {
                start = fw;
            }
        }
        proof {
            lemma_window_place(high as int, k, N as int, floor_at, start as int, keep.is_some());
        }
        let low = w.word_to_slot_index(start);
        let (weights, Ghost(peak)) = weigh(a, b, lo, high, low);
        let heavy: u64 = if weights.at_or_below >= weights.above_max {
            weights.at_or_below
        } else {
            weights.above_max
        };
        let need = w.wider_of(Width::from_max_value(heavy));
        proof {
            lemma_level_for(heavy as nat, k);
        }
        if need.log2() == w.log2() {
            let target = Window::spanning(w, start, end);
            let window = scatter(a, b, lo, high, target);
            return (window, weights.below);
        }
        proof {
            assert forall|j: nat| want.level() <= j < need.level() implies !#[trigger] fits(
                h,
                floor_slot(high as int, j, N as int, floor_at),
                j,
            ) by {
                if j >= k {
                    lemma_level_for(heavy as nat, j);
                    lemma_too_narrow(h, high as int, N as int, floor_at, k, j, peak);
                }
            }
        }
        w = need;
    }
}

/// The window that ends in the word of `high` and starts at `start` is in reach, and its first
/// bucket is the floor.
proof fn lemma_window_place(high: int, k: nat, n: int, keep: int, start: int, kept: bool)
    requires
        k <= 6,
        1 <= n <= 250,
        in_range(high),
        kept ==> -reach() <= keep <= high,
        !kept ==> keep == bottom(),
        start == if kept && word_of(keep, k) > word_of(high, k) - (n - 1) {
            word_of(keep, k)
        } else {
            word_of(high, k) - (n - 1)
        },
    ensures
        -reach() <= start <= word_of(high, k) < reach(),
        word_of(high, k) - start < n,
        first_slot(start, k) == floor_slot(high, k, n, keep),
        -reach() <= first_slot(start, k) <= high,
        high < first_slot(word_of(high, k) + 1, k) <= reach(),
{
    lemma_word_range(high, k);
    lemma_word_of(high, k);
    lemma_word_of(keep, k);
    lemma_lanes(k);
    let e = word_of(high, k);
    let f = word_of(keep, k);
    if kept {
        lemma_word_bracket(high, f, k);
        lemma_first_slot_mono(f, e, k);
    }
    lemma_back_off(e, n - 1, k);
    let d = lanes(k);
    assert(0 <= (n - 1) * d <= 249 * 64) by (nonlinear_arith)
        requires
            1 <= n <= 250,
            1 <= d <= 64,
    ;
    if f > e - (n - 1) {
        lemma_first_slot_mono(e - (n - 1), f, k);
    } else {
        lemma_first_slot_mono(f, e - (n - 1), k);
    }
}

} // verus!
