//! Canonical report of a histogram: its statistics and its buckets as plain values.

use crate::counts::no_counts;
use crate::float64::{
    biased, get_biased_exponent, is_zero, least, max_of, min_of, negative, zero, MIN_VALUE,
};
use crate::histogram::{lemma_lowest_unique, recorded, BucketView, Histogram};
use crate::pn::HistogramPN;
use crate::stats::{Error, Stats};
use crate::width::{lanes, Width};
use crate::window::{is_highest, is_lowest};
use vstd::prelude::*;

verus! {

/// Number of words in the pool of a reported histogram.
pub const POOL_WORDS: u32 = 250;

/// Chooses the widest counters for which a pool of [`POOL_WORDS`] words has at least `size`
/// counters, 1-bit counters if there are none.
pub fn select_min_width(size: u32) -> (r: Width)
    ensures
        size <= POOL_WORDS * r.slots() || r is B1,
        forall|k: nat| r.level() < k <= 6 ==> size > POOL_WORDS * #[trigger] lanes(k),
{
    if size <= 250 {
        Width::U64
    } else if size <= 500 {
        Width::U32
    } else if size <= 1000 {
        Width::U16
    } else if size <= 2000 {
        Width::U8
    } else if size <= 4000 {
        Width::B4
    } else if size <= 8000 {
        Width::B2
    } else {
        Width::B1
    }
}

/// Canonical pattern of a value: both zeros become positive zero.
pub fn normalize_zero(bits: u64) -> (r: u64)
    ensures
        r == if zero(bits) {
            0
        } else {
            bits
        },
{
    if is_zero(bits) {
        0
    } else {
        bits
    }
}

/// Raises a subnormal value to the smallest normal value of the same sign.
pub fn normalize_subnormal(bits: u64) -> (r: u64)
    ensures
        r == if biased(bits) == 0 && !zero(bits) {
            if negative(bits) {
                (MIN_VALUE + 0x8000_0000_0000_0000) as u64
            } else {
                MIN_VALUE
            }
        } else {
            bits
        },
{
    if get_biased_exponent(bits) == 0 && !is_zero(bits) {
        if bits >= 0x8000_0000_0000_0000 {
            MIN_VALUE + 0x8000_0000_0000_0000
        } else {
            MIN_VALUE
        }
    } else {
        bits
    }
}

/// Value of a hexadecimal digit, or `None` for any other byte.
pub open spec fn digit(b: u8) -> Option<nat> {
    if 0x30 <= b <= 0x39 {
        Some((b - 0x30) as nat)
    } else if 0x61 <= b <= 0x66 {
        Some((b - 0x61 + 10) as nat)
    } else if 0x41 <= b <= 0x46 {
        Some((b - 0x41 + 10) as nat)
    } else {
        None
    }
}

/// Upper and lower case digits are alike, and a byte has the value of the digit that it prints as.
pub proof fn law_digits(b: u8)
    ensures
        digit(b).is_some() <==> 0x30 <= b <= 0x39 || 0x41 <= b <= 0x46 || 0x61 <= b <= 0x66,
        digit(b).is_some() ==> digit(b).unwrap() < 16,
        digit(0x30) == Some(0nat) && digit(0x41) == Some(10nat),
        0x41 <= b <= 0x46 ==> digit(b) == digit((b + 0x20) as u8),
        0x30 <= b < 0x39 || 0x41 <= b < 0x46 ==> digit((b + 1) as u8) == Some(
            digit(b).unwrap() + 1,
        ),
{
}

/// Number that a row of hexadecimal digits stands for, or `None` if a byte is no digit.
pub open spec fn hex_value(s: Seq<u8>) -> Option<nat>
    decreases s.len(),
{
    if s.len() == 0 {
        Some(0)
    } else {
        match (hex_value(s.drop_last()), digit(s.last())) {
            (Some(high), Some(low)) => Some(high * 16 + low),
            _ => None,
        }
    }
}

/// The digits of a number, which may follow a plus sign.
pub open spec fn digits_of(s: Seq<u8>) -> Seq<u8> {
    if s.len() > 1 && s[0] == 0x2b {
        s.skip(1)
    } else {
        s
    }
}

/// One plus sign before at least one byte is no digit; anything else is left as it is.
pub proof fn law_digits_of(s: Seq<u8>)
    ensures
        s.len() > 0 ==> digits_of(seq![0x2bu8] + s) == s,
        s.len() == 0 || s[0] != 0x2b ==> digits_of(s) == s,
        digits_of(seq![0x2bu8]) == seq![0x2bu8],
{
    assert((seq![0x2bu8] + s).skip(1) =~= s);
}

/// Hexadecimal digits are worth sixteen times as much for each digit that follows.
pub proof fn law_hex_value(a: Seq<u8>, b: u8)
    ensures
        hex_value(a.push(b)).is_some() <==> hex_value(a).is_some() && digit(b).is_some(),
        hex_value(a.push(b)).is_some() ==> hex_value(a.push(b)).unwrap() == 16 * hex_value(
            a,
        ).unwrap() + digit(b).unwrap(),
        hex_value(Seq::empty()) == Some(0nat),
{
    assert(a.push(b).drop_last() =~= a);
}

fn hex_digit(b: u8) -> (r: Option<u64>)
    ensures
        r.is_some() <==> digit(b).is_some(),
        r.is_some() ==> r.unwrap() == digit(b).unwrap() && r.unwrap() < 16,
{
    if 0x30 <= b && b <= 0x39 {
        Some((b - 0x30) as u64)
    } else if 0x61 <= b && b <= 0x66 {
        Some((b - 0x61 + 10) as u64)
    } else if 0x41 <= b && b <= 0x46 {
        Some((b - 0x41 + 10) as u64)
    } else {
        None
    }
}

/// A longer row of digits stands for no smaller number.
proof fn lemma_hex_prefix(s: Seq<u8>, k: int)
    requires
        0 <= k <= s.len(),
        hex_value(s).is_some(),
    ensures
        hex_value(s.take(k)).is_some(),
        hex_value(s.take(k)).unwrap() <= hex_value(s).unwrap(),
    decreases s.len(),
{
    if k == s.len() {
        assert(s.take(k) =~= s);
    } else {
        lemma_hex_prefix(s.drop_last(), k);
        assert(s.drop_last().take(k) =~= s.take(k));
    }
}

/// Parses the hexadecimal pattern of a value. Returns `None` for an empty row, for a byte that is
/// no digit, and for a number that exceeds 64 bits.
pub fn parse_hex(text: &[u8]) -> (r: Option<u64>)
    ensures
        r.is_some() <==> digits_of(text@).len() > 0 && hex_value(digits_of(text@)).is_some()
            && hex_value(digits_of(text@)).unwrap() <= u64::MAX,
        r.is_some() ==> r.unwrap() == hex_value(digits_of(text@)).unwrap(),
{
    let n = text.len();
    if n == 0 {
        return None;
    }
    let start: usize = if n > 1 && text[0] == 0x2b {
        1
    } else {
        0
    };
    let ghost s = digits_of(text@);
    let mut i: usize = start;
    let mut value: u64 = 0;
    assert(s.take(0) =~= Seq::empty());
    while i < n
        invariant
            n == text@.len(),
            start <= i <= n,
            start <= 1,
            s.len() == n - start,
            s.len() > 0,
            s == digits_of(text@),
            forall|j: int| 0 <= j < s.len() ==> #[trigger] s[j] == text@[j + start],
            hex_value(s.take(i - start)) == Some(value as nat),
        decreases n - i,
    {
        let ghost k = i - start;
        proof {
            assert(s.take(k + 1).drop_last() =~= s.take(k));
            assert(s.take(k + 1).last() == text@[i as int]);
            if hex_value(s).is_some() {
                lemma_hex_prefix(s, k + 1);
            }
        }
        match hex_digit(text[i]) {
            None => {
                return None;
            },
            Some(d) => {
                if value > 0xfff_ffff_ffff_ffff {
                    return None;
                }
                value = value * 16 + d;
            },
        }
        i = i + 1;
    }
    assert(s.take(s.len() as int) =~= s);
    Some(value)
}

/// A run of buckets.
#[derive(Debug)]
pub struct Run {
    /// Index of the first bucket, 0 when there is none.
    pub offset: i32,
    /// Counts of the buckets.
    pub counts: Vec<u64>,
}

/// `run` lists the buckets of a histogram from the first to the last one with a count.
pub open spec fn lists<const N: usize>(run: Run, hist: Histogram<N>) -> bool {
    if hist.counts() == no_counts() {
        run.offset == 0 && run.counts@.len() == 0
    } else {
        &&& is_lowest(hist.counts(), run.offset as int)
        &&& is_highest(hist.counts(), run.offset + run.counts@.len() - 1)
        &&& forall|j: int|
            0 <= j < run.counts@.len() ==> #[trigger] run.counts@[j] == hist.counts()(
                run.offset + j,
            )
    }
}

fn list<const N: usize>(view: &BucketView<'_, N>) -> (r: Run)
    requires
        view.of().wf(),
    ensures
        lists(r, view.of()),
{
    let offset = view.offset();
    let mut counts: Vec<u64> = Vec::new();
    let mut it = view.iter();
    let total_len = it.len();
    proof {
        if view.of().counts() != no_counts() {
            lemma_lowest_unique(view.of().counts(), offset as int);
            lemma_lowest_unique(view.of().counts(), it.position());
        }
    }
    while counts.len() < total_len
        invariant
            it.wf(),
            it.of() == view.of(),
            counts@.len() <= total_len,
            it.left() == total_len - counts@.len(),
            it.position() == offset + counts@.len(),
            forall|j: int|
                0 <= j < counts@.len() ==> #[trigger] counts@[j] == view.of().counts()(offset + j),
        decreases total_len - counts@.len(),
    {
        match it.next() {
            Some(c) => {
                counts.push(c);
            },
            None => {},
        }
    }
    Run { offset, counts }
}

/// Everything that is reported of a histogram.
#[derive(Debug)]
pub struct Report {
    /// Scale, 0 when no non-zero value was recorded.
    pub scale: i32,
    /// Total number of observations.
    pub count: u64,
    /// Sum of all values.
    pub sum: u64,
    /// Smallest value.
    pub min: u64,
    /// Largest value.
    pub max: u64,
    /// Number of zero observations.
    pub zero_count: u64,
    /// Positive buckets.
    pub positive: Run,
    /// Negative buckets.
    pub negative: Run,
}

/// Smallest and largest value of a histogram of which zeros are observations like any other.
pub open spec fn extremes(stats: Stats, zero_count: u64) -> (u64, u64) {
    if stats.count == 0 {
        (0, 0)
    } else if zero_count > 0 {
        (least(0, stats.min), crate::float64::greatest(0, stats.max))
    } else {
        (stats.min, stats.max)
    }
}

/// The reported extremes bound all values: those that the histogram keeps the extremes of, and zero
/// once a zero was counted. Each is one of them.
pub proof fn law_extremes(stats: Stats, zero_count: u64)
    ensures
        ({
            let (min, max) = extremes(stats, zero_count);
            &&& stats.count == 0 ==> min == 0 && max == 0
            &&& stats.count > 0 && zero_count == 0 ==> min == stats.min && max == stats.max
            &&& stats.count > 0 && zero_count > 0 ==> {
                &&& crate::stats_laws::lesser(min, 0, stats.min)
                &&& crate::stats_laws::greater(max, 0, stats.max)
            }
        }),
{
}

/// A value with both zeros as positive zero.
pub open spec fn canonical(bits: u64) -> u64 {
    if zero(bits) {
        0
    } else {
        bits
    }
}

/// Records one value and keeps count of the zeros among the values that were accepted; `sum` is
/// the new sum of all observed values.
///
/// # Errors
///
/// Returns [`Error::Overflow`] if the total count would exceed `u64::MAX`, and
/// [`Error::Extreme`] if the value is NaN, infinite or negative.
pub fn feed_nn<const N: usize>(
    hist: &mut Histogram<N>,
    zero_count: &mut u64,
    bits: u64,
    sum: u64,
) -> (r: Result<(), Error>)
    requires
        old(hist).wf(),
        *old(zero_count) <= old(hist).stats_of().count,
    ensures
        recorded(*old(hist), *final(hist), bits, 1, sum, r),
        *final(zero_count) == *old(zero_count) + if r.is_ok() && zero(bits) {
            1int
        } else {
            0
        },
        *final(zero_count) <= final(hist).stats_of().count,
{
    let r = hist.update(bits, sum);
    if r.is_ok() && is_zero(bits) {
        *zero_count = *zero_count + 1;
    }
    r
}

/// Reports a histogram of non-negative values that counted `zero_count` zeros.
pub fn report_nn<const N: usize>(hist: &Histogram<N>, zero_count: u64) -> (r: Report)
    requires
        hist.wf(),
    ensures
        r.scale == if hist.counts() == no_counts() {
            0
        } else {
            hist.scale_of()
        },
        r.count == hist.stats_of().count,
        r.sum == canonical(hist.stats_of().sum),
        ({
            let stats = if hist.counts() == no_counts() {
                (Stats { min: 0, max: 0, ..hist.stats_of() })
            } else {
                hist.stats_of()
            };
            &&& r.min == canonical(extremes(stats, zero_count).0)
            &&& r.max == canonical(extremes(stats, zero_count).1)
        }),
        r.zero_count == zero_count,
        lists(r.positive, *hist),
        r.negative.offset == 0,
        r.negative.counts@.len() == 0,
{
    let view = hist.view();
    let stats = view.stats();
    let (min, max) = if stats.count == 0 {
        (0, 0)
    } else if zero_count > 0 {
        (min_of(0, stats.min), max_of(0, stats.max))
    } else {
        (stats.min, stats.max)
    };
    Report {
        scale: view.scale(),
        count: stats.count,
        sum: normalize_zero(stats.sum),
        min: normalize_zero(min),
        max: normalize_zero(max),
        zero_count,
        positive: list(&view.positive()),
        negative: Run { offset: 0, counts: Vec::new() },
    }
}

/// Reports a histogram of values of either sign.
pub fn report_pn<const K: usize, const L: usize>(hist: &HistogramPN<K, L>) -> (r: Report)
    requires
        hist.wf(),
    ensures
        r.scale == if hist.ranges().0.counts() == no_counts() && hist.ranges().1.counts()
            == no_counts() {
            0
        } else {
            hist.scale_of()
        },
        // The scale of each range that holds a count.
        hist.ranges().0.counts() != no_counts() ==> r.scale == hist.ranges().0.scale_of(),
        hist.ranges().1.counts() != no_counts() ==> r.scale == hist.ranges().1.scale_of(),
        r.count == hist.reported().count,
        r.sum == canonical(hist.reported().sum),
        r.min == canonical(hist.reported().min),
        r.max == canonical(hist.reported().max),
        r.zero_count == hist.zeros(),
        lists(r.positive, hist.ranges().0),
        lists(r.negative, hist.ranges().1),
{
    let view = hist.view();
    let stats = view.stats();
    Report {
        scale: view.scale(),
        count: stats.count,
        sum: normalize_zero(stats.sum),
        min: normalize_zero(stats.min),
        max: normalize_zero(stats.max),
        zero_count: view.zero_count(),
        positive: list(&view.positive()),
        negative: list(&view.negative()),
    }
}

} // verus!
