use otel_expohisto::boundary::Boundary;
use otel_expohisto::logarithm::inverse_factor;
use otel_expohisto::mapping::{Scale, ScaleError, MIN_SCALE};
use otel_expohisto::lookup::TABLE_SCALE;
use otel_expohisto::sketch::Sketch as BitSketch;
use otel_expohisto::sketch_view::Rank;
use otel_expohisto::stats::Error;
use otel_expohisto::width::Width;
use rand::rngs::StdRng;
use rand::SeedableRng;
use rand_distr::{Distribution, Uniform};

/// Statistics in floating point.
struct Stats {
    count: u64,
    sum: f64,
    min: f64,
    max: f64,
}

/// Buckets as they were when the view was taken.
struct BucketView {
    offset: i32,
    counts: Vec<u64>,
}

impl BucketView {
    fn offset(&self) -> i32 {
        self.offset
    }

    fn len(&self) -> u32 {
        self.counts.len() as u32
    }

    fn is_empty(&self) -> bool {
        self.counts.is_empty()
    }

    fn iter(&self) -> std::iter::Copied<std::slice::Iter<'_, u64>> {
        self.counts.iter().copied()
    }

    fn into_iter(&self) -> std::iter::Copied<std::slice::Iter<'_, u64>> {
        self.iter()
    }
}

/// A sketch as it was when the view was taken.
struct View<const N: usize>(BitSketch<N>);

impl<const N: usize> View<N> {
    fn scale(&self) -> i32 {
        self.0.view().scale()
    }

    fn stats(&self) -> Stats {
        let stats = self.0.view().stats();
        Stats {
            count: stats.count,
            sum: f64::from_bits(stats.sum),
            min: f64::from_bits(stats.min),
            max: f64::from_bits(stats.max),
        }
    }

    fn zero_count(&self) -> u64 {
        self.0.view().zero_count()
    }

    fn collapsed(&self) -> bool {
        self.0.view().collapsed()
    }

    fn underflow_count(&self) -> u64 {
        self.0.view().underflow_count()
    }

    fn positive(&self) -> BucketView {
        let view = self.0.view();
        let buckets = view.positive();
        let mut counts = Vec::new();
        let mut cursor = buckets.iter();
        while let Some(count) = cursor.next() {
            counts.push(count);
        }
        assert_eq!(counts.len(), buckets.len() as usize);
        assert_eq!(counts.is_empty(), buckets.is_empty());
        BucketView { offset: buckets.offset(), counts }
    }
}

/// The value of a lower boundary.
fn boundary_value(scale: i32, index: i32) -> Result<f64, ScaleError> {
    let power = |n: i32| (f64::from_bits(inverse_factor(scale)) * n as f64).exp();
    Scale::new(scale).unwrap().lower_boundary(index).map(|b| match b {
        Boundary::Exact(bits) => f64::from_bits(bits),
        Boundary::Exp(n) => power(n),
        Boundary::ExpDoubled(n) => 2.0 * power(n),
        Boundary::ExpHalved(n) => power(n) / 2.0,
    })
}

/// Bit patterns of the relative errors of all scales.
fn relative_errors() -> Vec<u64> {
    (MIN_SCALE..=TABLE_SCALE)
        .map(|s| {
            let b = (-(s as f64)).exp2().exp2();
            let alpha = if b.is_finite() { (b - 1.0) / (b + 1.0) } else { 1.0 };
            alpha.to_bits()
        })
        .collect()
}

/// The least rank that is not below `target`.
fn rank_of(target: f64) -> u64 {
    let mut rank = target.ceil() as u64;
    while rank > 0 && (rank - 1) as f64 >= target {
        rank -= 1;
    }
    rank
}

/// A sketch that is fed floating-point values.
#[derive(Debug, Clone)]
struct Sketch<const N: usize>(BitSketch<N>);

impl<const N: usize> Sketch<N> {
    fn new() -> Self {
        Sketch(BitSketch::new())
    }

    fn with_scale(self, scale: i32) -> Result<Self, ScaleError> {
        self.0.with_scale(scale).map(Sketch)
    }

    fn with_relative_error(self, target: f64) -> Result<Self, ScaleError> {
        self.0.with_relative_error(target.to_bits(), &relative_errors()).map(Sketch)
    }

    fn scale(&self) -> i32 {
        self.0.scale()
    }

    fn width(&self) -> Width {
        self.0.width()
    }

    fn word_base(&self) -> i32 {
        self.0.word_base()
    }

    fn word_start(&self) -> i32 {
        self.0.word_start()
    }

    fn word_end(&self) -> i32 {
        self.0.word_end()
    }

    fn count(&self) -> u64 {
        self.0.count()
    }

    fn sum(&self) -> f64 {
        f64::from_bits(self.0.sum())
    }

    fn min(&self) -> f64 {
        f64::from_bits(self.0.min())
    }

    fn max(&self) -> f64 {
        f64::from_bits(self.0.max())
    }

    fn collapsed(&self) -> bool {
        self.0.collapsed()
    }

    fn buckets_empty(&self) -> bool {
        self.0.buckets_empty()
    }

    fn underflow_count(&self) -> u64 {
        self.0.underflow_count()
    }

    fn offset(&self) -> Option<i32> {
        self.0.offset()
    }

    fn update(&mut self, value: f64) -> Result<(), Error> {
        let sum = self.sum() + value;
        self.0.update(value.to_bits(), sum.to_bits())
    }

    fn record_incr(&mut self, value: f64, incr: u64) -> Result<(), Error> {
        let sum = self.sum() + value * incr as f64;
        self.0.record_incr(value.to_bits(), incr, sum.to_bits())
    }

    fn merge_from<const M: usize>(&mut self, other: &Sketch<M>) -> Result<(), Error> {
        let sum = self.sum() + other.sum();
        self.0.merge_from(&other.0, sum.to_bits())
    }

    fn for_each_bucket(&self, mut f: impl FnMut(i32, u64)) {
        for (index, count) in self.0.for_each_bucket() {
            f(index, count);
        }
    }

    fn view(&self) -> View<N> {
        View(self.0)
    }

    fn quantile(&self, q: f64) -> f64 {
        if self.count() == 0 {
            return f64::NAN;
        }
        if q <= 0.0 {
            return self.min();
        }
        if q >= 1.0 {
            return self.max();
        }
        match self.0.quantile(rank_of(q * self.count() as f64)) {
            Rank::Zero => 0.0,
            Rank::Bucket(index) => self.representative(index),
            Rank::Beyond => self.max(),
        }
    }

    fn representative(&self, index: i32) -> f64 {
        let l = boundary_value(self.scale(), index).unwrap_or_else(|_| self.min());
        let u = boundary_value(self.scale(), index + 1).unwrap_or_else(|_| self.max());
        if l <= 0.0 {
            u
        } else {
            l * 2.0 / (1.0 + l / u)
        }
    }
}

/// Relative error bound `α = (b - 1)/(b + 1)`, `b = 2^(2^-scale)`.
fn alpha(scale: i32) -> f64 {
    let b = 2f64.powf(2f64.powi(-scale));
    (b - 1.0) / (b + 1.0)
}

fn bucket_lower(scale: i32, index: i32) -> f64 {
    // Lower boundary of bucket `index` at the given scale.
    2f64.powf((index as f64) * 2f64.powi(-scale))
}

#[test]
fn basic_stats() {
    let mut s: Sketch<16> = Sketch::new().with_scale(4).unwrap();
    s.update(1.5).unwrap();
    s.update(2.7).unwrap();
    s.update(100.0).unwrap();
    assert_eq!(s.count(), 3);
    assert_eq!(s.scale(), 4);
    assert_eq!(s.min(), 1.5);
    assert_eq!(s.max(), 100.0);
    assert!((s.sum() - 104.2).abs() < 1e-9);
}

fn alpha_of(scale: i32) -> f64 {
    let b = 2f64.powf(2f64.powi(-scale));
    (b - 1.0) / (b + 1.0)
}

#[test]
fn with_relative_error_picks_coarsest_qualifying_scale() {
    // (target, expected scale): the coarsest scale whose α <= target.
    for (target, want) in [(0.5, 0), (0.2, 1), (0.1, 2), (0.05, 3)] {
        let s: Sketch<8> = Sketch::new().with_relative_error(target).unwrap();
        assert_eq!(s.scale(), want, "target {target}");
        assert!(alpha_of(want) <= target, "α({want}) must meet {target}");
        assert!(
            alpha_of(want - 1) > target,
            "scale {} would also qualify, so {want} is not coarsest",
            want - 1
        );
    }
}

#[test]
fn with_relative_error_rejects_out_of_range() {
    assert!(Sketch::<8>::new().with_relative_error(0.0).is_err());
    assert!(Sketch::<8>::new().with_relative_error(1.0).is_err());
    assert!(Sketch::<8>::new().with_relative_error(-0.1).is_err());
    assert!(Sketch::<8>::new().with_relative_error(2.0).is_err());
    assert!(Sketch::<8>::new().with_relative_error(f64::NAN).is_err());
    // Finer than the compiled scale-8 table can represent.
    assert!(Sketch::<8>::new().with_relative_error(1e-6).is_err());
}

#[test]
fn sketch_rejects_extremes() {
    let mut s: Sketch<8> = Sketch::new();
    assert_eq!(s.update(f64::NAN), Err(Error::Extreme));
    assert_eq!(s.update(f64::INFINITY), Err(Error::Extreme));
    assert_eq!(s.update(-1.0), Err(Error::Extreme));
    // Zero is counted but not bucketed.
    s.update(0.0).unwrap();
    assert_eq!(s.count(), 1);
    assert!(s.buckets_empty());
}

#[test]
fn scale_is_fixed_under_wide_range() {
    // HistogramNN would downscale here; Sketch must not.
    let mut s: Sketch<8> = Sketch::new().with_scale(3).unwrap();
    for e in -40..40 {
        s.update(2f64.powi(e)).unwrap();
    }
    assert_eq!(s.scale(), 3, "scale must stay fixed");
}

#[test]
fn count_preserved_under_collapse() {
    let mut s: Sketch<4> = Sketch::new().with_scale(4).unwrap();
    let mut total = 0u64;
    for e in -60..60 {
        let v = 2f64.powi(e);
        s.update(v).unwrap();
        total += 1;
    }
    assert_eq!(s.count(), total);
    assert!(s.collapsed(), "wide range must force collapse");

    // The sum of all bucket counts plus zeros equals the total.
    let mut bucket_sum = 0u64;
    s.for_each_bucket(|_, c| bucket_sum += c);
    assert_eq!(bucket_sum, total, "no counts lost during collapse");
}

#[test]
fn top_of_distribution_stays_accurate() {
    // The largest value must land in an accurate (non-underflow)
    // bucket whose boundaries bracket it within the guarantee.
    let scale = 4;
    let mut s: Sketch<4> = Sketch::new().with_scale(scale).unwrap();
    for e in -60..60 {
        s.update(2f64.powi(e)).unwrap();
    }
    let maxv = s.max();
    assert_eq!(maxv, 2f64.powi(59));

    // Find the top bucket; it must bracket the max value.
    let mut top = None;
    s.for_each_bucket(|idx, _| top = Some(idx));
    let top = top.unwrap();
    let lo = bucket_lower(scale, top);
    let hi = bucket_lower(scale, top + 1);
    assert!(lo <= maxv && maxv <= hi, "max {maxv} not in [{lo},{hi}]");

    // Relative width within the guarantee.
    let a = alpha(scale);
    assert!((hi - lo) / (hi + lo) <= a + 1e-12);
}

#[test]
fn below_window_folds_into_underflow() {
    let scale = 4;
    let mut s: Sketch<2> = Sketch::new().with_scale(scale).unwrap();
    // Establish a window around large values.
    for _ in 0..3 {
        s.update(1e6).unwrap();
    }
    let before = s.collapsed();
    // A tiny value is far below the window; it must fold into the
    // underflow placeholder rather than change the scale.
    s.update(1e-6).unwrap();
    assert_eq!(s.scale(), scale);
    assert!(s.collapsed() || !before);
    assert!(s.underflow_count() >= 1, "tiny value folded into underflow");
    assert_eq!(s.max(), 1e6);
    assert_eq!(s.min(), 1e-6, "min still tracked exactly");
}

#[test]
fn spread_widen_preserves_counts_and_scale() {
    // Many observations of the same value force counter widening
    // (B1 -> ...). Scale must stay fixed and the count exact.
    let mut s: Sketch<8> = Sketch::new().with_scale(6).unwrap();
    let n = 5000u64;
    for _ in 0..n {
        s.update(42.0).unwrap();
    }
    assert_eq!(s.count(), n);
    assert_eq!(s.scale(), 6, "widening must not change scale");
    assert!(s.width() > Width::B1, "counter must have widened");

    let mut bucket_sum = 0u64;
    s.for_each_bucket(|_, c| bucket_sum += c);
    assert_eq!(bucket_sum, n);
}

#[test]
fn widen_then_collapse_keeps_top() {
    // Fill many buckets at a narrow width, then drive counts up so a
    // widen halves capacity and forces a left-collapse.
    let scale = 5;
    let mut s: Sketch<4> = Sketch::new().with_scale(scale).unwrap();

    // A spread of distinct values to populate many buckets.
    for i in 1..=200 {
        s.update(i as f64).unwrap();
    }
    // Then hammer the largest value to widen counters.
    for _ in 0..100_000 {
        s.update(200.0).unwrap();
    }
    assert_eq!(s.scale(), scale);
    assert_eq!(s.max(), 200.0);

    // Total preserved.
    let mut bucket_sum = 0u64;
    s.for_each_bucket(|_, c| bucket_sum += c);
    assert_eq!(bucket_sum, s.count());

    // The top bucket brackets the max.
    let mut top = None;
    s.for_each_bucket(|idx, _| top = Some(idx));
    let top = top.unwrap();
    let lo = bucket_lower(scale, top);
    let hi = bucket_lower(scale, top + 1);
    assert!(lo <= 200.0 && 200.0 <= hi);
}

#[test]
fn accurate_until_window_full() {
    // While everything fits, no collapse and every bucket is accurate.
    let scale = 2;
    let mut s: Sketch<16> = Sketch::new().with_scale(scale).unwrap();
    // 16 words * 64 slots = 1024 B1 slots; scale 2 covers a huge range.
    for i in 1..=50 {
        s.update(i as f64).unwrap();
    }
    assert!(!s.collapsed(), "small range must not collapse");
    assert_eq!(s.underflow_count(), 0);

    // Every populated bucket brackets its contributing values.
    let a = alpha(scale);
    s.for_each_bucket(|idx, _| {
        let lo = bucket_lower(scale, idx);
        let hi = bucket_lower(scale, idx + 1);
        assert!((hi - lo) / (hi + lo) <= a + 1e-12);
    });
}

/// Before any collapse, the structure is a ring buffer anchored at a
/// fixed `word_base` that expands in BOTH directions (wrapping). This
/// confirms anchoring did not turn growth into a one-directional or
/// re-anchoring scheme.
#[test]
fn ring_expands_both_directions_before_collapse() {
    // Scale 6 at B1: 64 slots/word = 1 octave/word, so distinct
    // octaves occupy distinct words. N=8 words fits 7 octaves.
    let mut s: Sketch<8> = Sketch::new().with_scale(6).unwrap();

    // First insert establishes the anchor.
    s.update(2f64.powi(0)).unwrap();
    let base0 = s.word_base();

    // Expand upward and downward around the anchor, staying in N words.
    for e in [1, 2, 3, -1, -2, -3] {
        s.update(2f64.powi(e)).unwrap();
    }

    // Anchor unchanged → genuine ring buffer (not re-anchored on grow).
    assert_eq!(s.word_base(), base0, "word_base must stay fixed while growing");
    // Expanded strictly in both directions (wrapped around the anchor).
    assert!(s.word_start() < base0, "did not expand downward past anchor");
    assert!(s.word_end() > base0, "did not expand upward past anchor");
    // Still within one pool, no collapse, counters never widened.
    assert!((s.word_end() - s.word_start()) < 8, "window exceeded N words");
    assert!(!s.collapsed());
    assert_eq!(s.underflow_count(), 0);
    assert_eq!(s.width(), Width::B1);
    assert_eq!(s.count(), 7);

    let mut bs = 0u64;
    s.for_each_bucket(|_, c| bs += c);
    assert_eq!(bs, 7, "counts lost while wrapping");
}

/// Heavy interleaved widen + collapse with a tiny pool. The window
/// must never exceed N words and no counts may be lost — this is what
/// catches ring-buffer overflow from mis-sized collapse windows.
#[test]
fn stress_invariants_tiny_pool() {
    const N: usize = 2;
    let scale = 4;
    let mut s: Sketch<N> = Sketch::new().with_scale(scale).unwrap();

    // Deterministic LCG; map to a wide dynamic range with repeats so
    // both counter widening and left-collapse fire repeatedly.
    let mut state: u64 = 0x1234_5678_9abc_def0;
    let mut next = || {
        state = state.wrapping_mul(6364136223846793005).wrapping_add(1442695040888963407);
        state
    };

    let mut bucket_sum_check = 0u64;
    for i in 0..50_000u64 {
        let r = next();
        // Exponent spread across ~120 octaves; occasional hot repeats.
        let exp = ((r >> 40) % 240) as i32 - 120;
        let frac = 1.0 + ((r >> 8) & 0xffff) as f64 / 65536.0;
        let v = frac * 2f64.powi(exp);
        s.update(v).unwrap();
        bucket_sum_check += 1;

        if i % 997 == 0 {
            // Window never exceeds N words.
            let span_words = s.word_end() - s.word_start() + 1;
            assert!(
                span_words >= 1 && span_words <= N as i32,
                "window span {span_words} out of [1,{N}] at i={i}",
            );
            // No counts lost.
            let mut bs = 0u64;
            s.for_each_bucket(|_, c| bs += c);
            assert_eq!(bs, bucket_sum_check, "count loss at i={i}");
        }
    }

    // Final tallies.
    assert_eq!(s.count(), 50_000);
    let mut bs = 0u64;
    s.for_each_bucket(|_, c| bs += c);
    assert_eq!(bs, 50_000);
    assert_eq!(s.scale(), scale, "scale must stay fixed throughout");

    // Top bucket brackets the max.
    let maxv = s.max();
    let mut top = None;
    s.for_each_bucket(|idx, _| top = Some(idx));
    let top = top.unwrap();
    let lo = bucket_lower(scale, top);
    let hi = bucket_lower(scale, top + 1);
    assert!(lo <= maxv && maxv <= hi, "max {maxv} not in top bucket [{lo},{hi}]");
}

/// Regression: a collapse must anchor at the real highest non-zero
/// bucket, never a trailing empty word left by an earlier slide.
/// Otherwise a counter-overflow widen on a window with empty high
/// words drops the entire live range into the underflow slot — a bug
/// that only surfaces for unsorted input. The final state is fully
/// determined by the multiset, so shuffled and sorted feeds of the
/// same values must agree exactly.
#[test]
fn collapse_is_order_independent() {
    let scale = 4;
    let mut state: u64 = 0xA5A5_1234_DEAD_0001;
    let mut next = || {
        state = state
            .wrapping_mul(6364136223846793005)
            .wrapping_add(1442695040888963407);
        state
    };
    // Wide spread (30 octaves) with many buckets sharing values, so a
    // tiny pool both collapses and widens its counters.
    let mut values = Vec::with_capacity(60_000);
    for _ in 0..60_000 {
        let r = next();
        let exp = ((r >> 40) % 30) as i32;
        let frac = 1.0 + ((r >> 8) & 0xffff) as f64 / 65536.0;
        values.push(frac * 2f64.powi(exp));
    }

    let mut shuffled: Sketch<16> = Sketch::new().with_scale(scale).unwrap();
    for &v in &values {
        shuffled.update(v).unwrap();
    }

    let mut sorted_vals = values.clone();
    sorted_vals.sort_by(|x, y| x.partial_cmp(y).unwrap());
    let mut sorted: Sketch<16> = Sketch::new().with_scale(scale).unwrap();
    for &v in &sorted_vals {
        sorted.update(v).unwrap();
    }

    assert!(shuffled.collapsed(), "30 octaves must collapse N=16");
    assert_eq!(shuffled.count(), sorted.count());
    assert_eq!(
        shuffled.width(),
        sorted.width(),
        "width is order-independent"
    );
    assert_eq!(
        shuffled.underflow_count(),
        sorted.underflow_count(),
        "underflow is order-independent"
    );
    assert_eq!(
        layout(&shuffled),
        layout(&sorted),
        "bucket layout is order-independent"
    );
    // The bug's symptom was everything collapsing into one slot.
    assert!(
        layout(&shuffled).len() > 1,
        "accurate window degenerated to a single slot"
    );
}

/// Regression for a fuzzer-found bug: a far-below value first folded
/// while the window was a single *coarse* word (initial width `B2`,
/// from an `incr >= 2` first insert) was stranded inside the accurate
/// window once later counter widening refined the floor. The fold must
/// target the true floor of a full `N`-word window, so the far value's
/// entire mass ends up in the underflow placeholder.
#[test]
fn underflow_not_stranded_after_sub_n_window_fold() {
    let scale = 7;
    let v0 = f64::from_bits(0x0300_0000_0000_0000); // normal: the max
    let v1 = f64::from_bits(0x0000_0000_0003_2600); // subnormal: far below
    let mut s: Sketch<16> = Sketch::new().with_scale(scale).unwrap();
    // v0 first (incr 2 starts width at B2, a 1-word coarse window);
    // v1 then folds. Growing increments force widening afterwards.
    for incr in [2u64, 16, 512, 16384] {
        s.record_incr(v0, incr).unwrap();
        s.record_incr(v1, incr).unwrap();
    }
    let each = 2 + 16 + 512 + 16384;
    assert!(s.collapsed());
    assert_eq!(s.count(), 2 * each);
    assert_eq!(live_sum(&s), 2 * each, "no counts lost");
    // Exactly two non-zero buckets: the underflow (all of v1) and v0;
    // no inaccurate mass stranded between them.
    let buckets = layout(&s);
    assert_eq!(buckets.len(), 2, "stray underflow mass: {buckets:?}");
    assert_eq!(s.underflow_count(), each, "v1 wholly in underflow");
    assert_eq!(buckets[1].1, each, "v0 stays accurate");
}

fn live_sum<const M: usize>(s: &Sketch<M>) -> u64 {
    let mut t = 0u64;
    s.for_each_bucket(|_, c| t += c);
    t
}

/// Collects `(slot, count)` pairs for every non-zero bucket.
fn layout<const M: usize>(s: &Sketch<M>) -> Vec<(i32, u64)> {
    let mut v = Vec::new();
    s.for_each_bucket(|idx, c| v.push((idx, c)));
    v
}

#[test]
fn sketch_merge_both_empty() {
    let mut a: Sketch<8> = Sketch::new().with_scale(4).unwrap();
    let b: Sketch<8> = Sketch::new().with_scale(4).unwrap();
    a.merge_from(&b).unwrap();
    assert_eq!(a.count(), 0);
    assert!(a.buckets_empty());
}

#[test]
fn merge_from_empty_source() {
    let mut a: Sketch<8> = Sketch::new().with_scale(4).unwrap();
    a.update(1.0).unwrap();
    a.update(2.0).unwrap();
    let b: Sketch<8> = Sketch::new().with_scale(4).unwrap();
    let before = layout(&a);
    a.merge_from(&b).unwrap();
    assert_eq!(a.count(), 2);
    assert_eq!(layout(&a), before, "empty source must not change buckets");
}

#[test]
fn merge_into_empty_target() {
    let mut a: Sketch<8> = Sketch::new().with_scale(4).unwrap();
    let mut b: Sketch<8> = Sketch::new().with_scale(4).unwrap();
    for v in [1.0, 2.0, 4.0, 8.0] {
        b.update(v).unwrap();
    }
    a.merge_from(&b).unwrap();
    assert_eq!(a.count(), 4);
    assert_eq!(a.min(), 1.0);
    assert_eq!(a.max(), 8.0);
    assert_eq!(live_sum(&a), 4);
    assert_eq!(layout(&a), layout(&b), "merge into empty mirrors source");
}

#[test]
fn sketch_merge_scale_mismatch_errs() {
    let mut a: Sketch<8> = Sketch::new().with_scale(4).unwrap();
    let mut b: Sketch<8> = Sketch::new().with_scale(5).unwrap();
    a.update(1.0).unwrap();
    b.update(1.0).unwrap();
    assert_eq!(a.merge_from(&b), Err(Error::ScaleMismatch));
    // A mismatched empty source is a no-op (count short-circuit).
    let c: Sketch<8> = Sketch::new().with_scale(7).unwrap();
    assert_eq!(a.merge_from(&c), Ok(()));
}

#[test]
fn merge_disjoint_no_collapse_is_exact() {
    // Big pool, narrow range: the union fits, so the merged result
    // must equal one sketch fed all values.
    let scale = 4;
    let mut a: Sketch<64> = Sketch::new().with_scale(scale).unwrap();
    let mut b: Sketch<64> = Sketch::new().with_scale(scale).unwrap();
    let mut all: Sketch<64> = Sketch::new().with_scale(scale).unwrap();
    for i in 1..=20 {
        a.update(i as f64).unwrap();
        all.update(i as f64).unwrap();
    }
    for i in 21..=40 {
        b.update(i as f64).unwrap();
        all.update(i as f64).unwrap();
    }
    a.merge_from(&b).unwrap();
    assert!(!a.collapsed());
    assert_eq!(a.count(), 40);
    assert_eq!(a.min(), 1.0);
    assert_eq!(a.max(), 40.0);
    assert_eq!(layout(&a), layout(&all), "disjoint merge equals single-feed");
}

#[test]
fn merge_different_pool_sizes_preserves_count() {
    let scale = 6;
    let mut a: Sketch<8> = Sketch::new().with_scale(scale).unwrap();
    let mut b: Sketch<16> = Sketch::new().with_scale(scale).unwrap();
    let mut total = 0u64;
    for i in 1..=300 {
        a.update(i as f64).unwrap();
        total += 1;
    }
    for i in 1..=300 {
        b.update((i as f64) * 0.5).unwrap();
        total += 1;
    }
    a.merge_from(&b).unwrap();
    assert_eq!(a.count(), total);
    assert_eq!(live_sum(&a), total, "no counts lost across pool sizes");
    assert_eq!(a.scale(), scale);
    // Top bucket still brackets the global max (150).
    assert_eq!(a.max(), 300.0);
    let mut top = None;
    a.for_each_bucket(|idx, _| top = Some(idx));
    let top = top.unwrap();
    let lo = bucket_lower(scale, top);
    let hi = bucket_lower(scale, top + 1);
    assert!(lo <= 300.0 && 300.0 <= hi);
}

#[test]
fn sketch_merge_with_zeros() {
    let mut a: Sketch<8> = Sketch::new().with_scale(4).unwrap();
    let mut b: Sketch<8> = Sketch::new().with_scale(4).unwrap();
    a.update(5.0).unwrap();
    for _ in 0..7 {
        b.update(0.0).unwrap();
    }
    a.merge_from(&b).unwrap();
    // Zeros add to count but never to buckets.
    assert_eq!(a.count(), 8);
    assert_eq!(live_sum(&a), 1);
    assert_eq!(a.underflow_count(), 0);
    assert_eq!(a.max(), 5.0);
    assert_eq!(a.min(), 5.0);

    // Merging an only-zeros sketch into an empty one yields min/max 0.
    let mut e: Sketch<8> = Sketch::new().with_scale(4).unwrap();
    let mut z: Sketch<8> = Sketch::new().with_scale(4).unwrap();
    z.update(0.0).unwrap();
    e.merge_from(&z).unwrap();
    assert_eq!(e.count(), 1);
    assert!(e.buckets_empty());
    assert_eq!(e.min(), 0.0);
    assert_eq!(e.max(), 0.0);
}

#[test]
fn merge_widens_for_combined_counts() {
    // Both sketches hammer the same value; individually each fits a
    // narrow counter, but the merged total forces a wider one.
    let scale = 6;
    let mut a: Sketch<8> = Sketch::new().with_scale(scale).unwrap();
    let mut b: Sketch<8> = Sketch::new().with_scale(scale).unwrap();
    for _ in 0..200 {
        a.update(42.0).unwrap();
        b.update(42.0).unwrap();
    }
    assert!(a.width() <= Width::U8, "200 fits a byte counter");
    a.merge_from(&b).unwrap();
    assert_eq!(a.count(), 400);
    assert_eq!(live_sum(&a), 400);
    assert!(a.width() >= Width::U16, "400 needs a wider counter");
    // All mass in a single bucket.
    let l = layout(&a);
    assert_eq!(l.len(), 1);
    assert_eq!(l[0].1, 400);
}

#[test]
fn merge_collapsed_floor_prevents_pollution() {
    // `a` is collapsed with its window high (around 1e6). `b` holds
    // only small values far below `a`'s window. Merging must fold all
    // of `b` into the underflow rather than create accurate buckets
    // beneath the established underflow floor.
    let scale = 4;
    let mut a: Sketch<4> = Sketch::new().with_scale(scale).unwrap();
    for _ in 0..5 {
        a.update(1e6).unwrap();
    }
    a.update(1e-6).unwrap(); // far below: forces collapse, underflow = 1
    assert!(a.collapsed());
    assert_eq!(a.underflow_count(), 1);
    assert_eq!(live_sum(&a), 6);

    let mut b: Sketch<4> = Sketch::new().with_scale(scale).unwrap();
    for v in [1e-5, 1e-4, 1e-3, 1e-2] {
        b.update(v).unwrap(); // all far below a's window
    }
    assert!(!b.collapsed());

    a.merge_from(&b).unwrap();
    assert!(a.collapsed());
    assert_eq!(a.count(), 10);
    assert_eq!(live_sum(&a), 10, "no bucketed counts lost");
    assert_eq!(a.max(), 1e6);
    // The original underflow (1) plus all four of b folded in.
    assert_eq!(a.underflow_count(), 5);
    // No accurate bucket sits below the underflow floor: the only
    // non-underflow mass is the 1e6 peak (count 5).
    let floor = a.offset().unwrap();
    let mut accurate = 0u64;
    a.for_each_bucket(|idx, c| {
        if idx > floor {
            accurate += c;
        }
    });
    assert_eq!(accurate, 5, "only the 1e6 peak stays accurate");
}

#[test]
fn merge_is_commutative_same_pool() {
    // Build two structurally different sketches, then check that
    // a∪b and b∪a yield identical bucket layouts and state.
    let scale = 5;
    let mut a: Sketch<8> = Sketch::new().with_scale(scale).unwrap();
    let mut b: Sketch<8> = Sketch::new().with_scale(scale).unwrap();
    let mut x: u64 = 0xDEAD_BEEF;
    let mut next = || {
        x = x.wrapping_mul(6364136223846793005).wrapping_add(1);
        x
    };
    for _ in 0..2000 {
        let e = ((next() >> 40) % 80) as i32 - 30;
        a.update(2f64.powi(e)).unwrap();
    }
    for _ in 0..2000 {
        let e = ((next() >> 40) % 80) as i32 - 50;
        b.update(2f64.powi(e)).unwrap();
    }

    let mut ab = a.clone();
    ab.merge_from(&b).unwrap();
    let mut ba = b.clone();
    ba.merge_from(&a).unwrap();

    assert_eq!(ab.count(), ba.count());
    assert_eq!(ab.width(), ba.width());
    assert_eq!(ab.collapsed(), ba.collapsed());
    assert_eq!(ab.underflow_count(), ba.underflow_count());
    assert_eq!(layout(&ab), layout(&ba), "merge must be commutative");
    assert_eq!(ab.count(), 4000);
    assert_eq!(live_sum(&ab), 4000);
}

#[test]
fn view_empty() {
    let s: Sketch<8> = Sketch::new().with_scale(4).unwrap();
    let v = s.view();
    assert_eq!(v.scale(), 0, "empty view reports scale 0");
    assert_eq!(v.stats().count, 0);
    assert_eq!(v.stats().min, 0.0);
    assert_eq!(v.stats().max, 0.0);
    assert_eq!(v.zero_count(), 0);
    assert!(!v.collapsed());
    assert_eq!(v.underflow_count(), 0);
    let p = v.positive();
    assert!(p.is_empty());
    assert_eq!(p.offset(), 0);
    assert_eq!(p.len(), 0);
    assert_eq!(p.iter().count(), 0);
}

#[test]
fn view_basic_stats_and_zero_count() {
    let mut s: Sketch<16> = Sketch::new().with_scale(4).unwrap();
    s.update(0.0).unwrap();
    s.update(0.0).unwrap();
    s.update(1.5).unwrap();
    s.update(2.7).unwrap();
    let v = s.view();
    assert_eq!(v.scale(), 4);
    let st = v.stats();
    assert_eq!(st.count, 4);
    assert_eq!(st.min, 1.5);
    assert_eq!(st.max, 2.7);
    assert!((st.sum - 4.2).abs() < 1e-9);
    assert_eq!(v.zero_count(), 2, "two exact zeros");
    // The contiguous bucket counts cover only the non-zero observations.
    let p = v.positive();
    let summed: u64 = p.iter().sum();
    assert_eq!(summed, 2, "two bucketed (non-zero) observations");
    assert_eq!(p.len() as usize, p.iter().count());
}

#[test]
fn view_is_contiguous_with_interior_zeros() {
    // Scale 0: each bucket is a power-of-two octave. 1.0 -> slot -1,
    // 8.0 -> slot 2, so the export run is [-1 ..= 2] = [1, 0, 0, 1].
    let mut s: Sketch<8> = Sketch::new().with_scale(0).unwrap();
    s.update(1.0).unwrap();
    s.update(8.0).unwrap();
    let v = s.view();
    let p = v.positive();
    assert_eq!(p.offset(), -1);
    assert_eq!(p.len(), 4);
    let counts: Vec<u64> = p.iter().collect();
    assert_eq!(counts, vec![1, 0, 0, 1], "interior zeros preserved");
    // IntoIterator over a reference yields the same sequence.
    let via_into: Vec<u64> = p.into_iter().collect();
    assert_eq!(via_into, counts);
}

#[test]
fn view_collapsed_exposes_underflow_as_first_bucket() {
    let scale = 4;
    let mut s: Sketch<2> = Sketch::new().with_scale(scale).unwrap();
    for _ in 0..3 {
        s.update(1e6).unwrap();
    }
    s.update(1e-9).unwrap(); // far below: collapses into underflow
    let v = s.view();
    assert!(v.collapsed());
    assert!(v.underflow_count() >= 1);
    let p = v.positive();
    // The first exported bucket is the underflow placeholder, and its
    // count equals the reported underflow mass.
    let first = p.iter().next().unwrap();
    assert_eq!(first, v.underflow_count(), "offset bucket is the underflow");
    // The whole export plus zeros accounts for every observation.
    let summed: u64 = p.iter().sum();
    assert_eq!(summed + v.zero_count(), v.stats().count);
}

/// Empirically verifies the DDSketch-style relative-error guarantee:
/// for every quantile whose true value lies above the underflow
/// placeholder, the estimate is within `α` of the brute-force truth.
fn check_guarantee<const M: usize>(s: &Sketch<M>, raw: &mut [f64], a: f64) {
    let n = raw.len();
    raw.sort_by(|x, y| x.partial_cmp(y).unwrap());

    let mut live = 0u64;
    s.for_each_bucket(|_, c| live += c);
    let zero_count = s.count() - live;
    // Ranks at or below this are in the inaccurate (underflow/zero)
    // region and excluded from the guarantee.
    let floor_rank = zero_count + s.underflow_count();

    let mut tested = 0usize;
    let mut worst = 0.0f64;
    for i in 1..1000 {
        let q = i as f64 / 1000.0;
        let rank = (q * n as f64).ceil() as u64; // 1-based
        if rank <= floor_rank {
            continue;
        }
        let true_q = raw[(rank as usize - 1).min(n - 1)];
        if true_q <= 0.0 {
            continue;
        }
        let est = s.quantile(q);
        let rel = (est - true_q).abs() / true_q;
        worst = worst.max(rel);
        assert!(
            rel <= a * 1.0001 + 1e-12,
            "q={q} rank={rank} est={est} true={true_q} rel={rel:.6} > α={a:.6}",
        );
        tested += 1;
    }
    println!(
        "guarantee: N={M} scale={} α={a:.4} collapsed={} underflow={} tested={tested} worst_rel={worst:.4}",
        s.scale(),
        s.collapsed(),
        s.underflow_count(),
    );
    assert!(tested > 50, "guarantee test too sparse: {tested} points");
}

/// Wide range + fine scale + small pool: forces left-collapse. The
/// guarantee must hold for the accurate (upper) part of the
/// distribution despite a large underflow mass.
#[test]
fn guarantee_holds_under_collapse() {
    let scale = 4;
    let mut s: Sketch<16> = Sketch::new().with_scale(scale).unwrap();
    let mut rng = StdRng::seed_from_u64(0xC0FFEE);
    // Log-uniform over 24 octaves: a controlled, very wide spread.
    let octaves = Uniform::new(0.0f64, 24.0);
    let n = 200_000usize;
    let mut raw = Vec::with_capacity(n);
    for _ in 0..n {
        let v = 2f64.powf(octaves.sample(&mut rng));
        raw.push(v);
        s.update(v).unwrap();
    }

    assert!(s.collapsed(), "wide range must collapse");
    assert!(s.underflow_count() > 0);
    check_guarantee(&s, &mut raw, alpha(scale));
}

/// Bounded range + large pool: no collapse, so the guarantee must hold
/// across the entire distribution.
#[test]
fn guarantee_holds_without_collapse() {
    let scale = 4;
    let mut s: Sketch<64> = Sketch::new().with_scale(scale).unwrap();
    let mut rng = StdRng::seed_from_u64(0xBEEF);
    let dist = Uniform::new(1.0f64, 8.0); // ~3 octaves, fits the window
    let n = 200_000usize;
    let mut raw = Vec::with_capacity(n);
    for _ in 0..n {
        let v = dist.sample(&mut rng);
        raw.push(v);
        s.update(v).unwrap();
    }

    assert!(!s.collapsed(), "bounded range must not collapse");
    assert_eq!(s.underflow_count(), 0);
    check_guarantee(&s, &mut raw, alpha(scale));
}

/// The guarantee must survive a merge: split a wide, collapsing
/// distribution across two sketches, merge them, and verify the
/// α-bound holds for every quantile above the combined underflow.
#[test]
fn merge_preserves_guarantee_under_collapse() {
    let scale = 4;
    let mut a: Sketch<16> = Sketch::new().with_scale(scale).unwrap();
    let mut b: Sketch<16> = Sketch::new().with_scale(scale).unwrap();
    let mut rng = StdRng::seed_from_u64(0x5EED_1234);
    // Two wide, independently-drawn spreads over the same support.
    let da = Uniform::new(0.0f64, 24.0);
    let db = Uniform::new(0.0f64, 24.0);
    let mut raw = Vec::with_capacity(200_000);
    for _ in 0..100_000 {
        let va = 2f64.powf(da.sample(&mut rng));
        let vb = 2f64.powf(db.sample(&mut rng));
        a.update(va).unwrap();
        b.update(vb).unwrap();
        raw.push(va);
        raw.push(vb);
    }
    assert!(a.collapsed() && b.collapsed(), "both sides must collapse");

    a.merge_from(&b).unwrap();
    assert_eq!(a.count(), 200_000);
    assert_eq!(live_sum(&a), 200_000, "merge lost counts");
    assert!(a.collapsed());
    check_guarantee(&a, &mut raw, alpha(scale));
}

/// Merging into a large pool from a bounded spread keeps the entire
/// distribution accurate (no collapse) and exact in count.
#[test]
fn merge_preserves_guarantee_without_collapse() {
    let scale = 4;
    let mut a: Sketch<64> = Sketch::new().with_scale(scale).unwrap();
    let mut b: Sketch<32> = Sketch::new().with_scale(scale).unwrap();
    let mut rng = StdRng::seed_from_u64(0xABCD_4321);
    let dist = Uniform::new(1.0f64, 8.0);
    let mut raw = Vec::with_capacity(120_000);
    for _ in 0..60_000 {
        let va = dist.sample(&mut rng);
        let vb = dist.sample(&mut rng);
        a.update(va).unwrap();
        b.update(vb).unwrap();
        raw.push(va);
        raw.push(vb);
    }
    a.merge_from(&b).unwrap();
    assert!(!a.collapsed(), "bounded merge must not collapse");
    assert_eq!(a.underflow_count(), 0);
    assert_eq!(a.count(), 120_000);
    check_guarantee(&a, &mut raw, alpha(scale));
}

/// The optimal representative must beat the naive lower-boundary
/// estimator: its worst-case relative error is `α`, not `≈ 2α`.
#[test]
fn representative_achieves_alpha_not_two_alpha() {
    let scale = 3;
    let s: Sketch<8> = Sketch::new().with_scale(scale).unwrap();
    let a = alpha(scale);
    // Probe every bucket across a wide index range: the representative
    // must lie within α of both boundaries.
    for idx in -200..200 {
        let l = bucket_lower(scale, idx);
        let u = bucket_lower(scale, idx + 1);
        let r = s.representative(idx);
        assert!((r - l) / l <= a + 1e-9, "idx {idx}: lower err exceeds α");
        assert!((u - r) / u <= a + 1e-9, "idx {idx}: upper err exceeds α");
    }
}
