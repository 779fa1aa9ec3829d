use otel_expohisto::histogram::BucketView as RangeView;
use otel_expohisto::mapping::ScaleError;
use otel_expohisto::pn::HistogramPN as BitHistogramPN;
use otel_expohisto::stats::{Error, Settings};
use otel_expohisto::width::Width;

/// Statistics in floating point.
struct Stats {
    count: u64,
    sum: f64,
    min: f64,
    max: f64,
}

/// Counts of one range as they were when the view was taken.
struct BucketView(Vec<u64>);

impl BucketView {
    fn of<const N: usize>(view: RangeView<'_, N>) -> Self {
        let mut counts = Vec::new();
        let mut cursor = view.iter();
        while let Some(count) = cursor.next() {
            counts.push(count);
        }
        assert_eq!(counts.is_empty(), view.is_empty());
        BucketView(counts)
    }

    fn is_empty(&self) -> bool {
        self.0.is_empty()
    }

    fn iter(&self) -> std::slice::Iter<'_, u64> {
        self.0.iter()
    }
}

/// A histogram as it was when the view was taken.
struct View<const K: usize, const L: usize>(BitHistogramPN<K, L>);

impl<const K: usize, const L: usize> View<K, L> {
    fn scale(&self) -> i32 {
        self.0.view().scale()
    }

    fn stats(&self) -> Stats {
        let stats = self.0.view().stats();
        Stats {
            count: stats.count,
            sum: f64::from_bits(stats.sum),
            min: f64::from_bits(stats.min),
            max: f64::from_bits(stats.max),
        }
    }

    fn zero_count(&self) -> u64 {
        self.0.view().zero_count()
    }

    fn positive(&self) -> BucketView {
        BucketView::of(self.0.view().positive())
    }

    fn negative(&self) -> BucketView {
        BucketView::of(self.0.view().negative())
    }
}

/// A histogram that is fed floating-point values. The sums of the magnitudes of both ranges are
/// kept beside it.
#[derive(Debug, Clone)]
struct HistogramPN<const K: usize, const L: usize> {
    bits: BitHistogramPN<K, L>,
    positive_sum: f64,
    negative_sum: f64,
}

impl<const K: usize, const L: usize> HistogramPN<K, L> {
    fn of(bits: BitHistogramPN<K, L>) -> Self {
        HistogramPN { bits, positive_sum: 0.0, negative_sum: 0.0 }
    }

    fn new() -> Self {
        HistogramPN::of(BitHistogramPN::new())
    }

    fn with_scale(self, scale: i32) -> Result<Self, ScaleError> {
        self.bits.with_scale(scale).map(HistogramPN::of)
    }

    fn with_min_width(self, width: Width) -> Self {
        HistogramPN::of(self.bits.with_min_width(width))
    }

    fn positive_settings(&self) -> Settings {
        self.bits.positive_settings()
    }

    fn negative_settings(&self) -> Settings {
        self.bits.negative_settings()
    }

    fn sum(&self) -> f64 {
        f64::from_bits(self.bits.view().stats().sum)
    }

    fn update(&mut self, value: f64) -> Result<(), Error> {
        let sum = self.sum() + value;
        let side = if value < 0.0 { self.negative_sum } else { self.positive_sum } + value.abs();
        let r = self.bits.update(value.to_bits(), sum.to_bits(), side.to_bits());
        if r.is_ok() {
            if value < 0.0 {
                self.negative_sum = side;
            } else {
                self.positive_sum = side;
            }
        }
        r
    }

    fn merge_from<const K2: usize, const L2: usize>(
        &mut self,
        other: &HistogramPN<K2, L2>,
    ) -> Result<(), Error> {
        let positive = self.positive_sum + other.positive_sum;
        let negative = self.negative_sum + other.negative_sum;
        let sum = self.sum() + other.sum();
        let sums = (sum.to_bits(), positive.to_bits(), negative.to_bits());
        let r = self.bits.merge_from(&other.bits, sums);
        if r.is_ok() {
            self.positive_sum = positive;
            self.negative_sum = negative;
        }
        r
    }

    fn clear(&mut self) {
        self.bits.clear();
        self.positive_sum = 0.0;
        self.negative_sum = 0.0;
    }

    fn view(&self) -> View<K, L> {
        View(self.bits)
    }
}

#[test]
fn pn_empty() {
    let h: HistogramPN<8, 4> = HistogramPN::new();
    let v = h.view();
    assert_eq!(v.stats().count, 0);
    assert_eq!(v.scale(), 0);
    assert!(v.positive().is_empty());
    assert!(v.negative().is_empty());
    assert_eq!(v.zero_count(), 0);
}

#[test]
fn pn_positive_only() {
    let mut h: HistogramPN<8, 4> = HistogramPN::new();
    h.update(1.0).unwrap();
    h.update(2.0).unwrap();
    h.update(4.0).unwrap();

    let v = h.view();
    assert_eq!(v.stats().count, 3);
    assert!((v.stats().sum - 7.0).abs() < 1e-10);
    assert_eq!(v.stats().min, 1.0);
    assert_eq!(v.stats().max, 4.0);
    assert!(!v.positive().is_empty());
    assert!(v.negative().is_empty());
    assert_eq!(v.zero_count(), 0);
}

#[test]
fn pn_negative_only() {
    let mut h: HistogramPN<8, 4> = HistogramPN::new();
    h.update(-1.0).unwrap();
    h.update(-2.0).unwrap();

    let v = h.view();
    assert_eq!(v.stats().count, 2);
    assert!((v.stats().sum - (-3.0)).abs() < 1e-10);
    assert_eq!(v.stats().min, -2.0);
    assert_eq!(v.stats().max, -1.0);
    assert!(v.positive().is_empty());
    assert!(!v.negative().is_empty());
}

#[test]
fn pn_mixed_values() {
    let mut h: HistogramPN<8, 4> = HistogramPN::new();
    h.update(10.0).unwrap();
    h.update(-3.0).unwrap();
    h.update(0.0).unwrap();
    h.update(5.0).unwrap();
    h.update(-1.0).unwrap();

    let v = h.view();
    assert_eq!(v.stats().count, 5);
    assert!((v.stats().sum - 11.0).abs() < 1e-10);
    assert_eq!(v.stats().min, -3.0);
    assert_eq!(v.stats().max, 10.0);
    assert_eq!(v.zero_count(), 1);
    assert!(!v.positive().is_empty());
    assert!(!v.negative().is_empty());
}

#[test]
fn pn_zeros_only() {
    let mut h: HistogramPN<4, 4> = HistogramPN::new();
    for _ in 0..10 {
        h.update(0.0).unwrap();
    }

    let v = h.view();
    assert_eq!(v.stats().count, 10);
    assert_eq!(v.stats().sum, 0.0);
    assert_eq!(v.stats().min, 0.0);
    assert_eq!(v.stats().max, 0.0);
    assert_eq!(v.zero_count(), 10);
    assert!(v.positive().is_empty());
    assert!(v.negative().is_empty());
}

#[test]
fn pn_rejects_nan_inf() {
    let mut h: HistogramPN<4, 4> = HistogramPN::new();
    assert_eq!(h.update(f64::NAN), Err(Error::Extreme));
    assert_eq!(h.update(f64::INFINITY), Err(Error::Extreme));
    assert_eq!(h.update(f64::NEG_INFINITY), Err(Error::Extreme));
    assert_eq!(h.view().stats().count, 0);
}

#[test]
fn pn_merge_both_empty() {
    let mut h1: HistogramPN<8, 4> = HistogramPN::new();
    let h2: HistogramPN<8, 4> = HistogramPN::new();
    h1.merge_from(&h2).unwrap();
    assert_eq!(h1.view().stats().count, 0);
}

#[test]
fn pn_merge_mixed() {
    let mut h1: HistogramPN<8, 4> = HistogramPN::new();
    let mut h2: HistogramPN<8, 4> = HistogramPN::new();

    h1.update(10.0).unwrap();
    h1.update(-1.0).unwrap();

    h2.update(5.0).unwrap();
    h2.update(-3.0).unwrap();
    h2.update(0.0).unwrap();

    h1.merge_from(&h2).unwrap();

    let v = h1.view();
    assert_eq!(v.stats().count, 5);
    assert!((v.stats().sum - 11.0).abs() < 1e-10);
    assert_eq!(v.stats().min, -3.0);
    assert_eq!(v.stats().max, 10.0);
    assert_eq!(v.zero_count(), 1);
}

#[test]
fn pn_merge_different_sizes() {
    let mut h1: HistogramPN<8, 4> = HistogramPN::new();
    let mut h2: HistogramPN<16, 2> = HistogramPN::new();

    h1.update(1.0).unwrap();
    h2.update(-2.0).unwrap();

    h1.merge_from(&h2).unwrap();
    assert_eq!(h1.view().stats().count, 2);
    assert!((h1.view().stats().sum - (-1.0)).abs() < 1e-10);
}

#[test]
fn pn_clear() {
    let mut h: HistogramPN<8, 4> = HistogramPN::new();
    h.update(1.0).unwrap();
    h.update(-1.0).unwrap();
    h.update(0.0).unwrap();

    h.clear();
    let v = h.view();
    assert_eq!(v.stats().count, 0);
    assert_eq!(v.zero_count(), 0);
    assert!(v.positive().is_empty());
    assert!(v.negative().is_empty());
}

#[test]
fn pn_scale_sync() {
    // Force one sub-histogram to downscale by filling it with
    // a wide range of values, then verify the other sub-histogram
    // tracks the same scale.
    let mut h: HistogramPN<4, 4> = HistogramPN::new();

    // Fill positive range with wide spread to force downscaling.
    let mut v = 1.0;
    for _ in 0..200 {
        h.update(v).unwrap();
        v *= 1.3;
    }

    let pos_scale = h.positive_settings().scale().scale();
    let _neg_scale = h.negative_settings().scale().scale();

    // Now add a negative value — this may trigger sync.
    h.update(-1.0).unwrap();

    let final_pos = h.positive_settings().scale().scale();
    let final_neg = h.negative_settings().scale().scale();

    // After sync, both should be at the lower scale.
    // The positive has downscaled, and negative should match.
    assert!(final_pos <= pos_scale, "positive scale should not increase");
    assert_eq!(
        final_pos, final_neg,
        "scales should be synchronized: pos={final_pos}, neg={final_neg}"
    );
}

#[test]
fn pn_asymmetric_sizing() {
    // HistogramPN<8, 2> — 8 words positive, 2 words negative.
    let mut h: HistogramPN<8, 2> = HistogramPN::new();

    // Many positive values.
    for i in 1..=100 {
        h.update(i as f64).unwrap();
    }
    // Few negative values.
    h.update(-0.5).unwrap();
    h.update(-1.0).unwrap();

    let v = h.view();
    assert_eq!(v.stats().count, 102);
    assert!(!v.positive().is_empty());
    assert!(!v.negative().is_empty());
    assert_eq!(v.stats().min, -1.0);
    assert_eq!(v.stats().max, 100.0);
}

#[test]
fn pn_balanced_sizing() {
    // HistogramPN<5, 5> — balanced positive and negative.
    let mut h: HistogramPN<5, 5> = HistogramPN::new();

    for i in 1..=50 {
        h.update(i as f64).unwrap();
        h.update(-(i as f64)).unwrap();
    }

    let v = h.view();
    assert_eq!(v.stats().count, 100);
    assert!((v.stats().sum).abs() < 1e-10, "symmetric sum should be ~0");
    assert_eq!(v.stats().min, -50.0);
    assert_eq!(v.stats().max, 50.0);
}

#[test]
fn pn_bucket_iteration() {
    let mut h: HistogramPN<8, 4> = HistogramPN::new();
    h.update(1.0).unwrap();
    h.update(2.0).unwrap();
    h.update(-3.0).unwrap();
    h.update(-4.0).unwrap();

    let v = h.view();

    // Positive buckets should sum to 2.
    let pos_total: u64 = v.positive().iter().sum();
    assert_eq!(pos_total, 2);

    // Negative buckets should sum to 2.
    let neg_total: u64 = v.negative().iter().sum();
    assert_eq!(neg_total, 2);
}

#[test]
fn pn_with_scale() {
    let h: HistogramPN<8, 4> = HistogramPN::new().with_scale(4).unwrap();
    assert_eq!(h.positive_settings().scale().scale(), 4);
    assert_eq!(h.negative_settings().scale().scale(), 4);
}

#[test]
fn pn_with_min_width() {
    let h: HistogramPN<8, 4> = HistogramPN::new().with_min_width(Width::U8);
    assert_eq!(h.positive_settings().width(), Width::U8);
    assert_eq!(h.negative_settings().width(), Width::U8);
}

#[test]
fn pn_subnormal_negative() {
    let mut h: HistogramPN<4, 4> = HistogramPN::new();
    // Subnormal negative values: very small negative numbers.
    let tiny = -f64::MIN_POSITIVE / 2.0;
    h.update(tiny).unwrap();

    let v = h.view();
    assert_eq!(v.stats().count, 1);
    assert!(!v.negative().is_empty());
    assert_eq!(v.stats().min, tiny);
}

#[test]
fn pn_negative_zero() {
    let mut h: HistogramPN<4, 4> = HistogramPN::new();
    h.update(-0.0).unwrap();
    // -0.0 has significand 0, so it should be treated as zero.
    assert_eq!(h.view().zero_count(), 1);
    assert_eq!(h.view().stats().count, 1);
}

#[test]
fn pn_merge_into_empty() {
    let mut h1: HistogramPN<8, 4> = HistogramPN::new();
    let mut h2: HistogramPN<8, 4> = HistogramPN::new();
    h2.update(1.0).unwrap();
    h2.update(-2.0).unwrap();
    h2.update(0.0).unwrap();

    h1.merge_from(&h2).unwrap();
    assert_eq!(h1.view().stats().count, 3);
    assert!((h1.view().stats().sum - (-1.0)).abs() < 1e-10);
    assert_eq!(h1.view().zero_count(), 1);
}

#[test]
fn pn_merge_from_empty() {
    let mut h1: HistogramPN<8, 4> = HistogramPN::new();
    h1.update(1.0).unwrap();
    let h2: HistogramPN<8, 4> = HistogramPN::new();

    h1.merge_from(&h2).unwrap();
    assert_eq!(h1.view().stats().count, 1);
}
