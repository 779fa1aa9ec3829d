use otel_expohisto::lookup::TABLE_SCALE;
use otel_expohisto::mapping::{ScaleError, MIN_SCALE};
use otel_expohisto::sketch::Sketch;
use otel_expohisto::sketch_pn::SketchPN as BitSketchPN;
use otel_expohisto::sketch_view::SketchBucketView;
use otel_expohisto::stats::Error;
use otel_expohisto::width::Width;

/// Statistics in floating point.
struct Stats {
    count: u64,
    sum: f64,
    min: f64,
    max: f64,
}

/// Bit patterns of the relative errors of all scales.
fn relative_errors() -> Vec<u64> {
    (MIN_SCALE..=TABLE_SCALE)
        .map(|s| {
            let b = (-(s as f64)).exp2().exp2();
            let alpha = if b.is_finite() { (b - 1.0) / (b + 1.0) } else { 1.0 };
            alpha.to_bits()
        })
        .collect()
}

/// Buckets of one range as they were when the view was taken.
struct BucketView {
    width: Width,
    empty: bool,
}

impl BucketView {
    fn of<const N: usize>(view: SketchBucketView<'_, N>) -> Self {
        BucketView { width: view.width(), empty: view.is_empty() }
    }

    fn width(&self) -> Width {
        self.width
    }

    fn is_empty(&self) -> bool {
        self.empty
    }
}

/// A sketch as it was when the view was taken.
struct View<const K: usize, const L: usize>(BitSketchPN<K, L>);

impl<const K: usize, const L: usize> View<K, L> {
    fn scale(&self) -> i32 {
        self.0.view().scale()
    }

    fn stats(&self) -> Stats {
        let stats = self.0.view().stats();
        Stats {
            count: stats.count,
            sum: f64::from_bits(stats.sum),
            min: f64::from_bits(stats.min),
            max: f64::from_bits(stats.max),
        }
    }

    fn zero_count(&self) -> u64 {
        self.0.view().zero_count()
    }

    fn positive(&self) -> BucketView {
        BucketView::of(self.0.view().positive())
    }

    fn negative(&self) -> BucketView {
        BucketView::of(self.0.view().negative())
    }

    fn collapsed(&self) -> bool {
        self.0.view().collapsed()
    }
}

/// A sketch that is fed floating-point values.
#[derive(Debug, Clone)]
struct SketchPN<const K: usize, const L: usize>(BitSketchPN<K, L>);

impl<const K: usize, const L: usize> SketchPN<K, L> {
    fn new() -> Self {
        SketchPN(BitSketchPN::new())
    }

    fn with_scale(self, scale: i32) -> Result<Self, ScaleError> {
        self.0.with_scale(scale).map(SketchPN)
    }

    fn with_relative_error(self, target: f64) -> Result<Self, ScaleError> {
        self.0.with_relative_error(target.to_bits(), &relative_errors()).map(SketchPN)
    }

    fn scale(&self) -> i32 {
        self.0.scale()
    }

    fn count(&self) -> u64 {
        self.0.count()
    }

    fn max(&self) -> f64 {
        f64::from_bits(self.0.max())
    }

    fn positive(&self) -> &Sketch<K> {
        self.0.positive()
    }

    fn negative(&self) -> &Sketch<L> {
        self.0.negative()
    }

    fn update(&mut self, value: f64) -> Result<(), Error> {
        let side = if value < 0.0 { self.negative().sum() } else { self.positive().sum() };
        let sum = f64::from_bits(self.0.sum()) + value;
        let side_sum = f64::from_bits(side) + value.abs();
        self.0.update(value.to_bits(), sum.to_bits(), side_sum.to_bits())
    }

    fn merge_from<const K2: usize, const L2: usize>(
        &mut self,
        other: &SketchPN<K2, L2>,
    ) -> Result<(), Error> {
        let joined = |a: u64, b: u64| (f64::from_bits(a) + f64::from_bits(b)).to_bits();
        let sums = (
            joined(self.0.sum(), other.0.sum()),
            joined(self.positive().sum(), other.positive().sum()),
            joined(self.negative().sum(), other.negative().sum()),
        );
        self.0.merge_from(&other.0, sums)
    }

    fn view(&self) -> View<K, L> {
        View(self.0)
    }
}

fn live_sum<const N: usize>(s: &Sketch<N>) -> u64 {
    let mut t = 0u64;
    for (_, c) in s.for_each_bucket() {
        t += c;
    }
    t
}

#[test]
fn empty() {
    let s: SketchPN<8, 4> = SketchPN::new().with_scale(4).unwrap();
    let v = s.view();
    assert_eq!(v.scale(), 0);
    assert_eq!(v.stats().count, 0);
    assert_eq!(v.stats().min, 0.0);
    assert_eq!(v.stats().max, 0.0);
    assert_eq!(v.zero_count(), 0);
    assert!(v.positive().is_empty());
    assert!(v.negative().is_empty());
    assert!(!v.collapsed());
}

#[test]
fn dispatch_by_sign_and_stats() {
    let mut s: SketchPN<8, 8> = SketchPN::new().with_scale(4).unwrap();
    s.update(100.0).unwrap();
    s.update(-2.0).unwrap();
    s.update(-8.0).unwrap();
    s.update(0.0).unwrap();
    s.update(-0.0).unwrap();

    let v = s.view();
    assert_eq!(v.scale(), 4);
    let st = v.stats();
    assert_eq!(st.count, 5);
    assert_eq!(v.zero_count(), 2, "+0.0 and -0.0 both count as zero");
    assert_eq!(st.min, -8.0, "most-negative value is the min");
    assert_eq!(st.max, 100.0);
    assert!((st.sum - (100.0 - 2.0 - 8.0)).abs() < 1e-9);

    // One positive bucket, two negative buckets.
    assert_eq!(live_sum(s.positive()), 1);
    assert_eq!(live_sum(s.negative()), 2);
}

#[test]
fn sketch_pn_rejects_extremes() {
    let mut s: SketchPN<4, 4> = SketchPN::new();
    assert_eq!(s.update(f64::NAN), Err(Error::Extreme));
    assert_eq!(s.update(f64::INFINITY), Err(Error::Extreme));
    assert_eq!(s.update(f64::NEG_INFINITY), Err(Error::Extreme));
    assert_eq!(s.count(), 0);
}

#[test]
fn negative_range_collapses_independently() {
    // A wide negative spread collapses the negative range while the
    // positive range stays exact.
    let scale = 4;
    let mut s: SketchPN<16, 2> = SketchPN::new().with_scale(scale).unwrap();
    for e in -30..30 {
        s.update(-(2f64.powi(e))).unwrap();
    }
    s.update(5.0).unwrap();
    let v = s.view();
    assert!(v.negative().width() >= Width::B1);
    assert!(s.negative().collapsed(), "wide negative range collapses");
    assert!(!s.positive().collapsed(), "single positive value is exact");
    assert!(v.collapsed());
    // No counts lost.
    assert_eq!(
        live_sum(s.positive()) + live_sum(s.negative()) + v.zero_count(),
        s.count()
    );
    assert_eq!(s.max(), 5.0);
}

#[test]
fn merge_combines_both_ranges_and_zeros() {
    let scale = 5;
    let mut a: SketchPN<8, 8> = SketchPN::new().with_scale(scale).unwrap();
    let mut b: SketchPN<8, 8> = SketchPN::new().with_scale(scale).unwrap();

    for i in 1..=50 {
        a.update(i as f64).unwrap();
        b.update(-(i as f64)).unwrap();
    }
    a.update(0.0).unwrap();
    b.update(0.0).unwrap();
    b.update(0.0).unwrap();

    a.merge_from(&b).unwrap();
    let v = a.view();
    assert_eq!(v.stats().count, 100 + 3);
    assert_eq!(v.zero_count(), 3);
    assert_eq!(v.stats().min, -50.0);
    assert_eq!(v.stats().max, 50.0);
    assert_eq!(
        live_sum(a.positive()) + live_sum(a.negative()) + v.zero_count(),
        a.count(),
    );
    assert_eq!(live_sum(a.positive()), 50);
    assert_eq!(live_sum(a.negative()), 50);
}

#[test]
fn sketch_pn_merge_different_pool_sizes() {
    let scale = 4;
    let mut a: SketchPN<8, 4> = SketchPN::new().with_scale(scale).unwrap();
    let mut b: SketchPN<16, 2> = SketchPN::new().with_scale(scale).unwrap();
    let mut total = 0u64;
    for i in 1..=200 {
        a.update(i as f64).unwrap();
        a.update(-(i as f64)).unwrap();
        b.update((i as f64) * 0.25).unwrap();
        b.update(-(i as f64) * 0.25).unwrap();
        total += 4;
    }
    a.merge_from(&b).unwrap();
    assert_eq!(a.count(), total);
    assert_eq!(
        live_sum(a.positive()) + live_sum(a.negative()),
        total,
        "no counts lost across pool sizes",
    );
    assert_eq!(a.view().stats().max, 200.0);
    assert_eq!(a.view().stats().min, -200.0);
}

#[test]
fn sketch_pn_merge_scale_mismatch_errs() {
    let mut a: SketchPN<8, 8> = SketchPN::new().with_scale(4).unwrap();
    let mut b: SketchPN<8, 8> = SketchPN::new().with_scale(5).unwrap();
    a.update(1.0).unwrap();
    b.update(1.0).unwrap();
    assert_eq!(a.merge_from(&b), Err(Error::ScaleMismatch));
    // Mismatched but empty source is a no-op.
    let c: SketchPN<8, 8> = SketchPN::new().with_scale(7).unwrap();
    assert_eq!(a.merge_from(&c), Ok(()));
}

#[test]
fn with_relative_error_sets_both_ranges() {
    let s: SketchPN<8, 8> = SketchPN::new().with_relative_error(0.1).unwrap();
    assert_eq!(s.scale(), 2);
    assert_eq!(s.positive().scale(), 2);
    assert_eq!(s.negative().scale(), 2);
    assert!(SketchPN::<8, 8>::new().with_relative_error(0.0).is_err());
}
