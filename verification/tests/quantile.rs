use otel_expohisto::boundary::Boundary;
use otel_expohisto::histogram::Histogram;
use otel_expohisto::logarithm::inverse_factor;
use otel_expohisto::mapping::{Scale as IndexScale, ScaleError};
use otel_expohisto::quantile::{Estimate, Target};
use otel_expohisto::stats::Error;
use rand::rngs::StdRng;
use rand::SeedableRng;
use rand_distr::{Distribution, Exp, LogNormal, Uniform};

/// Statistics in floating point.
struct Stats {
    count: u64,
    min: f64,
    max: f64,
}

/// Buckets as they were when the view was taken.
struct BucketView {
    offset: i32,
    counts: Vec<u64>,
}

impl BucketView {
    fn offset(&self) -> i32 {
        self.offset
    }

    fn iter(&self) -> std::iter::Copied<std::slice::Iter<'_, u64>> {
        self.counts.iter().copied()
    }
}

/// Evaluates lower boundaries.
struct Scale(IndexScale);

impl Scale {
    fn new(scale: i32) -> Result<Self, ScaleError> {
        IndexScale::new(scale).map(Scale)
    }

    fn lower_boundary(&self, index: i32) -> Result<f64, ScaleError> {
        let power = |n: i32| (f64::from_bits(inverse_factor(self.0.scale())) * n as f64).exp();
        self.0.lower_boundary(index).map(|b| match b {
            Boundary::Exact(bits) => f64::from_bits(bits),
            Boundary::Exp(n) => power(n),
            Boundary::ExpDoubled(n) => 2.0 * power(n),
            Boundary::ExpHalved(n) => power(n) / 2.0,
        })
    }
}

/// A quantile and the value estimated for it.
struct QuantileValue {
    quantile: f64,
    value: f64,
}

/// The least rank that is not below `target`.
fn rank_of(target: f64) -> u64 {
    let mut rank = target.ceil() as u64;
    while rank > 0 && (rank - 1) as f64 >= target {
        rank -= 1;
    }
    rank
}

/// A histogram as it was when the view was taken.
struct View<const N: usize>(Histogram<N>);

impl<const N: usize> View<N> {
    fn scale(&self) -> i32 {
        self.0.view().scale()
    }

    fn stats(&self) -> Stats {
        let stats = self.0.view().stats();
        Stats {
            count: stats.count,
            min: f64::from_bits(stats.min),
            max: f64::from_bits(stats.max),
        }
    }

    fn positive(&self) -> BucketView {
        let view = self.0.view();
        let buckets = view.positive();
        let mut counts = Vec::new();
        let mut cursor = buckets.iter();
        while let Some(count) = cursor.next() {
            counts.push(count);
        }
        BucketView { offset: buckets.offset(), counts }
    }

    fn quantiles(&self, quantiles: &[f64]) -> std::vec::IntoIter<QuantileValue> {
        let stats = self.stats();
        let target = |q: f64| q * stats.count as f64;
        let targets: Vec<Target> = quantiles
            .iter()
            .map(|&q| {
                if q <= 0.0 {
                    Target::Lowest
                } else if q >= 1.0 {
                    Target::Highest
                } else {
                    Target::Rank(rank_of(target(q)))
                }
            })
            .collect();
        let scale = Scale::new(self.scale()).unwrap();
        let view = self.0.view();
        let mut cursor = view.quantiles(&targets);
        assert_eq!(cursor.len(), quantiles.len());
        let mut values = Vec::new();
        for &q in quantiles {
            let value = match cursor.next().unwrap() {
                Estimate::Undefined => f64::NAN,
                Estimate::Zero => 0.0,
                Estimate::Min => stats.min,
                Estimate::Max => stats.max,
                Estimate::Within { index, below, count } => {
                    let lower = scale.lower_boundary(index).unwrap_or(0.0);
                    let upper = scale.lower_boundary(index + 1).unwrap_or(stats.max);
                    let fraction = (target(q) - below as f64) / count as f64;
                    (lower + fraction * (upper - lower)).clamp(stats.min, stats.max)
                }
            };
            values.push(QuantileValue { quantile: q, value });
        }
        assert_eq!(cursor.len(), 0);
        assert!(cursor.next().is_none());
        values.into_iter()
    }
}

/// A histogram that is fed floating-point values.
struct HistogramNN<const N: usize>(Histogram<N>);

impl<const N: usize> HistogramNN<N> {
    fn new() -> Self {
        HistogramNN(Histogram::new())
    }

    fn update(&mut self, value: f64) -> Result<(), Error> {
        let sum = f64::from_bits(self.0.raw_stats().sum) + value;
        self.0.update(value.to_bits(), sum.to_bits())
    }

    fn view(&self) -> View<N> {
        View(self.0)
    }
}

/// One distribution to sample from.
struct Case {
    name: &'static str,
    seed: u64,
    sample: fn(&mut StdRng) -> f64,
    cdf: fn(f64) -> f64,
    p50_expected: f64,
}

#[test]
fn test_quantile_empty_histogram() {
    let h: HistogramNN<8> = HistogramNN::new();
    let qs = [0.0, 0.5, 1.0];
    let v = h.view();
    let vals: Vec<_> = v.quantiles(&qs).collect();
    assert_eq!(vals.len(), 3);
    for v in &vals {
        assert!(v.value.is_nan(), "empty histogram should yield NaN");
    }
}

#[test]
fn test_quantile_single_value() {
    let mut h: HistogramNN<8> = HistogramNN::new();
    h.update(42.0).unwrap();
    let qs = [0.0, 0.5, 1.0];
    let v = h.view();
    let vals: Vec<_> = v.quantiles(&qs).collect();
    assert_eq!(vals[0].value, 42.0); // p0 = min
    assert_eq!(vals[2].value, 42.0); // p100 = max
    assert!(
        (vals[1].value - 42.0).abs() < 1.0,
        "p50 = {} should be near 42.0",
        vals[1].value
    );
}

#[test]
fn test_quantile_with_zeros() {
    let mut h: HistogramNN<8> = HistogramNN::new();
    for _ in 0..90 {
        h.update(0.0).unwrap();
    }
    for _ in 0..10 {
        h.update(100.0).unwrap();
    }

    let qs = [0.0, 0.5, 0.89, 0.95, 1.0];
    let v = h.view();
    let vals: Vec<_> = v.quantiles(&qs).collect();
    assert_eq!(vals[0].value, 0.0, "p0 = min = 0");
    assert_eq!(vals[1].value, 0.0, "p50 should be 0 (90% are zeros)");
    assert_eq!(vals[2].value, 0.0, "p89 should still be 0");
    assert!(vals[3].value > 0.0, "p95 should be > 0");
    assert_eq!(vals[4].value, 100.0, "p100 = max");
}

/// Tests monotonicity, p0=min, p100=max, clamping, and ExactSizeIterator.
#[test]
fn test_quantile_properties() {
    let mut h: HistogramNN<8> = HistogramNN::new();
    for v in 1..=1000 {
        h.update(v as f64).unwrap();
    }

    let qs = [0.0, 0.1, 0.25, 0.5, 0.75, 0.9, 0.95, 0.99, 1.0];
    let view = h.view();
    let stats = view.stats();
    let iter = view.quantiles(&qs);
    assert_eq!(iter.len(), qs.len(), "ExactSizeIterator");
    let vals: Vec<_> = iter.collect();

    // p0 = min, p100 = max.
    assert_eq!(vals[0].value, stats.min);
    assert_eq!(vals[qs.len() - 1].value, stats.max);

    // All values clamped to [min, max].
    for v in &vals {
        assert!(
            v.value >= stats.min && v.value <= stats.max,
            "q={} value {} outside [{}, {}]",
            v.quantile,
            v.value,
            stats.min,
            stats.max
        );
    }

    // Monotonically non-decreasing.
    for w in vals.windows(2) {
        assert!(
            w[0].value <= w[1].value,
            "not monotonic: q{}={} > q{}={}",
            w[0].quantile,
            w[0].value,
            w[1].quantile,
            w[1].value,
        );
    }

    // Rough sanity: p50 should be near 500.
    assert!(
        (vals[3].value - 500.0).abs() < 100.0,
        "p50 = {} should be near 500",
        vals[3].value
    );
}

/// All-same-value histogram: every quantile should return that value.
#[test]
fn test_quantile_all_same_value() {
    let mut h: HistogramNN<8> = HistogramNN::new();
    for _ in 0..100 {
        h.update(7.0).unwrap();
    }
    let qs = [0.0, 0.25, 0.5, 0.75, 1.0];
    let view = h.view();
    let vals: Vec<_> = view.quantiles(&qs).collect();
    for v in &vals {
        assert_eq!(
            v.value, 7.0,
            "all-same histogram: q{}={}",
            v.quantile, v.value
        );
    }
}

/// Monotonicity with many closely-spaced quantiles.
#[test]
fn test_quantile_fine_grained_monotonicity() {
    let mut h: HistogramNN<16> = HistogramNN::new();
    for v in 1..=500 {
        h.update(v as f64).unwrap();
    }
    let qs: Vec<f64> = (0..=100).map(|i| i as f64 / 100.0).collect();
    let view = h.view();
    let stats = view.stats();
    let vals: Vec<_> = view.quantiles(&qs).collect();

    assert_eq!(vals[0].value, stats.min);
    assert_eq!(vals[100].value, stats.max);

    for w in vals.windows(2) {
        assert!(
            w[0].value <= w[1].value,
            "not monotonic at q={}: {} > {}",
            w[1].quantile,
            w[0].value,
            w[1].value,
        );
    }
}

// -- Distribution-based goodness-of-fit test ------------------------------

/// Error function via Horner form of the Abramowitz & Stegun
/// approximation (max error ~1.5 × 10⁻⁷).
fn erf(x: f64) -> f64 {
    let a = x.abs();
    let t = 1.0 / (1.0 + 0.3275911 * a);
    let poly = t
        * (0.254829592
            + t * (-0.284496736 + t * (1.421413741 + t * (-1.453152027 + t * 1.061405429))));
    let result = 1.0 - poly * (-a * a).exp();
    if x < 0.0 {
        -result
    } else {
        result
    }
}

/// Computes reduced χ²/df of histogram bucket counts vs a theoretical
/// CDF. Bins with expected count < 5 are merged with neighbours.
fn reduced_chi_squared<const N: usize>(h: &HistogramNN<N>, cdf: fn(f64) -> f64) -> f64 {
    let histogram_view = h.view();
    let scale = histogram_view.scale();
    let mapping = Scale::new(scale).unwrap();
    let total = histogram_view.stats().count as f64;
    let view = histogram_view.positive();

    // Collect (observed, expected) per bucket, merging on the fly.
    let mut merged: Vec<(f64, f64)> = Vec::new();
    let (mut acc_o, mut acc_e) = (0.0, 0.0);
    let offset = view.offset();
    for (pos, count) in view.iter().enumerate() {
        let index = offset + pos as i32;
        let lower = mapping.lower_boundary(index).unwrap_or(0.0);
        let upper = mapping.lower_boundary(index + 1).unwrap_or(f64::INFINITY);
        acc_o += count as f64;
        acc_e += total * (cdf(upper) - cdf(lower));
        if acc_e >= 5.0 {
            merged.push((acc_o, acc_e));
            acc_o = 0.0;
            acc_e = 0.0;
        }
    }
    if acc_e > 0.0 {
        if let Some(last) = merged.last_mut() {
            last.0 += acc_o;
            last.1 += acc_e;
        }
    }

    let df = merged.len().saturating_sub(1).max(1);
    let chi2: f64 = merged.iter().map(|(o, e)| (o - e).powi(2) / e).sum();
    chi2 / df as f64
}

/// Chi-squared goodness-of-fit: validates histogram bucket counts
/// against three theoretical CDFs and spot-checks the p50 quantile.
#[test]
fn test_goodness_of_fit() {
    let cases = [
        Case {
            name: "Exponential(1.5)",
            seed: 42,
            sample: |rng| Exp::new(1.5).unwrap().sample(rng),
            cdf: |x| 1.0 - (-1.5 * x).exp(),
            p50_expected: core::f64::consts::LN_2 / 1.5,
        },
        Case {
            name: "LogNormal(2, 0.5)",
            seed: 123,
            sample: |rng| LogNormal::new(2.0, 0.5).unwrap().sample(rng),
            cdf: |x| 0.5 * (1.0 + erf((x.ln() - 2.0) / (0.5 * std::f64::consts::SQRT_2))),
            p50_expected: (2.0_f64).exp(),
        },
        Case {
            name: "Uniform(10, 500)",
            seed: 999,
            sample: |rng| Uniform::new(10.0, 500.0).sample(rng),
            cdf: |x| ((x - 10.0) / 490.0).clamp(0.0, 1.0),
            p50_expected: 255.0,
        },
    ];

    for case in &cases {
        let mut rng = StdRng::seed_from_u64(case.seed);
        let mut h: HistogramNN<160> = HistogramNN::new();
        for _ in 0..1_000_000 {
            h.update((case.sample)(&mut rng)).unwrap();
        }

        let reduced = reduced_chi_squared(&h, case.cdf);
        println!("{}: χ²/df={reduced:.4}", case.name);
        assert!(
            reduced < 2.0,
            "{}: reduced χ²={reduced:.4} exceeds 2.0",
            case.name,
        );

        // Spot-check p0, p50, p100.
        let qs = [0.0, 0.5, 1.0];
        let view = h.view();
        let stats = view.stats();
        let vals: Vec<_> = view.quantiles(&qs).collect();
        assert_eq!(vals[0].value, stats.min, "{}: p0 must equal min", case.name);
        assert_eq!(
            vals[2].value, stats.max,
            "{}: p100 must equal max",
            case.name
        );

        // Tolerance scales with bucket width: at coarse scales (heavy
        // downscaling from counter widening), buckets are wide and
        // linear interpolation has proportionally more error.
        let scale = view.scale();
        let rel_width = if scale >= 0 {
            2.0_f64.powf(1.0 / (1u64 << scale) as f64) - 1.0
        } else {
            2.0_f64.powi(1 << (-scale)) - 1.0
        };
        let tol = (rel_width * 0.5).max(0.05);

        let p50_err = ((vals[1].value - case.p50_expected) / case.p50_expected).abs();
        assert!(
            p50_err < tol,
            "{}: p50={:.4} expected={:.4} err={:.2}% (tol={:.1}%, scale={})",
            case.name,
            vals[1].value,
            case.p50_expected,
            p50_err * 100.0,
            tol * 100.0,
            scale,
        );
    }
}
