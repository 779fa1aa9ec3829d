use otel_expohisto::aggregator::{CounterWidth, ExpoHistogram as BitExpoHistogram, Resolution};

/// An aggregator that is fed floating-point values.
#[derive(Debug, Clone)]
struct ExpoHistogram(BitExpoHistogram);

impl ExpoHistogram {
    fn new(resolution: Resolution) -> Self {
        ExpoHistogram(BitExpoHistogram::new(resolution))
    }

    fn with_max_scale(resolution: Resolution, max_scale: i32) -> Self {
        ExpoHistogram(BitExpoHistogram::with_max_scale(resolution, max_scale))
    }

    fn resolution(&self) -> Resolution {
        self.0.resolution()
    }

    fn counter_width(&self) -> Option<CounterWidth> {
        self.0.counter_width()
    }

    fn count(&self) -> u64 {
        self.0.count()
    }

    fn zero_count(&self) -> u64 {
        self.0.zero_count()
    }

    fn sum(&self) -> f64 {
        f64::from_bits(self.0.sum())
    }

    fn min(&self) -> f64 {
        f64::from_bits(self.0.min())
    }

    fn max(&self) -> f64 {
        f64::from_bits(self.0.max())
    }

    fn scale(&self) -> i32 {
        self.0.scale()
    }

    fn max_scale(&self) -> i32 {
        self.0.max_scale()
    }

    fn bucket_len(&self) -> u32 {
        self.0.bucket_len()
    }

    fn bucket_at(&self, pos: u32) -> u64 {
        self.0.bucket_at(pos)
    }

    fn bucket_offset(&self) -> i32 {
        self.0.bucket_offset()
    }

    fn update(&mut self, value: f64) -> bool {
        let sum = self.sum() + value;
        self.0.update(value.to_bits(), sum.to_bits())
    }

    fn update_by_incr(&mut self, value: f64, incr: u64) -> bool {
        let sum = self.sum() + value * incr as f64;
        self.0.update_by_incr(value.to_bits(), incr, sum.to_bits())
    }

    fn merge_from(&mut self, other: &Self) -> bool {
        let sum = self.sum() + other.sum();
        self.0.merge_from(&other.0, sum.to_bits())
    }

    fn clear(&mut self) {
        self.0.clear();
    }

    fn swap(&mut self, other: &mut Self) {
        self.0.swap(&mut other.0);
    }
}

#[test]
fn test_empty_resolution() {
    let mut h = ExpoHistogram::new(Resolution::Empty);
    assert_eq!(h.resolution(), Resolution::Empty);
    assert!(h.update(1.0));
    assert!(h.update(2.0));
    assert!(h.update(0.0));

    assert_eq!(h.count(), 3);
    assert_eq!(h.sum(), 3.0);
    assert_eq!(h.min(), 0.0);
    assert_eq!(h.max(), 2.0);
    assert_eq!(h.zero_count(), 1);
    assert_eq!(h.bucket_len(), 0);
    assert_eq!(h.scale(), 0);
}

#[test]
fn test_small_resolution() {
    let mut h = ExpoHistogram::new(Resolution::Small);
    assert_eq!(h.resolution(), Resolution::Small);
    assert_eq!(h.counter_width(), Some(CounterWidth::U16));
    h.update(1.0);
    h.update(2.0);
    assert_eq!(h.count(), 2);
    assert_eq!(h.sum(), 3.0);
    assert!(h.bucket_len() > 0);
}

#[test]
fn test_large_resolution() {
    let mut h = ExpoHistogram::new(Resolution::Large);
    assert_eq!(h.resolution(), Resolution::Large);
    assert_eq!(h.counter_width(), Some(CounterWidth::U16));
    h.update(1.0);
    h.update(2.0);
    assert_eq!(h.count(), 2);
    assert_eq!(h.sum(), 3.0);
    assert!(h.bucket_len() > 0);
}

#[test]
fn aggregator_test_with_max_scale() {
    let mut h = ExpoHistogram::with_max_scale(Resolution::Small, 3);
    assert_eq!(h.max_scale(), 3);
    h.update(1.0);
    assert!(h.scale() <= 3);
}

#[test]
fn test_merge_same_resolution() {
    let mut a = ExpoHistogram::new(Resolution::Small);
    let mut b = ExpoHistogram::new(Resolution::Small);
    a.update(1.0);
    a.update(2.0);
    b.update(3.0);
    b.update(4.0);
    assert!(a.merge_from(&b));
    assert_eq!(a.count(), 4);
    assert_eq!(a.sum(), 10.0);
    assert_eq!(a.min(), 1.0);
    assert_eq!(a.max(), 4.0);
}

#[test]
fn test_merge_small_into_large() {
    let mut large = ExpoHistogram::new(Resolution::Large);
    let mut small = ExpoHistogram::new(Resolution::Small);
    large.update(1.0);
    small.update(2.0);
    small.update(3.0);
    assert!(large.merge_from(&small));
    assert_eq!(large.count(), 3);
    assert_eq!(large.sum(), 6.0);
}

#[test]
fn test_merge_large_into_small() {
    let mut small = ExpoHistogram::new(Resolution::Small);
    let mut large = ExpoHistogram::new(Resolution::Large);
    small.update(1.0);
    large.update(2.0);
    large.update(3.0);
    assert!(small.merge_from(&large));
    assert_eq!(small.count(), 3);
    assert_eq!(small.sum(), 6.0);
}

#[test]
fn aggregator_test_merge_into_empty() {
    let mut empty = ExpoHistogram::new(Resolution::Empty);
    let mut large = ExpoHistogram::new(Resolution::Large);
    large.update(5.0);
    large.update(10.0);
    assert!(empty.merge_from(&large));
    assert_eq!(empty.count(), 2);
    assert_eq!(empty.sum(), 15.0);
    assert_eq!(empty.min(), 5.0);
    assert_eq!(empty.max(), 10.0);
    assert_eq!(empty.bucket_len(), 0);
}

#[test]
fn test_merge_empty_into_large() {
    let mut large = ExpoHistogram::new(Resolution::Large);
    let mut empty = ExpoHistogram::new(Resolution::Empty);
    large.update(1.0);
    empty.update_by_incr(2.0, 3);
    assert!(large.merge_from(&empty));
    assert_eq!(large.count(), 4);
    assert_eq!(large.sum(), 7.0);
}

#[test]
fn test_clear_preserves_resolution() {
    let mut h = ExpoHistogram::with_max_scale(Resolution::Large, 4);
    h.update(1.0);
    h.update(100.0);
    h.clear();
    assert_eq!(h.count(), 0);
    assert_eq!(h.resolution(), Resolution::Large);
    assert_eq!(h.max_scale(), 4);
}

#[test]
fn test_swap_cross_resolution() {
    let mut a = ExpoHistogram::new(Resolution::Small);
    let mut b = ExpoHistogram::new(Resolution::Large);
    a.update(1.0);
    b.update(2.0);

    a.swap(&mut b);

    assert_eq!(a.resolution(), Resolution::Large);
    assert_eq!(a.sum(), 2.0);
    assert_eq!(b.resolution(), Resolution::Small);
    assert_eq!(b.sum(), 1.0);
}

#[test]
fn test_merge_equivalence_across_resolutions() {
    let values = &[0.5, 1.0, 2.0, 5.0, 10.0, 0.0];

    let mut target_a = ExpoHistogram::new(Resolution::Large);
    let mut source_small = ExpoHistogram::new(Resolution::Small);
    for &v in values {
        source_small.update(v);
    }
    target_a.merge_from(&source_small);

    let mut target_b = ExpoHistogram::new(Resolution::Large);
    let mut source_large = ExpoHistogram::new(Resolution::Large);
    for &v in values {
        source_large.update(v);
    }
    target_b.merge_from(&source_large);

    assert_eq!(target_a.count(), target_b.count());
    assert!((target_a.sum() - target_b.sum()).abs() < 1e-10);
    assert_eq!(target_a.zero_count(), target_b.zero_count());
    assert_eq!(target_a.min(), target_b.min());
    assert_eq!(target_a.max(), target_b.max());
}

#[test]
fn test_large_has_finer_resolution_than_small() {
    let mut small = ExpoHistogram::new(Resolution::Small);
    let mut large = ExpoHistogram::new(Resolution::Large);

    for v in [1.0, 2.0, 4.0, 8.0, 16.0] {
        small.update(v);
        large.update(v);
    }

    assert!(large.scale() >= small.scale());
}

// --- Counter widening tests ---

#[test]
fn test_auto_widen_u16_to_u32_on_update() {
    let mut h = ExpoHistogram::new(Resolution::Small);
    assert_eq!(h.counter_width(), Some(CounterWidth::U16));

    // Fill one bucket to u16::MAX
    assert!(h.update_by_incr(1.0, u16::MAX as u64));
    assert_eq!(h.counter_width(), Some(CounterWidth::U16));

    // One more overflows u16 — should auto-widen to u32.
    assert!(h.update(1.0));
    assert_eq!(h.counter_width(), Some(CounterWidth::U32));
    assert_eq!(h.count(), u16::MAX as u64 + 1);
    assert_eq!(h.resolution(), Resolution::Small);
}

#[test]
fn test_auto_widen_u32_to_u64_on_update() {
    let mut h = ExpoHistogram::new(Resolution::Small);

    // Force to u32 first.
    assert!(h.update_by_incr(1.0, u16::MAX as u64));
    assert!(h.update(1.0));
    assert_eq!(h.counter_width(), Some(CounterWidth::U32));

    // Now fill to u32::MAX.
    assert!(h.update_by_incr(1.0, u32::MAX as u64 - (u16::MAX as u64 + 1)));
    assert_eq!(h.counter_width(), Some(CounterWidth::U32));

    // One more overflows u32 — should auto-widen to u64.
    assert!(h.update(1.0));
    assert_eq!(h.counter_width(), Some(CounterWidth::U64));
    assert_eq!(h.count(), u32::MAX as u64 + 1);
}

#[test]
fn test_auto_widen_on_merge() {
    let mut target = ExpoHistogram::new(Resolution::Small);
    assert!(target.update_by_incr(1.0, u16::MAX as u64));
    assert_eq!(target.counter_width(), Some(CounterWidth::U16));

    let mut source = ExpoHistogram::new(Resolution::Small);
    source.update(1.0);

    // Merge would overflow u16, triggers widening.
    assert!(target.merge_from(&source));
    assert_eq!(target.counter_width(), Some(CounterWidth::U32));
    assert_eq!(target.count(), u16::MAX as u64 + 1);
}

#[test]
fn test_auto_widen_large_variant() {
    let mut h = ExpoHistogram::new(Resolution::Large);
    assert_eq!(h.counter_width(), Some(CounterWidth::U16));

    assert!(h.update_by_incr(1.0, u16::MAX as u64));
    assert!(h.update(1.0));
    assert_eq!(h.counter_width(), Some(CounterWidth::U32));
    assert_eq!(h.resolution(), Resolution::Large);
    assert_eq!(h.count(), u16::MAX as u64 + 1);
}

#[test]
fn test_clear_resets_counter_width() {
    let mut h = ExpoHistogram::with_max_scale(Resolution::Small, 4);

    // Force widening.
    h.update_by_incr(1.0, u16::MAX as u64);
    h.update(1.0);
    assert_eq!(h.counter_width(), Some(CounterWidth::U32));

    h.clear();
    assert_eq!(h.counter_width(), Some(CounterWidth::U16));
    assert_eq!(h.count(), 0);
    assert_eq!(h.max_scale(), 4);
}

#[test]
fn test_auto_widen_preserves_bucket_data() {
    let mut h = ExpoHistogram::new(Resolution::Small);

    // Put different values in different buckets, then overflow one.
    h.update_by_incr(1.0, 100);
    h.update_by_incr(2.0, 200);
    h.update_by_incr(4.0, u16::MAX as u64);

    let count_before = h.count();
    let sum_before = h.sum();
    let scale_before = h.scale();

    // This overflows u16 on the 4.0 bucket → triggers widening.
    assert!(h.update(4.0));
    assert_eq!(h.counter_width(), Some(CounterWidth::U32));
    assert_eq!(h.count(), count_before + 1);
    assert!((h.sum() - (sum_before + 4.0)).abs() < 1e-10);
    assert_eq!(h.scale(), scale_before);
}

#[test]
fn test_auto_widen_downscale_overflow() {
    // A downscale can also overflow counters when two u16 buckets are
    // combined. Verify the widening path handles this.
    let mut h = ExpoHistogram::with_max_scale(Resolution::Small, 0);
    // At scale 0: 2.0→index 0, 4.0→index 1. Fill both close to max.
    h.update_by_incr(2.0, u16::MAX as u64 - 100);
    h.update_by_incr(4.0, u16::MAX as u64 - 100);

    // 131072 = 2^17, index 16 at scale 0. With SIZE=16 the span (16)
    // forces a downscale that merges indices 0 and 1, overflowing u16.
    assert!(h.update(131072.0));
    assert!(h.counter_width() == Some(CounterWidth::U32)
         || h.counter_width() == Some(CounterWidth::U64));
}

#[test]
fn widening_keeps_every_bucket() {
    let mut h = ExpoHistogram::with_max_scale(Resolution::Small, 0);
    assert!(h.update_by_incr(2.0, 7));
    assert!(h.update_by_incr(8.0, u32::MAX as u64 + 5));
    assert_eq!(h.counter_width(), Some(CounterWidth::U64));
    assert_eq!(h.scale(), 0);
    assert_eq!(h.bucket_offset(), 0);
    let counts: Vec<u64> = (0..h.bucket_len()).map(|p| h.bucket_at(p)).collect();
    assert_eq!(counts, vec![7, 0, u32::MAX as u64 + 5]);
}

#[test]
fn refused_updates_change_nothing() {
    let mut h = ExpoHistogram::new(Resolution::Small);
    assert!(h.update_by_incr(1.0, u64::MAX));
    assert!(!h.update(1.0));
    assert_eq!(h.count(), u64::MAX);
    assert_eq!(h.bucket_len(), 1);
    assert_eq!(h.bucket_at(0), u64::MAX);
    let other = h.clone();
    assert!(!h.merge_from(&other));
    assert_eq!(h.bucket_at(0), u64::MAX);
}

#[test]
fn merges_commute() {
    let mut a = ExpoHistogram::new(Resolution::Large);
    let mut b = ExpoHistogram::new(Resolution::Large);
    for i in 1..=300 {
        assert!(a.update(i as f64));
        assert!(b.update(1.0 / i as f64));
    }
    let mut ab = a.clone();
    assert!(ab.merge_from(&b));
    let mut ba = b.clone();
    assert!(ba.merge_from(&a));
    assert_eq!(ab.scale(), ba.scale());
    assert_eq!(ab.bucket_offset(), ba.bucket_offset());
    assert_eq!(ab.bucket_len(), ba.bucket_len());
    for p in 0..ab.bucket_len() {
        assert_eq!(ab.bucket_at(p), ba.bucket_at(p));
    }
    let total: u64 = (0..ab.bucket_len()).map(|p| ab.bucket_at(p)).sum();
    assert_eq!(total, 600);
}
