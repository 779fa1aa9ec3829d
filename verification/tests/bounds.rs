//! Extreme arguments, and settings that later operations rely on.

use otel_expohisto::aggregator::{ExpoHistogram, Resolution};
use otel_expohisto::bucket_width::BucketWidth;
use otel_expohisto::buckets::{Buckets, IncrResult};
use otel_expohisto::flat::{BucketDescriptor, Histogram as FlatHistogram, Overflow};
use otel_expohisto::float64::MIN_VALUE;
use otel_expohisto::mapping::Scale;
use otel_expohisto::pn::HistogramPN;
use otel_expohisto::settle::{change_scale, HighLow};
use otel_expohisto::sketch::Sketch;
use otel_expohisto::sketch_pn::SketchPN;
use otel_expohisto::stats::Stats;
use otel_expohisto::swar::{swar_narrow_compact, swar_step};
use otel_expohisto::width::{ring_index, Width};

const WIDTHS: [Width; 7] =
    [Width::B1, Width::B2, Width::B4, Width::U8, Width::U16, Width::U32, Width::U64];

#[test]
fn words_partition_all_indices() {
    for w in WIDTHS {
        let n = w.slots_per_u64() as i64;
        assert_eq!(w.slot_start_u64(i32::MIN), i32::MIN);
        assert_eq!(w.slot_end_u64(i32::MAX), i32::MAX);
        for i in [i32::MIN, i32::MIN + 1, -65, -64, -1, 0, 1, 63, 64, i32::MAX - 1, i32::MAX] {
            let s = w.slot_start_u64(i);
            let e = w.slot_end_u64(i);
            assert!(s <= i && i <= e);
            assert_eq!(e as i64 - s as i64 + 1, n);
            assert_eq!((s as i64).rem_euclid(n), 0);
            for k in s..=e {
                assert_eq!(w.slot_start_u64(k), s);
                assert_eq!(w.slot_end_u64(k), e);
            }
        }
    }
    assert_eq!(Width::B1.slot_start_u64(-1), -64);
    assert_eq!(Width::B1.slot_end_u64(-1), -1);
    assert_eq!(Width::B1.word_to_slot_index(-0x200_0000), i32::MIN);
    assert_eq!(BucketWidth::B1.word_start(i32::MIN + 63), i32::MIN);
}

#[test]
fn ring_positions_of_large_rings() {
    assert_eq!(ring_index(-1, 5, 0), 4);
    assert_eq!(ring_index(i32::MIN, usize::MAX, 0), usize::MAX - 0x8000_0000);
    assert_eq!(ring_index(i32::MAX, usize::MAX, i32::MIN), 0xffff_ffff);
    assert_eq!(BucketWidth::U64.capacity(usize::MAX), usize::MAX);
    assert_eq!(BucketWidth::B1.capacity(0x1000_0000), 0x4_0000_0000);
}

#[test]
fn least_downscale_for_large_sizes() {
    let all = HighLow { low: i32::MIN, high: i32::MAX };
    assert_eq!(all.change_steps(usize::MAX), 0);
    assert_eq!(all.change_steps(0xffff_ffff), 1);
    assert_eq!(all.change_steps(2), 31);
    let half = HighLow { low: -0x4000_0000, high: 0x3fff_ffff };
    assert_eq!(change_scale(half, i32::MAX), 1);
    assert_eq!(change_scale(HighLow { low: 0, high: 0x7fff_fffe }, i32::MAX), 0);
    assert_eq!(change_scale(HighLow { low: 1, high: 0 }, i32::MAX), 0);
}

#[test]
fn narrow_compact_of_an_odd_slice() {
    let mut data = [0x11_u64, 0x22, 0x33];
    swar_step(&mut data, BucketWidth::B4);
    assert_eq!(data, [0x2, 0x4, 0x6]);
    swar_narrow_compact(&mut data, BucketWidth::B4);
    assert_eq!(data, [0x4_0000_0002, 0x6, 0]);
}

#[test]
fn no_observations_are_always_counted() {
    let mut b: Buckets<2> = Buckets::new(Scale::finest(), BucketWidth::B1);
    assert!(matches!(b.increment_index_by(i32::MAX, 0), IncrResult::Counted));
    assert_eq!((b.start(), b.end()), (0, 0));
    assert!(matches!(b.increment_index_by(70, 1), IncrResult::Counted));
    assert!(matches!(b.increment_index_by(i32::MIN, 0), IncrResult::Counted));
    assert!(matches!(b.increment_index_by(70, 0), IncrResult::Counted));
    assert_eq!((b.start(), b.end(), b.get(70)), (70, 70, 1));
}

#[test]
fn increments_far_outside_ask_for_a_downscale() {
    let mut b: Buckets<2> = Buckets::new(Scale::finest(), BucketWidth::U64);
    assert!(matches!(b.increment_index_by(3, 5), IncrResult::Counted));
    for far in [i32::MIN, i32::MAX] {
        match b.increment_index_by(far, 1) {
            IncrResult::NeedsDownscale(hl) => {
                assert_eq!((hl.low, hl.high), (far.min(3), far.max(3)));
            }
            _ => panic!("room for a bucket far outside"),
        }
    }
    assert_eq!((b.start(), b.end(), b.get(3)), (3, 3, 5));
    let mut narrow: Buckets<2> = Buckets::new(Scale::finest(), BucketWidth::B2);
    assert!(matches!(narrow.increment_index_by(7, 4), IncrResult::CounterOverflow));
    assert_eq!((narrow.start(), narrow.end(), narrow.get(7)), (7, 7, 0));
}

fn raw(count: u64) -> Stats {
    Stats { count, sum: 3.0f64.to_bits(), min: 1.0f64.to_bits(), max: 2.0f64.to_bits() }
}

#[test]
fn foreign_buckets_without_an_index_are_refused() {
    let mut h: FlatHistogram<4> = FlatHistogram::new();
    h.update(1.5f64.to_bits(), 1.5f64.to_bits()).unwrap();
    let sum = 4.5f64.to_bits();
    let refused = [
        BucketDescriptor { scale: -11, offset: 0, len: 1 },
        BucketDescriptor { scale: 40, offset: 0, len: 1 },
        BucketDescriptor { scale: 30, offset: i32::MAX, len: 2 },
    ];
    for d in refused {
        let counts = vec![1u64; d.len as usize];
        assert_eq!(h.merge_from_raw(&raw(2), &d, &counts, sum), Err(Overflow));
        assert_eq!((h.count(), h.sum()), (1, 1.5f64.to_bits()));
        assert!(h.is_literal());
        // Nothing to merge is no error.
        assert_eq!(h.merge_from_raw(&raw(0), &d, &vec![0; d.len as usize], sum), Ok(()));
    }
    assert_eq!((h.bucket_len(), h.bucket_at(0)), (1, 1));
}

#[test]
fn foreign_buckets_past_actual_values_are_counted() {
    for offset in [1024, -1025, 100_000] {
        let mut h: FlatHistogram<8> = FlatHistogram::new();
        let d = BucketDescriptor { scale: 0, offset, len: 1 };
        h.merge_from_raw(&raw(1), &d, &vec![1], 3.0f64.to_bits()).unwrap();
        assert_eq!((h.count(), h.scale(), h.bucket_offset()), (1, 0, offset));
        assert_eq!((h.bucket_len(), h.bucket_at(0)), (1, 1));
    }
    // A run whose last buckets are empty.
    let mut h: FlatHistogram<8> = FlatHistogram::new();
    let d = BucketDescriptor { scale: 0, offset: 1020, len: 10 };
    let counts = vec![1, 0, 0, 2, 0, 0, 0, 0, 0, 0];
    h.merge_from_raw(&raw(3), &d, &counts, 3.0f64.to_bits()).unwrap();
    assert_eq!(h.count(), 3);
    let total: u64 = (0..h.bucket_len()).map(|i| h.bucket_at(i)).sum();
    assert_eq!(total, 3);
    // Values and buckets far apart meet at a lower scale.
    let mut h: FlatHistogram<8> = FlatHistogram::new();
    h.update(1.5f64.to_bits(), 1.5f64.to_bits()).unwrap();
    let d = BucketDescriptor { scale: 0, offset: 4096, len: 1 };
    h.merge_from_raw(&raw(1), &d, &vec![1], 3.0f64.to_bits()).unwrap();
    assert_eq!((h.count(), h.scale(), h.bucket_offset()), (2, -4, 0));
    assert_eq!((h.bucket_len(), h.bucket_at(0), h.bucket_at(256)), (257, 1, 1));
    let mut other: FlatHistogram<8> = FlatHistogram::new();
    other.merge_from(&h, 3.0f64.to_bits()).unwrap();
    assert_eq!((other.scale(), other.bucket_len(), other.bucket_at(256)), (-4, 257, 1));
}

#[test]
fn foreign_buckets_that_leave_no_scale() {
    let mut h: FlatHistogram<2> = FlatHistogram::with_scale(-10);
    let d = BucketDescriptor { scale: -10, offset: i32::MAX, len: 1 };
    h.merge_from_raw(&raw(1), &d, &vec![1], 3.0f64.to_bits()).unwrap();
    assert_eq!((h.scale(), h.bucket_offset(), h.bucket_len()), (-10, i32::MAX, 1));
    assert_eq!(h.update(1.5f64.to_bits(), 4.5f64.to_bits()), Err(Overflow));
    assert_eq!(h.merge_from_raw(&raw(1), &d, &vec![1], 3.0f64.to_bits()), Err(Overflow));
    let mut values: FlatHistogram<2> = FlatHistogram::new();
    values.update(1.5f64.to_bits(), 1.5f64.to_bits()).unwrap();
    assert_eq!(h.merge_from(&values, 4.5f64.to_bits()), Err(Overflow));
    assert_eq!(values.merge_from(&h, 4.5f64.to_bits()), Err(Overflow));
    assert_eq!((values.count(), values.is_literal()), (1, true));
    assert_eq!((h.count(), h.bucket_offset(), h.bucket_at(0)), (1, i32::MAX, 1));
    assert_eq!(h.update(0, 3.0f64.to_bits()), Ok(()));
    assert_eq!(h.count(), 2);
}

#[test]
fn foreign_buckets_of_a_finer_scale() {
    let mut h: FlatHistogram<4> = FlatHistogram::new();
    let d = BucketDescriptor { scale: 25, offset: 1 << 25, len: 2 };
    h.merge_from_raw(&raw(3), &d, &vec![1, 2], 3.0f64.to_bits()).unwrap();
    assert_eq!((h.count(), h.scale(), h.bucket_offset()), (3, 7, 128));
    assert_eq!((h.bucket_len(), h.bucket_at(0)), (1, 3));
    let wide = BucketDescriptor { scale: 39, offset: i32::MIN, len: 1 };
    h.merge_from_raw(&raw(1), &wide, &vec![1], 3.0f64.to_bits()).unwrap();
    assert_eq!(h.count(), 4);
}

#[test]
fn downscale_by_more_than_there_is() {
    for width in [BucketWidth::B1, BucketWidth::U64] {
        let mut h: FlatHistogram<4> =
            FlatHistogram::new().with_literal_mode(false).with_min_bucket_width(width);
        for change in [19, 32, 100, i32::MAX] {
            assert_eq!(h.do_downscale(change), Err(Overflow));
        }
        h.update(1.5f64.to_bits(), 1.5f64.to_bits()).unwrap();
        for change in [19, 32, 100, i32::MAX] {
            assert_eq!(h.do_downscale(change), Err(Overflow));
            assert_eq!((h.scale(), h.bucket_len(), h.bucket_at(0)), (8, 1, 1));
        }
        assert_eq!(h.do_downscale(-5), Ok(()));
        assert_eq!(h.do_downscale(18), Ok(()));
        assert_eq!((h.scale(), h.bucket_at(0)), (-10, 1));
    }
}

#[test]
fn sketch_pn_minimum_width_outlasts_the_first_value() {
    let mut s: SketchPN<4, 4> = SketchPN::new();
    s.update(0, 0, 0).unwrap();
    let mut s = s.with_min_width(Width::U16).with_scale(3).unwrap();
    assert_eq!((s.count(), s.min(), s.max()), (1, 0, 0));
    s.update(2.0f64.to_bits(), 2.0f64.to_bits(), 2.0f64.to_bits()).unwrap();
    s.update((-3.0f64).to_bits(), (-1.0f64).to_bits(), 3.0f64.to_bits()).unwrap();
    assert_eq!((s.positive().width(), s.negative().width()), (Width::U16, Width::U16));
    assert_eq!((s.scale(), s.count()), (3, 3));
    assert_eq!((s.min(), s.max()), ((-3.0f64).to_bits(), 2.0f64.to_bits()));
}

#[test]
fn empty_sketch_pn_has_no_minimum() {
    let s: SketchPN<4, 4> = SketchPN::new().with_scale(2).unwrap();
    let mut s = s.with_min_width(Width::B4);
    s.update(2.0f64.to_bits(), 2.0f64.to_bits(), 2.0f64.to_bits()).unwrap();
    assert_eq!(s.min(), 2.0f64.to_bits());
    assert_eq!(s.positive().min(), 2.0f64.to_bits());
}

#[test]
fn pn_settings_survive_zeros_and_clear() {
    let mut h: HistogramPN<4, 4> = HistogramPN::new();
    h.record_incr(0, 2, 0, 0).unwrap();
    let mut h = h.with_scale(3).unwrap().with_min_width(Width::U8);
    assert_eq!((h.view().zero_count(), h.view().stats().count), (2, 2));
    assert_eq!(h.initial_settings().scale().scale(), 3);
    assert_eq!(h.initial_settings().width(), Width::U8);
    for e in -40..40 {
        let v = 2.0f64.powi(e);
        h.update(v.to_bits(), v.to_bits(), v.to_bits()).unwrap();
        h.update((-v).to_bits(), v.to_bits(), v.to_bits()).unwrap();
    }
    assert!(h.scale() < 3);
    h.clear();
    assert_eq!(h.initial_settings().scale().scale(), 3);
    for s in [h.positive_settings(), h.negative_settings()] {
        assert_eq!((s.scale().scale(), s.width()), (3, Width::U8));
    }
    let d: HistogramPN<4, 4> = HistogramPN::default();
    assert_eq!(d.initial_settings().width(), Width::B1);
}

#[test]
fn aggregator_offset_starts_at_zero() {
    for resolution in [Resolution::Small, Resolution::Large] {
        let mut h = ExpoHistogram::new(resolution);
        assert_eq!((h.bucket_offset(), h.bucket_len()), (0, 0));
        assert!(h.update(64.0f64.to_bits(), 64.0f64.to_bits()));
        assert!(h.bucket_offset() != 0);
        h.clear();
        assert_eq!((h.bucket_offset(), h.bucket_len()), (0, 0));
        let h = ExpoHistogram::with_max_scale(resolution, 2);
        assert_eq!((h.bucket_offset(), h.bucket_len()), (0, 0));
    }
}

#[test]
fn highest_bucket_is_that_of_the_maximum() {
    let mut s: Sketch<2> = Sketch::new().with_scale(4).unwrap();
    let mut zeros = 0;
    let mut state: u64 = 7;
    for _ in 0..500 {
        state = state.wrapping_mul(6364136223846793005).wrapping_add(1442695040888963407);
        let exponent = (state >> 40) % 2047;
        let bits = (exponent << 52) | (state & 0xf_ffff_ffff_ffff);
        let before = (s.width().bits_per_slot(), s.collapsed());
        s.update(bits, 0).unwrap();
        if state % 5 == 0 {
            s.update(0, 0).unwrap();
            zeros += 1;
        }
        assert!(s.update(f64::NAN.to_bits(), 0).is_err());
        assert!(before.0 <= s.width().bits_per_slot());
        assert!(!before.1 || s.collapsed());
        let mut alone: Sketch<1> = Sketch::new().with_scale(4).unwrap();
        alone.update(s.max(), 0).unwrap();
        assert_eq!(s.bucket_bounds().unwrap().1, alone.bucket_bounds().unwrap().1);
        let held: u64 = s.for_each_bucket().iter().map(|b| b.1).sum();
        assert_eq!(held + zeros, s.count());
        assert!(s.word_end() - s.word_start() < 2);
    }
}

#[test]
fn subnormal_values_count_above_the_smallest_normal_one() {
    let mut s: Sketch<2> = Sketch::new();
    s.update(MIN_VALUE, 0).unwrap();
    let normal = s.bucket_bounds().unwrap().1;
    s.update(1, 0).unwrap();
    assert_eq!(s.max(), MIN_VALUE);
    assert_eq!(s.bucket_bounds().unwrap().1, normal + 1);
}
