use otel_expohisto::float64::MIN_VALUE;
use otel_expohisto::histogram::Histogram;
use otel_expohisto::pn::HistogramPN;
use otel_expohisto::precision::{HistCount, Precision, P32, P64};
use otel_expohisto::report::{
    feed_nn, normalize_subnormal, normalize_zero, parse_hex, report_nn, report_pn, select_min_width,
};
use otel_expohisto::stats::Error;
use otel_expohisto::width::Width;

#[test]
fn widths_for_sizes() {
    let cases = [
        (1, Width::U64),
        (250, Width::U64),
        (251, Width::U32),
        (500, Width::U32),
        (501, Width::U16),
        (1000, Width::U16),
        (1001, Width::U8),
        (2000, Width::U8),
        (2001, Width::B4),
        (4000, Width::B4),
        (4001, Width::B2),
        (8000, Width::B2),
        (8001, Width::B1),
        (100_000, Width::B1),
    ];
    for (size, width) in cases {
        assert_eq!(select_min_width(size), width, "size {size}");
    }
}

#[test]
fn hexadecimal_patterns() {
    assert_eq!(parse_hex(b"3ff0000000000000"), Some(1.0_f64.to_bits()));
    assert_eq!(parse_hex(b"BfF8000000000000"), Some((-1.5_f64).to_bits()));
    assert_eq!(parse_hex(b"+7"), Some(7));
    assert_eq!(parse_hex(b"ffffffffffffffff"), Some(u64::MAX));
    assert_eq!(parse_hex(b"0000ffffffffffffffff"), Some(u64::MAX));
    assert_eq!(parse_hex(b"10000000000000000"), None);
    assert_eq!(parse_hex(b""), None);
    assert_eq!(parse_hex(b"+"), None);
    assert_eq!(parse_hex(b"-1"), None);
    assert_eq!(parse_hex(b"0x1"), None);
}

#[test]
fn canonical_values() {
    assert_eq!(normalize_zero((-0.0_f64).to_bits()), 0);
    assert_eq!(normalize_zero((-1.0_f64).to_bits()), (-1.0_f64).to_bits());
    assert_eq!(normalize_subnormal(1), MIN_VALUE);
    assert_eq!(normalize_subnormal(0x8000_0000_0000_0001), (-f64::MIN_POSITIVE).to_bits());
    assert_eq!(normalize_subnormal(0), 0);
    assert_eq!(normalize_subnormal(1.5_f64.to_bits()), 1.5_f64.to_bits());
}

#[test]
fn report_of_non_negative_values() {
    let mut h: Histogram<16> = Histogram::new().with_scale(0).unwrap();
    let empty = report_nn(&h, 0);
    assert_eq!((empty.scale, empty.count, empty.zero_count), (0, 0, 0));
    assert_eq!((empty.min, empty.max, empty.sum), (0, 0, 0));
    assert!(empty.positive.counts.is_empty());

    h.record_incr(2.0_f64.to_bits(), 3, 6.0_f64.to_bits()).unwrap();
    h.record_incr(16.0_f64.to_bits(), 1, 22.0_f64.to_bits()).unwrap();
    h.record_incr(0, 2, 22.0_f64.to_bits()).unwrap();
    let r = report_nn(&h, 2);
    assert_eq!(r.scale, h.view().scale());
    assert_eq!(r.count, 6);
    assert_eq!(r.zero_count, 2);
    assert_eq!(f64::from_bits(r.sum), 22.0);
    assert_eq!(f64::from_bits(r.min), 0.0);
    assert_eq!(f64::from_bits(r.max), 16.0);
    assert_eq!(r.positive.counts.iter().sum::<u64>(), 4);
    assert!(r.positive.counts[0] > 0);
    assert!(r.positive.counts[r.positive.counts.len() - 1] > 0);
    assert!(r.negative.counts.is_empty());
}

#[test]
fn zeros_are_counted_when_accepted() {
    let mut h: Histogram<4> = Histogram::new();
    let mut zeros = 0;
    for value in [0.0_f64, 1.0, -0.0, 2.0] {
        assert_eq!(feed_nn(&mut h, &mut zeros, value.to_bits(), 0), Ok(()));
    }
    let refused = feed_nn(&mut h, &mut zeros, f64::NAN.to_bits(), 0);
    assert_eq!(refused, Err(Error::Extreme));
    assert_eq!(zeros, 2);
    assert_eq!(h.raw_stats().count, 4);
}

#[test]
fn report_of_values_of_both_signs() {
    let mut h: HistogramPN<8, 8> = HistogramPN::new().with_scale(0).unwrap();
    h.update(4.0_f64.to_bits(), 4.0_f64.to_bits(), 4.0_f64.to_bits()).unwrap();
    h.update((-1.5_f64).to_bits(), 2.5_f64.to_bits(), 1.5_f64.to_bits()).unwrap();
    h.update(0, 2.5_f64.to_bits(), 0).unwrap();
    let r = report_pn(&h);
    assert_eq!(r.scale, 0);
    assert_eq!(r.count, 3);
    assert_eq!(r.zero_count, 1);
    assert_eq!(f64::from_bits(r.sum), 2.5);
    assert_eq!(f64::from_bits(r.min), -1.5);
    assert_eq!(f64::from_bits(r.max), 4.0);
    assert_eq!((r.positive.offset, r.positive.counts), (1, vec![1]));
    assert_eq!((r.negative.offset, r.negative.counts), (0, vec![1]));
}

/// Adds to a count, as far as its type goes.
fn increased<P: Precision>(count: P::Count, rhs: u64) -> Option<u64> {
    count.checked_add_u64(rhs).map(HistCount::to_u64)
}

#[test]
fn counts_of_two_precisions() {
    assert_eq!(increased::<P32>(7, 1), Some(8));
    assert_eq!(increased::<P32>(u32::MAX, 1), None);
    assert_eq!(increased::<P32>(0, 1 << 32), None);
    assert_eq!(increased::<P64>(u32::MAX as u64, 1), Some(1 << 32));
    assert_eq!(increased::<P64>(u64::MAX, 1), None);
    assert_eq!(HistCount::checked_add(u32::MAX - 2, 2), Some(u32::MAX));
    assert_eq!(HistCount::checked_add(u32::MAX - 2, 3), None);
    assert_eq!(<u64 as HistCount>::zero(), 0);
}
