//! What holds over whole sequences of recordings.

use otel_expohisto::histogram::Histogram;
use otel_expohisto::pn::HistogramPN;
use otel_expohisto::quantile::{Estimate, Target};
use otel_expohisto::sketch::Sketch;
use otel_expohisto::sketch_view::Rank;

fn slot(value: f64, scale: i32) -> i32 {
    let mut alone: Sketch<1> = Sketch::new().with_scale(scale).unwrap();
    alone.update(value.to_bits(), 0).unwrap();
    alone.bucket_bounds().unwrap().1
}

fn values() -> Vec<f64> {
    let mut state: u64 = 11;
    let mut out = Vec::new();
    for _ in 0..300 {
        state = state.wrapping_mul(6364136223846793005).wrapping_add(1442695040888963407);
        let exponent = ((state >> 40) % 60) as i32 - 30;
        out.push((1.0 + ((state >> 8) & 0xffff) as f64 / 65536.0) * 2f64.powi(exponent));
    }
    out
}

#[test]
fn located_bucket_is_that_of_the_ranked_value() {
    for scale in [-3, 0, 3] {
        let mut s: Sketch<4> = Sketch::new().with_scale(scale).unwrap();
        let mut sorted = values();
        for v in &sorted {
            s.update(v.to_bits(), 0).unwrap();
        }
        s.record_incr(0, 7, 0).unwrap();
        sorted.sort_by(|a, b| a.partial_cmp(b).unwrap());
        let exact_from = 7 + s.underflow_count();
        assert!(exact_from < s.count());
        for rank in exact_from + 1..=s.count() {
            let value = sorted[(rank - 8) as usize];
            match s.quantile(rank) {
                Rank::Bucket(b) => assert_eq!(b, slot(value, scale)),
                _ => panic!("rank {rank} not found"),
            }
        }
    }
}

#[test]
fn recording_order_makes_no_difference() {
    let forward = values();
    let mut backward = forward.clone();
    backward.reverse();
    let mut mixed = forward.clone();
    mixed.sort_by(|a, b| (a * 7919.0).fract().partial_cmp(&(b * 7919.0).fract()).unwrap());
    let mut shapes = Vec::new();
    for order in [forward, backward, mixed] {
        let mut s: Sketch<3> = Sketch::new().with_scale(4).unwrap();
        for v in order {
            s.update(v.to_bits(), 0).unwrap();
        }
        shapes.push((s.width(), s.collapsed(), s.underflow_count(), s.for_each_bucket()));
    }
    assert!(shapes[0].1);
    assert_eq!(shapes[0], shapes[1]);
    assert_eq!(shapes[0], shapes[2]);
}

#[test]
fn both_signs_and_zeros_make_up_the_count() {
    let mut h: HistogramPN<4, 4> = HistogramPN::new();
    let (mut above, mut below, mut zeros) = (0u64, 0u64, 0u64);
    for (i, v) in values().into_iter().enumerate() {
        let incr = i as u64 % 4;
        let bits = match i % 3 {
            0 => v.to_bits(),
            1 => (-v).to_bits(),
            _ => 0,
        };
        h.record_incr(bits, incr, 0, 0).unwrap();
        assert!(h.record_incr(f64::NAN.to_bits(), incr, 0, 0).is_err());
        match i % 3 {
            0 => above += incr,
            1 => below += incr,
            _ => zeros += incr,
        }
        let view = h.view();
        let (mut p, mut n) = (0, 0);
        let positive = view.positive();
        let mut cursor = positive.iter();
        while let Some(c) = cursor.next() {
            p += c;
        }
        let negative = view.negative();
        let mut cursor = negative.iter();
        while let Some(c) = cursor.next() {
            n += c;
        }
        assert_eq!((p, n, view.zero_count()), (above, below, zeros));
        assert_eq!(p + n + zeros, view.stats().count);
    }
}

#[test]
fn quantile_runs_are_in_order() {
    let mut h: Histogram<8> = Histogram::new();
    let mut targets = vec![Target::Lowest];
    for rank in 1..=20 {
        targets.push(Target::Rank(rank));
    }
    targets.push(Target::Highest);
    let view = h.view();
    let mut run = view.quantiles(&targets);
    for left in (0..targets.len()).rev() {
        assert_eq!(run.next(), Some(Estimate::Undefined));
        assert_eq!(run.len(), left);
    }
    assert_eq!(run.next(), None);
    for v in [1.0, 2.0, 2.0, 8.0, 100.0f64] {
        h.update(v.to_bits(), 0).unwrap();
    }
    for zeros in [0, 3] {
        h.record_incr(0, zeros, 0).unwrap();
        let view = h.view();
        let mut run = view.quantiles(&targets);
        let first = run.next().unwrap();
        assert_eq!(first, if zeros > 0 { Estimate::Zero } else { Estimate::Min });
        let mut last = i32::MIN;
        for rank in 1..=20u64 {
            match run.next().unwrap() {
                Estimate::Zero => assert!(rank <= zeros),
                Estimate::Within { index, below, count } => {
                    assert!(index >= last && below < rank && rank <= below + count);
                    last = index;
                }
                Estimate::Max => assert!(rank > zeros + 5),
                e => panic!("{e:?}"),
            }
        }
        assert_eq!(run.next(), Some(Estimate::Max));
        assert_eq!(run.next(), None);
    }
}
