use otel_expohisto::boundary::{
    lower_boundary_exponent, lower_boundary_logarithm, max_normal_index_exp, max_normal_index_log,
    min_normal_index_log, Boundary,
};
use otel_expohisto::dynatrace;
use otel_expohisto::exponent::{map_decomposed, min_normal_lower_boundary_index};
use otel_expohisto::float64::{
    get_normal_base2, get_significand, is_zero, max_of, min_of, pow2, EXPONENT_BIAS, EXPONENT_MASK,
    EXPONENT_WIDTH, MAX_NORMAL_EXPONENT, MIN_NORMAL_EXPONENT, MIN_VALUE, SIGNIFICAND_MASK,
    SIGNIFICAND_WIDTH,
};
use otel_expohisto::logarithm::{self, inverse_factor, scale_factor};
use otel_expohisto::lookup::{find_bucket, ScaleTables, TABLE_SCALE};
use otel_expohisto::mapping::{
    max_scale, table_scale, Scale as IndexScale, ScaleError, MAX_SCALE, MIN_SCALE,
};
use otel_expohisto::newrelic;

/// Maps floating-point values to indices.
struct Scale(IndexScale);

impl Scale {
    fn new(scale: i32) -> Result<Self, ScaleError> {
        IndexScale::new(scale).map(Scale)
    }

    fn scale(&self) -> i32 {
        self.0.scale()
    }

    fn map_to_index(&self, value: f64) -> i32 {
        self.0.map_to_index(value.to_bits()).unwrap()
    }

    fn lower_boundary(&self, index: i32) -> Result<f64, ScaleError> {
        let power = |n: i32| (f64::from_bits(inverse_factor(self.scale())) * n as f64).exp();
        self.0.lower_boundary(index).map(|b| match b {
            Boundary::Exact(bits) => f64::from_bits(bits),
            Boundary::Exp(n) => power(n),
            Boundary::ExpDoubled(n) => 2.0 * power(n),
            Boundary::ExpHalved(n) => power(n) / 2.0,
        })
    }
}

/// Maps by exponent.
fn exponent_index(value: f64, scale: i32) -> i32 {
    let bits = value.to_bits();
    map_decomposed(get_significand(bits), get_normal_base2(bits), scale)
}

/// Maps by logarithm.
fn logarithm_index(value: f64, scale: i32) -> i32 {
    let raw = (value.ln() * f64::from_bits(scale_factor(scale))).floor() as i32;
    logarithm::map_to_index(value.to_bits(), raw, scale)
}

#[test]
fn test_new_mapping() {
    assert!(Scale::new(0).is_ok());
    assert!(Scale::new(-10).is_ok());
    assert!(Scale::new(-11).is_err());

    // Positive scales always available via lookup table
    assert!(Scale::new(1).is_ok());

    // All scales up to max_scale() are supported
    for scale in MIN_SCALE..=max_scale() {
        assert!(
            Scale::new(scale).is_ok(),
            "scale {} should be supported",
            scale
        );
    }
    // Scales above max_scale() are rejected
    if max_scale() < MAX_SCALE {
        assert!(Scale::new(max_scale() + 1).is_err());
    }
    assert!(Scale::new(MAX_SCALE + 1).is_err());
}

#[test]
fn mapping_test_min_scale() {
    let m = Scale::new(MIN_SCALE).unwrap();
    assert_eq!(m.scale(), MIN_SCALE);

    // At scale -10, shift = 10, so indices are exponent >> 10
    // Values in (0, 1] map to bucket -1
    assert_eq!(m.map_to_index(0.001), -1);
    assert_eq!(m.map_to_index(0.5), -1);
    assert_eq!(m.map_to_index(1.0), -1);

    // Values in (1, MAX) map to bucket 0
    assert_eq!(m.map_to_index(1.0001), 0);
    assert_eq!(m.map_to_index(2.0), 0);
    assert_eq!(m.map_to_index(1e100), 0);
    assert_eq!(m.map_to_index(1e308), 0);
}

#[test]
fn test_map_to_index_scale_0() {
    let m = Scale::new(0).unwrap();
    assert_eq!(m.scale(), 0, "scale should be 0");

    let idx_1 = m.map_to_index(1.0);

    // Powers of 2 map to exponent - 1
    assert_eq!(idx_1, -1, "1.0 should map to -1"); // 2^0 -> -1
    assert_eq!(m.map_to_index(2.0), 0, "2.0 should map to 0"); // 2^1 -> 0
    assert_eq!(m.map_to_index(4.0), 1, "4.0 should map to 1"); // 2^2 -> 1
    assert_eq!(m.map_to_index(0.5), -2, "0.5 should map to -2"); // 2^-1 -> -2

    // Non-powers of 2 map to floor(log2(value))
    assert_eq!(m.map_to_index(1.5), 0, "1.5 should map to 0"); // 1.5 in (1, 2] -> 0
    assert_eq!(m.map_to_index(3.0), 1, "3.0 should map to 1"); // 3.0 in (2, 4] -> 1
    assert_eq!(m.map_to_index(0.75), -1, "0.75 should map to -1"); // 0.75 in (0.5, 1] -> -1
}

#[test]
fn test_map_to_index_positive_scale() {
    let m = Scale::new(1).unwrap();

    // At scale 1, each power-of-2 bucket is split in two
    assert_eq!(m.map_to_index(1.0), -1);
    assert_eq!(m.map_to_index(2.0), 1);
    assert_eq!(m.map_to_index(4.0), 3);
}

#[test]
fn test_powers_of_two_all_scales() {
    // Powers of two should map to (exp << scale) - 1 for all supported scales
    for scale in 1..=max_scale() {
        let m = Scale::new(scale).unwrap();
        for exp in -10..=10 {
            let value = 2.0_f64.powi(exp);
            let expected = (exp << scale) - 1;
            let actual = m.map_to_index(value);
            assert_eq!(
                actual, expected,
                "power of two mismatch at scale={}, exp={}: got {}, expected {}",
                scale, exp, actual, expected
            );
        }
    }
}

#[test]
fn test_constants() {
    assert_eq!(SIGNIFICAND_WIDTH, 52);
    assert_eq!(EXPONENT_WIDTH, 11);
    assert_eq!(EXPONENT_BIAS, 1023);
    assert_eq!(SIGNIFICAND_MASK, 0xFFFFFFFFFFFFF);
    assert_eq!(EXPONENT_MASK, 0x7FF0000000000000);
    assert_eq!(MIN_NORMAL_EXPONENT, -1022);
    assert_eq!(MAX_NORMAL_EXPONENT, 1023);
    assert_eq!(f64::from_bits(MIN_VALUE), f64::MIN_POSITIVE);
}

#[test]
fn test_get_normal_base2() {
    assert_eq!(get_normal_base2(1.0_f64.to_bits()), 0);
    assert_eq!(get_normal_base2(2.0_f64.to_bits()), 1);
    assert_eq!(get_normal_base2(4.0_f64.to_bits()), 2);
    assert_eq!(get_normal_base2(0.5_f64.to_bits()), -1);
    assert_eq!(get_normal_base2(0.25_f64.to_bits()), -2);
    assert_eq!(get_normal_base2(1.5_f64.to_bits()), 0);
    assert_eq!(get_normal_base2(3.0_f64.to_bits()), 1);
}

#[test]
fn test_get_significand() {
    // 1.0 has significand 0 (implicit 1)
    assert_eq!(get_significand(1.0_f64.to_bits()), 0);
    // 1.5 = 1 + 0.5, so significand is 2^51
    assert_eq!(get_significand(1.5_f64.to_bits()), 1 << 51);
    // 2.0 has significand 0
    assert_eq!(get_significand(2.0_f64.to_bits()), 0);
    // 1.25 = 1 + 0.25, so significand is 2^50
    assert_eq!(get_significand(1.25_f64.to_bits()), 1 << 50);
}

#[test]
fn float64_test_pow2() {
    let pow2 = |k: i32| f64::from_bits(pow2(k));
    assert_eq!(pow2(0), 1.0);
    assert_eq!(pow2(1), 2.0);
    assert_eq!(pow2(2), 4.0);
    assert_eq!(pow2(10), 1024.0);
    assert_eq!(pow2(-1), 0.5);
    assert_eq!(pow2(-2), 0.25);
    assert_eq!(pow2(-10), 1.0 / 1024.0);
    assert_eq!(pow2(MIN_NORMAL_EXPONENT), f64::from_bits(MIN_VALUE));
    assert_eq!(pow2(MAX_NORMAL_EXPONENT), 2.0_f64.powi(1023));
    // Verify bit-exact: every result has zero significand
    for k in -1022..=1023 {
        let v = pow2(k);
        assert_eq!(get_significand(v.to_bits()), 0, "pow2({k}) should have zero significand");
        assert_eq!(get_normal_base2(v.to_bits()), k, "pow2({k}) should have exponent {k}");
    }
}

#[test]
fn boundary_test_pow2() {
    assert_eq!(f64::from_bits(pow2(0)), 1.0);
    assert_eq!(f64::from_bits(pow2(1)), 2.0);
    assert_eq!(f64::from_bits(pow2(-1)), 0.5);
    assert_eq!(f64::from_bits(pow2(10)), 1024.0);
    assert_eq!(pow2(MIN_NORMAL_EXPONENT), MIN_VALUE);
}

#[test]
fn order_of_values_includes_signs() {
    let patterns = [-3.0_f64, -0.5, 0.0, 0.25, 7.0];
    for a in patterns {
        for b in patterns {
            assert_eq!(f64::from_bits(min_of(a.to_bits(), b.to_bits())), a.min(b));
            assert_eq!(f64::from_bits(max_of(a.to_bits(), b.to_bits())), a.max(b));
        }
    }
    assert!(is_zero((-0.0_f64).to_bits()));
    assert!(!is_zero(1));
}

#[test]
fn test_lower_boundary_scale_0() {
    let m = Scale::new(0).unwrap();
    assert_eq!(m.lower_boundary(0).unwrap(), 1.0);
    assert_eq!(m.lower_boundary(1).unwrap(), 2.0);
    assert_eq!(m.lower_boundary(-1).unwrap(), 0.5);
    assert_eq!(m.lower_boundary(2).unwrap(), 4.0);
}

#[test]
fn test_lower_boundary_min_scale() {
    let m = Scale::new(MIN_SCALE).unwrap();
    assert_eq!(m.lower_boundary(0).unwrap(), 1.0);
    assert!(m.lower_boundary(1).is_err());
}

#[test]
fn test_inverse_factor_values() {
    for scale in 1..=MAX_SCALE {
        let expected = core::f64::consts::LN_2 / (1u64 << scale) as f64;
        assert_eq!(
            f64::from_bits(inverse_factor(scale)), expected,
            "inverse factor mismatch at scale {scale}"
        );
    }
}

#[test]
fn boundaries_end_at_normal_values() {
    assert_eq!(lower_boundary_exponent(1023, 0), Ok(2.0_f64.powi(1023).to_bits()));
    assert_eq!(lower_boundary_exponent(1024, 0), Err(ScaleError::Overflow));
    assert_eq!(lower_boundary_exponent(-1022, 0), Ok(MIN_VALUE));
    assert_eq!(lower_boundary_exponent(-1023, 0), Err(ScaleError::Underflow));
    assert_eq!(max_normal_index_exp(-4), 63);
    assert_eq!(min_normal_lower_boundary_index(0), -1022);
    assert_eq!(min_normal_lower_boundary_index(-4), -63);

    for scale in 1..=TABLE_SCALE {
        let (low, high) = (min_normal_index_log(scale), max_normal_index_log(scale));
        let octave = 1 << scale;
        assert_eq!(high, 1024 * octave - 1);
        assert_eq!(low, -1022 * octave);
        assert_eq!(lower_boundary_logarithm(high, scale), Ok(Boundary::ExpDoubled(high - octave)));
        assert_eq!(lower_boundary_logarithm(high + 1, scale), Err(ScaleError::Overflow));
        assert_eq!(lower_boundary_logarithm(high - 1, scale), Ok(Boundary::Exp(high - 1)));
        assert_eq!(lower_boundary_logarithm(low, scale), Ok(Boundary::Exact(MIN_VALUE)));
        assert_eq!(
            lower_boundary_logarithm(low - 1, scale),
            Ok(Boundary::ExpHalved(low - 1 + octave))
        );
        assert_eq!(lower_boundary_logarithm(low - 2, scale), Err(ScaleError::Underflow));
    }
}

#[test]
fn boundaries_bracket_values() {
    for scale in MIN_SCALE..=TABLE_SCALE {
        let m = Scale::new(scale).unwrap();
        for value in [1e-300, 0.001, 0.3, 0.99, 1.01, 1.7, 42.0, 1e10, 1e300] {
            let index = m.map_to_index(value);
            let lower = m.lower_boundary(index).unwrap_or(0.0);
            let upper = m.lower_boundary(index + 1).unwrap_or(f64::INFINITY);
            assert!(
                lower * (1.0 - 1e-12) <= value && value <= upper * (1.0 + 1e-12),
                "{value} at scale {scale} outside ({lower}, {upper}]"
            );
        }
    }
}

#[test]
fn test_scale_0() {
    // Powers of 2 map to exponent - 1
    assert_eq!(exponent_index(1.0, 0), -1); // 2^0 -> -1
    assert_eq!(exponent_index(2.0, 0), 0); // 2^1 -> 0
    assert_eq!(exponent_index(4.0, 0), 1); // 2^2 -> 1
    assert_eq!(exponent_index(0.5, 0), -2); // 2^-1 -> -2

    // Non-powers of 2
    assert_eq!(exponent_index(1.5, 0), 0); // 1.5 in (1, 2] -> 0
    assert_eq!(exponent_index(3.0, 0), 1); // 3.0 in (2, 4] -> 1
    assert_eq!(exponent_index(0.75, 0), -1); // 0.75 in (0.5, 1] -> -1
}

#[test]
fn test_negative_scales() {
    for scale in -10..=0 {
        for exp in -10..=10 {
            let value = 2.0_f64.powi(exp);
            let shift = (-scale) as u32;
            let expected = (exp - 1) >> shift;
            let actual = exponent_index(value, scale);
            assert_eq!(
                actual, expected,
                "power of two mismatch at scale={}, exp={}: got {}, expected {}",
                scale, exp, actual, expected
            );
        }
    }
}

#[test]
fn exponent_test_min_scale() {
    let scale = -10;
    // At scale -10, shift = 10, so indices are exponent >> 10
    assert_eq!(exponent_index(0.001, scale), -1);
    assert_eq!(exponent_index(0.5, scale), -1);
    assert_eq!(exponent_index(1.0, scale), -1);
    assert_eq!(exponent_index(1.0001, scale), 0);
    assert_eq!(exponent_index(2.0, scale), 0);
    assert_eq!(exponent_index(1e100, scale), 0);
    assert_eq!(exponent_index(1e308, scale), 0);
}

#[test]
fn test_powers_of_two() {
    // Powers of two should map to (exp << scale) - 1
    for scale in 1..=20 {
        for exp in -10..=10 {
            let value = 2.0_f64.powi(exp);
            let expected = (exp << scale) - 1;
            let actual = logarithm_index(value, scale);
            assert_eq!(
                actual, expected,
                "power of two mismatch at scale={}, exp={}: got {}, expected {}",
                scale, exp, actual, expected
            );
        }
    }
}

#[test]
fn test_basic_values() {
    let scale = 4;

    // 1.0 is 2^0, should map to -1
    assert_eq!(logarithm_index(1.0, scale), -1);

    // 2.0 is 2^1, should map to (1 << 4) - 1 = 15
    assert_eq!(logarithm_index(2.0, scale), 15);

    // Values between 1 and 2 should be in buckets 0..15
    let idx = logarithm_index(1.5, scale);
    assert!(
        (0..15).contains(&idx),
        "1.5 should be in [0, 15), got {}",
        idx
    );
}

#[test]
fn test_scale_factors() {
    assert_eq!(f64::from_bits(scale_factor(1)), core::f64::consts::LOG2_E * 2.0);
    assert_eq!(f64::from_bits(scale_factor(4)), core::f64::consts::LOG2_E * 16.0);
    assert_eq!(f64::from_bits(scale_factor(8)), core::f64::consts::LOG2_E * 256.0);
}

#[test]
fn logarithms_are_moved_into_the_octave() {
    let bits = 1.5_f64.to_bits();
    assert_eq!(logarithm::map_to_index(bits, -5, 3), 0);
    assert_eq!(logarithm::map_to_index(bits, 4, 3), 4);
    assert_eq!(logarithm::map_to_index(bits, 9, 3), 7);
}

/// Checks a table lookup against what holds of every table.
fn check_lookup(map: fn(u64, i32, &ScaleTables) -> i32, tables: &ScaleTables) {
    let index = |value: f64, scale: i32| map(value.to_bits(), scale, tables);
    for scale in 1..=TABLE_SCALE {
        for exp in -10..=10 {
            assert_eq!(index(2.0_f64.powi(exp), scale), (exp << scale) - 1);
        }
    }
    let scale = TABLE_SCALE.min(4);
    assert_eq!(index(1.0, scale), -1);
    assert_eq!(index(2.0, scale), (1 << scale) - 1);
    let mid = index(1.5, scale);
    assert!(mid >= 0 && mid < (1 << scale) - 1);
    let values = [1.1, 1.5, 1.9, 2.5, 3.3, 7.7, 0.3, 0.7, 100.0, 1e-10, 1e10];
    for scale in 1..TABLE_SCALE {
        for v in values {
            assert_eq!(index(v, scale), index(v, TABLE_SCALE) >> (TABLE_SCALE - scale));
        }
    }
}

#[test]
fn newrelic_lookup() {
    assert_eq!(newrelic::table_scale(), TABLE_SCALE);
    check_lookup(newrelic::map_to_index, &newrelic::tables());
}

#[test]
fn dynatrace_lookup() {
    assert_eq!(dynatrace::table_scale(), TABLE_SCALE);
    assert_eq!(table_scale(), TABLE_SCALE);
    check_lookup(dynatrace::map_to_index, &dynatrace::tables());
}

#[test]
fn test_matches_newrelic() {
    let test_values: &[f64] = &[
        1e-300, 1e-100, 1e-10, 0.001, 0.1, 0.5, 1.0, 1.5, 2.0,
        core::f64::consts::PI, 10.0, 100.0, 1e10, 1e100, 1e300,
        1.0000000000001, 1.9999999999999, 0.9999999999999,
    ];
    let (dt, nr) = (dynatrace::tables(), newrelic::tables());

    for scale in 1..=TABLE_SCALE {
        for &v in test_values {
            let dt_idx = dynatrace::map_to_index(v.to_bits(), scale, &dt);
            let nr_idx = newrelic::map_to_index(v.to_bits(), scale, &nr);
            assert_eq!(
                dt_idx, nr_idx,
                "dynatrace vs newrelic mismatch at scale={scale}, value={v}: dt={dt_idx}, nr={nr_idx}",
            );
        }
    }
}

#[test]
fn edges_agree_with_the_logarithm() {
    // Away from the edges, the logarithm in floating point finds the same bucket.
    for i in 0..4096u64 {
        let value = 1.0 + (i as f64 + 0.37) / 4096.0;
        let exact = value.log2() * 256.0;
        if (exact - exact.round()).abs() > 1e-9 {
            let bucket = find_bucket(get_significand(value.to_bits()));
            assert_eq!(bucket as i32 - 1, exact.floor() as i32, "value {value}");
        }
    }
}

#[test]
fn values_without_a_bucket() {
    let m = IndexScale::new(3).unwrap();
    for value in [0.0, -0.0, f64::NAN, f64::INFINITY, f64::NEG_INFINITY] {
        assert_eq!(m.map_to_index(value.to_bits()), None, "{value}");
    }
    // Subnormal values share the bucket of the smallest normal value.
    assert_eq!(m.map_to_index(1), m.map_to_index(MIN_VALUE));
}

#[test]
fn scale_errors_have_messages() {
    assert_eq!(ScaleError::InvalidScale.message(), "invalid scale parameter");
    assert_eq!(ScaleError::Overflow.message(), "bucket index corresponds to +Inf");
    assert_eq!(
        ScaleError::Underflow.message(),
        "bucket index corresponds to a subnormal value"
    );
    assert_eq!(IndexScale::new(-10).unwrap().text(), "-10");
    assert_eq!(IndexScale::new(8).unwrap().text(), "8");
}

#[test]
fn larger_values_have_no_smaller_index() {
    for scale in MIN_SCALE..=TABLE_SCALE {
        let m = Scale::new(scale).unwrap();
        let mut value = f64::from_bits(16);
        let mut last = m.map_to_index(value);
        while value < 1e300 {
            let index = m.map_to_index(value);
            assert!(index >= last, "{value} at scale {scale}");
            last = index;
            value *= 1.37;
        }
    }
}

#[test]
fn coarser_scales_shift_the_index() {
    let fine = Scale::new(TABLE_SCALE).unwrap();
    for scale in MIN_SCALE..TABLE_SCALE {
        let coarse = Scale::new(scale).unwrap();
        for value in [3e-308, 0.1, 0.5, 1.0, 1.2, 17.0, 4096.0, 1e200] {
            let shifted = fine.map_to_index(value) >> (TABLE_SCALE - scale);
            assert_eq!(coarse.map_to_index(value), shifted, "{value} at scale {scale}");
        }
    }
}
