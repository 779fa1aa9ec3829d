//! Mapping by logarithm: `floor(ln(value) * factor)`, kept inside the octave of the value.
//!
//! The logarithm of a value near a bucket boundary is not exact. The exponent of the value is,
//! and it bounds the index from both sides.

use crate::arith::lemma_div_bracket;
use crate::float64::{
    biased, finite, get_normal_base2, get_significand, negative, scaled, significand,
};
use crate::lookup::{fine_index, index_at, lemma_bucket, lemma_bucket_zero, TABLE_SCALE};
use vstd::arithmetic::power2::{
    lemma2_to64, lemma_pow2_adds, lemma_pow2_pos, lemma_pow2_strictly_increases, pow2,
};
use vstd::prelude::*;

verus! {

/// Pattern of the base-2 logarithm of e.
pub const LOG2_E: u64 = 0x3ff7_1547_652b_82fe;

/// Pattern of the natural logarithm of 2.
pub const LN_2: u64 = 0x3fe6_2e42_fefa_39ef;

/// Returns the pattern of `log2(e) * 2^scale`, by which the natural logarithm of a value becomes
/// an index.
pub fn scale_factor(scale: i32) -> (r: u64)
    requires
        0 <= scale <= 20,
    ensures
        finite(r),
        !negative(r),
        scaled(r) == scaled(LOG2_E) * pow2(scale as nat),
{
    let r: u64 = LOG2_E + (scale as u64) * 0x10_0000_0000_0000;
    proof {
        lemma_times_power(LOG2_E, r, scale as nat);
    }
    r
}

/// Returns the pattern of `ln(2) / 2^scale`, by which an index becomes a natural logarithm.
pub fn inverse_factor(scale: i32) -> (r: u64)
    requires
        0 <= scale <= 20,
    ensures
        finite(r),
        !negative(r),
        scaled(r) * pow2(scale as nat) == scaled(LN_2),
{
    let r: u64 = LN_2 - (scale as u64) * 0x10_0000_0000_0000;
    proof {
        lemma_times_power(r, LN_2, scale as nat);
    }
    r
}

/// A larger exponent multiplies by a power of two.
proof fn lemma_times_power(a: u64, b: u64, k: nat)
    requires
        k <= 20,
        1 <= biased(a),
        !negative(a),
        b == a + k * 0x10_0000_0000_0000,
        b < 0x7ff0_0000_0000_0000,
    ensures
        finite(a),
        finite(b),
        !negative(b),
        scaled(b) == scaled(a) * pow2(k),
{
    crate::float64::lemma_parts(a);
    crate::float64::lemma_parts(b);
    assert(significand(b) == significand(a) && biased(b) == biased(a) + k);
    let e = (biased(a) - 1) as nat;
    lemma_pow2_adds(e, k);
    let s = 0x10_0000_0000_0000 + significand(a);
    assert(s * (pow2(e) * pow2(k)) == (s * pow2(e)) * pow2(k)) by (nonlinear_arith);
}

/// `raw` moved into the range `low..=high`.
pub open spec fn clamped(raw: int, low: int, high: int) -> int {
    if raw < low {
        low
    } else if raw > high {
        high
    } else {
        raw
    }
}

/// Maps a positive value to a bucket index at a positive scale. The argument `raw` is
/// `floor(ln(value) * factor)` for the factor of the scale, as far as it can be computed.
///
/// An exact power of two does not depend on the logarithm. For any other value the index is
/// moved into the octave of the value.
pub fn map_to_index(bits: u64, raw: i32, scale: i32) -> (r: i32)
    requires
        1 <= scale <= 20,
    ensures
        ({
            let exp = biased(bits) - 1023;
            let p = pow2(scale as nat) as int;
            r == if significand(bits) == 0 {
                exp * p - 1
            } else {
                clamped(raw as int, exp * p, (exp + 1) * p - 1)
            }
        }),
{
    let sig = get_significand(bits);
    let exp = get_normal_base2(bits);
    let ghost p = pow2(scale as nat) as int;
    proof {
        lemma2_to64();
        vstd::bits::lemma_u32_shl_is_mul(1, scale as u32);
        assert(pow2(20) == 0x10_0000);
        if scale < 20 {
            lemma_pow2_strictly_increases(scale as nat, 20);
        }
        crate::float64::lemma_parts(bits);
    }
    let factor: i32 = (1u32 << (scale as u32)) as i32;
    proof {
        assert(-0x4010_0000 <= exp * factor <= 0x4010_0000) by (nonlinear_arith)
            requires
                -1023 <= exp <= 1024,
                0 < factor <= 0x10_0000,
        ;
        assert((exp + 1) * factor == exp * factor + factor) by (nonlinear_arith);
    }
    let low: i32 = exp * factor;
    if sig == 0 {
        return low - 1;
    }
    let high: i32 = low + (factor - 1);
    if raw < low {
        low
    } else if raw > high {
        high
    } else {
        raw
    }
}

/// The index of a value that is no power of two lies in the octave of the value.
pub proof fn law_octave(sig: int, exp: int, scale: int)
    requires
        sig > 0,
        0 <= scale <= TABLE_SCALE,
    ensures
        exp * pow2(scale as nat) <= index_at(sig, exp, scale) <= (exp + 1) * pow2(scale as nat) - 1,
{
    lemma_bucket(sig);
    lemma_bucket_zero(sig);
    lemma2_to64();
    let p = pow2(scale as nat) as int;
    let d = pow2((TABLE_SCALE - scale) as nat) as int;
    lemma_pow2_pos((TABLE_SCALE - scale) as nat);
    lemma_pow2_pos(scale as nat);
    lemma_pow2_adds(scale as nat, (TABLE_SCALE - scale) as nat);
    let f = fine_index(sig, exp);
    let q = f / d;
    lemma_div_bracket(f, d, q);
    assert(256 * exp <= f < 256 * exp + 256);
    assert(exp * p <= q <= (exp + 1) * p - 1) by (nonlinear_arith)
        requires
            p * d == 256,
            d >= 1,
            q * d <= f < (q + 1) * d,
            256 * exp <= f < 256 * exp + 256,
    ;
}

/// Keeping an estimate inside the octave never takes it away from the index of the value.
pub proof fn law_clamped_no_worse(raw: int, sig: int, exp: int, scale: int)
    requires
        sig > 0,
        0 <= scale <= TABLE_SCALE,
    ensures
        ({
            let i = index_at(sig, exp, scale);
            let p = pow2(scale as nat) as int;
            let c = clamped(raw, exp * p, (exp + 1) * p - 1);
            &&& raw <= i ==> raw <= c <= i
            &&& raw >= i ==> i <= c <= raw
        }),
{
    law_octave(sig, exp, scale);
}

} // verus!
