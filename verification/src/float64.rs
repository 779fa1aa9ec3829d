//! IEEE 754 double-precision values, handled as their 64-bit patterns.
//!
//! A pattern is a sign bit, an 11-bit biased exponent and a 52-bit significand. Every finite
//! value is an integer multiple of `2^-1074`; [`scaled`] gives that integer for the magnitude.

use vstd::arithmetic::power2::{
    lemma2_to64, lemma_pow2_adds, lemma_pow2_pos, lemma_pow2_unfold, pow2 as two_to,
};
use vstd::prelude::*;

verus! {

/// Size of the significand, in bits.
pub const SIGNIFICAND_WIDTH: u32 = 52;

/// Size of the exponent, in bits.
pub const EXPONENT_WIDTH: u32 = 11;

/// Mask for the significand.
pub const SIGNIFICAND_MASK: u64 = 0xf_ffff_ffff_ffff;

/// Exponent bias.
pub const EXPONENT_BIAS: i32 = 1023;

/// Mask for the exponent bits.
pub const EXPONENT_MASK: u64 = 0x7ff0_0000_0000_0000;

/// Minimum exponent of a normalized value.
pub const MIN_NORMAL_EXPONENT: i32 = -1022;

/// Maximum exponent of a normalized value.
pub const MAX_NORMAL_EXPONENT: i32 = 1023;

/// Biased exponent of infinities and NaN.
pub const NAN_INF_BIASED: i32 = 2047;

/// Pattern of the smallest normal value, `2^-1022`.
pub const MIN_VALUE: u64 = 0x0010_0000_0000_0000;

/// Pattern of positive infinity.
pub const INFINITY: u64 = 0x7ff0_0000_0000_0000;

/// Pattern of 1.
pub const ONE: u64 = 0x3ff0_0000_0000_0000;

/// Pattern of negative infinity.
pub const NEG_INFINITY: u64 = 0xfff0_0000_0000_0000;

/// Significand of a pattern.
pub open spec fn significand(bits: u64) -> int {
    bits as int % 0x10_0000_0000_0000
}

/// Biased exponent of a pattern.
pub open spec fn biased(bits: u64) -> int {
    bits as int / 0x10_0000_0000_0000 % 2048
}

/// The sign bit is set.
pub open spec fn negative(bits: u64) -> bool {
    bits >= 0x8000_0000_0000_0000
}

/// The pattern of a number, not an infinity or NaN.
pub open spec fn finite(bits: u64) -> bool {
    biased(bits) != 2047
}

/// Positive or negative zero.
pub open spec fn zero(bits: u64) -> bool {
    biased(bits) == 0 && significand(bits) == 0
}

/// Magnitude of a finite value in units of `2^-1074`.
pub open spec fn scaled(bits: u64) -> nat {
    if biased(bits) == 0 {
        significand(bits) as nat
    } else {
        ((0x10_0000_0000_0000 + significand(bits)) * two_to((biased(bits) - 1) as nat)) as nat
    }
}

/// A finite value with its sign, in units of `2^-1074`.
pub open spec fn value(bits: u64) -> int {
    if negative(bits) {
        -(scaled(bits) as int)
    } else {
        scaled(bits) as int
    }
}

/// Returns the biased exponent.
pub fn get_biased_exponent(bits: u64) -> (r: i32)
    ensures
        r == biased(bits),
        0 <= r <= 2047,
{
    proof {
        assert((bits & 0x7ff0_0000_0000_0000) >> 52 == bits / 0x10_0000_0000_0000 % 2048)
            by (bit_vector);
        assert((bits & 0x7ff0_0000_0000_0000) >> 52u32 == (bits & 0x7ff0_0000_0000_0000) >> 52)
            by (bit_vector);
    }
    ((bits & EXPONENT_MASK) >> SIGNIFICAND_WIDTH) as i32
}

/// Returns the 52-bit significand.
pub fn get_significand(bits: u64) -> (r: u64)
    ensures
        r == significand(bits),
        r < 0x10_0000_0000_0000,
{
    proof {
        assert(bits & 0xf_ffff_ffff_ffff == bits % 0x10_0000_0000_0000) by (bit_vector);
    }
    bits & SIGNIFICAND_MASK
}

/// Removes the bias from an exponent.
pub fn unbias_exponent(biased_exp: i32) -> (r: i32)
    requires
        0 <= biased_exp <= 2047,
    ensures
        r == biased_exp - 1023,
{
    biased_exp - EXPONENT_BIAS
}

/// Extracts the unbiased base-2 exponent.
pub fn get_normal_base2(bits: u64) -> (r: i32)
    ensures
        r == biased(bits) - 1023,
        -1023 <= r <= 1024,
{
    unbias_exponent(get_biased_exponent(bits))
}

/// Returns true if the sign bit is set.
pub fn is_sign_negative(bits: u64) -> (r: bool)
    ensures
        r == negative(bits),
{
    bits >= 0x8000_0000_0000_0000
}

/// Returns true for positive and negative zero.
pub fn is_zero(bits: u64) -> (r: bool)
    ensures
        r == zero(bits),
{
    get_biased_exponent(bits) == 0 && get_significand(bits) == 0
}

/// The pattern of `2^k`.
pub fn pow2(k: i32) -> (r: u64)
    requires
        MIN_NORMAL_EXPONENT <= k <= MAX_NORMAL_EXPONENT,
    ensures
        r == (k + 1023) * 0x10_0000_0000_0000,
        biased(r) == k + 1023,
        significand(r) == 0,
        !negative(r),
        scaled(r) == two_to((k + 1074) as nat),
{
    let b: u64 = (k + EXPONENT_BIAS) as u64;
    let r: u64 = b * 0x10_0000_0000_0000;
    proof {
        lemma2_to64();
        lemma2_to64_52();
        lemma_pow2_adds(52, (k + 1022) as nat);
    }
    r
}

proof fn lemma2_to64_52()
    ensures
        two_to(52) == 0x10_0000_0000_0000,
{
    vstd::arithmetic::power2::lemma2_to64_rest();
}

/// Position of a pattern in the numeric order of all values but NaN.
pub open spec fn order(bits: u64) -> int {
    if negative(bits) {
        0x8000_0000_0000_0000 - bits
    } else {
        bits as int
    }
}

/// The smaller of two values.
pub open spec fn least(a: u64, b: u64) -> u64 {
    if order(b) < order(a) {
        b
    } else {
        a
    }
}

/// The larger of two values.
pub open spec fn greatest(a: u64, b: u64) -> u64 {
    if order(b) > order(a) {
        b
    } else {
        a
    }
}

fn position(bits: u64) -> (r: i64)
    ensures
        r == order(bits),
{
    if bits >= 0x8000_0000_0000_0000 {
        -((bits - 0x8000_0000_0000_0000) as i64)
    } else {
        bits as i64
    }
}

/// Returns the smaller of two values, neither of them NaN.
pub fn min_of(a: u64, b: u64) -> (r: u64)
    ensures
        r == least(a, b),
{
    if position(b) < position(a) {
        b
    } else {
        a
    }
}

/// Returns the larger of two values, neither of them NaN.
pub fn max_of(a: u64, b: u64) -> (r: u64)
    ensures
        r == greatest(a, b),
{
    if position(b) > position(a) {
        b
    } else {
        a
    }
}

/// A finite pattern is determined by its sign, exponent and significand.
pub proof fn lemma_parts(bits: u64)
    ensures
        bits as int == (if negative(bits) {
            0x8000_0000_0000_0000int
        } else {
            0
        }) + biased(bits) * 0x10_0000_0000_0000 + significand(bits),
        0 <= significand(bits) < 0x10_0000_0000_0000,
        0 <= biased(bits) <= 2047,
{
}

/// The order of patterns is the numeric order of the values they stand for.
pub proof fn law_order(a: u64, b: u64)
    requires
        finite(a),
        finite(b),
    ensures
        order(a) < order(b) <==> value(a) < value(b),
{
    let x = magnitude(a);
    let y = magnitude(b);
    lemma_parts(a);
    lemma_parts(b);
    if x < y {
        lemma_order_forward(x, y);
    } else if y < x {
        lemma_order_forward(y, x);
    }
    lemma_scaled_zero(a);
    lemma_scaled_zero(b);
}

/// A pattern without its sign bit.
spec fn magnitude(bits: u64) -> u64 {
    if negative(bits) {
        (bits - 0x8000_0000_0000_0000) as u64
    } else {
        bits
    }
}

proof fn lemma_order_forward(a: u64, b: u64)
    requires
        a < b,
        finite(b),
        !negative(b),
    ensures
        scaled(a) < scaled(b),
{
    lemma_parts(a);
    lemma_parts(b);
    let ea = biased(a);
    let eb = biased(b);
    let sa = significand(a);
    let sb = significand(b);
    let m: int = 0x10_0000_0000_0000;
    lemma2_to64();
    if ea == eb {
        if ea > 0 {
            let p = two_to((ea - 1) as nat) as int;
            lemma_pow2_pos((ea - 1) as nat);
            assert((m + sa) * p < (m + sb) * p) by (nonlinear_arith)
                requires
                    sa < sb,
                    p > 0,
            ;
            assert((m + sa) * p >= 0) by (nonlinear_arith)
                requires
                    m + sa >= 0,
                    p > 0,
            ;
        }
    } else {
        assert(ea < eb);
        let q = two_to((eb - 1) as nat) as int;
        lemma_pow2_pos((eb - 1) as nat);
        assert((m + sb) * q >= m * q) by (nonlinear_arith)
            requires
                sb >= 0,
                q > 0,
        ;
        if ea == 0 {
            assert(m * q >= m) by (nonlinear_arith)
                requires
                    q >= 1,
                    m > 0,
            ;
        } else {
            let p = two_to((ea - 1) as nat) as int;
            lemma_pow2_pos((ea - 1) as nat);
            lemma_pow2_adds((ea - 1) as nat, (eb - ea) as nat);
            lemma_pow2_pos((eb - ea - 1) as nat);
            lemma_pow2_unfold((eb - ea) as nat);
            let t = two_to((eb - ea) as nat) as int;
            assert(t >= 2);
            assert((m + sa) * p < m * q) by (nonlinear_arith)
                requires
                    0 <= sa < m,
                    p > 0,
                    q == p * t,
                    t >= 2,
            ;
            assert((m + sa) * p >= 0) by (nonlinear_arith)
                requires
                    m + sa >= 0,
                    p > 0,
            ;
        }
    }
}

/// Only the two zeros have no magnitude.
pub proof fn lemma_scaled_zero(bits: u64)
    ensures
        scaled(bits) == 0 <==> zero(bits),
{
    lemma_parts(bits);
    if biased(bits) > 0 {
        let p = two_to((biased(bits) - 1) as nat) as int;
        lemma_pow2_pos((biased(bits) - 1) as nat);
        let m = 0x10_0000_0000_0000 + significand(bits);
        assert(m * p > 0) by (nonlinear_arith)
            requires
                m > 0,
                p > 0,
        ;
    }
}

} // verus!
