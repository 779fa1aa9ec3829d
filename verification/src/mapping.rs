//! Scales and the mapping of values to bucket indices.

use crate::float64::{
    biased, finite, get_biased_exponent, get_significand, law_order, lemma_parts, negative,
    significand, unbias_exponent, value, zero, NAN_INF_BIASED,
};
use crate::lookup::{index_at, law_index_monotone, lemma_fine_range, TABLE_SCALE};
use crate::width::in_range;
use vstd::arithmetic::power2::{lemma_pow2_pos, pow2};
use vstd::prelude::*;

verus! {

/// Minimum scale: values in `(0, 1]` map to bucket -1 and all larger values to bucket 0.
pub const MIN_SCALE: i32 = -10;

/// Maximum scale of any table: indices need 31 bits.
pub const MAX_SCALE: i32 = 20;

/// Error types for mapping operations.
#[derive(Debug, Clone, Copy, PartialEq, Eq, Structural)]
pub enum ScaleError {
    /// The bucket index corresponds to a subnormal value.
    Underflow,
    /// The bucket index corresponds to +Inf.
    Overflow,
    /// Invalid scale parameter.
    InvalidScale,
}

impl ScaleError {
    /// Message that describes the error.
    pub fn message(&self) -> (r: &'static str)
        ensures
            self is Underflow ==> r@ == "bucket index corresponds to a subnormal value"@,
            self is Overflow ==> r@ == "bucket index corresponds to +Inf"@,
            self is InvalidScale ==> r@ == "invalid scale parameter"@,
    {
        match self {
            ScaleError::Underflow => "bucket index corresponds to a subnormal value",
            ScaleError::Overflow => "bucket index corresponds to +Inf",
            ScaleError::InvalidScale => "invalid scale parameter",
        }
    }
}

/// Returns the maximum scale supported by the mapping: that of the bucket edges.
pub fn max_scale() -> (r: i32)
    ensures
        r == TABLE_SCALE,
{
    TABLE_SCALE
}

/// Returns the native scale of the bucket edges.
pub fn table_scale() -> (r: i32)
    ensures
        r == TABLE_SCALE,
{
    TABLE_SCALE
}

/// Converts values to bucket indices at a given scale.
#[derive(Debug, Clone, Copy, PartialEq, Eq, Structural)]
pub struct Scale {
    exponent: i8,
}

/// Index of the bucket for a pattern that is neither zero, infinite nor NaN; the sign is
/// ignored, and subnormal values count as the smallest normal value.
pub open spec fn index_of(bits: u64, scale: int) -> int {
    if biased(bits) == 0 {
        index_at(0, -1022, scale)
    } else {
        index_at(significand(bits), biased(bits) - 1023, scale)
    }
}

/// Index for an observation: a subnormal value counts as a value just above the smallest
/// normal one.
pub open spec fn slot_of(bits: u64, scale: int) -> int {
    if biased(bits) == 0 {
        index_at(1, -1022, scale)
    } else {
        index_at(significand(bits), biased(bits) - 1023, scale)
    }
}

/// A larger value never has a smaller index.
pub proof fn law_mapping_monotone(a: u64, b: u64, scale: int)
    requires
        finite(a) && !negative(a) && !zero(a),
        finite(b) && !negative(b) && !zero(b),
        value(a) <= value(b),
        scale <= TABLE_SCALE,
    ensures
        index_of(a, scale) <= index_of(b, scale),
{
    law_order(b, a);
    lemma_parts(a);
    lemma_parts(b);
    let (sa, ea) = if biased(a) == 0 {
        (0, -1022)
    } else {
        (significand(a), biased(a) - 1023)
    };
    let (sb, eb) = if biased(b) == 0 {
        (0, -1022)
    } else {
        (significand(b), biased(b) - 1023)
    };
    law_index_monotone(sa, ea, sb, eb, scale);
}

/// Values below the smallest normal value fall into one bucket, next to that value: the one below
/// its boundary by the mapping, the one above it as observations. At scales from 0 up the boundary
/// is that of `-1022 * 2^scale`.
pub proof fn law_subnormals(bits: u64, scale: int)
    requires
        biased(bits) == 0,
        0 <= scale <= TABLE_SCALE,
    ensures
        index_of(bits, scale) == -1022 * pow2(scale as nat) - 1,
        slot_of(bits, scale) == -1022 * pow2(scale as nat),
{
    crate::lookup::law_index_power_of_two(-1022, scale);
    crate::lookup::law_index_least(-1022, scale);
}

/// Where a value is normal, its bucket as an observation is that of the mapping.
pub proof fn law_normal_slots(bits: u64, scale: int)
    requires
        biased(bits) > 0,
    ensures
        slot_of(bits, scale) == index_of(bits, scale),
{
}

/// Every index is far inside the range of bucket indices.
pub proof fn lemma_index_range(sig: int, exp: int, scale: int)
    requires
        0 <= sig,
        -1023 <= exp <= 1024,
        scale <= TABLE_SCALE,
    ensures
        in_range(index_at(sig, exp, scale)),
        -262145 <= index_at(sig, exp, scale) <= 262399,
{
    lemma_fine_range(sig, exp);
    let f = crate::lookup::fine_index(sig, exp);
    let d = vstd::arithmetic::power2::pow2((TABLE_SCALE - scale) as nat) as int;
    lemma_pow2_pos((TABLE_SCALE - scale) as nat);
    crate::arith::lemma_div_bracket(f, d, f / d);
    let q = f / d;
    assert(-262145 <= q <= 262399) by (nonlinear_arith)
        requires
            d >= 1,
            q * d <= f < (q + 1) * d,
            -262145 <= f <= 262399,
    ;
}

impl Scale {
    /// The scale as a mathematical integer.
    pub closed spec fn value(self) -> int {
        self.exponent as int
    }

    /// The scale is supported.
    pub open spec fn wf(self) -> bool {
        MIN_SCALE <= self.value() <= TABLE_SCALE
    }

    /// Creates a new mapping for the given scale.
    ///
    /// Returns `ScaleError::InvalidScale` if scale is outside
    /// [`MIN_SCALE`]..=[`max_scale()`].
    pub fn new(scale: i32) -> (r: Result<Self, ScaleError>)
        ensures
            r.is_ok() <==> MIN_SCALE <= scale <= TABLE_SCALE,
            r.is_ok() ==> r.unwrap().value() == scale && r.unwrap().wf(),
            r.is_err() ==> r->Err_0 == ScaleError::InvalidScale,
    {
        if scale < MIN_SCALE || scale > max_scale() {
            return Err(ScaleError::InvalidScale);
        }
        Ok(Scale { exponent: scale as i8 })
    }

    /// The finest supported scale.
    pub fn finest() -> (r: Self)
        ensures
            r.wf(),
            r.value() == TABLE_SCALE,
    {
        Scale { exponent: 8 }
    }

    /// Returns the current scale as `i32`.
    pub fn scale(&self) -> (r: i32)
        ensures
            r == self.value(),
    {
        self.exponent as i32
    }

    /// Returns the scale in decimal digits.
    pub fn text(&self) -> (r: &'static str)
        requires
            self.wf(),
        ensures
            self.value() == -10 ==> r@ == "-10"@,
            self.value() == -9 ==> r@ == "-9"@,
            self.value() == -8 ==> r@ == "-8"@,
            self.value() == -7 ==> r@ == "-7"@,
            self.value() == -6 ==> r@ == "-6"@,
            self.value() == -5 ==> r@ == "-5"@,
            self.value() == -4 ==> r@ == "-4"@,
            self.value() == -3 ==> r@ == "-3"@,
            self.value() == -2 ==> r@ == "-2"@,
            self.value() == -1 ==> r@ == "-1"@,
            self.value() == 0 ==> r@ == "0"@,
            self.value() == 1 ==> r@ == "1"@,
            self.value() == 2 ==> r@ == "2"@,
            self.value() == 3 ==> r@ == "3"@,
            self.value() == 4 ==> r@ == "4"@,
            self.value() == 5 ==> r@ == "5"@,
            self.value() == 6 ==> r@ == "6"@,
            self.value() == 7 ==> r@ == "7"@,
            self.value() == 8 ==> r@ == "8"@,
    {
        match self.scale() {
            -10 => "-10",
            -9 => "-9",
            -8 => "-8",
            -7 => "-7",
            -6 => "-6",
            -5 => "-5",
            -4 => "-4",
            -3 => "-3",
            -2 => "-2",
            -1 => "-1",
            0 => "0",
            1 => "1",
            2 => "2",
            3 => "3",
            4 => "4",
            5 => "5",
            6 => "6",
            7 => "7",
            _ => "8",
        }
    }

    /// Maps a decomposed value to a bucket index.
    pub fn map_decomposed(&self, significand: u64, base2_exp: i32) -> (r: i32)
        requires
            self.wf(),
            -1023 <= base2_exp <= 1024,
        ensures
            r == index_at(significand as int, base2_exp as int, self.value()),
    {
        let scale = self.scale();
        if scale <= 0 {
            crate::exponent::map_decomposed(significand, base2_exp, scale)
        } else {
            crate::lookup::map_decomposed(significand, base2_exp, scale)
        }
    }

    /// Maps the bit pattern of a value to a bucket index. Ignores the sign. Zero, infinities
    /// and NaN have no index.
    pub fn map_to_index(&self, bits: u64) -> (r: Option<i32>)
        requires
            self.wf(),
        ensures
            r.is_some() <==> finite(bits) && !zero(bits),
            r.is_some() ==> r.unwrap() == index_of(bits, self.value()),
    {
        let mut biased_exp = get_biased_exponent(bits);
        let mut sig = get_significand(bits);
        if biased_exp == 0 {
            if sig == 0 {
                return None;
            }
            // Round up to the smallest normal value.
            biased_exp = 1;
            sig = 0;
        } else if biased_exp == NAN_INF_BIASED {
            return None;
        }
        Some(self.map_decomposed(sig, unbias_exponent(biased_exp)))
    }
}

} // verus!
