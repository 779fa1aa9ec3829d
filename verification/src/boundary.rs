//! Lower boundaries of buckets.
//!
//! At non-positive scales every boundary is an exact power of two. At positive scales a boundary
//! is `exp(index * ln(2) / 2^scale)`; what has to be exponentiated, and whether the result must
//! be halved or doubled to stay inside the range of normal values, is decided here.

use crate::arith::shr;
use crate::exponent::min_normal_lower_boundary_index;
use crate::float64::{
    biased, law_order, lemma_parts, negative, pow2 as power, significand, value,
    MAX_NORMAL_EXPONENT, MIN_NORMAL_EXPONENT,
};
use crate::lookup::{law_index_octaves, TABLE_SCALE};
use crate::mapping::{index_of, Scale, ScaleError};
use vstd::arithmetic::power2::{lemma2_to64, lemma_pow2_pos, pow2};
use vstd::prelude::*;

verus! {

/// How a lower boundary is computed.
#[derive(Debug, Clone, Copy, PartialEq, Eq, Structural)]
pub enum Boundary {
    /// The value with this bit pattern.
    Exact(u64),
    /// `exp(n * ln(2) / 2^scale)`.
    Exp(i32),
    /// Twice `exp(n * ln(2) / 2^scale)`.
    ExpDoubled(i32),
    /// Half of `exp(n * ln(2) / 2^scale)`.
    ExpHalved(i32),
}

/// Maximum valid bucket index for a lower boundary at a non-positive scale.
pub fn max_normal_index_exp(scale: i32) -> (r: i32)
    requires
        -10 <= scale <= 0,
    ensures
        forall|i: int|
            i <= r <==> #[trigger] (i * pow2((-scale) as nat)) <= MAX_NORMAL_EXPONENT,
{
    let r = shr(MAX_NORMAL_EXPONENT, (-scale) as u32);
    proof {
        let d = pow2((-scale) as nat) as int;
        lemma_pow2_pos((-scale) as nat);
        crate::arith::lemma_div_bracket(1023, d, r as int);
        assert forall|i: int| i <= r <==> #[trigger] (i * d) <= 1023 by {
            if i <= r {
                assert(i * d <= r * d) by (nonlinear_arith)
                    requires
                        i <= r,
                        d > 0,
                ;
            } else {
                assert(i * d >= (r + 1) * d) by (nonlinear_arith)
                    requires
                        i >= r + 1,
                        d > 0,
                ;
            }
        }
    }
    r
}

/// Returns the bit pattern of the lower boundary of a bucket at a non-positive scale.
pub fn lower_boundary_exponent(index: i32, scale: i32) -> (r: Result<u64, ScaleError>)
    requires
        -10 <= scale <= 0,
    ensures
        ({
            let e = index * pow2((-scale) as nat);
            &&& e < MIN_NORMAL_EXPONENT <==> r == Err::<u64, ScaleError>(ScaleError::Underflow)
            &&& e > MAX_NORMAL_EXPONENT <==> r == Err::<u64, ScaleError>(ScaleError::Overflow)
            &&& MIN_NORMAL_EXPONENT <= e <= MAX_NORMAL_EXPONENT <==> r.is_ok()
            &&& r.is_ok() ==> r.unwrap() == (e + 1023) * 0x10_0000_0000_0000
        }),
{
    let low = min_normal_lower_boundary_index(scale);
    let high = max_normal_index_exp(scale);
    let ghost d = pow2((-scale) as nat) as int;
    assert(index >= low <==> index * d >= MIN_NORMAL_EXPONENT);
    assert(index <= high <==> index * d <= MAX_NORMAL_EXPONENT);
    if index < low {
        return Err(ScaleError::Underflow);
    }
    if index > high {
        return Err(ScaleError::Overflow);
    }
    let factor: i32 = power_of_two((-scale) as u32);
    proof {
        assert(-1022 <= index * factor <= 1023);
    }
    Ok(power(index * factor))
}

/// `2^k` for small `k`.
fn power_of_two(k: u32) -> (r: i32)
    requires
        k <= 10,
    ensures
        r == pow2(k as nat),
        1 <= r <= 1024,
{
    proof {
        lemma2_to64();
    }
    match k {
        0 => 1,
        1 => 2,
        2 => 4,
        3 => 8,
        4 => 16,
        5 => 32,
        6 => 64,
        7 => 128,
        8 => 256,
        9 => 512,
        _ => 1024,
    }
}

/// Minimum valid bucket index for a lower boundary at a positive scale.
pub fn min_normal_index_log(scale: i32) -> (r: i32)
    requires
        0 < scale <= TABLE_SCALE,
    ensures
        r == MIN_NORMAL_EXPONENT * pow2(scale as nat),
        r >= -0x10_0000,
{
    MIN_NORMAL_EXPONENT * power_of_two(scale as u32)
}

/// Maximum valid bucket index for a lower boundary at a positive scale.
pub fn max_normal_index_log(scale: i32) -> (r: i32)
    requires
        0 < scale <= TABLE_SCALE,
    ensures
        r == (MAX_NORMAL_EXPONENT + 1) * pow2(scale as nat) - 1,
        r <= 0x10_0000,
{
    (MAX_NORMAL_EXPONENT + 1) * power_of_two(scale as u32) - 1
}

/// Decides how the lower boundary of a bucket at a positive scale is computed.
///
/// The topmost bucket is computed one octave lower and doubled, the bucket just below the
/// smallest normal value one octave higher and halved.
pub fn lower_boundary_logarithm(index: i32, scale: i32) -> (r: Result<Boundary, ScaleError>)
    requires
        0 < scale <= TABLE_SCALE,
    ensures
        ({
            let p = pow2(scale as nat) as int;
            let min = MIN_NORMAL_EXPONENT * p;
            let max = (MAX_NORMAL_EXPONENT + 1) * p - 1;
            &&& index > max <==> r == Err::<Boundary, ScaleError>(ScaleError::Overflow)
            &&& index < min - 1 <==> r == Err::<Boundary, ScaleError>(ScaleError::Underflow)
            &&& min - 1 <= index <= max <==> r.is_ok()
            &&& index == max ==> r.unwrap() == Boundary::ExpDoubled((index - p) as i32)
            &&& index == min ==> r.unwrap() == Boundary::Exact(crate::float64::MIN_VALUE)
            &&& index == min - 1 ==> r.unwrap() == Boundary::ExpHalved((index + p) as i32)
            &&& min < index < max ==> r.unwrap() == Boundary::Exp(index)
        }),
{
    let max = max_normal_index_log(scale);
    let min = min_normal_index_log(scale);
    let octave: i32 = power_of_two(scale as u32);
    if index >= max {
        if index == max {
            return Ok(Boundary::ExpDoubled(index - octave));
        }
        return Err(ScaleError::Overflow);
    }
    if index <= min {
        if index == min {
            return Ok(Boundary::Exact(crate::float64::MIN_VALUE));
        } else if index == min - 1 {
            return Ok(Boundary::ExpHalved(index + octave));
        }
        return Err(ScaleError::Underflow);
    }
    Ok(Boundary::Exp(index))
}

/// The lower boundary of bucket `index` at a scale, or why there is none.
pub open spec fn boundary_of(index: int, scale: int) -> Result<Boundary, ScaleError> {
    if scale <= 0 {
        let e = index * pow2((-scale) as nat);
        if e < MIN_NORMAL_EXPONENT {
            Err(ScaleError::Underflow)
        } else if e > MAX_NORMAL_EXPONENT {
            Err(ScaleError::Overflow)
        } else {
            Ok(Boundary::Exact(((e + 1023) * 0x10_0000_0000_0000) as u64))
        }
    } else {
        let p = pow2(scale as nat) as int;
        let min = MIN_NORMAL_EXPONENT * p;
        let max = (MAX_NORMAL_EXPONENT + 1) * p - 1;
        if index > max {
            Err(ScaleError::Overflow)
        } else if index == max {
            Ok(Boundary::ExpDoubled((index - p) as i32))
        } else if index < min - 1 {
            Err(ScaleError::Underflow)
        } else if index == min - 1 {
            Ok(Boundary::ExpHalved((index + p) as i32))
        } else if index == min {
            Ok(Boundary::Exact(crate::float64::MIN_VALUE))
        } else {
            Ok(Boundary::Exp(index as i32))
        }
    }
}

/// At scales up to 0 a value lies above the lower boundary of its bucket, and does not exceed that
/// of the next, as far as these are normal values.
pub proof fn law_boundary_brackets(bits: u64, scale: int)
    requires
        1 <= biased(bits) <= 2046,
        !negative(bits),
        scale <= 0,
    ensures
        boundary_of(index_of(bits, scale), scale) matches Ok(Boundary::Exact(b)) ==> value(b)
            < value(bits),
        boundary_of(index_of(bits, scale) + 1, scale) matches Ok(Boundary::Exact(c)) ==> value(bits)
            <= value(c),
{
    law_index_octaves(significand(bits), biased(bits) - 1023, scale);
    lemma_parts(bits);
    if let Ok(Boundary::Exact(b)) = boundary_of(index_of(bits, scale), scale) {
        lemma_parts(b);
        law_order(b, bits);
    }
    if let Ok(Boundary::Exact(c)) = boundary_of(index_of(bits, scale) + 1, scale) {
        lemma_parts(c);
        law_order(c, bits);
    }
}

/// The base-2 logarithm of a boundary at a positive scale, in units of `1 / 2^scale`.
pub open spec fn denoted(b: Boundary, scale: int) -> int {
    match b {
        Boundary::Exact(bits) => (biased(bits) - 1023) * pow2(scale as nat),
        Boundary::Exp(n) => n as int,
        Boundary::ExpDoubled(n) => n + pow2(scale as nat),
        Boundary::ExpHalved(n) => n - pow2(scale as nat),
    }
}

/// At positive scales the lower boundary of bucket `i` is `2^(i / 2^scale)`, however it is computed,
/// and what is exponentiated has a normal value. There is none from `2^1024` up, nor more than one
/// bucket below `2^-1022`.
pub proof fn law_boundary_denotes(index: i32, scale: int)
    requires
        0 < scale <= TABLE_SCALE,
    ensures
        ({
            let p = pow2(scale as nat) as int;
            &&& boundary_of(index as int, scale) == Err::<Boundary, ScaleError>(ScaleError::Overflow)
                <==> index >= 1024 * p
            &&& boundary_of(index as int, scale) == Err::<Boundary, ScaleError>(
                ScaleError::Underflow,
            ) <==> index < -1022 * p - 1
            &&& boundary_of(index as int, scale) matches Ok(b) ==> {
                &&& denoted(b, scale) == index
                &&& b matches Boundary::Exact(bits) ==> significand(bits) == 0 && !negative(bits)
                &&& b matches Boundary::Exp(n) ==> -1022 * p <= n < 1024 * p
                &&& b matches Boundary::ExpDoubled(n) ==> -1022 * p <= n < 1024 * p
                &&& b matches Boundary::ExpHalved(n) ==> -1022 * p <= n < 1024 * p
            }
        }),
{
    lemma2_to64();
    let p = pow2(scale as nat) as int;
    assert(1 <= p <= 256) by {
        lemma_pow2_pos(scale as nat);
        if scale < 8 {
            vstd::arithmetic::power2::lemma_pow2_strictly_increases(scale as nat, 8);
        }
    }
    lemma_parts(crate::float64::MIN_VALUE);
}

/// At scales up to 0 the lower boundary of bucket `i` is `2^(i * 2^-scale)` wherever that is a
/// normal value.
pub proof fn law_boundary_powers(index: i32, scale: int)
    requires
        -10 <= scale <= 0,
    ensures
        ({
            let e = index * pow2((-scale) as nat);
            &&& boundary_of(index as int, scale) == Err::<Boundary, ScaleError>(ScaleError::Overflow)
                <==> e >= 1024
            &&& boundary_of(index as int, scale) == Err::<Boundary, ScaleError>(
                ScaleError::Underflow,
            ) <==> e < -1022
            &&& boundary_of(index as int, scale) matches Ok(b) ==> (b matches Boundary::Exact(bits)
                && significand(bits) == 0 && !negative(bits) && biased(bits) - 1023 == e)
        }),
{
    let e = index * pow2((-scale) as nat);
    if -1022 <= e <= 1023 {
        lemma_parts(((e + 1023) * 0x10_0000_0000_0000) as u64);
    }
}

impl Scale {
    /// Decides how the lower boundary of the bucket at the given index is computed.
    pub fn lower_boundary(&self, index: i32) -> (r: Result<Boundary, ScaleError>)
        requires
            self.wf(),
        ensures
            r == boundary_of(index as int, self.value()),
    {
        let scale = self.scale();
        if scale <= 0 {
            match lower_boundary_exponent(index, scale) {
                Ok(bits) => Ok(Boundary::Exact(bits)),
                Err(e) => Err(e),
            }
        } else {
            proof {
                lemma2_to64();
                lemma_pow2_pos(scale as nat);
            }
            lower_boundary_logarithm(index, scale)
        }
    }
}

} // verus!
