//! Exponent-based mapping for non-positive scales.
//!
//! At these scales the bucket edges are exact powers of two, and the index is the exponent of
//! the value shifted right.

use crate::arith::shr;
use crate::float64::MIN_NORMAL_EXPONENT;
use crate::lookup::{index_at, lemma_index_exponent};
use vstd::arithmetic::power2::pow2;
use vstd::prelude::*;

verus! {

/// Maps a decomposed value to a bucket index at a non-positive scale.
pub fn map_decomposed(significand: u64, base2_exp: i32, scale: i32) -> (r: i32)
    requires
        -10 <= scale <= 0,
        -1023 <= base2_exp <= 1024,
    ensures
        r == (if significand == 0 {
            base2_exp - 1
        } else {
            base2_exp as int
        }) / pow2((-scale) as nat) as int,
        r == index_at(significand as int, base2_exp as int, scale as int),
{
    // Upper-inclusive buckets: an exact power of two belongs one bucket lower.
    let correction: i32 = if significand == 0 {
        -1
    } else {
        0
    };
    proof {
        lemma_index_exponent(significand as int, base2_exp as int, scale as int);
    }
    shr(base2_exp + correction, (-scale) as u32)
}

/// Least index at a non-positive scale whose lower boundary is a normal value.
pub fn min_normal_lower_boundary_index(scale: i32) -> (r: i32)
    requires
        -10 <= scale <= 0,
    ensures
        forall|i: int|
            i >= r <==> #[trigger] (i * pow2((-scale) as nat)) >= MIN_NORMAL_EXPONENT,
{
    let q = shr(MIN_NORMAL_EXPONENT - 1, (-scale) as u32);
    proof {
        let d = pow2((-scale) as nat) as int;
        vstd::arithmetic::power2::lemma_pow2_pos((-scale) as nat);
        crate::arith::lemma_div_bracket(-1023, d, q as int);
        crate::arith::lemma_div_mono(-1023, -1, d);
        crate::arith::lemma_div_unique(-1, d, -1, d - 1);
        assert(q >= -1023) by (nonlinear_arith)
            requires
                (q + 1) * d > -1023,
                d >= 1,
        ;
        assert forall|i: int| i >= q + 1 <==> #[trigger] (i * d) >= -1022 by {
            if i >= q + 1 {
                assert(i * d >= (q + 1) * d) by (nonlinear_arith)
                    requires
                        i >= q + 1,
                        d > 0,
                ;
            } else {
                assert(i * d <= q * d) by (nonlinear_arith)
                    requires
                        i <= q,
                        d > 0,
                ;
            }
        }
    }
    q + 1
}

} // verus!
