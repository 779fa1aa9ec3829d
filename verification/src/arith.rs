//! Floor division of signed bucket indices by powers of two.

use vstd::arithmetic::div_mod::{lemma_fundamental_div_mod, lemma_fundamental_div_mod_converse};
use vstd::arithmetic::power2::{lemma_pow2_adds, lemma_pow2_pos, pow2};
use vstd::bits::lemma_u32_shr_is_div;
use vstd::prelude::*;

verus! {

/// Uniqueness of quotient and remainder: `x == q * d + r` with `0 <= r < d`.
pub proof fn lemma_div_unique(x: int, d: int, q: int, r: int)
    requires
        d > 0,
        0 <= r < d,
        x == q * d + r,
    ensures
        x / d == q,
        x % d == r,
{
    lemma_fundamental_div_mod_converse(x, d, q, r);
}

/// Splits `x` into quotient and remainder by a positive `d`.
pub proof fn lemma_div_parts(x: int, d: int)
    requires
        d > 0,
    ensures
        x == (x / d) * d + x % d,
        0 <= x % d < d,
{
    lemma_fundamental_div_mod(x, d);
    assert(d * (x / d) == (x / d) * d) by (nonlinear_arith);
}

/// `x / d` is the only `q` with `q * d <= x < (q + 1) * d`.
pub proof fn lemma_div_bracket(x: int, d: int, q: int)
    requires
        d > 0,
    ensures
        q * d <= x < (q + 1) * d <==> x / d == q,
        (x / d) * d <= x < (x / d + 1) * d,
{
    lemma_div_parts(x, d);
    let p = x / d;
    assert((p + 1) * d == p * d + d) by (nonlinear_arith);
    assert((q + 1) * d == q * d + d) by (nonlinear_arith);
    if q * d <= x < (q + 1) * d {
        lemma_div_unique(x, d, q, x - q * d);
    }
}

/// Floor division is monotone in the dividend.
pub proof fn lemma_div_mono(x: int, y: int, d: int)
    requires
        d > 0,
        x <= y,
    ensures
        x / d <= y / d,
{
    lemma_div_bracket(x, d, x / d);
    lemma_div_bracket(y, d, y / d);
    let p = x / d;
    let q = y / d;
    assert(p <= q) by (nonlinear_arith)
        requires
            d > 0,
            p * d <= x,
            x <= y,
            y < (q + 1) * d,
    ;
}

/// Dividing twice is dividing once by the product, also for negative `x`.
pub proof fn lemma_div_twice(x: int, a: int, b: int)
    requires
        a > 0,
        b > 0,
    ensures
        a * b > 0,
        (x / a) / b == x / (a * b),
{
    let q = x / a;
    let r = x % a;
    lemma_div_parts(x, a);
    let p = q / b;
    let t = q % b;
    lemma_div_parts(q, b);
    assert(a * b > 0) by (nonlinear_arith)
        requires
            a > 0,
            b > 0,
    ;
    assert(x == p * (a * b) + (t * a + r) && 0 <= t * a + r < a * b) by (nonlinear_arith)
        requires
            a > 0,
            b > 0,
            x == q * a + r,
            0 <= r < a,
            q == p * b + t,
            0 <= t < b,
    ;
    lemma_div_unique(x, a * b, p, t * a + r);
}

/// Shifting by `j` and then by `k` is shifting by `j + k`.
pub proof fn lemma_shift_twice(x: int, j: nat, k: nat)
    ensures
        (x / pow2(j) as int) / pow2(k) as int == x / pow2(j + k) as int,
{
    lemma_pow2_pos(j);
    lemma_pow2_pos(k);
    lemma_pow2_adds(j, k);
    lemma_div_twice(x, pow2(j) as int, pow2(k) as int);
}

/// Two residues modulo `n` of numbers less than `n` apart are equal only for equal numbers.
pub proof fn lemma_mod_injective(x: int, y: int, n: int)
    requires
        n > 0,
        -n < x - y < n,
        x % n == y % n,
    ensures
        x == y,
{
    lemma_div_parts(x, n);
    lemma_div_parts(y, n);
    let p = x / n;
    let q = y / n;
    assert(p == q) by (nonlinear_arith)
        requires
            n > 0,
            -n < x - y < n,
            x - y == p * n - q * n,
    ;
}

/// Arithmetic right shift: `x / 2^k`, rounded toward negative infinity.
pub fn shr(x: i32, k: u32) -> (r: i32)
    requires
        k < 32,
    ensures
        r == x as int / pow2(k as nat) as int,
{
    proof {
        lemma_pow2_pos(k as nat);
    }
    if x >= 0 {
        let q: u32 = (x as u32) >> k;
        proof {
            lemma_u32_shr_is_div(x as u32, k);
            lemma_div_bracket(x as int, pow2(k as nat) as int, q as int);
            lemma_quotient_le(x as int, pow2(k as nat) as int);
        }
        q as i32
    } else {
        let y: u32 = (-(x + 1)) as u32;
        let q: u32 = y >> k;
        proof {
            let d = pow2(k as nat) as int;
            lemma_u32_shr_is_div(y, k);
            lemma_div_parts(y as int, d);
            lemma_quotient_le(y as int, d);
            let p = q as int;
            let m = y as int % d;
            assert(x as int == (-p - 1) * d + (d - 1 - m)) by (nonlinear_arith)
                requires
                    x as int == -(y as int) - 1,
                    y as int == p * d + m,
            ;
            lemma_div_unique(x as int, d, -p - 1, d - 1 - m);
        }
        -(q as i32) - 1
    }
}

/// A quotient of a non-negative number is at most the number itself.
pub proof fn lemma_quotient_le(x: int, d: int)
    requires
        x >= 0,
        d > 0,
    ensures
        0 <= x / d <= x,
{
    lemma_div_bracket(x, d, x / d);
    let q = x / d;
    assert(0 <= q <= x) by (nonlinear_arith)
        requires
            d > 0,
            x >= 0,
            q * d <= x < (q + 1) * d,
    ;
}

} // verus!
