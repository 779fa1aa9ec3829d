//! Mapping of values to bucket indices with exact bucket edges.
//!
//! The finest supported scale splits each octave into 256 buckets. The index at a coarser scale
//! is the fine index shifted right, so one set of edges serves every scale.

use crate::arith::{lemma_div_bracket, lemma_div_unique, shr};
use crate::edges::{beyond, edge, is_edge, lemma_pow_base};
use crate::float64::{biased, get_normal_base2, get_significand, significand};
use vstd::arithmetic::power::{
    lemma_pow1, lemma_pow_adds, lemma_pow_distributes, lemma_pow_multiplies, lemma_pow_positive,
    pow,
};
use vstd::arithmetic::power2::{
    lemma2_to64, lemma_pow2, lemma_pow2_adds, lemma_pow2_pos, lemma_pow2_strictly_increases, pow2,
};
use vstd::prelude::*;

verus! {

/// Scale of the finest supported buckets: `2^TABLE_SCALE` per octave.
pub const TABLE_SCALE: i32 = 8;

/// `b` counts the edges below the value `1 + sig / 2^52`: the value exceeds `2^((b - 1) / 256)`
/// and does not exceed `2^(b / 256)`.
pub open spec fn is_bucket(sig: int, b: int) -> bool {
    &&& 0 <= b <= 256
    &&& b > 0 ==> beyond(sig, b - 1)
    &&& b < 256 ==> !beyond(sig, b)
}

/// The bucket of a significand inside its octave.
pub open spec fn bucket(sig: int) -> int {
    choose|b: int| is_bucket(sig, b)
}

/// Index at the finest scale of the value `(1 + sig / 2^52) * 2^exp`.
pub open spec fn fine_index(sig: int, exp: int) -> int {
    256 * exp + bucket(sig) - 1
}

/// Bucket index at any supported scale.
pub open spec fn index_at(sig: int, exp: int, scale: int) -> int {
    fine_index(sig, exp) / pow2((TABLE_SCALE - scale) as nat) as int
}

/// A significand beyond one edge is beyond all lower edges.
pub proof fn lemma_beyond_mono(sig: int, j: int, k: int)
    requires
        0 <= j <= k,
        beyond(sig, k),
    ensures
        beyond(sig, j),
{
    if j < k {
        lemma_pow2_strictly_increases((13312 + j) as nat, (13312 + k) as nat);
    }
}

/// A larger significand is beyond at least as many edges.
pub proof fn lemma_beyond_larger(sig: int, sig2: int, k: int)
    requires
        0 <= sig <= sig2,
        beyond(sig, k),
    ensures
        beyond(sig2, k),
{
    lemma_pow_base(0x10_0000_0000_0000 + sig, 0x10_0000_0000_0000 + sig2, 256);
}

/// Every significand has exactly one bucket.
pub proof fn lemma_bucket(sig: int)
    ensures
        is_bucket(sig, bucket(sig)),
        forall|b: int| is_bucket(sig, b) ==> b == bucket(sig),
{
    lemma_bucket_search(sig, 256);
    assert forall|b: int| is_bucket(sig, b) implies b == bucket(sig) by {
        lemma_bucket_unique(sig, b, bucket(sig));
        lemma_bucket_unique(sig, bucket(sig), b);
    }
}

proof fn lemma_bucket_unique(sig: int, a: int, b: int)
    requires
        is_bucket(sig, a),
        is_bucket(sig, b),
    ensures
        b <= a,
{
    if a < b {
        lemma_beyond_mono(sig, a, b - 1);
    }
}

proof fn lemma_bucket_search(sig: int, n: int)
    requires
        0 <= n <= 256,
        n < 256 ==> !beyond(sig, n),
    ensures
        exists|b: int| is_bucket(sig, b),
    decreases n,
{
    if n == 0 || beyond(sig, n - 1) {
        assert(is_bucket(sig, n));
    } else {
        lemma_bucket_search(sig, n - 1);
    }
}

/// Only an exact power of two lies in bucket 0 of its octave.
pub proof fn lemma_bucket_zero(sig: int)
    requires
        sig >= 0,
    ensures
        bucket(sig) == 0 <==> sig == 0,
        0 <= bucket(sig) <= 256,
{
    lemma_bucket(sig);
    let m: int = 0x10_0000_0000_0000;
    assert(pow(m, 256) == pow2(13312)) by {
        vstd::arithmetic::power2::lemma2_to64_rest();
        lemma_pow2(52);
        lemma_pow2(13312);
        lemma_pow_multiplies(2, 52, 256);
    }
    if sig > 0 {
        lemma_pow_base(m, m + sig, 255);
        lemma_pow_positive(m, 255);
        lemma_pow1(m);
        lemma_pow1(m + sig);
        lemma_pow_adds(m, 255, 1);
        lemma_pow_adds(m + sig, 255, 1);
        let p = pow(m, 255);
        let q = pow(m + sig, 255);
        assert(q * (m + sig) > p * m) by (nonlinear_arith)
            requires
                0 < p <= q,
                0 < m,
                0 < sig,
        ;
        assert(beyond(sig, 0));
    } else {
        assert(!beyond(sig, 0));
        if bucket(sig) > 0 {
            lemma_beyond_mono(sig, 0, bucket(sig) - 1);
        }
    }
}

/// At non-positive scales only the exponent and the power-of-two correction matter.
pub proof fn lemma_index_exponent(sig: int, exp: int, scale: int)
    requires
        sig >= 0,
        scale <= 0,
    ensures
        index_at(sig, exp, scale) == (if sig == 0 {
            exp - 1
        } else {
            exp
        }) / pow2((-scale) as nat) as int,
{
    lemma_bucket_zero(sig);
    let e = if sig == 0 {
        exp - 1
    } else {
        exp
    };
    let r = if sig == 0 {
        255int
    } else {
        bucket(sig) - 1
    };
    lemma2_to64();
    lemma_div_unique(fine_index(sig, exp), 256, e, r);
    crate::arith::lemma_shift_twice(fine_index(sig, exp), 8, (-scale) as nat);
}

/// Bounds on the fine index.
pub proof fn lemma_fine_range(sig: int, exp: int)
    requires
        0 <= sig,
        -1023 <= exp <= 1024,
    ensures
        -262145 <= fine_index(sig, exp) <= 262399,
{
    lemma_bucket_zero(sig);
}

/// A coarser index is the finer index shifted right: lowering the scale by `k` merges `2^k`
/// neighbouring buckets into one.
pub proof fn law_index_coarser(sig: int, exp: int, scale: int, k: nat)
    requires
        scale <= TABLE_SCALE,
    ensures
        index_at(sig, exp, scale - k) == index_at(sig, exp, scale) / pow2(k) as int,
{
    crate::arith::lemma_shift_twice(fine_index(sig, exp), (TABLE_SCALE - scale) as nat, k);
}

/// A power of two maps to the bucket below its exponent: `exp * 2^scale - 1`.
pub proof fn law_index_power_of_two(exp: int, scale: int)
    requires
        0 <= scale <= TABLE_SCALE,
    ensures
        index_at(0, exp, scale) == exp * pow2(scale as nat) - 1,
{
    lemma_bucket_zero(0);
    let d = pow2((TABLE_SCALE - scale) as nat) as int;
    lemma_pow2_pos((TABLE_SCALE - scale) as nat);
    lemma2_to64();
    lemma_pow2_adds(scale as nat, (TABLE_SCALE - scale) as nat);
    let p = pow2(scale as nat) as int;
    assert(256 * exp - 1 == (exp * p - 1) * d + (d - 1)) by (nonlinear_arith)
        requires
            p * d == 256,
    ;
    lemma_div_unique(256 * exp - 1, d, exp * p - 1, d - 1);
}

/// The least value above a power of two maps to the bucket that starts there: `exp * 2^scale`.
pub proof fn law_index_least(exp: int, scale: int)
    requires
        0 <= scale <= TABLE_SCALE,
    ensures
        index_at(1, exp, scale) == exp * pow2(scale as nat),
{
    lemma_bucket_zero(1);
    lemma_bucket(1);
    crate::edges::lemma_first_edge();
    if bucket(1) > 1 {
        lemma_beyond_mono(1, 1, bucket(1) - 1);
    }
    let d = pow2((TABLE_SCALE - scale) as nat) as int;
    lemma_pow2_pos((TABLE_SCALE - scale) as nat);
    lemma2_to64();
    lemma_pow2_adds(scale as nat, (TABLE_SCALE - scale) as nat);
    let p = pow2(scale as nat) as int;
    assert(256 * exp == (exp * p) * d + 0) by (nonlinear_arith)
        requires
            p * d == 256,
    ;
    lemma_div_unique(256 * exp, d, exp * p, 0);
}

/// Buckets are upper-inclusive: with `base = 2^(1 / 2^scale)`, a value of index `i` lies above
/// `base^i` and does not exceed `base^(i + 1)`. Stated for the 256th powers of the value over
/// its own power of two, where the edges are whole powers of two.
pub proof fn law_index_brackets(sig: int, exp: int, scale: int)
    requires
        0 <= sig < 0x10_0000_0000_0000,
        0 <= scale <= TABLE_SCALE,
    ensures
        ({
            let i = index_at(sig, exp, scale) - exp * pow2(scale as nat);
            let d = pow2((TABLE_SCALE - scale) as nat) as int;
            beyond(sig, d * i) && !beyond(sig, d * (i + 1))
        }),
{
    lemma_bucket(sig);
    lemma_bucket_zero(sig);
    lemma2_to64();
    let p = pow2(scale as nat) as int;
    let d = pow2((TABLE_SCALE - scale) as nat) as int;
    lemma_pow2_pos((TABLE_SCALE - scale) as nat);
    lemma_pow2_pos(scale as nat);
    lemma_pow2_adds(scale as nat, (TABLE_SCALE - scale) as nat);
    let f = fine_index(sig, exp);
    let b = bucket(sig);
    let q = f / d;
    crate::arith::lemma_div_bracket(f, d, q);
    let i = q - exp * p;
    assert(d * i <= b - 1 < d * (i + 1)) by (nonlinear_arith)
        requires
            p * d == 256,
            q * d <= f < (q + 1) * d,
            f == 256 * exp + b - 1,
            i == q - exp * p,
    ;
    assert(-1 <= i) by (nonlinear_arith)
        requires
            d >= 1,
            b - 1 < d * (i + 1),
            b >= 0,
    ;
    if i >= 0 {
        assert(d * i >= 0) by (nonlinear_arith)
            requires
                d >= 1,
                i >= 0,
        ;
        lemma_beyond_mono(sig, d * i, b - 1);
    } else {
        assert(d * i == -d && d * (i + 1) == 0) by (nonlinear_arith)
            requires
                i == -1,
        ;
        assert(b == 0);
        assert(d <= 256) by (nonlinear_arith)
            requires
                p * d == 256,
                p >= 1,
                d >= 1,
        ;
        lemma_octave_powers();
        lemma_pow2_strictly_increases((13312 - d) as nat, 13312);
    }
    if beyond(sig, d * (i + 1)) {
        lemma_beyond_mono(sig, b, d * (i + 1));
        if b == 256 {
            lemma_octave_powers();
            lemma_pow_base(0x10_0000_0000_0000 + sig, 0x20_0000_0000_0000, 256);
        }
    }
}

/// The 256th powers of 1 and 2, in units of `2^-52`.
proof fn lemma_octave_powers()
    ensures
        pow(0x10_0000_0000_0000, 256) == pow2(13312),
        pow(0x20_0000_0000_0000, 256) == pow2(13568),
{
    vstd::arithmetic::power2::lemma2_to64_rest();
    lemma_pow2(52);
    lemma_pow2(53);
    lemma_pow2(13312);
    lemma_pow2(13568);
    lemma_pow_multiplies(2, 52, 256);
    lemma_pow_multiplies(2, 53, 256);
}

/// At scales up to 0 buckets span whole octaves: with `k = -scale`, a value of index `i` lies above
/// `2^(i * 2^k)` and does not exceed `2^((i + 1) * 2^k)`.
pub proof fn law_index_octaves(sig: int, exp: int, scale: int)
    requires
        0 <= sig,
        scale <= 0,
    ensures
        ({
            let p = pow2((-scale) as nat) as int;
            let i = index_at(sig, exp, scale);
            &&& exp > i * p || (exp == i * p && sig > 0)
            &&& exp < (i + 1) * p || (exp == (i + 1) * p && sig == 0)
        }),
{
    lemma_index_exponent(sig, exp, scale);
    lemma_pow2_pos((-scale) as nat);
    crate::arith::lemma_div_bracket(
        if sig == 0 {
            exp - 1
        } else {
            exp
        },
        pow2((-scale) as nat) as int,
        index_at(sig, exp, scale),
    );
}

/// A larger value never has a smaller index.
pub proof fn law_index_monotone(sig: int, exp: int, sig2: int, exp2: int, scale: int)
    requires
        0 <= sig,
        0 <= sig2,
        exp < exp2 || (exp == exp2 && sig <= sig2),
        scale <= TABLE_SCALE,
    ensures
        index_at(sig, exp, scale) <= index_at(sig2, exp2, scale),
{
    lemma_bucket(sig);
    lemma_bucket(sig2);
    lemma_bucket_zero(sig);
    lemma_bucket_zero(sig2);
    if exp == exp2 && bucket(sig) > bucket(sig2) {
        lemma_beyond_larger(sig, sig2, bucket(sig) - 1);
        lemma_beyond_mono(sig2, bucket(sig2), bucket(sig) - 1);
    }
    lemma_pow2_pos((TABLE_SCALE - scale) as nat);
    crate::arith::lemma_div_mono(
        fine_index(sig, exp),
        fine_index(sig2, exp2),
        pow2((TABLE_SCALE - scale) as nat) as int,
    );
}

/// Finds the bucket of a significand by bisection over the edges.
pub fn find_bucket(sig: u64) -> (r: u32)
    ensures
        r == bucket(sig as int),
        r <= 256,
{
    let mut lo: u32 = 0;
    let mut hi: u32 = 256;
    while lo < hi
        invariant
            0 <= lo <= hi <= 256,
            lo > 0 ==> beyond(sig as int, lo - 1),
            hi < 256 ==> !beyond(sig as int, hi as int),
        decreases hi - lo,
    {
        let mid: u32 = (lo + hi) / 2;
        let e: u64 = edge(mid);
        proof {
            reveal(is_edge);
            assert(beyond(sig as int, mid as int) <==> sig >= e);
        }
        if sig >= e {
            lo = mid + 1;
        } else {
            hi = mid;
        }
    }
    proof {
        lemma_bucket(sig as int);
        assert(is_bucket(sig as int, lo as int));
    }
    lo
}

/// Maps a decomposed value to its index at a scale in `-10..=TABLE_SCALE`.
pub fn map_decomposed(sig: u64, exp: i32, scale: i32) -> (r: i32)
    requires
        -1023 <= exp <= 1024,
        -10 <= scale <= TABLE_SCALE,
    ensures
        r == index_at(sig as int, exp as int, scale as int),
{
    let b: i32 = find_bucket(sig) as i32;
    shr(256 * exp + b - 1, (TABLE_SCALE - scale) as u32)
}

/// Index tables for a linear first guess at the bucket, refined by edge comparisons.
///
/// The significand range is cut into `2^(8 + extra_bits)` equal parts, and entry `i` holds the
/// bucket of the lower end of part `i`.
#[derive(Debug)]
pub struct ScaleTables {
    /// Bucket of the lower end of each part.
    pub index: Vec<u16>,
    /// Number of significand bits below the part number.
    pub shift: u32,
}

impl ScaleTables {
    /// The tables are those built by [`ScaleTables::new`] for `extra_bits`.
    pub open spec fn wf(self, extra_bits: int) -> bool {
        &&& 0 <= extra_bits <= 1
        &&& self.shift == 44 - extra_bits
        &&& self.index@.len() == 256 * pow2(extra_bits as nat)
        &&& forall|i: int|
            0 <= i < self.index@.len() ==> #[trigger] self.index@[i] == bucket(
                i * pow2(self.shift as nat),
            )
    }

    /// Builds the index table: 256 parts, or 512 with one extra bit.
    pub fn new(extra_bits: u32) -> (r: Self)
        requires
            extra_bits <= 1,
        ensures
            r.wf(extra_bits as int),
    {
        proof {
            lemma2_to64();
            vstd::arithmetic::power2::lemma2_to64_rest();
        }
        let parts: u64 = if extra_bits == 0 {
            256
        } else {
            512
        };
        let step: u64 = if extra_bits == 0 {
            0x1000_0000_0000
        } else {
            0x800_0000_0000
        };
        let mut index: Vec<u16> = Vec::new();
        let mut i: u64 = 0;
        while i < parts
            invariant
                i <= parts <= 512,
                step <= 0x1000_0000_0000,
                index@.len() == i,
                forall|j: int| 0 <= j < i ==> #[trigger] index@[j] == bucket(j * step),
            decreases parts - i,
        {
            assert(i * step <= 512 * 0x1000_0000_0000) by (nonlinear_arith)
                requires
                    i <= 512,
                    step <= 0x1000_0000_0000,
            ;
            let b = find_bucket(i * step);
            index.push(b as u16);
            i = i + 1;
        }
        ScaleTables { index, shift: 44 - extra_bits }
    }
}

/// The edge above bucket `b`, or a bound above every significand past the last edge.
fn boundary(b: u32) -> (r: u64)
    requires
        1 <= b,
    ensures
        b <= 256 ==> is_edge(r as int, b - 1),
        b > 256 ==> r == u64::MAX,
{
    if b <= 256 {
        edge(b - 1)
    } else {
        u64::MAX
    }
}

/// Inside a part of the table the value at most doubles or quadruples its 256th power.
proof fn lemma_part_growth(sig: int, sig2: int, extra_bits: int)
    requires
        0 <= extra_bits <= 1,
        0 <= sig <= sig2,
        sig2 - sig < if extra_bits == 0 {
            0x1000_0000_0000int
        } else {
            0x800_0000_0000int
        },
    ensures
        bucket(sig) <= bucket(sig2) <= bucket(sig) + (2 - extra_bits),
{
    let m: int = 0x10_0000_0000_0000;
    let v = m + sig;
    let w = m + sig2;
    let n: int = if extra_bits == 0 {
        256
    } else {
        512
    };
    lemma_bucket(sig);
    lemma_bucket(sig2);
    lemma_bucket_zero(sig);
    lemma_bucket_zero(sig2);
    if bucket(sig) > bucket(sig2) {
        lemma_beyond_larger(sig, sig2, bucket(sig) - 1);
        lemma_beyond_mono(sig2, bucket(sig2), bucket(sig) - 1);
    }
    // w * n <= v * (n + 1), so (w * n)^256 <= v^256 * (n + 1)^256.
    assert(w * n <= v * (n + 1)) by (nonlinear_arith)
        requires
            n == 256 || n == 512,
            n == 256 ==> w < v + 0x1000_0000_0000,
            n == 512 ==> w < v + 0x800_0000_0000,
            v >= 0x10_0000_0000_0000,
    ;
    let e = (2 - extra_bits) as nat;
    lemma_growth_constant(n, e);
    lemma_pow_positive(n, 256);
    lemma_pow_positive(v, 256);
    lemma_pow_base(w * n, v * (n + 1), 256);
    lemma_pow_distributes(w, n, 256);
    lemma_pow_distributes(v, n + 1, 256);
    let pw = pow(w, 256);
    let pv = pow(v, 256);
    let pn = pow(n, 256);
    let pm = pow(n + 1, 256);
    let t = pow2(e) as int;
    assert(pw <= pv * t) by (nonlinear_arith)
        requires
            pw * pn <= pv * pm,
            pm <= t * pn,
            pn > 0,
            pv > 0,
    {
        assert(pv * pm <= pv * (t * pn)) by (nonlinear_arith)
            requires
                pm <= t * pn,
                pv > 0,
        ;
        assert(pv * (t * pn) == (pv * t) * pn) by (nonlinear_arith);
        assert(pw * pn <= (pv * t) * pn);
    }
    let b = bucket(sig);
    if bucket(sig2) > b + e {
        lemma_beyond_mono(sig2, b + e, bucket(sig2) - 1);
        let bound = pow2((13312 + b) as nat) as int;
        assert(pv <= bound);
        lemma_pow2_adds((13312 + b) as nat, e);
        assert(pv * t <= bound * t) by (nonlinear_arith)
            requires
                pv <= bound,
                t >= 0,
        ;
    }
}

/// `(1 + 1/512)^256 <= 2` and `(1 + 1/256)^256 <= 4`.
proof fn lemma_growth_constant(n: int, e: nat)
    requires
        (n == 512 && e == 1) || (n == 256 && e == 2),
    ensures
        pow(n + 1, 256) <= pow2(e) * pow(n, 256),
{
    lemma2_to64();
    // Repeated squaring in units of 2^20, rounded up.
    if n == 512 {
        lemma_pow1(513);
        lemma_pow1(512);
        lemma_ratio_square(513, 512, 1, 1050624, 1052676);
        lemma_ratio_square(513, 512, 2, 1052676, 1056793);
        lemma_ratio_square(513, 512, 4, 1056793, 1065075);
        lemma_ratio_square(513, 512, 8, 1065075, 1081834);
        lemma_ratio_square(513, 512, 16, 1081834, 1116147);
        lemma_ratio_square(513, 512, 32, 1116147, 1188073);
        lemma_ratio_square(513, 512, 64, 1188073, 1346128);
        lemma_ratio_square(513, 512, 128, 1346128, 1728116);
        let p = pow(513, 256);
        let q = pow(512, 256);
        lemma_pow_positive(512, 256);
        assert(p <= 2 * q) by (nonlinear_arith)
            requires
                p * 0x10_0000 <= q * 1728116,
                q > 0,
        ;
    } else {
        lemma_pow1(257);
        lemma_pow1(256);
        lemma_ratio_square(257, 256, 1, 1052672, 1056784);
        lemma_ratio_square(257, 256, 2, 1056784, 1065057);
        lemma_ratio_square(257, 256, 4, 1065057, 1081798);
        lemma_ratio_square(257, 256, 8, 1081798, 1116073);
        lemma_ratio_square(257, 256, 16, 1116073, 1187915);
        lemma_ratio_square(257, 256, 32, 1187915, 1345770);
        lemma_ratio_square(257, 256, 64, 1345770, 1727197);
        lemma_ratio_square(257, 256, 128, 1727197, 2845011);
        let p = pow(257, 256);
        let q = pow(256, 256);
        lemma_pow_positive(256, 256);
        assert(p <= 4 * q) by (nonlinear_arith)
            requires
                p * 0x10_0000 <= q * 2845011,
                q > 0,
        ;
    }
}

/// One squaring step of a bound on a ratio of powers.
proof fn lemma_ratio_square(a: int, b: int, n: nat, r: int, s: int)
    requires
        0 < a,
        0 < b,
        0 < r,
        pow(a, n) * 0x10_0000 <= pow(b, n) * r,
        r * r <= s * 0x10_0000,
    ensures
        pow(a, 2 * n) * 0x10_0000 <= pow(b, 2 * n) * s,
{
    lemma_pow_adds(a, n, n);
    lemma_pow_adds(b, n, n);
    lemma_pow_positive(a, n);
    lemma_pow_positive(b, n);
    let p = pow(a, n);
    let q = pow(b, n);
    let u: int = 0x10_0000;
    assert((p * u) * (p * u) <= (q * r) * (q * r)) by (nonlinear_arith)
        requires
            p * u <= q * r,
            p * u >= 0,
    ;
    assert((p * u) * (p * u) == ((p * p) * u) * u) by (nonlinear_arith);
    assert((q * r) * (q * r) == (q * q) * (r * r)) by (nonlinear_arith);
    assert((q * q) * (r * r) <= (q * q) * (s * u)) by (nonlinear_arith)
        requires
            q > 0,
            r * r <= s * u,
    ;
    assert((q * q) * (s * u) == ((q * q) * s) * u) by (nonlinear_arith);
}

/// Maps a normal value to a bucket index at a positive scale, using an index table.
///
/// A table without extra bits takes two edge comparisons, one with an extra bit takes one.
pub fn table_map_to_index(bits: u64, scale: i32, tables: &ScaleTables, corrections: u32) -> (r: i32)
    requires
        0 < scale <= TABLE_SCALE,
        1 <= corrections <= 2,
        tables.wf(2 - corrections),
    ensures
        r == index_at(significand(bits), biased(bits) - 1023, scale as int),
{
    let sig = get_significand(bits);
    let exponent = get_normal_base2(bits);
    let ghost extra = 2 - corrections;
    let shift = tables.shift;
    let linear: usize = (sig >> shift) as usize;
    proof {
        vstd::bits::lemma_u64_shr_is_div(sig, shift as u64);
        lemma2_to64();
        vstd::arithmetic::power2::lemma2_to64_rest();
        assert(sig >> shift == sig >> (shift as u64));
        if shift == 44 {
            assert(pow2(shift as nat) == 0x1000_0000_0000);
            assert(tables.index@.len() == 256 * pow2(0));
            assert(sig as int / 0x1000_0000_0000 < 256);
        } else {
            assert(pow2(shift as nat) == 0x800_0000_0000);
            assert(tables.index@.len() == 256 * pow2(1));
            assert(sig as int / 0x800_0000_0000 < 512);
        }
        assert(sig >> shift < tables.index@.len());
        let d = pow2(shift as nat) as int;
        lemma_div_bracket(sig as int, d, linear as int);
        assert((linear + 1) * d == linear * d + d) by (nonlinear_arith);
        assert(0 <= linear * d) by (nonlinear_arith)
            requires
                linear >= 0,
                d > 0,
        ;
        lemma_part_growth(linear * d, sig as int, extra);
        lemma_bucket(sig as int);
        lemma_bucket_zero(sig as int);
    }
    let approx: u32 = tables.index[linear] as u32;
    let mut b: i32 = approx as i32;
    let mut c: u32 = 1;
    while c <= corrections
        invariant
            1 <= c <= corrections + 1,
            corrections <= 2,
            approx <= 256,
            sig < 0x10_0000_0000_0000,
            is_bucket(sig as int, bucket(sig as int)),
            approx <= bucket(sig as int) <= approx + corrections,
            b == if bucket(sig as int) < approx + c - 1 {
                bucket(sig as int)
            } else {
                approx + c - 1
            },
        decreases corrections + 1 - c,
    {
        let e: u64 = boundary(approx + c);
        proof {
            reveal(is_edge);
            let k = approx + c - 1;
            if k < 256 {
                assert(beyond(sig as int, k as int) <==> sig >= e);
                if bucket(sig as int) > k {
                    lemma_beyond_mono(sig as int, k as int, bucket(sig as int) - 1);
                } else if beyond(sig as int, k as int) {
                    lemma_beyond_mono(sig as int, bucket(sig as int), k as int);
                }
            }
        }
        if sig >= e {
            b = b + 1;
        }
        c = c + 1;
    }
    shr(256 * exponent + b - 1, (TABLE_SCALE - scale) as u32)
}

} // verus!
