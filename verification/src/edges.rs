//! Bucket edges inside one octave, as exact integers.
//!
//! An octave is split into 256 buckets whose edges are the powers `2^(k / 256)`. A value in the
//! octave is `1 + s / 2^52` with an integer significand `s`, so each edge is given by the least
//! significand above it. Whether a significand lies above an edge is a comparison of two
//! integers, `(2^52 + s)^256` and `2^(52 * 256 + k)`, and every edge below comes with bounds on
//! its sixteenth power that settle that comparison.

use vstd::arithmetic::power::{
    lemma_pow1, lemma_pow_adds, lemma_pow_distributes, lemma_pow_multiplies, lemma_pow_positive,
    pow,
};
use vstd::arithmetic::power2::{lemma2_to64, lemma_pow2, lemma_pow2_adds, pow2};
use vstd::prelude::*;

verus! {

/// The value `1 + sig / 2^52` exceeds `2^(k / 256)`.
pub open spec fn beyond(sig: int, k: int) -> bool {
    pow(0x10_0000_0000_0000 + sig, 256) > pow2((13312 + k) as nat)
}

/// `edge` is the least significand beyond `2^(k / 256)`.
#[verifier::opaque]
pub open spec fn is_edge(edge: int, k: int) -> bool {
    forall|sig: int| sig >= 0 ==> (#[trigger] beyond(sig, k) <==> sig >= edge)
}

/// A power is monotone in its base.
pub proof fn lemma_pow_base(a: int, b: int, n: nat)
    requires
        0 <= a <= b,
    ensures
        0 <= pow(a, n) <= pow(b, n),
    decreases n,
{
    reveal(pow);
    if n > 0 {
        lemma_pow_base(a, b, (n - 1) as nat);
        let p = pow(a, (n - 1) as nat);
        let q = pow(b, (n - 1) as nat);
        assert(0 <= a * p <= b * q) by (nonlinear_arith)
            requires
                0 <= a <= b,
                0 <= p <= q,
        ;
    }
}

#[verifier::inline]
spec fn sq(a: int) -> int {
    a * a
}

/// A sixteenth power is four squarings.
proof fn lemma_pow16(a: int)
    ensures
        pow(a, 16) == sq(sq(sq(sq(a)))),
{
    lemma_pow1(a);
    lemma_pow_adds(a, 1, 1);
    lemma_pow_adds(a, 2, 2);
    lemma_pow_adds(a, 4, 4);
    lemma_pow_adds(a, 8, 8);
}

/// `2^753`.
#[verifier::inline]
spec fn two753() -> int {
    0x2_0000_0000_0000_0000_0000_0000_0000_0000_0000_0000_0000_0000_0000_0000_0000_0000_0000_0000_0000_0000_0000_0000_0000_0000_0000_0000_0000_0000_0000_0000_0000_0000_0000_0000_0000_0000_0000_0000_0000_0000_0000_0000_0000_0000_0000_0000_0000int
}

/// `2^1264`.
#[verifier::inline]
spec fn two1264() -> int {
    0x1_0000_0000_0000_0000_0000_0000_0000_0000_0000_0000_0000_0000_0000_0000_0000_0000_0000_0000_0000_0000_0000_0000_0000_0000_0000_0000_0000_0000_0000_0000_0000_0000_0000_0000_0000_0000_0000_0000_0000_0000_0000_0000_0000_0000_0000_0000_0000_0000_0000_0000_0000_0000_0000_0000_0000_0000_0000_0000_0000_0000_0000_0000_0000_0000_0000_0000_0000_0000_0000_0000_0000_0000_0000_0000_0000_0000_0000_0000_0000int
}

proof fn lemma_large_powers()
    ensures
        pow2(753) == two753(),
        pow2(1264) == two1264(),
{
    lemma2_to64();
    lemma_pow2_adds(64, 64);
    assert(0x1_0000_0000_0000_0000int * 0x1_0000_0000_0000_0000int == 0x1_0000_0000_0000_0000_0000_0000_0000_0000int);
    lemma_pow2_adds(128, 128);
    assert(0x1_0000_0000_0000_0000_0000_0000_0000_0000int * 0x1_0000_0000_0000_0000_0000_0000_0000_0000int == 0x1_0000_0000_0000_0000_0000_0000_0000_0000_0000_0000_0000_0000_0000_0000_0000_0000int);
    lemma_pow2_adds(256, 256);
    assert(0x1_0000_0000_0000_0000_0000_0000_0000_0000_0000_0000_0000_0000_0000_0000_0000_0000int * 0x1_0000_0000_0000_0000_0000_0000_0000_0000_0000_0000_0000_0000_0000_0000_0000_0000int == 0x1_0000_0000_0000_0000_0000_0000_0000_0000_0000_0000_0000_0000_0000_0000_0000_0000_0000_0000_0000_0000_0000_0000_0000_0000_0000_0000_0000_0000_0000_0000_0000_0000int);
    lemma_pow2_adds(512, 128);
    assert(0x1_0000_0000_0000_0000_0000_0000_0000_0000_0000_0000_0000_0000_0000_0000_0000_0000_0000_0000_0000_0000_0000_0000_0000_0000_0000_0000_0000_0000_0000_0000_0000_0000int * 0x1_0000_0000_0000_0000_0000_0000_0000_0000int == 0x1_0000_0000_0000_0000_0000_0000_0000_0000_0000_0000_0000_0000_0000_0000_0000_0000_0000_0000_0000_0000_0000_0000_0000_0000_0000_0000_0000_0000_0000_0000_0000_0000_0000_0000_0000_0000_0000_0000_0000_0000int);
    lemma_pow2_adds(640, 64);
    assert(0x1_0000_0000_0000_0000_0000_0000_0000_0000_0000_0000_0000_0000_0000_0000_0000_0000_0000_0000_0000_0000_0000_0000_0000_0000_0000_0000_0000_0000_0000_0000_0000_0000_0000_0000_0000_0000_0000_0000_0000_0000int * 0x1_0000_0000_0000_0000int == 0x1_0000_0000_0000_0000_0000_0000_0000_0000_0000_0000_0000_0000_0000_0000_0000_0000_0000_0000_0000_0000_0000_0000_0000_0000_0000_0000_0000_0000_0000_0000_0000_0000_0000_0000_0000_0000_0000_0000_0000_0000_0000_0000_0000_0000int);
    lemma_pow2_adds(704, 32);
    assert(0x1_0000_0000_0000_0000_0000_0000_0000_0000_0000_0000_0000_0000_0000_0000_0000_0000_0000_0000_0000_0000_0000_0000_0000_0000_0000_0000_0000_0000_0000_0000_0000_0000_0000_0000_0000_0000_0000_0000_0000_0000_0000_0000_0000_0000int * 0x1_0000_0000int == 0x1_0000_0000_0000_0000_0000_0000_0000_0000_0000_0000_0000_0000_0000_0000_0000_0000_0000_0000_0000_0000_0000_0000_0000_0000_0000_0000_0000_0000_0000_0000_0000_0000_0000_0000_0000_0000_0000_0000_0000_0000_0000_0000_0000_0000_0000_0000int);
    lemma_pow2_adds(736, 16);
    assert(0x1_0000_0000_0000_0000_0000_0000_0000_0000_0000_0000_0000_0000_0000_0000_0000_0000_0000_0000_0000_0000_0000_0000_0000_0000_0000_0000_0000_0000_0000_0000_0000_0000_0000_0000_0000_0000_0000_0000_0000_0000_0000_0000_0000_0000_0000_0000int * 0x1_0000int == 0x1_0000_0000_0000_0000_0000_0000_0000_0000_0000_0000_0000_0000_0000_0000_0000_0000_0000_0000_0000_0000_0000_0000_0000_0000_0000_0000_0000_0000_0000_0000_0000_0000_0000_0000_0000_0000_0000_0000_0000_0000_0000_0000_0000_0000_0000_0000_0000int);
    lemma_pow2_adds(752, 1);
    assert(0x1_0000_0000_0000_0000_0000_0000_0000_0000_0000_0000_0000_0000_0000_0000_0000_0000_0000_0000_0000_0000_0000_0000_0000_0000_0000_0000_0000_0000_0000_0000_0000_0000_0000_0000_0000_0000_0000_0000_0000_0000_0000_0000_0000_0000_0000_0000_0000int * 0x2int == 0x2_0000_0000_0000_0000_0000_0000_0000_0000_0000_0000_0000_0000_0000_0000_0000_0000_0000_0000_0000_0000_0000_0000_0000_0000_0000_0000_0000_0000_0000_0000_0000_0000_0000_0000_0000_0000_0000_0000_0000_0000_0000_0000_0000_0000_0000_0000_0000int);
    lemma_pow2_adds(512, 512);
    assert(0x1_0000_0000_0000_0000_0000_0000_0000_0000_0000_0000_0000_0000_0000_0000_0000_0000_0000_0000_0000_0000_0000_0000_0000_0000_0000_0000_0000_0000_0000_0000_0000_0000int * 0x1_0000_0000_0000_0000_0000_0000_0000_0000_0000_0000_0000_0000_0000_0000_0000_0000_0000_0000_0000_0000_0000_0000_0000_0000_0000_0000_0000_0000_0000_0000_0000_0000int == 0x1_0000_0000_0000_0000_0000_0000_0000_0000_0000_0000_0000_0000_0000_0000_0000_0000_0000_0000_0000_0000_0000_0000_0000_0000_0000_0000_0000_0000_0000_0000_0000_0000_0000_0000_0000_0000_0000_0000_0000_0000_0000_0000_0000_0000_0000_0000_0000_0000_0000_0000_0000_0000_0000_0000_0000_0000_0000_0000_0000_0000_0000_0000_0000_0000int);
    lemma_pow2_adds(1024, 128);
    assert(0x1_0000_0000_0000_0000_0000_0000_0000_0000_0000_0000_0000_0000_0000_0000_0000_0000_0000_0000_0000_0000_0000_0000_0000_0000_0000_0000_0000_0000_0000_0000_0000_0000_0000_0000_0000_0000_0000_0000_0000_0000_0000_0000_0000_0000_0000_0000_0000_0000_0000_0000_0000_0000_0000_0000_0000_0000_0000_0000_0000_0000_0000_0000_0000_0000int * 0x1_0000_0000_0000_0000_0000_0000_0000_0000int == 0x1_0000_0000_0000_0000_0000_0000_0000_0000_0000_0000_0000_0000_0000_0000_0000_0000_0000_0000_0000_0000_0000_0000_0000_0000_0000_0000_0000_0000_0000_0000_0000_0000_0000_0000_0000_0000_0000_0000_0000_0000_0000_0000_0000_0000_0000_0000_0000_0000_0000_0000_0000_0000_0000_0000_0000_0000_0000_0000_0000_0000_0000_0000_0000_0000_0000_0000_0000_0000_0000_0000_0000_0000int);
    lemma_pow2_adds(1152, 64);
    assert(0x1_0000_0000_0000_0000_0000_0000_0000_0000_0000_0000_0000_0000_0000_0000_0000_0000_0000_0000_0000_0000_0000_0000_0000_0000_0000_0000_0000_0000_0000_0000_0000_0000_0000_0000_0000_0000_0000_0000_0000_0000_0000_0000_0000_0000_0000_0000_0000_0000_0000_0000_0000_0000_0000_0000_0000_0000_0000_0000_0000_0000_0000_0000_0000_0000_0000_0000_0000_0000_0000_0000_0000_0000int * 0x1_0000_0000_0000_0000int == 0x1_0000_0000_0000_0000_0000_0000_0000_0000_0000_0000_0000_0000_0000_0000_0000_0000_0000_0000_0000_0000_0000_0000_0000_0000_0000_0000_0000_0000_0000_0000_0000_0000_0000_0000_0000_0000_0000_0000_0000_0000_0000_0000_0000_0000_0000_0000_0000_0000_0000_0000_0000_0000_0000_0000_0000_0000_0000_0000_0000_0000_0000_0000_0000_0000_0000_0000_0000_0000_0000_0000_0000_0000_0000_0000_0000_0000int);
    lemma_pow2_adds(1216, 32);
    assert(0x1_0000_0000_0000_0000_0000_0000_0000_0000_0000_0000_0000_0000_0000_0000_0000_0000_0000_0000_0000_0000_0000_0000_0000_0000_0000_0000_0000_0000_0000_0000_0000_0000_0000_0000_0000_0000_0000_0000_0000_0000_0000_0000_0000_0000_0000_0000_0000_0000_0000_0000_0000_0000_0000_0000_0000_0000_0000_0000_0000_0000_0000_0000_0000_0000_0000_0000_0000_0000_0000_0000_0000_0000_0000_0000_0000_0000int * 0x1_0000_0000int == 0x1_0000_0000_0000_0000_0000_0000_0000_0000_0000_0000_0000_0000_0000_0000_0000_0000_0000_0000_0000_0000_0000_0000_0000_0000_0000_0000_0000_0000_0000_0000_0000_0000_0000_0000_0000_0000_0000_0000_0000_0000_0000_0000_0000_0000_0000_0000_0000_0000_0000_0000_0000_0000_0000_0000_0000_0000_0000_0000_0000_0000_0000_0000_0000_0000_0000_0000_0000_0000_0000_0000_0000_0000_0000_0000_0000_0000_0000_0000int);
    lemma_pow2_adds(1248, 16);
    assert(0x1_0000_0000_0000_0000_0000_0000_0000_0000_0000_0000_0000_0000_0000_0000_0000_0000_0000_0000_0000_0000_0000_0000_0000_0000_0000_0000_0000_0000_0000_0000_0000_0000_0000_0000_0000_0000_0000_0000_0000_0000_0000_0000_0000_0000_0000_0000_0000_0000_0000_0000_0000_0000_0000_0000_0000_0000_0000_0000_0000_0000_0000_0000_0000_0000_0000_0000_0000_0000_0000_0000_0000_0000_0000_0000_0000_0000_0000_0000int * 0x1_0000int == 0x1_0000_0000_0000_0000_0000_0000_0000_0000_0000_0000_0000_0000_0000_0000_0000_0000_0000_0000_0000_0000_0000_0000_0000_0000_0000_0000_0000_0000_0000_0000_0000_0000_0000_0000_0000_0000_0000_0000_0000_0000_0000_0000_0000_0000_0000_0000_0000_0000_0000_0000_0000_0000_0000_0000_0000_0000_0000_0000_0000_0000_0000_0000_0000_0000_0000_0000_0000_0000_0000_0000_0000_0000_0000_0000_0000_0000_0000_0000_0000int);
}

/// `2^n` for `n < 16`.
spec fn small(n: int) -> int {
    if n == 0 {
        0x1
    } else if n == 1 {
        0x2
    } else if n == 2 {
        0x4
    } else if n == 3 {
        0x8
    } else if n == 4 {
        0x10
    } else if n == 5 {
        0x20
    } else if n == 6 {
        0x40
    } else if n == 7 {
        0x80
    } else if n == 8 {
        0x100
    } else if n == 9 {
        0x200
    } else if n == 10 {
        0x400
    } else if n == 11 {
        0x800
    } else if n == 12 {
        0x1000
    } else if n == 13 {
        0x2000
    } else if n == 14 {
        0x4000
    } else {
        0x8000
    }
}

/// `2^e` raised to the sixteenth power.
proof fn lemma_pow2_16(e: nat)
    ensures
        pow(pow2(e) as int, 16) == pow2(16 * e),
{
    lemma_pow2(e);
    lemma_pow2(16 * e);
    lemma_pow_multiplies(2, e, 16);
    assert(e * 16 == 16 * e);
}

/// A product of powers of two, scaled by the sixteenth power of another.
proof fn lemma_edge_bound(h: nat, l: nat)
    requires
        h < 16,
        l < 16,
    ensures
        (pow2(l) * pow2(1264)) * pow((pow2(h) * pow2(753)) as int, 16) == pow2(13312 + 16 * h + l),
{
    lemma_pow2_adds(l, 1264);
    lemma_pow2_adds(h, 753);
    lemma_pow2_16(h + 753);
    lemma_pow2_adds(l + 1264, 16 * (h + 753));
}

/// `b` is the greatest integer whose 256th power is at most `2^(13312 + 16 h + l)`: `up` and
/// `down` bound the sixteenth powers of `b` and `b + 1`, and are themselves raised to the
/// sixteenth power.
proof fn lemma_edge(b: int, h: int, hi: int, l: int, lo: int, up: int, down: int)
    requires
        0 < b,
        0 < up,
        0 < down,
        0 <= h < 16,
        0 <= l < 16,
        hi == small(h),
        lo == small(l),
        sq(sq(sq(sq(b)))) <= up * (hi * two753()),
        sq(sq(sq(sq(up)))) <= lo * two1264(),
        sq(sq(sq(sq(b + 1)))) >= down * (hi * two753()),
        sq(sq(sq(sq(down)))) > lo * two1264(),
    ensures
        is_edge(b - 0x10_0000_0000_0000 + 1, 16 * h + l),
{
    reveal(is_edge);
    lemma2_to64();
    lemma_large_powers();
    assert(hi == pow2(h as nat) && lo == pow2(l as nat));
    lemma_edge_bound(h as nat, l as nat);
    lemma_pow16(b);
    lemma_pow16(b + 1);
    lemma_pow16(up);
    lemma_pow16(down);
    let d = hi * pow2(753);
    let e = lo * pow2(1264);
    let bound = pow2((13312 + 16 * h + l) as nat) as int;
    assert(pow((pow2(h as nat) * pow2(753)) as int, 16) == pow(d, 16));
    assert(d > 0) by (nonlinear_arith)
        requires
            d == hi * pow2(753),
            hi > 0,
            pow2(753) > 0,
    ;
    lemma_pow_positive(d, 16);
    lemma_pow_positive(up, 16);
    lemma_pow_positive(down, 16);
    // The 256th power of `b`.
    lemma_pow_multiplies(b, 16, 16);
    lemma_pow_base(b, b, 16);
    lemma_pow_base(pow(b, 16), up * d, 16);
    lemma_pow_distributes(up, d, 16);
    assert(pow(up, 16) * pow(d, 16) <= e * pow(d, 16)) by (nonlinear_arith)
        requires
            pow(up, 16) <= e,
            pow(d, 16) > 0,
    ;
    assert(pow(b, 256) <= bound);
    // The 256th power of `b + 1`.
    lemma_pow_multiplies(b + 1, 16, 16);
    assert(down * d > 0) by (nonlinear_arith)
        requires
            down > 0,
            d > 0,
    ;
    lemma_pow_base(down * d, pow(b + 1, 16), 16);
    lemma_pow_distributes(down, d, 16);
    assert(pow(down, 16) * pow(d, 16) > e * pow(d, 16)) by (nonlinear_arith)
        requires
            pow(down, 16) > e,
            pow(d, 16) > 0,
    ;
    assert(pow(b + 1, 256) > bound);
    let edge = b - 0x10_0000_0000_0000 + 1;
    assert forall|sig: int| sig >= 0 implies (#[trigger] beyond(sig, 16 * h + l) <==> sig >= edge) by {
        if sig >= edge {
            lemma_pow_base(b + 1, 0x10_0000_0000_0000 + sig, 256);
        } else {
            lemma_pow_base(0x10_0000_0000_0000 + sig, b, 256);
        }
    }
}

/// Edges 0 to 15.
proof fn lemma_edges_0()
    by (nonlinear_arith)
    ensures
        is_edge(0x1, 0),
        is_edge(0xb1a_fa5a_bcbf, 1),
        is_edge(0x163d_a9fb_3336, 2),
        is_edge(0x2168_143b_0281, 3),
        is_edge(0x2c9a_3e77_8061, 4),
        is_edge(0x37d4_2e11_bbcd, 5),
        is_edge(0x4315_e86e_7f85, 6),
        is_edge(0x4e5f_72f6_54b2, 7),
        is_edge(0x59b0_d315_8575, 8),
        is_edge(0x650a_0e3c_1f89, 9),
        is_edge(0x706b_29dd_f6de, 10),
        is_edge(0x7bd4_2b72_a837, 11),
        is_edge(0x8745_1875_9bc9, 12),
        is_edge(0x92bd_f666_07e0, 13),
        is_edge(0x9e3e_cac6_f384, 14),
        is_edge(0xa9c7_9b1f_391a, 15),
{
    lemma_edge(0x10_0000_0000_0000, 0, 0x1, 0, 0x1, 0x8000_0000_0000_0000_0000, 0x8000_0000_0000_8000_0000);
    lemma_edge(0x10_0b1a_fa5a_bcbe, 0, 0x1, 1, 0x2, 0x85aa_c367_cc48_0b9b_aedf, 0x85aa_c367_cc48_90e9_ebb7);
    lemma_edge(0x10_163d_a9fb_3335, 0, 0x1, 2, 0x4, 0x8b95_c1e3_ea8b_9b82_7383, 0x8b95_c1e3_ea8c_2657_39c7);
    lemma_edge(0x10_2168_143b_0280, 0, 0x1, 3, 0x8, 0x91c3_d373_ab11_47cd_2b52, 0x91c3_d373_ab11_d863_1cfc);
    lemma_edge(0x10_2c9a_3e77_8060, 0, 0x1, 4, 0x10, 0x9837_f051_8db8_1d2f_f10f, 0x9837_f051_8db8_b3c4_1e46);
    lemma_edge(0x10_37d4_2e11_bbcc, 0, 0x1, 5, 0x20, 0x9ef5_3260_91a1_0b1f_2362, 0x9ef5_3260_91a1_a7f1_243d);
    lemma_edge(0x10_4315_e86e_7f84, 0, 0x1, 6, 0x40, 0xa5fe_d6a9_b150_c00c_cde3, 0xa5fe_d6a9_b151_635e_dd4b);
    lemma_edge(0x10_4e5f_72f6_54b1, 0, 0x1, 7, 0x80, 0xad58_3eea_42a1_2f2e_ed89, 0xad58_3eea_42a1_d946_0530);
    lemma_edge(0x10_59b0_d315_8574, 0, 0x1, 8, 0x100, 0xb504_f333_f9de_3bc1_d3e9, 0xb504_f333_f9de_ece5_c96a);
    lemma_edge(0x10_650a_0e3c_1f88, 0, 0x1, 9, 0x200, 0xbd08_a39f_580b_bd16_228c, 0xbd08_a39f_580c_7591_c5c3);
    lemma_edge(0x10_706b_29dd_f6dd, 0, 0x1, 10, 0x400, 0xc567_2a11_5506_459e_3e0f, 0xc567_2a11_5507_05bf_78b0);
    lemma_edge(0x10_7bd4_2b72_a836, 0, 0x1, 11, 0x800, 0xce24_8c15_1f84_62f9_4b44, 0xce24_8c15_1f85_2b11_41c4);
    lemma_edge(0x10_8745_1875_9bc8, 0, 0x1, 12, 0x1000, 0xd744_fcca_d69d_63d2_1704, 0xd744_fcca_d69e_3435_4ade);
    lemma_edge(0x10_92bd_f666_07df, 0, 0x1, 13, 0x2000, 0xe0cc_deec_2a94_5458_28ee, 0xe0cc_deec_2a95_2d5e_9c52);
    lemma_edge(0x10_9e3e_cac6_f383, 0, 0x1, 14, 0x4000, 0xeac0_c6e7_dd23_fc25_75dc, 0xeac0_c6e7_dd24_de2a_d0db);
    lemma_edge(0x10_a9c7_9b1f_3919, 0, 0x1, 15, 0x8000, 0xf525_7d15_2486_a40c_ff26, 0xf525_7d15_2487_8f70_b669);
}

/// The least significand of an octave does not reach its first edge.
pub proof fn lemma_first_edge()
    ensures
        !beyond(1, 1),
{
    lemma_edges_0();
    reveal(is_edge);
}

/// Edges 16 to 31.
proof fn lemma_edges_1()
    by (nonlinear_arith)
    ensures
        is_edge(0xb558_6cf9_8910, 16),
        is_edge(0xc0f1_45e4_6c86, 17),
        is_edge(0xcc92_2b72_47f8, 18),
        is_edge(0xd83b_2339_5dec, 19),
        is_edge(0xe3ec_32d3_d1a3, 20),
        is_edge(0xefa5_5fdf_a9c5, 21),
        is_edge(0xfb66_affe_d31b, 22),
        is_edge(0x1_0730_28d7_233f, 23),
        is_edge(0x1_1301_d012_5b51, 24),
        is_edge(0x1_1edb_ab5e_2ab6, 25),
        is_edge(0x1_2abd_c06c_31cc, 26),
        is_edge(0x1_36a8_14f2_04ab, 27),
        is_edge(0x1_429a_aea9_2de0, 28),
        is_edge(0x1_4e95_934f_312e, 29),
        is_edge(0x1_5a98_c8a5_8e52, 30),
        is_edge(0x1_66a4_5471_c3c3, 31),
{
    lemma_edge(0x10_b558_6cf9_890f, 1, 0x2, 0, 0x1, 0x7fff_ffff_ffff_d0ca_b345, 0x8000_0000_0000_4b5d_71cf);
    lemma_edge(0x10_c0f1_45e4_6c85, 1, 0x2, 1, 0x2, 0x85aa_c367_cc48_513e_bd6c, 0x85aa_c367_cc48_d0e6_2318);
    lemma_edge(0x10_cc92_2b72_47f7, 1, 0x2, 2, 0x4, 0x8b95_c1e3_ea8b_b56a_63b5, 0x8b95_c1e3_ea8c_3a5c_5a0a);
    lemma_edge(0x10_d83b_2339_5deb, 1, 0x2, 3, 0x8, 0x91c3_d373_ab11_74cc_cc69, 0x91c3_d373_ab11_ff41_7902);
    lemma_edge(0x10_e3ec_32d3_d1a2, 1, 0x2, 4, 0x10, 0x9837_f051_8db8_a84a_cbea, 0x9837_f051_8db9_387c_a82c);
    lemma_edge(0x10_efa5_5fdf_a9c4, 1, 0x2, 5, 0x20, 0x9ef5_3260_91a0_abe1_81f4, 0x9ef5_3260_91a1_420d_73be);
    lemma_edge(0x10_fb66_affe_d31a, 1, 0x2, 6, 0x40, 0xa5fe_d6a9_b150_a4f3_a443, 0xa5fe_d6a9_b151_4159_17aa);
    lemma_edge(0x11_0730_28d7_233e, 1, 0x2, 7, 0x80, 0xad58_3eea_42a1_2585_10d5, 0xad58_3eea_42a1_c866_12ea);
    lemma_edge(0x11_1301_d012_5b50, 1, 0x2, 8, 0x100, 0xb504_f333_f9dd_f73c_c5a3, 0xb504_f333_f9de_a0de_2057);
    lemma_edge(0x11_1edb_ab5e_2ab5, 1, 0x2, 9, 0x200, 0xbd08_a39f_580b_d525_03eb, 0xbd08_a39f_580c_85ce_5b20);
    lemma_edge(0x11_2abd_c06c_31cb, 1, 0x2, 10, 0x400, 0xc567_2a11_5506_260f_c61c, 0xc567_2a11_5506_de0b_b5e6);
    lemma_edge(0x11_36a8_14f2_04aa, 1, 0x2, 11, 0x800, 0xce24_8c15_1f83_c9e9_5d71, 0xce24_8c15_1f84_8985_9994);
    lemma_edge(0x11_429a_aea9_2ddf, 1, 0x2, 12, 0x1000, 0xd744_fcca_d69c_df39_a4d9, 0xd744_fcca_d69d_a6c7_19a1);
    lemma_edge(0x11_4e95_934f_312d, 1, 0x2, 13, 0x2000, 0xe0cc_deec_2a94_3e01_7784, 0xe0cc_deec_2a95_0dd4_6beb);
    lemma_edge(0x11_5a98_c8a5_8e51, 1, 0x2, 14, 0x4000, 0xeac0_c6e7_dd24_1a52_1b8b, 0xeac0_c6e7_dd24_f2c2_54d7);
    lemma_edge(0x11_66a4_5471_c3c2, 1, 0x2, 15, 0x8000, 0xf525_7d15_2486_c6ae_b3d1, 0xf525_7d15_2487_a817_9a9f);
}

/// Edges 32 to 47.
proof fn lemma_edges_2()
    by (nonlinear_arith)
    ensures
        is_edge(0x1_72b8_3c7d_517b, 32),
        is_edge(0x1_7ed4_8695_bbc1, 33),
        is_edge(0x1_8af9_388c_8dea, 34),
        is_edge(0x1_9726_5837_5d30, 35),
        is_edge(0x1_a35b_eb6f_cb76, 36),
        is_edge(0x1_af99_f813_8a1d, 37),
        is_edge(0x1_bbe0_8404_5cd4, 38),
        is_edge(0x1_c82f_9528_1c6c, 39),
        is_edge(0x1_d487_3168_b9ab, 40),
        is_edge(0x1_e0e7_5eb4_4027, 41),
        is_edge(0x1_ed50_22fc_d91d, 42),
        is_edge(0x1_f9c1_8438_ce4d, 43),
        is_edge(0x2_063b_8862_8cd7, 44),
        is_edge(0x2_12be_3578_a81a, 45),
        is_edge(0x2_1f49_917d_dc97, 46),
        is_edge(0x2_2bdd_a279_12d2, 47),
{
    lemma_edge(0x11_72b8_3c7d_517a, 2, 0x4, 0, 0x1, 0x7fff_ffff_ffff_9aba_b277, 0x8000_0000_0000_101b_15ea);
    lemma_edge(0x11_7ed4_8695_bbc0, 2, 0x4, 1, 0x2, 0x85aa_c367_cc48_7325_56b7, 0x85aa_c367_cc48_ed63_3c95);
    lemma_edge(0x11_8af9_388c_8de9, 2, 0x4, 2, 0x4, 0x8b95_c1e3_ea8b_7989_0c87, 0x8b95_c1e3_ea8b_f8d8_1534);
    lemma_edge(0x11_9726_5837_5d2f, 2, 0x4, 3, 0x8, 0x91c3_d373_ab11_9865_3bbf, 0x91c3_d373_ab12_1cfb_2b72);
    lemma_edge(0x11_a35b_eb6f_cb75, 2, 0x4, 4, 0x10, 0x9837_f051_8db8_88af_e755, 0x9837_f051_8db9_12c4_bcc9);
    lemma_edge(0x11_af99_f813_8a1c, 2, 0x4, 5, 0x20, 0x9ef5_3260_91a0_dc51_3cff, 0x9ef5_3260_91a1_6c1f_4920);
    lemma_edge(0x11_bbe0_8404_5cd3, 2, 0x4, 6, 0x40, 0xa5fe_d6a9_b150_de6a_21e1, 0xa5fe_d6a9_b151_742e_2067);
    lemma_edge(0x11_c82f_9528_1c6b, 2, 0x4, 7, 0x80, 0xad58_3eea_42a1_23b0_eaf5, 0xad58_3eea_42a1_bfaa_1c0d);
    lemma_edge(0x11_d487_3168_b9aa, 2, 0x4, 8, 0x100, 0xb504_f333_f9de_185c_1921, 0xb504_f333_f9de_bacc_5c23);
    lemma_edge(0x11_e0e7_5eb4_4026, 2, 0x4, 9, 0x200, 0xbd08_a39f_580b_ca58_d037, 0xbd08_a39f_580c_7384_bf78);
    lemma_edge(0x11_ed50_22fc_d91c, 2, 0x4, 10, 0x400, 0xc567_2a11_5506_5be2_3674, 0xc567_2a11_5507_0c11_443f);
    lemma_edge(0x11_f9c1_8438_ce4c, 2, 0x4, 11, 0x800, 0xce24_8c15_1f84_198e_ae21, 0xce24_8c15_1f84_d10b_42e3);
    lemma_edge(0x12_063b_8862_8cd6, 2, 0x4, 12, 0x1000, 0xd744_fcca_d69d_3e7f_1ab6, 0xd744_fcca_d69d_fd96_b46c);
    lemma_edge(0x12_12be_3578_a819, 2, 0x4, 13, 0x2000, 0xe0cc_deec_2a94_a4e6_bca0, 0xe0cc_deec_2a95_6bea_0f8f);
    lemma_edge(0x12_1f49_917d_dc96, 2, 0x4, 14, 0x4000, 0xeac0_c6e7_dd24_1af6_ed23, 0xeac0_c6e7_dd24_ea3a_05f2);
    lemma_edge(0x12_2bdd_a279_12d1, 2, 0x4, 15, 0x8000, 0xf525_7d15_2486_9aeb_a7ac, 0xf525_7d15_2487_72c6_0edc);
}

/// Edges 48 to 63.
proof fn lemma_edges_3()
    by (nonlinear_arith)
    ensures
        is_edge(0x2_387a_6e75_6239, 48),
        is_edge(0x2_451f_fb82_140b, 49),
        is_edge(0x2_51ce_4fb2_a640, 50),
        is_edge(0x2_5e85_711e_ce76, 51),
        is_edge(0x2_6b45_65e2_7cde, 52),
        is_edge(0x2_780e_341d_df2a, 53),
        is_edge(0x2_84df_e1f5_6381, 54),
        is_edge(0x2_91ba_7591_bb70, 55),
        is_edge(0x2_9e9d_f51f_dee2, 56),
        is_edge(0x2_ab8a_66d1_0f13, 57),
        is_edge(0x2_b87f_d0da_d990, 58),
        is_edge(0x2_c57e_3977_1b2f, 59),
        is_edge(0x2_d285_a6e4_030c, 60),
        is_edge(0x2_df96_1f64_158a, 61),
        is_edge(0x2_ecaf_a93e_2f57, 62),
        is_edge(0x2_f9d2_4abd_886b, 63),
{
    lemma_edge(0x12_387a_6e75_6238, 3, 0x8, 0, 0x1, 0x7fff_ffff_ffff_d2e2_0439, 0x8000_0000_0000_4348_73ae);
    lemma_edge(0x12_451f_fb82_140a, 3, 0x8, 1, 0x2, 0x85aa_c367_cc48_628f_a8fb, 0x85aa_c367_cc48_d79e_cca5);
    lemma_edge(0x12_51ce_4fb2_a63f, 3, 0x8, 2, 0x4, 0x8b95_c1e3_ea8b_bd6b_75df, 0x8b95_c1e3_ea8c_3754_bdcd);
    lemma_edge(0x12_5e85_711e_ce75, 3, 0x8, 3, 0x8, 0x91c3_d373_ab11_9bc5_24b7, 0x91c3_d373_ab12_1abc_0d90);
    lemma_edge(0x12_6b45_65e2_7cdd, 3, 0x8, 4, 0x10, 0x9837_f051_8db8_9613_a5c4, 0x9837_f051_8db9_1a4d_ce87);
    lemma_edge(0x12_780e_341d_df29, 3, 0x8, 5, 0x20, 0x9ef5_3260_91a0_d112_b669, 0x9ef5_3260_91a1_5ac7_f710);
    lemma_edge(0x12_84df_e1f5_6380, 3, 0x8, 6, 0x40, 0xa5fe_d6a9_b150_e46d_b1c4, 0xa5fe_d6a9_b151_73d8_32db);
    lemma_edge(0x12_91ba_7591_bb6f, 3, 0x8, 7, 0x80, 0xad58_3eea_42a0_cb59_8258, 0xad58_3eea_42a1_60b5_d58e);
    lemma_edge(0x12_9e9d_f51f_dee1, 3, 0x8, 8, 0x100, 0xb504_f333_f9de_49b1_18f1, 0xb504_f333_f9de_e53e_52a9);
    lemma_edge(0x12_ab8a_66d1_0f12, 3, 0x8, 9, 0x200, 0xbd08_a39f_580b_d4e3_a625, 0xbd08_a39f_580c_76e3_7820);
    lemma_edge(0x12_b87f_d0da_d98f, 3, 0x8, 10, 0x400, 0xc567_2a11_5506_338d_d2af, 0xc567_2a11_5506_dc44_a7c5);
    lemma_edge(0x12_c57e_3977_1b2e, 3, 0x8, 11, 0x800, 0xce24_8c15_1f84_0ad9_b373, 0xce24_8c15_1f84_ba8e_cc79);
    lemma_edge(0x12_d285_a6e4_030b, 3, 0x8, 12, 0x1000, 0xd744_fcca_d69d_3d2e_514e, 0xd744_fcca_d69d_f42b_e330);
    lemma_edge(0x12_df96_1f64_1589, 3, 0x8, 13, 0x2000, 0xe0cc_deec_2a94_8a72_56bc, 0xe0cc_deec_2a95_4905_a9d3);
    lemma_edge(0x12_ecaf_a93e_2f56, 3, 0x8, 14, 0x4000, 0xeac0_c6e7_dd24_2b64_15ce, 0xeac0_c6e7_dd24_f1dd_a683);
    lemma_edge(0x12_f9d2_4abd_886a, 3, 0x8, 15, 0x8000, 0xf525_7d15_2486_060b_946b, 0xf525_7d15_2486_d4bf_3534);
}

/// Edges 64 to 79.
proof fn lemma_edges_4()
    by (nonlinear_arith)
    ensures
        is_edge(0x3_06fe_0a31_b716, 64),
        is_edge(0x3_1432_edee_b2fe, 65),
        is_edge(0x3_2170_fc4c_d832, 66),
        is_edge(0x3_2eb8_3ba8_ea32, 67),
        is_edge(0x3_3c08_b264_1700, 68),
        is_edge(0x3_4962_66e3_fa2d, 69),
        is_edge(0x3_56c5_5f92_9ff1, 70),
        is_edge(0x3_6431_a2de_883b, 71),
        is_edge(0x3_71a7_373a_a9cb, 72),
        is_edge(0x3_7f26_231e_754a, 73),
        is_edge(0x3_8cae_6d05_d866, 74),
        is_edge(0x3_9a40_1b71_40ef, 75),
        is_edge(0x3_a7db_34e5_9ff7, 76),
        is_edge(0x3_b57f_bfec_6cf5, 77),
        is_edge(0x3_c32d_c313_a8e5, 78),
        is_edge(0x3_d0e5_44ed_e174, 79),
{
    lemma_edge(0x13_06fe_0a31_b715, 4, 0x10, 0, 0x1, 0x7fff_ffff_ffff_ecb2_8ab3, 0x8000_0000_0000_5855_0917);
    lemma_edge(0x13_1432_edee_b2fd, 4, 0x10, 1, 0x2, 0x85aa_c367_cc48_64e1_7589, 0x85aa_c367_cc48_d4fa_170d);
    lemma_edge(0x13_2170_fc4c_d831, 4, 0x10, 2, 0x4, 0x8b95_c1e3_ea8b_bea1_434b, 0x8b95_c1e3_ea8c_335f_5f6b);
    lemma_edge(0x13_2eb8_3ba8_ea31, 4, 0x10, 3, 0x8, 0x91c3_d373_ab11_7f57_1cfb, 0x91c3_d373_ab11_f8ec_018c);
    lemma_edge(0x13_3c08_b264_16ff, 4, 0x10, 4, 0x10, 0x9837_f051_8db8_838a_a5ac, 0x9837_f051_8db9_0229_abb2);
    lemma_edge(0x13_4962_66e3_fa2c, 4, 0x10, 5, 0x20, 0x9ef5_3260_91a0_a1bf_3cd4, 0x9ef5_3260_91a1_259d_de2f);
    lemma_edge(0x13_56c5_5f92_9ff0, 4, 0x10, 6, 0x40, 0xa5fe_d6a9_b150_ccf0_0471, 0xa5fe_d6a9_b151_5645_f274);
    lemma_edge(0x13_6431_a2de_883a, 4, 0x10, 7, 0x80, 0xad58_3eea_42a0_db3f_b0e5, 0xad58_3eea_42a1_6a46_ebda);
    lemma_edge(0x13_71a7_373a_a9ca, 4, 0x10, 8, 0x100, 0xb504_f333_f9de_034c_bc8d, 0xb504_f333_f9de_9841_ac35);
    lemma_edge(0x13_7f26_231e_7549, 4, 0x10, 9, 0x200, 0xbd08_a39f_580b_da89_fe1b, 0xbd08_a39f_580c_75ab_8b31);
    lemma_edge(0x13_8cae_6d05_d865, 4, 0x10, 10, 0x400, 0xc567_2a11_5506_8682_705c, 0xc567_2a11_5507_2812_1f26);
    lemma_edge(0x13_9a40_1b71_40ee, 4, 0x10, 11, 0x800, 0xce24_8c15_1f84_1c19_a5b3, 0xce24_8c15_1f84_c45b_b1ad);
    lemma_edge(0x13_a7db_34e5_9ff6, 4, 0x10, 12, 0x1000, 0xd744_fcca_d69c_cab4_d861, 0xd744_fcca_d69d_79f0_510d);
    lemma_edge(0x13_b57f_bfec_6cf4, 4, 0x10, 13, 0x2000, 0xe0cc_deec_2a94_a455_8681, 0xe0cc_deec_2a95_5ad4_6d6e);
    lemma_edge(0x13_c32d_c313_a8e4, 4, 0x10, 14, 0x4000, 0xeac0_c6e7_dd23_d72e_c76c, 0xeac0_c6e7_dd24_953e_2f74);
    lemma_edge(0x13_d0e5_44ed_e173, 4, 0x10, 15, 0x8000, 0xf525_7d15_2486_b380_6327, 0xf525_7d15_2487_7970_90fd);
}

/// Edges 80 to 95.
proof fn lemma_edges_5()
    by (nonlinear_arith)
    ensures
        is_edge(0x3_dea6_4c12_3423, 80),
        is_edge(0x3_ec70_df1c_5175, 81),
        is_edge(0x3_fa45_04ac_801c, 82),
        is_edge(0x4_0822_c367_a025, 83),
        is_edge(0x4_160a_21f7_2e2a, 84),
        is_edge(0x4_23fb_2709_468a, 85),
        is_edge(0x4_31f5_d950_a897, 86),
        is_edge(0x4_3ffa_3f84_b9d5, 87),
        is_edge(0x4_4e08_6061_892e, 88),
        is_edge(0x4_5c20_42a7_d232, 89),
        is_edge(0x4_6a41_ed1d_0058, 90),
        is_edge(0x4_786d_668b_3237, 91),
        is_edge(0x4_86a2_b5c1_3cd1, 92),
        is_edge(0x4_94e1_e192_aed2, 93),
        is_edge(0x4_a32a_f0d7_d3df, 94),
        is_edge(0x4_b17d_ea6d_b7d7, 95),
{
    lemma_edge(0x13_dea6_4c12_3422, 5, 0x20, 0, 0x1, 0x7fff_ffff_ffff_ea60_b759, 0x8000_0000_0000_5172_fd63);
    lemma_edge(0x13_ec70_df1c_5174, 5, 0x20, 1, 0x2, 0x85aa_c367_cc48_2659_48c8, 0x85aa_c367_cc48_91b1_45b0);
    lemma_edge(0x13_fa45_04ac_801b, 5, 0x20, 2, 0x4, 0x8b95_c1e3_ea8b_90b4_7c8f, 0x8b95_c1e3_ea8c_007f_85fd);
    lemma_edge(0x14_0822_c367_a024, 5, 0x20, 3, 0x8, 0x91c3_d373_ab11_a9dd_1aba, 0x91c3_d373_ab12_1e4a_6766);
    lemma_edge(0x14_160a_21f7_2e29, 5, 0x20, 4, 0x10, 0x9837_f051_8db8_33d8_c31d, 0x9837_f051_8db8_ad19_7ebb);
    lemma_edge(0x14_23fb_2709_4689, 5, 0x20, 5, 0x20, 0x9ef5_3260_91a0_c34b_7ce4, 0x9ef5_3260_91a1_4192_dceb);
    lemma_edge(0x14_31f5_d950_a896, 5, 0x20, 6, 0x40, 0xa5fe_d6a9_b150_c7ab_8f7b, 0xa5fe_d6a9_b151_4b2e_e8c9);
    lemma_edge(0x14_3ffa_3f84_b9d4, 5, 0x20, 7, 0x80, 0xad58_3eea_42a1_308e_3d33, 0xad58_3eea_42a1_b985_1a8d);
    lemma_edge(0x14_4e08_6061_892d, 5, 0x20, 8, 0x100, 0xb504_f333_f9de_62cd_98a4, 0xb504_f333_f9de_f171_d22e);
    lemma_edge(0x14_5c20_42a7_d231, 5, 0x20, 9, 0x200, 0xbd08_a39f_580b_a944_85db, 0xbd08_a39f_580c_3dd2_5987);
    lemma_edge(0x14_6a41_ed1d_0057, 5, 0x20, 10, 0x400, 0xc567_2a11_5506_95c7_0ed2, 0xc567_2a11_5507_307d_39cd);
    lemma_edge(0x14_786d_668b_3236, 5, 0x20, 11, 0x800, 0xce24_8c15_1f84_2694_e680, 0xce24_8c15_1f84_c7b4_bfb7);
    lemma_edge(0x14_86a2_b5c1_3cd0, 5, 0x20, 12, 0x1000, 0xd744_fcca_d69d_5e01_0a65, 0xd744_fcca_d69e_05ce_9e19);
    lemma_edge(0x14_94e1_e192_aed1, 5, 0x20, 13, 0x2000, 0xe0cc_deec_2a94_4d33_6e02, 0xe0cc_deec_2a94_fbf5_9a86);
    lemma_edge(0x14_a32a_f0d7_d3de, 5, 0x20, 14, 0x4000, 0xeac0_c6e7_dd23_efd4_3346, 0xeac0_c6e7_dd24_a5d4_c6ed);
    lemma_edge(0x14_b17d_ea6d_b7d6, 5, 0x20, 15, 0x8000, 0xf525_7d15_2486_2805_11ae, 0xf525_7d15_2486_e590_e9f8);
}

/// Edges 96 to 111.
proof fn lemma_edges_6()
    by (nonlinear_arith)
    ensures
        is_edge(0x4_bfda_d536_2a28, 96),
        is_edge(0x4_ce41_b817_c115, 97),
        is_edge(0x4_dcb2_99fd_dd0e, 98),
        is_edge(0x4_eb2d_81d8_abff, 99),
        is_edge(0x4_f9b2_769d_2ca7, 100),
        is_edge(0x5_0841_7f45_31ef, 101),
        is_edge(0x5_16da_a2cf_6642, 102),
        is_edge(0x5_257d_e83f_4eef, 103),
        is_edge(0x5_342b_569d_4f82, 104),
        is_edge(0x5_42e2_f4f6_ad28, 105),
        is_edge(0x5_51a4_ca5d_920f, 106),
        is_edge(0x5_6070_dde9_10d2, 107),
        is_edge(0x5_6f47_36b5_27db, 108),
        is_edge(0x5_7e27_dbe2_c4cf, 109),
        is_edge(0x5_8d12_d497_c7fe, 110),
        is_edge(0x5_9c08_27ff_07cc, 111),
{
    lemma_edge(0x14_bfda_d536_2a27, 6, 0x40, 0, 0x1, 0x7fff_ffff_ffff_f4b7_98a3, 0x8000_0000_0000_576b_2daa);
    lemma_edge(0x14_ce41_b817_c114, 6, 0x40, 1, 0x2, 0x85aa_c367_cc48_60ca_cded, 0x85aa_c367_cc48_c795_bb22);
    lemma_edge(0x14_dcb2_99fd_dd0d, 6, 0x40, 2, 0x4, 0x8b95_c1e3_ea8b_ad35_a842, 0x8b95_c1e3_ea8c_1843_5740);
    lemma_edge(0x14_eb2d_81d8_abfe, 6, 0x40, 3, 0x8, 0x91c3_d373_ab11_788e_f24f, 0x91c3_d373_ab11_e80c_995e);
    lemma_edge(0x14_f9b2_769d_2ca6, 6, 0x40, 4, 0x10, 0x9837_f051_8db8_5ae0_5c3e, 0x9837_f051_8db8_cefd_1166);
    lemma_edge(0x15_0841_7f45_31ee, 6, 0x40, 5, 0x20, 0x9ef5_3260_91a1_0554_491b, 0x9ef5_3260_91a1_7e41_1606);
    lemma_edge(0x15_16da_a2cf_6641, 6, 0x40, 6, 0x40, 0xa5fe_d6a9_b150_d9ee_e043, 0xa5fe_d6a9_b151_57de_d6f8);
    lemma_edge(0x15_257d_e83f_4eee, 6, 0x40, 7, 0x80, 0xad58_3eea_42a0_d645_0d54, 0xad58_3eea_42a1_596d_5dc5);
    lemma_edge(0x15_342b_569d_4f81, 6, 0x40, 8, 0x100, 0xb504_f333_f9dd_ed82_489d, 0xb504_f333_f9de_761a_571c);
    lemma_edge(0x15_42e2_f4f6_ad27, 6, 0x40, 9, 0x200, 0xbd08_a39f_580c_1c8c_2829, 0xbd08_a39f_580c_aacd_a4d2);
    lemma_edge(0x15_51a4_ca5d_920e, 6, 0x40, 10, 0x400, 0xc567_2a11_5506_68c0_2a3a, 0xc567_2a11_5506_fce7_2948);
    lemma_edge(0x15_6070_dde9_10d1, 6, 0x40, 11, 0x800, 0xce24_8c15_1f84_0f89_bba3, 0xce24_8c15_1f84_a9d4_ceda);
    lemma_edge(0x15_6f47_36b5_27da, 6, 0x40, 12, 0x1000, 0xd744_fcca_d69d_2a59_6854, 0xd744_fcca_d69d_cb09_b963);
    lemma_edge(0x15_7e27_dbe2_c4ce, 6, 0x40, 13, 0x2000, 0xe0cc_deec_2a94_6573_2348, 0xe0cc_deec_2a95_0ccc_8f55);
    lemma_edge(0x15_8d12_d497_c7fd, 6, 0x40, 14, 0x4000, 0xeac0_c6e7_dd24_1fe0_70c2, 0xeac0_c6e7_dd24_ce29_a514);
    lemma_edge(0x15_9c08_27ff_07cb, 6, 0x40, 15, 0x8000, 0xf525_7d15_2486_5a68_1246, 0xf525_7d15_2487_0fea_aa19);
}

/// Edges 112 to 127.
proof fn lemma_edges_7()
    by (nonlinear_arith)
    ensures
        is_edge(0x5_ab07_dd48_542a, 112),
        is_edge(0x5_ba11_fba8_7a03, 113),
        is_edge(0x5_c926_8a59_46b8, 114),
        is_edge(0x5_d845_9099_8b93, 115),
        is_edge(0x5_e76f_15ad_2149, 116),
        is_edge(0x5_f6a3_20dc_eb71, 117),
        is_edge(0x6_05e1_b976_dc09, 118),
        is_edge(0x6_152a_e6cd_f6f5, 119),
        is_edge(0x6_247e_b03a_5585, 120),
        is_edge(0x6_33dd_1d19_29fe, 121),
        is_edge(0x6_4346_34cc_c320, 122),
        is_edge(0x6_52b9_febc_8fb7, 123),
        is_edge(0x6_6238_8255_2225, 124),
        is_edge(0x6_71c1_c708_33f6, 125),
        is_edge(0x6_8155_d44c_a974, 126),
        is_edge(0x6_90f4_b19e_9539, 127),
{
    lemma_edge(0x15_ab07_dd48_5429, 7, 0x80, 0, 0x1, 0x7fff_ffff_ffff_df38_3c3c, 0x8000_0000_0000_3dbc_8e0b);
    lemma_edge(0x15_ba11_fba8_7a02, 7, 0x80, 1, 0x2, 0x85aa_c367_cc48_42e4_7242, 0x85aa_c367_cc48_a553_b4d3);
    lemma_edge(0x15_c926_8a59_46b7, 7, 0x80, 2, 0x4, 0x8b95_c1e3_ea8b_d631_b411, 0x8b95_c1e3_ea8c_3cb5_79d3);
    lemma_edge(0x15_d845_9099_8b92, 7, 0x80, 3, 0x8, 0x91c3_d373_ab11_888e_21f5, 0x91c3_d373_ab11_f351_b679);
    lemma_edge(0x15_e76f_15ad_2148, 7, 0x80, 4, 0x10, 0x9837_f051_8db8_7964_bc70, 0x9837_f051_8db8_e895_36b0);
    lemma_edge(0x15_f6a3_20dc_eb70, 7, 0x80, 5, 0x20, 0x9ef5_3260_91a0_b553_ae1d, 0x9ef5_3260_91a1_2920_0389);
    lemma_edge(0x16_05e1_b976_dc08, 7, 0x80, 6, 0x40, 0xa5fe_d6a9_b150_e5c8_d1c4, 0xa5fe_d6a9_b151_5e61_ea16);
    lemma_edge(0x16_152a_e6cd_f6f4, 7, 0x80, 7, 0x80, 0xad58_3eea_42a1_0f53_0192, 0xad58_3eea_42a1_8ceb_cb77);
    lemma_edge(0x16_247e_b03a_5584, 7, 0x80, 8, 0x100, 0xb504_f333_f9de_0999_1f00, 0xb504_f333_f9de_8c66_a598);
    lemma_edge(0x16_33dd_1d19_29fd, 7, 0x80, 9, 0x200, 0xbd08_a39f_580c_0311_d497, 0xbd08_a39f_580c_8b4b_55dd);
    lemma_edge(0x16_4346_34cc_c31f, 7, 0x80, 10, 0x400, 0xc567_2a11_5506_6c57_1367, 0xc567_2a11_5506_fa36_1787);
    lemma_edge(0x16_52b9_febc_8fb6, 7, 0x80, 11, 0x800, 0xce24_8c15_1f84_2b37_9ae0, 0xce24_8c15_1f84_bef8_0c7f);
    lemma_edge(0x16_6238_8255_2224, 7, 0x80, 12, 0x1000, 0xd744_fcca_d69d_13b4_3e1d, 0xd744_fcca_d69d_ad94_83af);
    lemma_edge(0x16_71c1_c708_33f5, 7, 0x80, 13, 0x2000, 0xe0cc_deec_2a94_6708_751a, 0xe0cc_deec_2a95_0749_8b34);
    lemma_edge(0x16_8155_d44c_a973, 7, 0x80, 14, 0x4000, 0xeac0_c6e7_dd24_33e5_299d, 0xeac0_c6e7_dd24_daca_be6c);
    lemma_edge(0x16_90f4_b19e_9538, 7, 0x80, 15, 0x8000, 0xf525_7d15_2486_ab8e_f0a7, 0xf525_7d15_2487_595f_8084);
}

/// Edges 128 to 143.
proof fn lemma_edges_8()
    by (nonlinear_arith)
    ensures
        is_edge(0x6_a09e_667f_3bcd, 128),
        is_edge(0x6_b052_fa75_173f, 129),
        is_edge(0x6_c012_750b_dabf, 130),
        is_edge(0x6_cfdc_ddd4_7646, 131),
        is_edge(0x6_dfb2_3c65_1a2f, 132),
        is_edge(0x6_ef92_9859_3ae5, 133),
        is_edge(0x6_ff7d_f951_9484, 134),
        is_edge(0x7_0f74_66f4_2e88, 135),
        is_edge(0x7_1f75_e8ec_5f74, 136),
        is_edge(0x7_2f82_86ea_d08a, 137),
        is_edge(0x7_3f9a_48a5_8174, 138),
        is_edge(0x7_4fbd_35d7_cbfe, 139),
        is_edge(0x7_5feb_5642_67c9, 140),
        is_edge(0x7_7024_b1ab_6e0a, 141),
        is_edge(0x7_8069_4fde_5d40, 142),
        is_edge(0x7_90b9_38ac_1cf7, 143),
{
    lemma_edge(0x16_a09e_667f_3bcc, 8, 0x100, 0, 0x1, 0x7fff_ffff_ffff_cce5_65e5, 0x8000_0000_0000_2767_df7e);
    lemma_edge(0x16_b052_fa75_173e, 8, 0x100, 1, 0x2, 0x85aa_c367_cc48_716d_01a2, 0x85aa_c367_cc48_cfaf_e684);
    lemma_edge(0x16_c012_750b_dabe, 8, 0x100, 2, 0x4, 0x8b95_c1e3_ea8b_7bd7_8eea, 0x8b95_c1e3_ea8b_de02_ae4f);
    lemma_edge(0x16_cfdc_ddd4_7645, 8, 0x100, 3, 0x8, 0x91c3_d373_ab11_95b7_81ff, 0x91c3_d373_ab11_fbf4_5190);
    lemma_edge(0x16_dfb2_3c65_1a2e, 8, 0x100, 4, 0x10, 0x9837_f051_8db8_44ba_9349, 0x9837_f051_8db8_af34_409d);
    lemma_edge(0x16_ef92_9859_3ae4, 8, 0x100, 5, 0x20, 0x9ef5_3260_91a0_bfc4_521f, 0x9ef5_3260_91a1_2ea7_d4fd);
    lemma_edge(0x16_ff7d_f951_9483, 8, 0x100, 6, 0x40, 0xa5fe_d6a9_b150_db4b_67c8, 0xa5fe_d6a9_b151_4ec7_951d);
    lemma_edge(0x17_0f74_66f4_2e87, 8, 0x100, 7, 0x80, 0xad58_3eea_42a1_47bd_6bc6, 0xad58_3eea_42a1_c003_0971);
    lemma_edge(0x17_1f75_e8ec_5f73, 8, 0x100, 8, 0x100, 0xb504_f333_f9dd_f851_2986, 0xb504_f333_f9de_7593_02f3);
    lemma_edge(0x17_2f82_86ea_d089, 8, 0x100, 9, 0x200, 0xbd08_a39f_580b_d911_ac1f, 0xbd08_a39f_580c_5b84_a7b5);
    lemma_edge(0x17_3f9a_48a5_8173, 8, 0x100, 10, 0x400, 0xc567_2a11_5506_765f_4301, 0xc567_2a11_5506_fe3a_7880);
    lemma_edge(0x17_4fbd_35d7_cbfd, 8, 0x100, 11, 0x800, 0xce24_8c15_1f84_5ce5_87a6, 0xce24_8c15_1f84_ea62_5766);
    lemma_edge(0x17_5feb_5642_67c8, 8, 0x100, 12, 0x1000, 0xd744_fcca_d69c_fcc4_49ae, 0xd744_fcca_d69d_901e_74dc);
    lemma_edge(0x17_7024_b1ab_6e09, 8, 0x100, 13, 0x2000, 0xe0cc_deec_2a94_9f32_7e37, 0xe0cc_deec_2a95_38a8_4013);
    lemma_edge(0x17_8069_4fde_5d3f, 8, 0x100, 14, 0x4000, 0xeac0_c6e7_dd23_fc3f_7e9b, 0xeac0_c6e7_dd24_9c11_a6bf);
    lemma_edge(0x17_90b9_38ac_1cf6, 8, 0x100, 15, 0x8000, 0xf525_7d15_2486_9a03_0f85, 0xf525_7d15_2487_4075_1d44);
}

/// Edges 144 to 159.
proof fn lemma_edges_9()
    by (nonlinear_arith)
    ensures
        is_edge(0x7_a114_73eb_0187, 144),
        is_edge(0x7_b17b_0976_cfdb, 145),
        is_edge(0x7_c1ed_0130_c133, 146),
        is_edge(0x7_d26a_62ff_86f1, 147),
        is_edge(0x7_e2f3_36cf_4e63, 148),
        is_edge(0x7_f387_8491_c491, 149),
        is_edge(0x8_0427_543e_1a12, 150),
        is_edge(0x8_14d2_add1_06da, 151),
        is_edge(0x8_2589_994c_ce13, 152),
        is_edge(0x8_364c_1eb9_41f8, 153),
        is_edge(0x8_471a_4623_c7ad, 154),
        is_edge(0x8_57f4_179f_5b21, 155),
        is_edge(0x8_68d9_9b44_92ed, 156),
        is_edge(0x8_79ca_d931_a437, 157),
        is_edge(0x8_8ac7_d98a_669a, 158),
        is_edge(0x8_9bd0_a478_5810, 159),
{
    lemma_edge(0x17_a114_73eb_0186, 9, 0x200, 0, 0x1, 0x7fff_ffff_ffff_b6ed_4ee8, 0x8000_0000_0000_0d99_6e5c);
    lemma_edge(0x17_b17b_0976_cfda, 9, 0x200, 1, 0x2, 0x85aa_c367_cc48_4832_00fc, 0x85aa_c367_cc48_a275_d3c1);
    lemma_edge(0x17_c1ed_0130_c132, 9, 0x200, 2, 0x4, 0x8b95_c1e3_ea8b_a943_4e8f, 0x8b95_c1e3_ea8c_0744_f3cd);
    lemma_edge(0x17_d26a_62ff_86f0, 9, 0x200, 3, 0x8, 0x91c3_d373_ab11_a812_3921, 0x91c3_d373_ab12_09f9_6485);
    lemma_edge(0x17_e2f3_36cf_4e62, 9, 0x200, 4, 0x10, 0x9837_f051_8db8_a2ea_da8e, 0x9837_f051_8db9_08e0_e50c);
    lemma_edge(0x17_f387_8491_c490, 9, 0x200, 5, 0x20, 0x9ef5_3260_91a0_b52d_10cc, 0x9ef5_3260_91a1_1f5d_0a1a);
    lemma_edge(0x18_0427_543e_1a11, 9, 0x200, 6, 0x40, 0xa5fe_d6a9_b150_ea44_ee7d, 0xa5fe_d6a9_b151_58db_af3f);
    lemma_edge(0x18_14d2_add1_06d9, 9, 0x200, 7, 0x80, 0xad58_3eea_42a1_2614_1e57, 0xad58_3eea_42a1_9940_5b0f);
    lemma_edge(0x18_2589_994c_ce12, 9, 0x200, 8, 0x100, 0xb504_f333_f9de_237a_7673, 0xb504_f333_f9de_9b6c_d340);
    lemma_edge(0x18_364c_1eb9_41f7, 9, 0x200, 9, 0x200, 0xbd08_a39f_580c_04c3_178b, 0xbd08_a39f_580c_81ae_3cad);
    lemma_edge(0x18_471a_4623_c7ac, 9, 0x200, 10, 0x400, 0xc567_2a11_5506_7203_37d9, 0xc567_2a11_5506_f41b_e71b);
    lemma_edge(0x18_57f4_179f_5b20, 9, 0x200, 11, 0x800, 0xce24_8c15_1f83_fd0f_666b, 0xce24_8c15_1f84_848c_9169);
    lemma_edge(0x18_68d9_9b44_92ec, 9, 0x200, 12, 0x1000, 0xd744_fcca_d69d_23e9_0dbf, 0xd744_fcca_d69d_b103_ed19);
    lemma_edge(0x18_79ca_d931_a436, 9, 0x200, 13, 0x2000, 0xe0cc_deec_2a94_c802_e6d5, 0xe0cc_deec_2a95_5af7_125d);
    lemma_edge(0x18_8ac7_d98a_6699, 9, 0x200, 14, 0x4000, 0xeac0_c6e7_dd23_fc02_923e, 0xeac0_c6e7_dd24_950e_1a1f);
    lemma_edge(0x18_9bd0_a478_580f, 9, 0x200, 15, 0x8000, 0xf525_7d15_2486_8323_39a4, 0xf525_7d15_2487_2286_c09b);
}

/// Edges 160 to 175.
proof fn lemma_edges_a()
    by (nonlinear_arith)
    ensures
        is_edge(0x8_ace5_422a_a0dc, 160),
        is_edge(0x8_be05_bad6_1779, 161),
        is_edge(0x8_cf32_16b5_448c, 162),
        is_edge(0x8_e06a_5e08_66d9, 163),
        is_edge(0x8_f1ae_9915_7737, 164),
        is_edge(0x9_02fe_d028_2c8b, 165),
        is_edge(0x9_145b_0b91_ffc6, 166),
        is_edge(0x9_25c3_53aa_2fe2, 167),
        is_edge(0x9_3737_b0cd_c5e5, 168),
        is_edge(0x9_48b8_2b5f_98e5, 169),
        is_edge(0x9_5a44_cbc8_520f, 170),
        is_edge(0x9_6bdd_9a76_70b3, 171),
        is_edge(0x9_7d82_9fde_4e50, 172),
        is_edge(0x9_8f33_e47a_22a3, 173),
        is_edge(0x9_a0f1_70ca_07ba, 174),
        is_edge(0x9_b2bb_4d53_fe0d, 175),
{
    lemma_edge(0x18_ace5_422a_a0db, 10, 0x400, 0, 0x1, 0x7fff_ffff_ffff_e248_d03f, 0x8000_0000_0000_3548_3b92);
    lemma_edge(0x18_be05_bad6_1778, 10, 0x400, 1, 0x2, 0x85aa_c367_cc48_517d_8a8e, 0x85aa_c367_cc48_a7ed_ab2d);
    lemma_edge(0x18_cf32_16b5_448b, 10, 0x400, 2, 0x4, 0x8b95_c1e3_ea8b_82cd_019a, 0x8b95_c1e3_ea8b_dcd2_58ea);
    lemma_edge(0x18_e06a_5e08_66d8, 10, 0x400, 3, 0x8, 0x91c3_d373_ab11_8740_0601, 0x91c3_d373_ab11_e500_98c7);
    lemma_edge(0x18_f1ae_9915_7736, 10, 0x400, 4, 0x10, 0x9837_f051_8db8_98ce_cc7a, 0x9837_f051_8db8_fa72_32e6);
    lemma_edge(0x19_02fe_d028_2c8a, 10, 0x400, 5, 0x20, 0x9ef5_3260_91a0_ef66_d3aa, 0x9ef5_3260_91a1_5516_4a13);
    lemma_edge(0x19_145b_0b91_ffc5, 10, 0x400, 6, 0x40, 0xa5fe_d6a9_b151_0062_f61b, 0xa5fe_d6a9_b151_6a49_6e66);
    lemma_edge(0x19_25c3_53aa_2fe1, 10, 0x400, 7, 0x80, 0xad58_3eea_42a0_ed16_dfd3, 0xad58_3eea_42a1_5b61_139a);
    lemma_edge(0x19_3737_b0cd_c5e4, 10, 0x400, 8, 0x100, 0xb504_f333_f9dd_f6e6_3a9e, 0xb504_f333_f9de_69c2_be11);
    lemma_edge(0x19_48b8_2b5f_98e4, 10, 0x400, 9, 0x200, 0xbd08_a39f_580b_daf0_7180, 0xbd08_a39f_580c_528f_c710);
    lemma_edge(0x19_5a44_cbc8_520e, 10, 0x400, 10, 0x400, 0xc567_2a11_5506_6922_1459, 0xc567_2a11_5506_e5b6_c135);
    lemma_edge(0x19_6bdd_9a76_70b2, 10, 0x400, 11, 0x800, 0xce24_8c15_1f84_02a6_0290, 0xce24_8c15_1f84_8464_a400);
    lemma_edge(0x19_7d82_9fde_4e4f, 10, 0x400, 12, 0x1000, 0xd744_fcca_d69d_2142_7d34, 0xd744_fcca_d69d_a861_deca);
    lemma_edge(0x19_8f33_e47a_22a2, 10, 0x400, 13, 0x2000, 0xe0cc_deec_2a94_d14e_4ce8, 0xe0cc_deec_2a95_5e07_7fa9);
    lemma_edge(0x19_a0f1_70ca_07b9, 10, 0x400, 14, 0x4000, 0xeac0_c6e7_dd23_ce97_3e2a, 0xeac0_c6e7_dd24_6125_b0a7);
    lemma_edge(0x19_b2bb_4d53_fe0c, 10, 0x400, 15, 0x8000, 0xf525_7d15_2486_7ab7_f8eb, 0xf525_7d15_2487_1359_9059);
}

/// Edges 176 to 191.
proof fn lemma_edges_b()
    by (nonlinear_arith)
    ensures
        is_edge(0x9_c491_82a3_f091, 176),
        is_edge(0x9_d674_194b_b8d5, 177),
        is_edge(0x9_e863_19e3_2324, 178),
        is_edge(0x9_fa5e_8d07_f29e, 179),
        is_edge(0xa_0c66_7b5d_e565, 180),
        is_edge(0xa_1e7a_ed8e_b8bc, 181),
        is_edge(0xa_309b_ec4a_2d34, 182),
        is_edge(0xa_42c9_8046_0ad8, 183),
        is_edge(0xa_5503_b23e_255d, 184),
        is_edge(0xa_674a_8af4_6053, 185),
        is_edge(0xa_799e_1330_b359, 186),
        is_edge(0xa_8bfe_53c1_2e59, 187),
        is_edge(0xa_9e6b_5579_fdc0, 188),
        is_edge(0xa_b0e5_2135_6ebb, 189),
        is_edge(0xa_c36b_bfd3_f37a, 190),
        is_edge(0xa_d5ff_3a3c_2775, 191),
{
    lemma_edge(0x19_c491_82a3_f090, 11, 0x800, 0, 0x1, 0x7fff_ffff_ffff_f728_01eb, 0x8000_0000_0000_46a2_9b1a);
    lemma_edge(0x19_d674_194b_b8d4, 11, 0x800, 1, 0x2, 0x85aa_c367_cc48_4395_2e01, 0x85aa_c367_cc48_965b_25a9);
    lemma_edge(0x19_e863_19e3_2323, 11, 0x800, 2, 0x4, 0x8b95_c1e3_ea8b_cec5_b14d, 0x8b95_c1e3_ea8c_24f9_fc9e);
    lemma_edge(0x19_fa5e_8d07_f29d, 11, 0x800, 3, 0x8, 0x91c3_d373_ab11_77ed_3b93, 0x91c3_d373_ab11_d1b4_42ae);
    lemma_edge(0x1a_0c66_7b5d_e564, 11, 0x800, 4, 0x10, 0x9837_f051_8db8_6833_f186, 0x9837_f051_8db8_c5b3_9ede);
    lemma_edge(0x1a_1e7a_ed8e_b8bb, 11, 0x800, 5, 0x20, 0x9ef5_3260_91a0_e678_5ec5, 0x9ef5_3260_91a1_47d8_2f23);
    lemma_edge(0x1a_309b_ec4a_2d33, 11, 0x800, 6, 0x40, 0xa5fe_d6a9_b151_15c1_5cc9, 0xa5fe_d6a9_b151_7b2a_6ff7);
    lemma_edge(0x1a_42c9_8046_0ad7, 11, 0x800, 7, 0x80, 0xad58_3eea_42a1_0d25_625e, 0xad58_3eea_42a1_76c2_8c89);
    lemma_edge(0x1a_5503_b23e_255c, 11, 0x800, 8, 0x100, 0xb504_f333_f9de_28af_0a3e, 0xb504_f333_f9de_96ac_e609);
    lemma_edge(0x1a_674a_8af4_6052, 11, 0x800, 9, 0x200, 0xbd08_a39f_580c_3208_7189, 0xbd08_a39f_580c_a495_72e6);
    lemma_edge(0x1a_799e_1330_b358, 11, 0x800, 10, 0x400, 0xc567_2a11_5506_a70d_a1ca, 0xc567_2a11_5507_1e5a_2995);
    lemma_edge(0x1a_8bfe_53c1_2e58, 11, 0x800, 11, 0x800, 0xce24_8c15_1f84_2d5b_302a, 0xce24_8c15_1f84_a999_a09c);
    lemma_edge(0x1a_9e6b_5579_fdbf, 11, 0x800, 12, 0x1000, 0xd744_fcca_d69d_489f_fcd7, 0xd744_fcca_d69d_ca04_ceca);
    lemma_edge(0x1a_b0e5_2135_6eba, 11, 0x800, 13, 0x2000, 0xe0cc_deec_2a94_c728_3ce7, 0xe0cc_deec_2a95_4dea_1600);
    lemma_edge(0x1a_c36b_bfd3_f379, 11, 0x800, 14, 0x4000, 0xeac0_c6e7_dd23_cf74_974b, 0xeac0_c6e7_dd24_5bcc_610f);
    lemma_edge(0x1a_d5ff_3a3c_2774, 11, 0x800, 15, 0x8000, 0xf525_7d15_2486_9583_6630, 0xf525_7d15_2487_27ac_660b);
}

/// Edges 192 to 207.
proof fn lemma_edges_c()
    by (nonlinear_arith)
    ensures
        is_edge(0xa_e89f_995a_d3ae, 192),
        is_edge(0xa_fb4c_e622_f2ff, 193),
        is_edge(0xb_0e07_298d_b666, 194),
        is_edge(0xb_20ce_6c9a_8953, 195),
        is_edge(0xb_33a2_b84f_15fb, 196),
        is_edge(0xb_4684_15b7_49b1, 197),
        is_edge(0xb_5972_8de5_593a, 198),
        is_edge(0xb_6c6e_29f1_c52b, 199),
        is_edge(0xb_7f76_f2fb_5e47, 200),
        is_edge(0xb_928c_f227_49e4, 201),
        is_edge(0xb_a5b0_30a1_064a, 202),
        is_edge(0xb_b8e0_b79a_6f1f, 203),
        is_edge(0xb_cc1e_904b_c1d3, 204),
        is_edge(0xb_df69_c3f3_a207, 205),
        is_edge(0xb_f2c2_5bd7_1e09, 206),
        is_edge(0xc_0628_6141_b33d, 207),
{
    lemma_edge(0x1a_e89f_995a_d3ad, 12, 0x1000, 0, 0x1, 0x7fff_ffff_ffff_e3e5_886e, 0x8000_0000_0000_3001_8095);
    lemma_edge(0x1a_fb4c_e622_f2fe, 12, 0x1000, 1, 0x2, 0x85aa_c367_cc48_4573_fb70, 0x85aa_c367_cc48_94b7_9083);
    lemma_edge(0x1b_0e07_298d_b665, 12, 0x1000, 2, 0x4, 0x8b95_c1e3_ea8b_a84d_3cf1, 0x8b95_c1e3_ea8b_fad9_e8b3);
    lemma_edge(0x1b_20ce_6c9a_8952, 12, 0x1000, 3, 0x8, 0x91c3_d373_ab11_a72f_7c6b, 0x91c3_d373_ab11_fd28_1bd9);
    lemma_edge(0x1b_33a2_b84f_15fa, 12, 0x1000, 4, 0x10, 0x9837_f051_8db8_5322_a748, 0x9837_f051_8db8_acab_8950);
    lemma_edge(0x1b_4684_15b7_49b0, 12, 0x1000, 5, 0x20, 0x9ef5_3260_91a0_bfe4_5cf2, 0x9ef5_3260_91a1_1d23_51c9);
    lemma_edge(0x1b_5972_8de5_5939, 12, 0x1000, 6, 0x40, 0xa5fe_d6a9_b151_02f6_eb46, 0xa5fe_d6a9_b151_6413_545d);
    lemma_edge(0x1b_6c6e_29f1_c52a, 12, 0x1000, 7, 0x80, 0xad58_3eea_42a1_2d49_7e40, 0xad58_3eea_42a1_926c_5eec);
    lemma_edge(0x1b_7f76_f2fb_5e46, 12, 0x1000, 8, 0x100, 0xb504_f333_f9de_03f8_8586, 0xb504_f333_f9de_6d4c_944e);
    lemma_edge(0x1b_928c_f227_49e3, 12, 0x1000, 9, 0x200, 0xbd08_a39f_580b_f817_7498, 0xbd08_a39f_580c_65c9_2d3f);
    lemma_edge(0x1b_a5b0_30a1_0649, 12, 0x1000, 10, 0x400, 0xc567_2a11_5506_9fef_c10c, 0xc567_2a11_5507_122d_775b);
    lemma_edge(0x1b_b8e0_b79a_6f1e, 12, 0x1000, 11, 0x800, 0xce24_8c15_1f84_0ad2_dafe, 0xce24_8c15_1f84_81cc_ce55);
    lemma_edge(0x1b_cc1e_904b_c1d2, 12, 0x1000, 12, 0x1000, 0xd744_fcca_d69d_594b_b35c, 0xd744_fcca_d69d_d534_2314);
    lemma_edge(0x1b_df69_c3f3_a206, 12, 0x1000, 13, 0x2000, 0xe0cc_deec_2a94_60e8_cd00, 0xe0cc_deec_2a94_e1f4_0da1);
    lemma_edge(0x1b_f2c2_5bd7_1e08, 12, 0x1000, 14, 0x4000, 0xeac0_c6e7_dd23_f3de_5137, 0xeac0_c6e7_dd24_7a42_e291);
    lemma_edge(0x1c_0628_6141_b33c, 12, 0x1000, 15, 0x8000, 0xf525_7d15_2486_6083_01a0, 0xf525_7d15_2486_ec79_a5d4);
}

/// Edges 208 to 223.
proof fn lemma_edges_d()
    by (nonlinear_arith)
    ensures
        is_edge(0xc_199b_dd85_529d, 208),
        is_edge(0xc_2d1c_d9fa_652c, 209),
        is_edge(0xc_40ab_5fff_d07b, 210),
        is_edge(0xc_5447_78fa_fb23, 211),
        is_edge(0xc_67f1_2e57_d14c, 212),
        is_edge(0xc_7ba8_8988_c933, 213),
        is_edge(0xc_8f6d_9406_e7b6, 214),
        is_edge(0xc_a340_5751_c4db, 215),
        is_edge(0xc_b720_dcef_906a, 216),
        is_edge(0xc_cb0f_2e6d_1675, 217),
        is_edge(0xc_df0b_555d_c3fa, 218),
        is_edge(0xc_f315_5b5b_ab74, 219),
        is_edge(0xd_072d_4a07_897c, 220),
        is_edge(0xd_1b53_2b08_c969, 221),
        is_edge(0xd_2f87_080d_89f2, 222),
        is_edge(0xd_43c8_eaca_a1d7, 223),
{
    lemma_edge(0x1c_199b_dd85_529c, 13, 0x2000, 0, 0x1, 0x7fff_ffff_ffff_f648_a8e8, 0x8000_0000_0000_3f2a_92a1);
    lemma_edge(0x1c_2d1c_d9fa_652b, 13, 0x2000, 1, 0x2, 0x85aa_c367_cc48_4a54_af8b, 0x85aa_c367_cc48_963b_f8b5);
    lemma_edge(0x1c_40ab_5fff_d07a, 13, 0x2000, 2, 0x4, 0x8b95_c1e3_ea8b_b538_1ff2, 0x8b95_c1e3_ea8c_0444_d6fd);
    lemma_edge(0x1c_5447_78fa_fb22, 13, 0x2000, 3, 0x8, 0x91c3_d373_ab11_ad1b_6150, 0x91c3_d373_ab11_ff6e_e8d5);
    lemma_edge(0x1c_67f1_2e57_d14b, 13, 0x2000, 4, 0x10, 0x9837_f051_8db8_909b_7c35, 0x9837_f051_8db8_e658_990f);
    lemma_edge(0x1c_7ba8_8988_c932, 13, 0x2000, 5, 0x20, 0x9ef5_3260_91a0_cda3_1afb, 0x9ef5_3260_91a1_26ee_02f5);
    lemma_edge(0x1c_8f6d_9406_e7b5, 13, 0x2000, 6, 0x40, 0xa5fe_d6a9_b151_327e_786f, 0xa5fe_d6a9_b151_8f7c_e190);
    lemma_edge(0x1c_a340_5751_c4da, 13, 0x2000, 7, 0x80, 0xad58_3eea_42a0_fc0b_cabd, 0xad58_3eea_42a1_5ce4_fb36);
    lemma_edge(0x1c_b720_dcef_9069, 13, 0x2000, 8, 0x100, 0xb504_f333_f9de_5c3c_bc54, 0xb504_f333_f9de_c119_9b16);
    lemma_edge(0x1c_cb0f_2e6d_1674, 13, 0x2000, 9, 0x200, 0xbd08_a39f_580b_d9a7_bfa8, 0xbd08_a39f_580c_42b2_e5a8);
    lemma_edge(0x1c_df0b_555d_c3f9, 13, 0x2000, 10, 0x400, 0xc567_2a11_5506_86f9_523e, 0xc567_2a11_5506_f45f_1c74);
    lemma_edge(0x1c_f315_5b5b_ab73, 13, 0x2000, 11, 0x800, 0xce24_8c15_1f84_3d4e_0fd5, 0xce24_8c15_1f84_af3c_b1fa);
    lemma_edge(0x1d_072d_4a07_897b, 13, 0x2000, 12, 0x1000, 0xd744_fcca_d69d_2992_e6e2, 0xd744_fcca_d69d_a03a_7ef1);
    lemma_edge(0x1d_1b53_2b08_c968, 13, 0x2000, 13, 0x2000, 0xe0cc_deec_2a94_b7de_70cb, 0xe0cc_deec_2a95_3371_1b52);
    lemma_edge(0x1d_2f87_080d_89f1, 13, 0x2000, 14, 0x4000, 0xeac0_c6e7_dd23_f35f_42cc, 0xeac0_c6e7_dd24_7411_301b);
    lemma_edge(0x1d_43c8_eaca_a1d6, 13, 0x2000, 15, 0x8000, 0xf525_7d15_2486_a296_ed68, 0xf525_7d15_2487_289e_7796);
}

/// Edges 224 to 239.
proof fn lemma_edges_e()
    by (nonlinear_arith)
    ensures
        is_edge(0xd_5818_dcfb_a488, 224),
        is_edge(0xd_6c76_e862_e6d4, 225),
        is_edge(0xd_80e3_16c9_8398, 226),
        is_edge(0xd_955d_71ff_6076, 227),
        is_edge(0xd_a9e6_03db_3286, 228),
        is_edge(0xd_be7c_d63a_8315, 229),
        is_edge(0xd_d321_f301_b461, 230),
        is_edge(0xd_e7d5_641c_0658, 231),
        is_edge(0xd_fc97_337b_9b5f, 232),
        is_edge(0xe_1167_6b19_7d17, 233),
        is_edge(0xe_2646_14f5_a129, 234),
        is_edge(0xe_3b33_3b16_ee12, 235),
        is_edge(0xe_502e_e78b_3ff7, 236),
        is_edge(0xe_6539_2467_6d76, 237),
        is_edge(0xe_7a51_fbc7_4c84, 238),
        is_edge(0xe_8f79_77cd_b740, 239),
{
    lemma_edge(0x1d_5818_dcfb_a487, 14, 0x4000, 0, 0x1, 0x7fff_ffff_ffff_f5ae_3d2d, 0x8000_0000_0000_3b79_1e1e);
    lemma_edge(0x1d_6c76_e862_e6d3, 14, 0x4000, 1, 0x2, 0x85aa_c367_cc48_78d0_f584, 0x85aa_c367_cc48_c180_6c0d);
    lemma_edge(0x1d_80e3_16c9_8397, 14, 0x4000, 2, 0x4, 0x8b95_c1e3_ea8b_9f74_189a, 0x8b95_c1e3_ea8b_eb26_d73e);
    lemma_edge(0x1d_955d_71ff_6075, 14, 0x4000, 3, 0x8, 0x91c3_d373_ab11_a328_bf32, 0x91c3_d373_ab11_f1fe_be31);
    lemma_edge(0x1d_a9e6_03db_3285, 14, 0x4000, 4, 0x10, 0x9837_f051_8db8_8556_c2e4, 0x9837_f051_8db8_d771_4dba);
    lemma_edge(0x1d_be7c_d63a_8314, 14, 0x4000, 5, 0x20, 0x9ef5_3260_91a0_e0dd_8591, 0x9ef5_3260_91a1_365f_4908);
    lemma_edge(0x1d_d321_f301_b460, 14, 0x4000, 6, 0x40, 0xa5fe_d6a9_b151_1eae_9f70, 0xa5fe_d6a9_b151_77bb_b842);
    lemma_edge(0x1d_e7d5_641c_0657, 14, 0x4000, 7, 0x80, 0xad58_3eea_42a1_178a_f566, 0xad58_3eea_42a1_7448_ff80);
    lemma_edge(0x1d_fc97_337b_9b5e, 14, 0x4000, 8, 0x100, 0xb504_f333_f9de_1e90_4e3f, 0xb504_f333_f9de_7f26_74a3);
    lemma_edge(0x1e_1167_6b19_7d16, 14, 0x4000, 9, 0x200, 0xbd08_a39f_580b_d981_6956, 0xbd08_a39f_580c_3e18_76a3);
    lemma_edge(0x1e_2646_14f5_a128, 14, 0x4000, 10, 0x400, 0xc567_2a11_5506_98ea_d836, 0xc567_2a11_5507_01ad_47e6);
    lemma_edge(0x1e_3b33_3b16_ee11, 14, 0x4000, 11, 0x800, 0xce24_8c15_1f84_4009_0b87, 0xce24_8c15_1f84_ad23_1bdd);
    lemma_edge(0x1e_502e_e78b_3ff6, 14, 0x4000, 12, 0x1000, 0xd744_fcca_d69d_5989_c72d, 0xd744_fcca_d69d_cb29_8be6);
    lemma_edge(0x1e_6539_2467_6d75, 14, 0x4000, 13, 0x2000, 0xe0cc_deec_2a94_7f4d_6491, 0xe0cc_deec_2a94_f5a2_da58);
    lemma_edge(0x1e_7a51_fbc7_4c83, 14, 0x4000, 14, 0x4000, 0xeac0_c6e7_dd24_14eb_348c, 0xeac0_c6e7_dd24_9028_5542);
    lemma_edge(0x1e_8f79_77cd_b73f, 14, 0x4000, 15, 0x8000, 0xf525_7d15_2486_6dfc_7209, 0xf525_7d15_2486_ee55_49db);
}

/// Edges 240 to 255.
proof fn lemma_edges_f()
    by (nonlinear_arith)
    ensures
        is_edge(0xe_a4af_a2a4_90da, 240),
        is_edge(0xe_b9f4_867c_ca6f, 241),
        is_edge(0xe_cf48_2d8e_67f1, 242),
        is_edge(0xe_e4aa_a218_8511, 243),
        is_edge(0xe_fa1b_ee61_5a28, 244),
        is_edge(0xf_0f9c_1cb6_412a, 245),
        is_edge(0xf_252b_376b_ba98, 246),
        is_edge(0xf_3ac9_48dd_7274, 247),
        is_edge(0xf_5076_5b6e_4541, 248),
        is_edge(0xf_6632_7988_44f9, 249),
        is_edge(0xf_7bfd_ad9c_be14, 250),
        is_edge(0xf_91d8_0224_3c89, 251),
        is_edge(0xf_a7c1_819e_90d9, 252),
        is_edge(0xf_bdba_3692_d514, 253),
        is_edge(0xf_d3c2_2b8f_71f2, 254),
        is_edge(0xf_e9d9_6b2a_23da, 255),
{
    lemma_edge(0x1e_a4af_a2a4_90d9, 15, 0x8000, 0, 0x1, 0x7fff_ffff_ffff_dd21_b0dc, 0x8000_0000_0000_1ff7_128f);
    lemma_edge(0x1e_b9f4_867c_ca6e, 15, 0x8000, 1, 0x2, 0x85aa_c367_cc48_64c5_ccbc, 0x85aa_c367_cc48_aa60_5e0d);
    lemma_edge(0x1e_cf48_2d8e_67f0, 15, 0x8000, 2, 0x4, 0x8b95_c1e3_ea8b_aec8_29d9, 0x8b95_c1e3_ea8b_f745_501e);
    lemma_edge(0x1e_e4aa_a218_8510, 15, 0x8000, 3, 0x8, 0x91c3_d373_ab11_ae3e_4a60, 0x91c3_d373_ab11_f9bc_a2dc);
    lemma_edge(0x1e_fa1b_ee61_5a27, 15, 0x8000, 4, 0x10, 0x9837_f051_8db8_84d9_6542, 0x9837_f051_8db8_d378_d215);
    lemma_edge(0x1f_0f9c_1cb6_4129, 15, 0x8000, 5, 0x20, 0x9ef5_3260_91a0_d846_6d4b, 0x9ef5_3260_91a1_2a28_22e4);
    lemma_edge(0x1f_252b_376b_ba97, 15, 0x8000, 6, 0x40, 0xa5fe_d6a9_b151_1ec1_c6ab, 0xa5fe_d6a9_b151_7408_59d3);
    lemma_edge(0x1f_3ac9_48dd_7273, 15, 0x8000, 7, 0x80, 0xad58_3eea_42a0_fac2_6faa, 0xad58_3eea_42a1_5391_e41d);
    lemma_edge(0x1f_5076_5b6e_4540, 15, 0x8000, 8, 0x100, 0xb504_f333_f9de_3f30_fcf2, 0xb504_f333_f9de_9bae_d495);
    lemma_edge(0x1f_6632_7988_44f8, 15, 0x8000, 9, 0x200, 0xbd08_a39f_580c_0720_42be, 0xbd08_a39f_580c_6773_8d75);
    lemma_edge(0x1f_7bfd_ad9c_be13, 15, 0x8000, 10, 0x400, 0xc567_2a11_5506_a525_f267, 0xc567_2a11_5507_0977_5e94);
    lemma_edge(0x1f_91d8_0224_3c88, 15, 0x8000, 11, 0x800, 0xce24_8c15_1f84_1beb_8832, 0xce24_8c15_1f84_8465_73e7);
    lemma_edge(0x1f_a7c1_819e_90d8, 15, 0x8000, 12, 0x1000, 0xd744_fcca_d69d_5729_a127, 0xd744_fcca_d69d_c3f8_2c08);
    lemma_edge(0x1f_bdba_3692_d513, 15, 0x8000, 13, 0x2000, 0xe0cc_deec_2a94_7afe_9ef4, 0xe0cc_deec_2a94_ec4f_bcd7);
    lemma_edge(0x1f_d3c2_2b8f_71f1, 15, 0x8000, 14, 0x4000, 0xeac0_c6e7_dd24_34d2_6abe, 0xeac0_c6e7_dd24_aad5_f719);
    lemma_edge(0x1f_e9d9_6b2a_23d9, 15, 0x8000, 15, 0x8000, 0xf525_7d15_2486_c242_ab39, 0xf525_7d15_2487_3d2a_7d52);
}

/// Edges 0 to 15.
fn edges_0(low: u32) -> (r: u64)
    requires
        low < 16,
    ensures
        is_edge(r as int, 0 + low),
{
    proof {
        lemma_edges_0();
    }
    match low {
        0 => 0x1,
        1 => 0xb1a_fa5a_bcbf,
        2 => 0x163d_a9fb_3336,
        3 => 0x2168_143b_0281,
        4 => 0x2c9a_3e77_8061,
        5 => 0x37d4_2e11_bbcd,
        6 => 0x4315_e86e_7f85,
        7 => 0x4e5f_72f6_54b2,
        8 => 0x59b0_d315_8575,
        9 => 0x650a_0e3c_1f89,
        10 => 0x706b_29dd_f6de,
        11 => 0x7bd4_2b72_a837,
        12 => 0x8745_1875_9bc9,
        13 => 0x92bd_f666_07e0,
        14 => 0x9e3e_cac6_f384,
        _ => 0xa9c7_9b1f_391a,
    }
}

/// Edges 16 to 31.
fn edges_1(low: u32) -> (r: u64)
    requires
        low < 16,
    ensures
        is_edge(r as int, 16 + low),
{
    proof {
        lemma_edges_1();
    }
    match low {
        0 => 0xb558_6cf9_8910,
        1 => 0xc0f1_45e4_6c86,
        2 => 0xcc92_2b72_47f8,
        3 => 0xd83b_2339_5dec,
        4 => 0xe3ec_32d3_d1a3,
        5 => 0xefa5_5fdf_a9c5,
        6 => 0xfb66_affe_d31b,
        7 => 0x1_0730_28d7_233f,
        8 => 0x1_1301_d012_5b51,
        9 => 0x1_1edb_ab5e_2ab6,
        10 => 0x1_2abd_c06c_31cc,
        11 => 0x1_36a8_14f2_04ab,
        12 => 0x1_429a_aea9_2de0,
        13 => 0x1_4e95_934f_312e,
        14 => 0x1_5a98_c8a5_8e52,
        _ => 0x1_66a4_5471_c3c3,
    }
}

/// Edges 32 to 47.
fn edges_2(low: u32) -> (r: u64)
    requires
        low < 16,
    ensures
        is_edge(r as int, 32 + low),
{
    proof {
        lemma_edges_2();
    }
    match low {
        0 => 0x1_72b8_3c7d_517b,
        1 => 0x1_7ed4_8695_bbc1,
        2 => 0x1_8af9_388c_8dea,
        3 => 0x1_9726_5837_5d30,
        4 => 0x1_a35b_eb6f_cb76,
        5 => 0x1_af99_f813_8a1d,
        6 => 0x1_bbe0_8404_5cd4,
        7 => 0x1_c82f_9528_1c6c,
        8 => 0x1_d487_3168_b9ab,
        9 => 0x1_e0e7_5eb4_4027,
        10 => 0x1_ed50_22fc_d91d,
        11 => 0x1_f9c1_8438_ce4d,
        12 => 0x2_063b_8862_8cd7,
        13 => 0x2_12be_3578_a81a,
        14 => 0x2_1f49_917d_dc97,
        _ => 0x2_2bdd_a279_12d2,
    }
}

/// Edges 48 to 63.
fn edges_3(low: u32) -> (r: u64)
    requires
        low < 16,
    ensures
        is_edge(r as int, 48 + low),
{
    proof {
        lemma_edges_3();
    }
    match low {
        0 => 0x2_387a_6e75_6239,
        1 => 0x2_451f_fb82_140b,
        2 => 0x2_51ce_4fb2_a640,
        3 => 0x2_5e85_711e_ce76,
        4 => 0x2_6b45_65e2_7cde,
        5 => 0x2_780e_341d_df2a,
        6 => 0x2_84df_e1f5_6381,
        7 => 0x2_91ba_7591_bb70,
        8 => 0x2_9e9d_f51f_dee2,
        9 => 0x2_ab8a_66d1_0f13,
        10 => 0x2_b87f_d0da_d990,
        11 => 0x2_c57e_3977_1b2f,
        12 => 0x2_d285_a6e4_030c,
        13 => 0x2_df96_1f64_158a,
        14 => 0x2_ecaf_a93e_2f57,
        _ => 0x2_f9d2_4abd_886b,
    }
}

/// Edges 64 to 79.
fn edges_4(low: u32) -> (r: u64)
    requires
        low < 16,
    ensures
        is_edge(r as int, 64 + low),
{
    proof {
        lemma_edges_4();
    }
    match low {
        0 => 0x3_06fe_0a31_b716,
        1 => 0x3_1432_edee_b2fe,
        2 => 0x3_2170_fc4c_d832,
        3 => 0x3_2eb8_3ba8_ea32,
        4 => 0x3_3c08_b264_1700,
        5 => 0x3_4962_66e3_fa2d,
        6 => 0x3_56c5_5f92_9ff1,
        7 => 0x3_6431_a2de_883b,
        8 => 0x3_71a7_373a_a9cb,
        9 => 0x3_7f26_231e_754a,
        10 => 0x3_8cae_6d05_d866,
        11 => 0x3_9a40_1b71_40ef,
        12 => 0x3_a7db_34e5_9ff7,
        13 => 0x3_b57f_bfec_6cf5,
        14 => 0x3_c32d_c313_a8e5,
        _ => 0x3_d0e5_44ed_e174,
    }
}

/// Edges 80 to 95.
fn edges_5(low: u32) -> (r: u64)
    requires
        low < 16,
    ensures
        is_edge(r as int, 80 + low),
{
    proof {
        lemma_edges_5();
    }
    match low {
        0 => 0x3_dea6_4c12_3423,
        1 => 0x3_ec70_df1c_5175,
        2 => 0x3_fa45_04ac_801c,
        3 => 0x4_0822_c367_a025,
        4 => 0x4_160a_21f7_2e2a,
        5 => 0x4_23fb_2709_468a,
        6 => 0x4_31f5_d950_a897,
        7 => 0x4_3ffa_3f84_b9d5,
        8 => 0x4_4e08_6061_892e,
        9 => 0x4_5c20_42a7_d232,
        10 => 0x4_6a41_ed1d_0058,
        11 => 0x4_786d_668b_3237,
        12 => 0x4_86a2_b5c1_3cd1,
        13 => 0x4_94e1_e192_aed2,
        14 => 0x4_a32a_f0d7_d3df,
        _ => 0x4_b17d_ea6d_b7d7,
    }
}

/// Edges 96 to 111.
fn edges_6(low: u32) -> (r: u64)
    requires
        low < 16,
    ensures
        is_edge(r as int, 96 + low),
{
    proof {
        lemma_edges_6();
    }
    match low {
        0 => 0x4_bfda_d536_2a28,
        1 => 0x4_ce41_b817_c115,
        2 => 0x4_dcb2_99fd_dd0e,
        3 => 0x4_eb2d_81d8_abff,
        4 => 0x4_f9b2_769d_2ca7,
        5 => 0x5_0841_7f45_31ef,
        6 => 0x5_16da_a2cf_6642,
        7 => 0x5_257d_e83f_4eef,
        8 => 0x5_342b_569d_4f82,
        9 => 0x5_42e2_f4f6_ad28,
        10 => 0x5_51a4_ca5d_920f,
        11 => 0x5_6070_dde9_10d2,
        12 => 0x5_6f47_36b5_27db,
        13 => 0x5_7e27_dbe2_c4cf,
        14 => 0x5_8d12_d497_c7fe,
        _ => 0x5_9c08_27ff_07cc,
    }
}

/// Edges 112 to 127.
fn edges_7(low: u32) -> (r: u64)
    requires
        low < 16,
    ensures
        is_edge(r as int, 112 + low),
{
    proof {
        lemma_edges_7();
    }
    match low {
        0 => 0x5_ab07_dd48_542a,
        1 => 0x5_ba11_fba8_7a03,
        2 => 0x5_c926_8a59_46b8,
        3 => 0x5_d845_9099_8b93,
        4 => 0x5_e76f_15ad_2149,
        5 => 0x5_f6a3_20dc_eb71,
        6 => 0x6_05e1_b976_dc09,
        7 => 0x6_152a_e6cd_f6f5,
        8 => 0x6_247e_b03a_5585,
        9 => 0x6_33dd_1d19_29fe,
        10 => 0x6_4346_34cc_c320,
        11 => 0x6_52b9_febc_8fb7,
        12 => 0x6_6238_8255_2225,
        13 => 0x6_71c1_c708_33f6,
        14 => 0x6_8155_d44c_a974,
        _ => 0x6_90f4_b19e_9539,
    }
}

/// Edges 128 to 143.
fn edges_8(low: u32) -> (r: u64)
    requires
        low < 16,
    ensures
        is_edge(r as int, 128 + low),
{
    proof {
        lemma_edges_8();
    }
    match low {
        0 => 0x6_a09e_667f_3bcd,
        1 => 0x6_b052_fa75_173f,
        2 => 0x6_c012_750b_dabf,
        3 => 0x6_cfdc_ddd4_7646,
        4 => 0x6_dfb2_3c65_1a2f,
        5 => 0x6_ef92_9859_3ae5,
        6 => 0x6_ff7d_f951_9484,
        7 => 0x7_0f74_66f4_2e88,
        8 => 0x7_1f75_e8ec_5f74,
        9 => 0x7_2f82_86ea_d08a,
        10 => 0x7_3f9a_48a5_8174,
        11 => 0x7_4fbd_35d7_cbfe,
        12 => 0x7_5feb_5642_67c9,
        13 => 0x7_7024_b1ab_6e0a,
        14 => 0x7_8069_4fde_5d40,
        _ => 0x7_90b9_38ac_1cf7,
    }
}

/// Edges 144 to 159.
fn edges_9(low: u32) -> (r: u64)
    requires
        low < 16,
    ensures
        is_edge(r as int, 144 + low),
{
    proof {
        lemma_edges_9();
    }
    match low {
        0 => 0x7_a114_73eb_0187,
        1 => 0x7_b17b_0976_cfdb,
        2 => 0x7_c1ed_0130_c133,
        3 => 0x7_d26a_62ff_86f1,
        4 => 0x7_e2f3_36cf_4e63,
        5 => 0x7_f387_8491_c491,
        6 => 0x8_0427_543e_1a12,
        7 => 0x8_14d2_add1_06da,
        8 => 0x8_2589_994c_ce13,
        9 => 0x8_364c_1eb9_41f8,
        10 => 0x8_471a_4623_c7ad,
        11 => 0x8_57f4_179f_5b21,
        12 => 0x8_68d9_9b44_92ed,
        13 => 0x8_79ca_d931_a437,
        14 => 0x8_8ac7_d98a_669a,
        _ => 0x8_9bd0_a478_5810,
    }
}

/// Edges 160 to 175.
fn edges_a(low: u32) -> (r: u64)
    requires
        low < 16,
    ensures
        is_edge(r as int, 160 + low),
{
    proof {
        lemma_edges_a();
    }
    match low {
        0 => 0x8_ace5_422a_a0dc,
        1 => 0x8_be05_bad6_1779,
        2 => 0x8_cf32_16b5_448c,
        3 => 0x8_e06a_5e08_66d9,
        4 => 0x8_f1ae_9915_7737,
        5 => 0x9_02fe_d028_2c8b,
        6 => 0x9_145b_0b91_ffc6,
        7 => 0x9_25c3_53aa_2fe2,
        8 => 0x9_3737_b0cd_c5e5,
        9 => 0x9_48b8_2b5f_98e5,
        10 => 0x9_5a44_cbc8_520f,
        11 => 0x9_6bdd_9a76_70b3,
        12 => 0x9_7d82_9fde_4e50,
        13 => 0x9_8f33_e47a_22a3,
        14 => 0x9_a0f1_70ca_07ba,
        _ => 0x9_b2bb_4d53_fe0d,
    }
}

/// Edges 176 to 191.
fn edges_b(low: u32) -> (r: u64)
    requires
        low < 16,
    ensures
        is_edge(r as int, 176 + low),
{
    proof {
        lemma_edges_b();
    }
    match low {
        0 => 0x9_c491_82a3_f091,
        1 => 0x9_d674_194b_b8d5,
        2 => 0x9_e863_19e3_2324,
        3 => 0x9_fa5e_8d07_f29e,
        4 => 0xa_0c66_7b5d_e565,
        5 => 0xa_1e7a_ed8e_b8bc,
        6 => 0xa_309b_ec4a_2d34,
        7 => 0xa_42c9_8046_0ad8,
        8 => 0xa_5503_b23e_255d,
        9 => 0xa_674a_8af4_6053,
        10 => 0xa_799e_1330_b359,
        11 => 0xa_8bfe_53c1_2e59,
        12 => 0xa_9e6b_5579_fdc0,
        13 => 0xa_b0e5_2135_6ebb,
        14 => 0xa_c36b_bfd3_f37a,
        _ => 0xa_d5ff_3a3c_2775,
    }
}

/// Edges 192 to 207.
fn edges_c(low: u32) -> (r: u64)
    requires
        low < 16,
    ensures
        is_edge(r as int, 192 + low),
{
    proof {
        lemma_edges_c();
    }
    match low {
        0 => 0xa_e89f_995a_d3ae,
        1 => 0xa_fb4c_e622_f2ff,
        2 => 0xb_0e07_298d_b666,
        3 => 0xb_20ce_6c9a_8953,
        4 => 0xb_33a2_b84f_15fb,
        5 => 0xb_4684_15b7_49b1,
        6 => 0xb_5972_8de5_593a,
        7 => 0xb_6c6e_29f1_c52b,
        8 => 0xb_7f76_f2fb_5e47,
        9 => 0xb_928c_f227_49e4,
        10 => 0xb_a5b0_30a1_064a,
        11 => 0xb_b8e0_b79a_6f1f,
        12 => 0xb_cc1e_904b_c1d3,
        13 => 0xb_df69_c3f3_a207,
        14 => 0xb_f2c2_5bd7_1e09,
        _ => 0xc_0628_6141_b33d,
    }
}

/// Edges 208 to 223.
fn edges_d(low: u32) -> (r: u64)
    requires
        low < 16,
    ensures
        is_edge(r as int, 208 + low),
{
    proof {
        lemma_edges_d();
    }
    match low {
        0 => 0xc_199b_dd85_529d,
        1 => 0xc_2d1c_d9fa_652c,
        2 => 0xc_40ab_5fff_d07b,
        3 => 0xc_5447_78fa_fb23,
        4 => 0xc_67f1_2e57_d14c,
        5 => 0xc_7ba8_8988_c933,
        6 => 0xc_8f6d_9406_e7b6,
        7 => 0xc_a340_5751_c4db,
        8 => 0xc_b720_dcef_906a,
        9 => 0xc_cb0f_2e6d_1675,
        10 => 0xc_df0b_555d_c3fa,
        11 => 0xc_f315_5b5b_ab74,
        12 => 0xd_072d_4a07_897c,
        13 => 0xd_1b53_2b08_c969,
        14 => 0xd_2f87_080d_89f2,
        _ => 0xd_43c8_eaca_a1d7,
    }
}

/// Edges 224 to 239.
fn edges_e(low: u32) -> (r: u64)
    requires
        low < 16,
    ensures
        is_edge(r as int, 224 + low),
{
    proof {
        lemma_edges_e();
    }
    match low {
        0 => 0xd_5818_dcfb_a488,
        1 => 0xd_6c76_e862_e6d4,
        2 => 0xd_80e3_16c9_8398,
        3 => 0xd_955d_71ff_6076,
        4 => 0xd_a9e6_03db_3286,
        5 => 0xd_be7c_d63a_8315,
        6 => 0xd_d321_f301_b461,
        7 => 0xd_e7d5_641c_0658,
        8 => 0xd_fc97_337b_9b5f,
        9 => 0xe_1167_6b19_7d17,
        10 => 0xe_2646_14f5_a129,
        11 => 0xe_3b33_3b16_ee12,
        12 => 0xe_502e_e78b_3ff7,
        13 => 0xe_6539_2467_6d76,
        14 => 0xe_7a51_fbc7_4c84,
        _ => 0xe_8f79_77cd_b740,
    }
}

/// Edges 240 to 255.
fn edges_f(low: u32) -> (r: u64)
    requires
        low < 16,
    ensures
        is_edge(r as int, 240 + low),
{
    proof {
        lemma_edges_f();
    }
    match low {
        0 => 0xe_a4af_a2a4_90da,
        1 => 0xe_b9f4_867c_ca6f,
        2 => 0xe_cf48_2d8e_67f1,
        3 => 0xe_e4aa_a218_8511,
        4 => 0xe_fa1b_ee61_5a28,
        5 => 0xf_0f9c_1cb6_412a,
        6 => 0xf_252b_376b_ba98,
        7 => 0xf_3ac9_48dd_7274,
        8 => 0xf_5076_5b6e_4541,
        9 => 0xf_6632_7988_44f9,
        10 => 0xf_7bfd_ad9c_be14,
        11 => 0xf_91d8_0224_3c89,
        12 => 0xf_a7c1_819e_90d9,
        13 => 0xf_bdba_3692_d514,
        14 => 0xf_d3c2_2b8f_71f2,
        _ => 0xf_e9d9_6b2a_23da,
    }
}

/// The least significand above the upper edge of bucket `k`: the least `s` for which
/// `1 + s / 2^52` exceeds `2^(k / 256)`.
pub fn edge(k: u32) -> (r: u64)
    requires
        k < 256,
    ensures
        is_edge(r as int, k as int),
{
    let low: u32 = k % 16;
    match k / 16 {
        0 => edges_0(low),
        1 => edges_1(low),
        2 => edges_2(low),
        3 => edges_3(low),
        4 => edges_4(low),
        5 => edges_5(low),
        6 => edges_6(low),
        7 => edges_7(low),
        8 => edges_8(low),
        9 => edges_9(low),
        10 => edges_a(low),
        11 => edges_b(low),
        12 => edges_c(low),
        13 => edges_d(low),
        14 => edges_e(low),
        _ => edges_f(low),
    }
}

} // verus!
