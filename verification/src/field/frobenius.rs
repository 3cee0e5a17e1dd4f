//! The Frobenius map `a ↦ a²` of GF(2^128), the trace, and inverses.
//!
//! Squaring is additive, so it can be written as a fixed rewiring of bits
//! ([`square_bits`]). In that form it is decided by computation that 128 squarings
//! bring `x` back to `x`, that nothing but 0 and 1 is its own square, and that
//! `x^121` has trace 1. The rest is algebra: every nonzero residue is invertible,
//! `t² + t = a` has a solution exactly where `a` has trace 0, and no power of `x`
//! below `x^121` has trace 1.

use crate::field::residue;
use vstd::prelude::*;

verus! {

// ---------------------------------------------------------------------------
// Squaring as a rewiring of bits.
// ---------------------------------------------------------------------------

/// Moves bit `i` of the low 64 bits of `a` to bit `2i`.
pub open spec fn spread(a: u128) -> u128 {
    let a1 = (a | (a << 32u128)) & 0x00000000ffffffff_00000000ffffffffu128;
    let a2 = (a1 | (a1 << 16u128)) & 0x0000ffff0000ffff_0000ffff0000ffffu128;
    let a3 = (a2 | (a2 << 8u128)) & 0x00ff00ff00ff00ff_00ff00ff00ff00ffu128;
    let a4 = (a3 | (a3 << 4u128)) & 0x0f0f0f0f0f0f0f0f_0f0f0f0f0f0f0f0fu128;
    let a5 = (a4 | (a4 << 2u128)) & 0x3333333333333333_3333333333333333u128;
    (a5 | (a5 << 1u128)) & 0x5555555555555555_5555555555555555u128
}

/// `x^128 · h`: multiplication by `x^7 + x^2 + x + 1`, the overflow folded again.
pub open spec fn fold_high(h: u128) -> u128 {
    let o = (h >> 127u128) ^ (h >> 126u128) ^ (h >> 121u128);
    h ^ (h << 1u128) ^ (h << 2u128) ^ (h << 7u128) ^ o ^ (o << 1u128) ^ (o << 2u128) ^ (o << 7u128)
}

/// `a²`, as bits.
pub open spec fn square_bits(a: u128) -> u128 {
    spread(a & 0xffff_ffff_ffff_ffffu128) ^ fold_high(spread(a >> 64u128))
}

proof fn lemma_square_bits_linear(a: u128, b: u128)
    by (bit_vector)
    ensures
        square_bits(a ^ b) == square_bits(a) ^ square_bits(b),
        square_bits(residue::mul_x(a)) == residue::mul_x(residue::mul_x(square_bits(a))),
        square_bits(1u128) == 1u128,
        square_bits(0u128) == 0u128,
{
}

proof fn lemma_square_bits_terms(a: u128, n: nat)
    requires
        n <= 128,
    ensures
        residue::product(residue::low_terms(a, n as int), residue::low_terms(a, n as int))
            == square_bits(residue::low_terms(a, n as int)),
    decreases n,
{
    lemma_square_bits_linear(0, 0);
    if n == 0 {
        residue::lemma_low_terms_step(a, 0);
        residue::lemma_mul_units(0);
    } else {
        let m = (n - 1) as nat;
        lemma_square_bits_terms(a, m);
        residue::lemma_low_terms_step(a, m as int);
        let l = residue::low_terms(a, m as int);
        let p = residue::gate(residue::coeff(a, m as int), 1u128 << (m as u128));
        lemma_square_add(l, p);
        lemma_square_bits_linear(l, p);
        residue::lemma_mul_units(0);
        residue::lemma_mul_x_pow_one(m);
        lemma_square_bits_power(m);
    }
}

proof fn lemma_square_bits_power(k: nat)
    ensures
        residue::product(residue::mul_x_pow(1, k), residue::mul_x_pow(1, k)) == square_bits(
            residue::mul_x_pow(1, k),
        ),
    decreases k,
{
    if k == 0 {
        residue::lemma_mul_units(1);
        lemma_square_bits_linear(0, 0);
    } else {
        let p = residue::mul_x_pow(1, (k - 1) as nat);
        lemma_square_bits_power((k - 1) as nat);
        lemma_square_bits_linear(p, 0);
        residue::lemma_mul_by_x(residue::mul_x(p), p);
        residue::lemma_mul_by_x(p, p);
    }
}

/// `(a + b)² = a² + b²`.
pub proof fn lemma_square_add(a: u128, b: u128)
    ensures
        residue::product(a ^ b, a ^ b) == residue::product(a, a) ^ residue::product(b, b),
{
    residue::lemma_mul_distributes(a ^ b, a, b);
    residue::lemma_mul_distributes(a, a, b);
    residue::lemma_mul_distributes(b, a, b);
    residue::lemma_mul_commutes(a, b);
    let (s, t, c) = (residue::product(a, a), residue::product(b, b), residue::product(a, b));
    lemma_xor_cancel(s, t, c);
}

proof fn lemma_xor_cancel(s: u128, t: u128, c: u128)
    by (bit_vector)
    ensures
        (s ^ c) ^ (c ^ t) == s ^ t,
{
}

/// The rewiring computes the square.
pub proof fn lemma_square_bits(a: u128)
    ensures
        residue::product(a, a) == square_bits(a),
{
    lemma_square_bits_terms(a, 128);
}

// ---------------------------------------------------------------------------
// Sixteen squarings at a time.
// ---------------------------------------------------------------------------

/// `a^(2^16)`, as bits.
pub open spec fn square_16(a: u128) -> u128 {
    let a1 = square_bits(a);
    let a2 = square_bits(a1);
    let a3 = square_bits(a2);
    let a4 = square_bits(a3);
    let a5 = square_bits(a4);
    let a6 = square_bits(a5);
    let a7 = square_bits(a6);
    let a8 = square_bits(a7);
    let a9 = square_bits(a8);
    let a10 = square_bits(a9);
    let a11 = square_bits(a10);
    let a12 = square_bits(a11);
    let a13 = square_bits(a12);
    let a14 = square_bits(a13);
    let a15 = square_bits(a14);
    square_bits(a15)
}

/// `Σ_{i < 16} a^(2^i)`, as bits.
pub open spec fn trace_16(a: u128) -> u128 {
    let a1 = square_bits(a);
    let a2 = square_bits(a1);
    let a3 = square_bits(a2);
    let a4 = square_bits(a3);
    let a5 = square_bits(a4);
    let a6 = square_bits(a5);
    let a7 = square_bits(a6);
    let a8 = square_bits(a7);
    let a9 = square_bits(a8);
    let a10 = square_bits(a9);
    let a11 = square_bits(a10);
    let a12 = square_bits(a11);
    let a13 = square_bits(a12);
    let a14 = square_bits(a13);
    let a15 = square_bits(a14);
    a ^ a1 ^ a2 ^ a3 ^ a4 ^ a5 ^ a6 ^ a7 ^ a8 ^ a9 ^ a10 ^ a11 ^ a12 ^ a13 ^ a14 ^ a15
}

proof fn lemma_generator_orbit()
    by (bit_vector)
    ensures
        square_16(0x00000000000000000000000000000002u128) == 0x1001001111110961118fe6196978ef70u128,
        square_16(0x1001001111110961118fe6196978ef70u128) == 0x782d0a995dd3b01821777af80695052au128,
        square_16(0x782d0a995dd3b01821777af80695052au128) == 0xe316b61772920218fe1d7816d9eb81fdu128,
        square_16(0xe316b61772920218fe1d7816d9eb81fdu128) == 0x61651fea6b5832b944e598a795a299f6u128,
        square_16(0x61651fea6b5832b944e598a795a299f6u128) == 0x79a3d532b4dca977042a87c2811ee47au128,
        square_16(0x79a3d532b4dca977042a87c2811ee47au128) == 0x40e2dfc1450698cadca8758ed620dd7bu128,
        square_16(0x40e2dfc1450698cadca8758ed620dd7bu128) == 0xc77a431b17442dc246bdf85b5f5764d5u128,
        square_16(0xc77a431b17442dc246bdf85b5f5764d5u128) == 0x00000000000000000000000000000002u128,
{
}

proof fn lemma_beta_orbit()
    by (bit_vector)
    ensures
        square_16(0x02000000000000000000000000000000u128) == 0x3ad713df46a560f83b0e5e557bdd9142u128,
        square_16(0x3ad713df46a560f83b0e5e557bdd9142u128) == 0xf4250a754fcadda77e9cfec04f7f4188u128,
        square_16(0xf4250a754fcadda77e9cfec04f7f4188u128) == 0x222c671d6ba5bc81dcd08e8f9dc8073eu128,
        square_16(0x222c671d6ba5bc81dcd08e8f9dc8073eu128) == 0x3e7d2d6dabab01d3d982b80783d98d6au128,
        square_16(0x3e7d2d6dabab01d3d982b80783d98d6au128) == 0x53ec55b158988e5ac70b37462b267d37u128,
        square_16(0x53ec55b158988e5ac70b37462b267d37u128) == 0x0b0b5c4502651b80470db7fd22184f1au128,
        square_16(0x0b0b5c4502651b80470db7fd22184f1au128) == 0xd0638123efcd9b5d462793999718b199u128,
        square_16(0xd0638123efcd9b5d462793999718b199u128) == 0x02000000000000000000000000000000u128,
        trace_16(0x02000000000000000000000000000000u128) == 0x21158848b668704e3b69539fd1809fe1u128,
        trace_16(0x3ad713df46a560f83b0e5e557bdd9142u128) == 0x3dfb54a9a62d043e97bcc5a328c16529u128,
        trace_16(0xf4250a754fcadda77e9cfec04f7f4188u128) == 0xbb5ef0ae5a58c2877299f6e321cb9924u128,
        trace_16(0x222c671d6ba5bc81dcd08e8f9dc8073eu128) == 0xe3f02076c8015c03d592630690f1ccdbu128,
        trace_16(0x3e7d2d6dabab01d3d982b80783d98d6au128) == 0xc72d5cb66cb0cbbe4f5f947d6b87c0eau128,
        trace_16(0x53ec55b158988e5ac70b37462b267d37u128) == 0x054d05c747732b2dfff27c263772174eu128,
        trace_16(0x0b0b5c4502651b80470db7fd22184f1au128) == 0x3d56315876625307e15c0b34149ae163u128,
        trace_16(0xd0638123efcd9b5d462793999718b199u128) == 0xbb766410dfbd59605a2fe0b6001499f1u128,
        0x21158848b668704e3b69539fd1809fe1u128
            ^ 0x3dfb54a9a62d043e97bcc5a328c16529u128
            ^ 0xbb5ef0ae5a58c2877299f6e321cb9924u128
            ^ 0xe3f02076c8015c03d592630690f1ccdbu128
            ^ 0xc72d5cb66cb0cbbe4f5f947d6b87c0eau128
            ^ 0x054d05c747732b2dfff27c263772174eu128
            ^ 0x3d56315876625307e15c0b34149ae163u128
            ^ 0xbb766410dfbd59605a2fe0b6001499f1u128 == 1u128,
        1u128 << 121u128 == 0x02000000000000000000000000000000u128,
{
}

// ---------------------------------------------------------------------------
// The Frobenius map.
// ---------------------------------------------------------------------------

/// `a` squared `n` times: `a^(2^n)`.
pub open spec fn frobenius(a: u128, n: nat) -> u128
    decreases n,
{
    if n == 0 {
        a
    } else {
        residue::product(frobenius(a, (n - 1) as nat), frobenius(a, (n - 1) as nat))
    }
}

/// `Σ_{i < n} a^(2^i)`.
pub open spec fn trace_terms(a: u128, n: nat) -> u128
    decreases n,
{
    if n == 0 {
        0u128
    } else {
        trace_terms(a, (n - 1) as nat) ^ frobenius(a, (n - 1) as nat)
    }
}

/// The trace of GF(2^128) over GF(2).
pub open spec fn trace(a: u128) -> u128 {
    trace_terms(a, 128)
}

/// `Π_{i < n} a^(2^i) = a^(2^n - 1)`.
pub open spec fn conjugate_product(a: u128, n: nat) -> u128
    decreases n,
{
    if n == 0 {
        1u128
    } else {
        residue::product(conjugate_product(a, (n - 1) as nat), frobenius(a, (n - 1) as nat))
    }
}

/// `a^(2^128 - 2)`, the inverse of a nonzero `a`.
pub open spec fn inverse(a: u128) -> u128 {
    conjugate_product(residue::product(a, a), 127)
}

proof fn lemma_frobenius_step(a: u128, n: nat)
    ensures
        frobenius(a, n + 1) == square_bits(frobenius(a, n)),
{
    lemma_square_bits(frobenius(a, n));
}

proof fn lemma_frobenius_16(a: u128, n: nat)
    ensures
        frobenius(a, n + 16) == square_16(frobenius(a, n)),
{
    lemma_frobenius_step(a, n + 0);
    lemma_frobenius_step(a, n + 1);
    lemma_frobenius_step(a, n + 2);
    lemma_frobenius_step(a, n + 3);
    lemma_frobenius_step(a, n + 4);
    lemma_frobenius_step(a, n + 5);
    lemma_frobenius_step(a, n + 6);
    lemma_frobenius_step(a, n + 7);
    lemma_frobenius_step(a, n + 8);
    lemma_frobenius_step(a, n + 9);
    lemma_frobenius_step(a, n + 10);
    lemma_frobenius_step(a, n + 11);
    lemma_frobenius_step(a, n + 12);
    lemma_frobenius_step(a, n + 13);
    lemma_frobenius_step(a, n + 14);
    lemma_frobenius_step(a, n + 15);
}

proof fn lemma_trace_16(a: u128, n: nat)
    ensures
        trace_terms(a, n + 16) == trace_terms(a, n) ^ trace_16(frobenius(a, n)),
{
    let t = trace_terms(a, n);
    let f0 = frobenius(a, n + 0);
    let f1 = frobenius(a, n + 1);
    let f2 = frobenius(a, n + 2);
    let f3 = frobenius(a, n + 3);
    let f4 = frobenius(a, n + 4);
    let f5 = frobenius(a, n + 5);
    let f6 = frobenius(a, n + 6);
    let f7 = frobenius(a, n + 7);
    let f8 = frobenius(a, n + 8);
    let f9 = frobenius(a, n + 9);
    let f10 = frobenius(a, n + 10);
    let f11 = frobenius(a, n + 11);
    let f12 = frobenius(a, n + 12);
    let f13 = frobenius(a, n + 13);
    let f14 = frobenius(a, n + 14);
    let f15 = frobenius(a, n + 15);
    lemma_frobenius_step(a, n + 0);
    lemma_frobenius_step(a, n + 1);
    lemma_frobenius_step(a, n + 2);
    lemma_frobenius_step(a, n + 3);
    lemma_frobenius_step(a, n + 4);
    lemma_frobenius_step(a, n + 5);
    lemma_frobenius_step(a, n + 6);
    lemma_frobenius_step(a, n + 7);
    lemma_frobenius_step(a, n + 8);
    lemma_frobenius_step(a, n + 9);
    lemma_frobenius_step(a, n + 10);
    lemma_frobenius_step(a, n + 11);
    lemma_frobenius_step(a, n + 12);
    lemma_frobenius_step(a, n + 13);
    lemma_frobenius_step(a, n + 14);
    lemma_frobenius_step(a, n + 15);
    // The partial sums p1, .., p16 of the sixteen terms.
    let p1 = f0;
    assert(trace_terms(a, n + 1) == t ^ p1);
    let p2 = p1 ^ f1;
    residue::lemma_xor(t, p1, f1);
    assert(trace_terms(a, n + 2) == t ^ p2);
    let p3 = p2 ^ f2;
    residue::lemma_xor(t, p2, f2);
    assert(trace_terms(a, n + 3) == t ^ p3);
    let p4 = p3 ^ f3;
    residue::lemma_xor(t, p3, f3);
    assert(trace_terms(a, n + 4) == t ^ p4);
    let p5 = p4 ^ f4;
    residue::lemma_xor(t, p4, f4);
    assert(trace_terms(a, n + 5) == t ^ p5);
    let p6 = p5 ^ f5;
    residue::lemma_xor(t, p5, f5);
    assert(trace_terms(a, n + 6) == t ^ p6);
    let p7 = p6 ^ f6;
    residue::lemma_xor(t, p6, f6);
    assert(trace_terms(a, n + 7) == t ^ p7);
    let p8 = p7 ^ f7;
    residue::lemma_xor(t, p7, f7);
    assert(trace_terms(a, n + 8) == t ^ p8);
    let p9 = p8 ^ f8;
    residue::lemma_xor(t, p8, f8);
    assert(trace_terms(a, n + 9) == t ^ p9);
    let p10 = p9 ^ f9;
    residue::lemma_xor(t, p9, f9);
    assert(trace_terms(a, n + 10) == t ^ p10);
    let p11 = p10 ^ f10;
    residue::lemma_xor(t, p10, f10);
    assert(trace_terms(a, n + 11) == t ^ p11);
    let p12 = p11 ^ f11;
    residue::lemma_xor(t, p11, f11);
    assert(trace_terms(a, n + 12) == t ^ p12);
    let p13 = p12 ^ f12;
    residue::lemma_xor(t, p12, f12);
    assert(trace_terms(a, n + 13) == t ^ p13);
    let p14 = p13 ^ f13;
    residue::lemma_xor(t, p13, f13);
    assert(trace_terms(a, n + 14) == t ^ p14);
    let p15 = p14 ^ f14;
    residue::lemma_xor(t, p14, f14);
    assert(trace_terms(a, n + 15) == t ^ p15);
    let p16 = p15 ^ f15;
    residue::lemma_xor(t, p15, f15);
    assert(trace_terms(a, n + 16) == t ^ p16);
}

/// Squaring commutes with repeated squaring, and repeated squaring respects
/// addition and multiplication.
pub proof fn lemma_frobenius_homomorphism(a: u128, b: u128, n: nat)
    ensures
        frobenius(a ^ b, n) == frobenius(a, n) ^ frobenius(b, n),
        frobenius(residue::product(a, b), n) == residue::product(frobenius(a, n), frobenius(b, n)),
        frobenius(1, n) == 1,
        frobenius(residue::product(a, a), n) == frobenius(a, n + 1),
    decreases n,
{
    if n == 0 {
        reveal_with_fuel(frobenius, 2);
    } else {
        let m = (n - 1) as nat;
        lemma_frobenius_homomorphism(a, b, m);
        let (p, q) = (frobenius(a, m), frobenius(b, m));
        lemma_square_add(p, q);
        lemma_product_pairs(p, q, p, q);
        residue::lemma_mul_units(1);
    }
}

/// Products of four factors may be paired either way.
pub proof fn lemma_product_pairs(a: u128, b: u128, c: u128, d: u128)
    ensures
        residue::product(residue::product(a, b), residue::product(c, d)) == residue::product(
            residue::product(a, c),
            residue::product(b, d),
        ),
{
    residue::lemma_mul_associates(a, b, residue::product(c, d));
    residue::lemma_mul_associates(b, c, d);
    residue::lemma_mul_commutes(b, c);
    residue::lemma_mul_associates(c, b, d);
    residue::lemma_mul_associates(a, c, residue::product(b, d));
}

/// 128 squarings are the identity: `a^(2^128) = a`.
pub proof fn lemma_frobenius_identity(a: u128)
    ensures
        frobenius(a, 128) == a,
{
    assert(frobenius(2, 128) == 2) by {
        lemma_generator_orbit();
        lemma_frobenius_16(2, 0);
        lemma_frobenius_16(2, 16);
        lemma_frobenius_16(2, 32);
        lemma_frobenius_16(2, 48);
        lemma_frobenius_16(2, 64);
        lemma_frobenius_16(2, 80);
        lemma_frobenius_16(2, 96);
        lemma_frobenius_16(2, 112);
    }
    let f = |c: u128| frobenius(c, 128);
    assert forall|c: u128, d: u128| #[trigger] f(c ^ d) == f(c) ^ f(d) by {
        lemma_frobenius_homomorphism(c, d, 128);
    }
    assert forall|c: u128| #[trigger] f(residue::mul_x(c)) == residue::mul_x(f(c)) by {
        residue::lemma_mul_by_x(c, 0);
        residue::lemma_mul_by_x(f(c), 0);
        lemma_frobenius_homomorphism(2, c, 128);
    }
    residue::lemma_linear(f, a);
    lemma_frobenius_homomorphism(1, 1, 128);
    residue::lemma_mul_units(a);
}

proof fn lemma_square_bits_fixed(a: u128)
    by (bit_vector)
    requires
        square_bits(a) == a,
    ensures
        a == 0u128 || a == 1u128,
{
}

/// Every residue is a square: of `a^(2^127)`.
pub proof fn lemma_square_root(a: u128)
    ensures
        residue::product(frobenius(a, 127), frobenius(a, 127)) == a,
{
    lemma_frobenius_identity(a);
    assert(frobenius(a, 128) == residue::product(frobenius(a, 127), frobenius(a, 127)));
}

/// Only 0 and 1 are their own squares.
pub proof fn lemma_idempotent(a: u128)
    requires
        residue::product(a, a) == a,
    ensures
        a == 0 || a == 1,
{
    lemma_square_bits(a);
    lemma_square_bits_fixed(a);
}

// ---------------------------------------------------------------------------
// Inverses.
// ---------------------------------------------------------------------------

proof fn lemma_conjugate_product(a: u128, n: nat)
    ensures
        residue::product(a, conjugate_product(a, n)) == frobenius(a, n),
        conjugate_product(a, n + 1) == residue::product(
            a,
            conjugate_product(residue::product(a, a), n),
        ),
        residue::product(conjugate_product(a, n), conjugate_product(a, n)) == conjugate_product(
            residue::product(a, a),
            n,
        ),
    decreases n,
{
    let s = residue::product(a, a);
    if n == 0 {
        residue::lemma_mul_units(a);
        residue::lemma_mul_units(1);
        reveal_with_fuel(conjugate_product, 2);
    } else {
        let m = (n - 1) as nat;
        lemma_conjugate_product(a, m);
        let (c, f) = (conjugate_product(a, m), frobenius(a, m));
        residue::lemma_mul_associates(a, c, f);
        lemma_frobenius_homomorphism(a, a, m);
        residue::lemma_mul_associates(a, conjugate_product(s, m), frobenius(s, m));
        lemma_product_pairs(c, f, c, f);
    }
}

/// Every nonzero residue times its inverse is 1.
pub proof fn lemma_inverse(a: u128)
    requires
        a != 0,
    ensures
        residue::product(a, inverse(a)) == 1,
        residue::product(inverse(a), a) == 1,
{
    let s = residue::product(a, a);
    let e = conjugate_product(a, 128);
    lemma_conjugate_product(a, 127);
    assert(e == residue::product(a, inverse(a)));
    lemma_conjugate_product(a, 128);
    lemma_frobenius_identity(a);
    lemma_frobenius_homomorphism(a, a, 127);
    assert(conjugate_product(s, 128) == residue::product(inverse(a), a));
    residue::lemma_mul_commutes(a, inverse(a));
    lemma_idempotent(e);
    residue::lemma_mul_units(a);
}

/// A product is zero only if a factor is.
pub proof fn lemma_no_zero_divisors(a: u128, b: u128)
    requires
        residue::product(a, b) == 0,
    ensures
        a == 0 || b == 0,
{
    if a != 0 {
        lemma_inverse(a);
        residue::lemma_mul_associates(inverse(a), a, b);
        residue::lemma_mul_units(b);
        residue::lemma_mul_units(inverse(a));
    }
}

// ---------------------------------------------------------------------------
// The trace.
// ---------------------------------------------------------------------------

proof fn lemma_trace_terms(a: u128, b: u128, n: nat)
    ensures
        trace_terms(a ^ b, n) == trace_terms(a, n) ^ trace_terms(b, n),
        trace_terms(residue::product(a, a), n) ^ a == trace_terms(a, n) ^ frobenius(a, n),
    decreases n,
{
    if n == 0 {
        residue::lemma_xor(0, 0, 0);
    } else {
        let m = (n - 1) as nat;
        lemma_trace_terms(a, b, m);
        lemma_frobenius_homomorphism(a, b, m);
        residue::lemma_xor_pairs(
            trace_terms(a, m),
            trace_terms(b, m),
            frobenius(a, m),
            frobenius(b, m),
        );
        let t = trace_terms(residue::product(a, a), m);
        let f = frobenius(a, n);
        residue::lemma_xor(t, f, a);
        residue::lemma_xor(f, a, 0);
        residue::lemma_xor(t, a, f);
    }
}

/// The trace is additive, and `a` and `a²` have the same trace.
pub proof fn lemma_trace(a: u128, b: u128)
    ensures
        trace(a ^ b) == trace(a) ^ trace(b),
        trace(residue::product(a, a)) == trace(a),
{
    lemma_trace_terms(a, b, 128);
    lemma_frobenius_identity(a);
    residue::lemma_xor(trace(residue::product(a, a)), a, 0);
    residue::lemma_xor(trace(a), a, 0);
}

/// `(Σ_{i < k} a^(2^i))² + a` is the sum with one term more.
pub proof fn lemma_trace_square(a: u128, k: nat)
    ensures
        residue::product(trace_terms(a, k), trace_terms(a, k)) ^ a == trace_terms(a, k + 1),
    decreases k,
{
    let t = trace_terms(a, k);
    if k == 0 {
        residue::lemma_mul_units(0);
        reveal_with_fuel(trace_terms, 2);
        reveal_with_fuel(frobenius, 2);
    } else {
        let j = (k - 1) as nat;
        let (p, f) = (trace_terms(a, j), frobenius(a, j));
        lemma_trace_square(a, j);
        lemma_square_add(p, f);
        let (pp, ff) = (residue::product(p, p), residue::product(f, f));
        residue::lemma_xor(pp, ff, a);
        residue::lemma_xor(ff, a, 0);
        residue::lemma_xor(pp, a, ff);
        assert(frobenius(a, k) == ff);
        assert(trace_terms(a, k + 1) == t ^ frobenius(a, k));
    }
}

/// The trace is 0 or 1.
pub proof fn lemma_trace_is_bit(a: u128)
    ensures
        trace(a) == 0 || trace(a) == 1,
{
    let t = trace(a);
    lemma_trace_square(a, 128);
    lemma_frobenius_identity(a);
    assert(trace_terms(a, 129) == t ^ frobenius(a, 128));
    residue::lemma_xor(residue::product(t, t), a, 0);
    residue::lemma_xor(t, a, 0);
    lemma_idempotent(t);
}

/// `x^121` has trace 1.
pub proof fn lemma_trace_beta()
    ensures
        trace(1u128 << 121u128) == 1,
{
    let b = 1u128 << 121u128;
    lemma_beta_orbit();
    reveal_with_fuel(trace_terms, 1);
    residue::lemma_xor(trace_16(b), 0, 0);
    lemma_frobenius_16(b, 0);
    lemma_trace_16(b, 0);
    lemma_frobenius_16(b, 16);
    lemma_trace_16(b, 16);
    lemma_frobenius_16(b, 32);
    lemma_trace_16(b, 32);
    lemma_frobenius_16(b, 48);
    lemma_trace_16(b, 48);
    lemma_frobenius_16(b, 64);
    lemma_trace_16(b, 64);
    lemma_frobenius_16(b, 80);
    lemma_trace_16(b, 80);
    lemma_frobenius_16(b, 96);
    lemma_trace_16(b, 96);
    lemma_frobenius_16(b, 112);
    lemma_trace_16(b, 112);
}

/// `t² + t + x^121` has no root: the polynomial is irreducible over GF(2^128).
pub proof fn lemma_beta_irreducible(t: u128)
    ensures
        residue::product(t, t) ^ t != 1u128 << 121u128,
{
    lemma_trace(residue::product(t, t), t);
    lemma_trace(t, t);
    residue::lemma_xor(trace(t), 0, 0);
    lemma_trace_beta();
}

// ---------------------------------------------------------------------------
// Which residues have trace 0.
// ---------------------------------------------------------------------------

/// `Σ_{i < n} (Σ_{j < i} a^(2^j)) · c^(2^i)`.
pub open spec fn weighted_sum(a: u128, c: u128, n: nat) -> u128
    decreases n,
{
    if n == 0 {
        0u128
    } else {
        weighted_sum(a, c, (n - 1) as nat) ^ residue::product(
            trace_terms(a, (n - 1) as nat),
            frobenius(c, (n - 1) as nat),
        )
    }
}

/// A root of `t² + t = a` where `a` has trace 0.
pub open spec fn half_root(a: u128) -> u128 {
    weighted_sum(a, 1u128 << 121u128, 128)
}

/// The square of a weighted sum is the sum with one term more, up to a multiple of
/// `a`.
proof fn lemma_weighted_square(a: u128, c: u128, n: nat)
    ensures
        residue::product(weighted_sum(a, c, n), weighted_sum(a, c, n)) == weighted_sum(
            a,
            c,
            n + 1,
        ) ^ residue::product(a, trace_terms(c, n + 1) ^ c),
    decreases n,
{
    if n == 0 {
        reveal_with_fuel(weighted_sum, 2);
        reveal_with_fuel(trace_terms, 2);
        residue::lemma_mul_units(0);
        residue::lemma_mul_units(c);
        residue::lemma_mul_units(a);
        residue::lemma_xor(0, c, 0);
        residue::lemma_xor(c, c, 0);
        residue::lemma_xor(0, 0, 0);
        assert(trace_terms(c, 1) == c);
    } else {
        let m = (n - 1) as nat;
        lemma_weighted_square(a, c, m);
        let (b, s, f) = (weighted_sum(a, c, m), trace_terms(a, m), frobenius(c, m));
        let u = residue::product(s, f);
        let (s1, f1) = (trace_terms(a, n), frobenius(c, n));
        // u² = s²·f² = (s1 + a)·f1.
        lemma_square_add(b, u);
        lemma_product_pairs(s, f, s, f);
        lemma_trace_square(a, m);
        let ss = residue::product(s, s);
        residue::lemma_xor(ss, a, a);
        residue::lemma_xor(s1, a, 0);
        assert(ss == s1 ^ a);
        residue::lemma_mul_distributes(f1, s1, a);
        let (p, q) = (residue::product(s1, f1), residue::product(a, f1));
        // The multiples of a.
        let r = trace_terms(c, n) ^ c;
        residue::lemma_mul_distributes(a, r, f1);
        residue::lemma_xor(trace_terms(c, n), c, f1);
        residue::lemma_xor(c, f1, 0);
        residue::lemma_xor(trace_terms(c, n), f1, c);
        assert(trace_terms(c, n + 1) == trace_terms(c, n) ^ f1);
        assert(r ^ f1 == trace_terms(c, n + 1) ^ c);
        residue::lemma_xor_pairs(weighted_sum(a, c, n), residue::product(a, r), p, q);
        assert(weighted_sum(a, c, n + 1) == weighted_sum(a, c, n) ^ p);
    }
}

/// `t² + t = a` has a root exactly where `a` has trace 0: `u² + u + a` is
/// irreducible over GF(2^128) if and only if `a` has trace 1.
pub proof fn lemma_artin_schreier(a: u128)
    ensures
        trace(a) == 0 ==> residue::product(half_root(a), half_root(a)) ^ half_root(a) == a,
        forall|t: u128| #[trigger] residue::product(t, t) ^ t == a ==> trace(a) == 0,
        (exists|t: u128| #[trigger] residue::product(t, t) ^ t == a) <==> trace(a) == 0,
{
    let c = 1u128 << 121u128;
    let b = half_root(a);
    lemma_weighted_square(a, c, 128);
    lemma_trace_beta();
    lemma_frobenius_identity(c);
    // The coefficient of a is the trace of c.
    let t = trace_terms(c, 129);
    assert(t == trace(c) ^ frobenius(c, 128));
    residue::lemma_xor(trace(c), c, 0);
    assert(t ^ c == 1);
    residue::lemma_mul_units(a);
    residue::lemma_mul_units(c);
    assert(weighted_sum(a, c, 129) == b ^ residue::product(trace(a), c));
    if trace(a) == 0 {
        residue::lemma_xor(b, 0, 0);
        residue::lemma_xor(b, a, 0);
        residue::lemma_xor(a, b, 0);
        assert(residue::product(b, b) == b ^ a);
        assert(residue::product(b, b) ^ b == a);
    }
    assert forall|t: u128| #[trigger] residue::product(t, t) ^ t == a implies trace(a) == 0 by {
        lemma_trace(residue::product(t, t), t);
        lemma_trace(t, t);
        residue::lemma_xor(trace(t), 0, 0);
    }
}

/// The coefficients of `x^121` and `x^127` added up.
pub open spec fn top_sum(a: u128) -> u128 {
    ((a >> 121u128) ^ (a >> 127u128)) & 1u128
}

proof fn lemma_top_sum(a: u128, b: u128, k: u128)
    by (bit_vector)
    requires
        k < 128,
    ensures
        top_sum(a ^ b) == top_sum(a) ^ top_sum(b),
        top_sum(square_bits(a)) == top_sum(a),
        top_sum(1u128 << k) == (if k == 121 || k == 127 {
            1u128
        } else {
            0u128
        }),
        0u128 ^ 0u128 == 0u128,
        1u128 ^ 1u128 == 0u128,
        top_sum(a) == 0u128 || top_sum(a) == 1u128,
{
}

/// A sum `t² + t` has no top sum.
proof fn lemma_top_sum_vanishes(t: u128)
    ensures
        top_sum(residue::product(t, t) ^ t) == 0,
{
    lemma_square_bits(t);
    lemma_top_sum(t, 0, 0);
    lemma_top_sum(residue::product(t, t), t, 0);
}

/// The trace of a residue is the sum of its coefficients of `x^121` and `x^127`.
pub proof fn lemma_trace_value(a: u128)
    ensures
        trace(a) == top_sum(a),
{
    let c = 1u128 << 121u128;
    lemma_trace_is_bit(a);
    lemma_trace_beta();
    lemma_top_sum(a, c, 121);
    if trace(a) == 0 {
        lemma_artin_schreier(a);
        lemma_top_sum_vanishes(half_root(a));
    } else {
        let d = a ^ c;
        lemma_trace(a, c);
        residue::lemma_xor(1, 1, 0);
        lemma_artin_schreier(d);
        lemma_top_sum_vanishes(half_root(d));
        residue::lemma_xor(top_sum(a), 1, 0);
    }
}

/// Every power of `x` below `x^121` has trace 0: 121 is the smallest exponent with
/// trace 1.
pub proof fn lemma_low_powers_have_trace_zero(k: u128)
    requires
        k < 121,
    ensures
        trace(1u128 << k) == 0,
{
    lemma_trace_value(1u128 << k);
    lemma_top_sum(0, 0, k);
}

} // verus!
