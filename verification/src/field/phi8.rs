//! The embedding `φ_8` of GF(2^8) into GF(2^128).
//!
//! GF(2^8) is taken modulo `x^8 + x^4 + x^3 + x + 1`. The embedding sends `x` to a
//! root of that polynomial in GF(2^128), so it is determined by the images of
//! `1, x, …, x^7`.

use crate::field::gf2_128;
use crate::field::gf2_128::F128;
use crate::field::residue;
use vstd::prelude::*;

verus! {

/// `c` where bit `i` of `v` is set, else 0.
#[verifier::opaque]
pub open spec fn at_bit(v: u8, i: u8, c: u128) -> u128 {
    if (v >> i) & 1 == 1 {
        c
    } else {
        0u128
    }
}

/// The image of `v`, as a polynomial: the images of its set bits added up.
pub open spec fn phi8_poly(v: u8) -> u128 {
    at_bit(v, 0, 1) ^ at_bit(v, 1, 0x0dcb364640a222fe6b8330483c2e9849) ^ at_bit(
        v,
        2,
        0x3d5bd35c94646a247573da4a5f7710ed,
    ) ^ at_bit(v, 3, 0x6d58c4e181f9199f41a12db1f974f3ac) ^ at_bit(
        v,
        4,
        0xa72ec17764d7ced55e2f716f4ede412f,
    ) ^ at_bit(v, 5, 0x4d52354a3a3d8c865cb10fbabcf00118) ^ at_bit(
        v,
        6,
        0x553e92e8bc0ae9a795ed1f57f3632d4d,
    ) ^ at_bit(v, 7, 0x93252331bf042b11512625b1f09fa87e)
}

proof fn lemma_kernel(v: u8)
    by (bit_vector)
    ensures
        phi8_poly(v) == 0u128 ==> v == 0u8,
        phi8_poly(0) == 0u128,
        phi8_poly(1) == 1u128,
{
}

proof fn lemma_xor_byte(a: u8, b: u8, i: u8)
    by (bit_vector)
    requires
        i < 8,
    ensures
        ((a ^ b) >> i) & 1 == ((a >> i) & 1) ^ ((b >> i) & 1),
        (a >> i) & 1 == 0u8 || (a >> i) & 1 == 1u8,
        (b >> i) & 1 == 0u8 || (b >> i) & 1 == 1u8,
        0u8 ^ 0u8 == 0u8,
        0u8 ^ 1u8 == 1u8,
        1u8 ^ 0u8 == 1u8,
        1u8 ^ 1u8 == 0u8,
        (a ^ b == 0u8) == (a == b),
{
}

/// One more bit of a sum.
proof fn lemma_bit_sum(a: u8, b: u8, i: u8, c: u128, p: u128, q: u128)
    requires
        i < 8,
    ensures
        (p ^ q) ^ at_bit(a ^ b, i, c) == (p ^ at_bit(a, i, c)) ^ (q ^ at_bit(b, i, c)),
{
    reveal(at_bit);
    lemma_xor_byte(a, b, i);
    residue::lemma_xor_pairs(p, q, at_bit(a, i, c), at_bit(b, i, c));
    residue::lemma_xor(c, c, 0);
    residue::lemma_xor(c, 0, 0);
    residue::lemma_xor(0, 0, 0);
}

/// The embedding respects sums and is one to one.
pub proof fn lemma_phi8(a: u8, b: u8)
    ensures
        phi8_poly(a ^ b) == phi8_poly(a) ^ phi8_poly(b),
        phi8_poly(a) == phi8_poly(b) ==> a == b,
        phi8_poly(0) == 0u128,
        phi8_poly(1) == 1u128,
{
    lemma_kernel(a ^ b);
    lemma_xor_byte(a, b, 0);
    residue::lemma_xor(phi8_poly(a), phi8_poly(b), 0);
    let (p0, q0) = (at_bit(a, 0, 1), at_bit(b, 0, 1));
    lemma_bit_sum(a, b, 0, 1, 0, 0);
    residue::lemma_xor(p0, 0, 0);
    residue::lemma_xor(q0, 0, 0);
    residue::lemma_xor(at_bit(a ^ b, 0, 1), 0, 0);
    residue::lemma_xor(0, 0, 0);
    let c1 = 0x0dcb364640a222fe6b8330483c2e9849u128;
    lemma_bit_sum(a, b, 1, c1, p0, q0);
    let (p1, q1) = (p0 ^ at_bit(a, 1, c1), q0 ^ at_bit(b, 1, c1));
    let c2 = 0x3d5bd35c94646a247573da4a5f7710edu128;
    lemma_bit_sum(a, b, 2, c2, p1, q1);
    let (p2, q2) = (p1 ^ at_bit(a, 2, c2), q1 ^ at_bit(b, 2, c2));
    let c3 = 0x6d58c4e181f9199f41a12db1f974f3acu128;
    lemma_bit_sum(a, b, 3, c3, p2, q2);
    let (p3, q3) = (p2 ^ at_bit(a, 3, c3), q2 ^ at_bit(b, 3, c3));
    let c4 = 0xa72ec17764d7ced55e2f716f4ede412fu128;
    lemma_bit_sum(a, b, 4, c4, p3, q3);
    let (p4, q4) = (p3 ^ at_bit(a, 4, c4), q3 ^ at_bit(b, 4, c4));
    let c5 = 0x4d52354a3a3d8c865cb10fbabcf00118u128;
    lemma_bit_sum(a, b, 5, c5, p4, q4);
    let (p5, q5) = (p4 ^ at_bit(a, 5, c5), q4 ^ at_bit(b, 5, c5));
    let c6 = 0x553e92e8bc0ae9a795ed1f57f3632d4du128;
    lemma_bit_sum(a, b, 6, c6, p5, q5);
    let (p6, q6) = (p5 ^ at_bit(a, 6, c6), q5 ^ at_bit(b, 6, c6));
    lemma_bit_sum(a, b, 7, 0x93252331bf042b11512625b1f09fa87eu128, p6, q6);
}

fn image(v: u8, place: u8, lo: u64, hi: u64) -> (r: F128)
    requires
        place < 8,
    ensures
        r.poly() == at_bit(v, place, gf2_128::join(lo, hi)),
{
    proof {
        reveal(at_bit);
        lemma_constants();
    }
    if (v >> place) & 1 == 1 {
        F128 { lo, hi }
    } else {
        F128::zero()
    }
}

proof fn lemma_constants()
    by (bit_vector)
    ensures
        gf2_128::join(1, 0) == 1u128,
        gf2_128::join(0, 0) == 0u128,
        gf2_128::join(0x6b8330483c2e9849, 0x0dcb364640a222fe)
            == 0x0dcb364640a222fe6b8330483c2e9849u128,
        gf2_128::join(0x7573da4a5f7710ed, 0x3d5bd35c94646a24)
            == 0x3d5bd35c94646a247573da4a5f7710edu128,
        gf2_128::join(0x41a12db1f974f3ac, 0x6d58c4e181f9199f)
            == 0x6d58c4e181f9199f41a12db1f974f3acu128,
        gf2_128::join(0x5e2f716f4ede412f, 0xa72ec17764d7ced5)
            == 0xa72ec17764d7ced55e2f716f4ede412fu128,
        gf2_128::join(0x5cb10fbabcf00118, 0x4d52354a3a3d8c86)
            == 0x4d52354a3a3d8c865cb10fbabcf00118u128,
        gf2_128::join(0x95ed1f57f3632d4d, 0x553e92e8bc0ae9a7)
            == 0x553e92e8bc0ae9a795ed1f57f3632d4du128,
        gf2_128::join(0x512625b1f09fa87e, 0x93252331bf042b11)
            == 0x93252331bf042b11512625b1f09fa87eu128,
{
}

/// The image of `v` under `φ_8`.
pub fn phi8(v: u8) -> (r: F128)
    ensures
        r.poly() == phi8_poly(v),
{
    let b0 = image(v, 0, 1, 0);
    let b1 = image(v, 1, 0x6b8330483c2e9849, 0x0dcb364640a222fe);
    let b2 = image(v, 2, 0x7573da4a5f7710ed, 0x3d5bd35c94646a24);
    let b3 = image(v, 3, 0x41a12db1f974f3ac, 0x6d58c4e181f9199f);
    let b4 = image(v, 4, 0x5e2f716f4ede412f, 0xa72ec17764d7ced5);
    let b5 = image(v, 5, 0x5cb10fbabcf00118, 0x4d52354a3a3d8c86);
    let b6 = image(v, 6, 0x95ed1f57f3632d4d, 0x553e92e8bc0ae9a7);
    let b7 = image(v, 7, 0x512625b1f09fa87e, 0x93252331bf042b11);
    let s1 = b0 + b1;
    let s2 = s1 + b2;
    let s3 = s2 + b3;
    let s4 = s3 + b4;
    let s5 = s4 + b5;
    let s6 = s5 + b6;
    let s7 = s6 + b7;
    proof {
        lemma_constants();
        b0.lemma_poly(b1, 0);
        s1.lemma_poly(b2, 0);
        s2.lemma_poly(b3, 0);
        s3.lemma_poly(b4, 0);
        s4.lemma_poly(b5, 0);
        s5.lemma_poly(b6, 0);
        s6.lemma_poly(b7, 0);
    }
    s7
}

// ---------------------------------------------------------------------------
// The embedding respects products.
// ---------------------------------------------------------------------------

/// `x·v` in GF(2^8).
pub open spec fn byte_mul_x(v: u8) -> u8 {
    (v << 1u8) ^ (if (v >> 7u8) & 1 == 1 {
        0x1bu8
    } else {
        0u8
    })
}

/// `x^k·v` in GF(2^8).
pub open spec fn byte_mul_x_pow(v: u8, k: nat) -> u8
    decreases k,
{
    if k == 0 {
        v
    } else {
        byte_mul_x(byte_mul_x_pow(v, (k - 1) as nat))
    }
}

/// `Σ_{k < n} bit_k(a)·x^k·b` in GF(2^8).
pub open spec fn byte_terms(a: u8, b: u8, n: nat) -> u8
    decreases n,
{
    if n == 0 {
        0u8
    } else {
        byte_terms(a, b, (n - 1) as nat) ^ (if (a >> ((n - 1) as u8)) & 1 == 1 {
            byte_mul_x_pow(b, (n - 1) as nat)
        } else {
            0u8
        })
    }
}

/// The product in GF(2^8), modulo `x^8 + x^4 + x^3 + x + 1`.
pub open spec fn byte_product(a: u8, b: u8) -> u8 {
    byte_terms(a, b, 8)
}

/// One step of Horner's rule for a product of residues.
spec fn horner(acc: u128, a: u128, b: u128, i: u128) -> u128 {
    residue::mul_x(acc) ^ (if (a >> i) & 1u128 == 1u128 {
        b
    } else {
        0u128
    })
}

/// Sixteen steps, down to bit `i`.
spec fn horner_16(acc: u128, a: u128, b: u128, i: u128) -> u128 {
    let h15 = horner(acc, a, b, (i + 15) as u128);
    let h14 = horner(h15, a, b, (i + 14) as u128);
    let h13 = horner(h14, a, b, (i + 13) as u128);
    let h12 = horner(h13, a, b, (i + 12) as u128);
    let h11 = horner(h12, a, b, (i + 11) as u128);
    let h10 = horner(h11, a, b, (i + 10) as u128);
    let h9 = horner(h10, a, b, (i + 9) as u128);
    let h8 = horner(h9, a, b, (i + 8) as u128);
    let h7 = horner(h8, a, b, (i + 7) as u128);
    let h6 = horner(h7, a, b, (i + 6) as u128);
    let h5 = horner(h6, a, b, (i + 5) as u128);
    let h4 = horner(h5, a, b, (i + 4) as u128);
    let h3 = horner(h4, a, b, (i + 3) as u128);
    let h2 = horner(h3, a, b, (i + 2) as u128);
    let h1 = horner(h2, a, b, (i + 1) as u128);
    horner(h1, a, b, i)
}

/// All 128 steps.
#[verifier::opaque]
spec fn horner_all(a: u128, b: u128) -> u128 {
    let h112 = horner_16(0u128, a, b, 112u128);
    let h96 = horner_16(h112, a, b, 96u128);
    let h80 = horner_16(h96, a, b, 80u128);
    let h64 = horner_16(h80, a, b, 64u128);
    let h48 = horner_16(h64, a, b, 48u128);
    let h32 = horner_16(h48, a, b, 32u128);
    let h16 = horner_16(h32, a, b, 16u128);
    horner_16(h16, a, b, 0u128)
}

/// What the steps have computed when bit `i` is done.
spec fn horner_value(a: u128, b: u128, i: int) -> u128 {
    if i >= 128 {
        0u128
    } else {
        residue::product(a >> (i as u128), b)
    }
}

proof fn lemma_horner(a: u128, b: u128, i: int)
    requires
        0 <= i < 128,
    ensures
        horner(horner_value(a, b, i + 1), a, b, i as u128) == horner_value(a, b, i),
{
    gf2_128::lemma_horner_step(a, b, i as u128);
}

proof fn lemma_horner_16(a: u128, b: u128, i: int)
    requires
        0 <= i <= 112,
    ensures
        horner_16(horner_value(a, b, i + 16), a, b, i as u128) == horner_value(a, b, i),
{
    lemma_horner(a, b, i);
    lemma_horner(a, b, i + 1);
    lemma_horner(a, b, i + 2);
    lemma_horner(a, b, i + 3);
    lemma_horner(a, b, i + 4);
    lemma_horner(a, b, i + 5);
    lemma_horner(a, b, i + 6);
    lemma_horner(a, b, i + 7);
    lemma_horner(a, b, i + 8);
    lemma_horner(a, b, i + 9);
    lemma_horner(a, b, i + 10);
    lemma_horner(a, b, i + 11);
    lemma_horner(a, b, i + 12);
    lemma_horner(a, b, i + 13);
    lemma_horner(a, b, i + 14);
    lemma_horner(a, b, i + 15);
}

/// Horner's rule computes the product.
proof fn lemma_horner_all(a: u128, b: u128)
    ensures
        horner_all(a, b) == residue::product(a, b),
{
    reveal(horner_all);
    lemma_horner_16(a, b, 112);
    lemma_horner_16(a, b, 96);
    lemma_horner_16(a, b, 80);
    lemma_horner_16(a, b, 64);
    lemma_horner_16(a, b, 48);
    lemma_horner_16(a, b, 32);
    lemma_horner_16(a, b, 16);
    lemma_horner_16(a, b, 0);
    assert(a >> 0u128 == a) by (bit_vector);
}

/// The images of `x, x^2, …, x^8`, each from the one before.
proof fn lemma_image_values()
    by (bit_vector)
    ensures
        horner_all(phi8_poly(2), phi8_poly(1)) == phi8_poly(2),
        horner_all(phi8_poly(2), phi8_poly(2)) == phi8_poly(4),
        horner_all(phi8_poly(2), phi8_poly(4)) == phi8_poly(8),
        horner_all(phi8_poly(2), phi8_poly(8)) == phi8_poly(16),
        horner_all(phi8_poly(2), phi8_poly(16)) == phi8_poly(32),
        horner_all(phi8_poly(2), phi8_poly(32)) == phi8_poly(64),
        horner_all(phi8_poly(2), phi8_poly(64)) == phi8_poly(128),
        horner_all(phi8_poly(2), phi8_poly(128)) == phi8_poly(0x1b),
{
}

/// The image of `x`.
pub proof fn lemma_phi8_two()
    by (bit_vector)
    ensures
        phi8_poly(2) == 0x0dcb364640a222fe6b8330483c2e9849u128,
{
}

/// The low `n` bits of a byte.
spec fn low_bits(v: u8, n: u8) -> u8 {
    if n >= 8 {
        v
    } else {
        v & (((1u8 << n) - 1) as u8)
    }
}

/// Bit `n` of a byte, in its place.
spec fn bit_in_place(v: u8, n: u8) -> u8 {
    if (v >> n) & 1 == 1 {
        1u8 << n
    } else {
        0u8
    }
}

proof fn lemma_byte_bits(v: u8, w: u8, n: u8)
    by (bit_vector)
    requires
        n < 8,
    ensures
        low_bits(v, 0) == 0u8,
        low_bits(v, 8) == v,
        low_bits(v, ((n + 1) as u8)) == low_bits(v, n) ^ bit_in_place(v, n),
        byte_mul_x(v ^ w) == byte_mul_x(v) ^ byte_mul_x(w),
        byte_mul_x(0u8) == 0u8,
        byte_mul_x(1u8 << n) == (if n < 7 {
            1u8 << ((n + 1) as u8)
        } else {
            0x1bu8
        }),
        1u8 << 0u8 == 1u8,
        1u8 << 1u8 == 2u8,
        1u8 << 2u8 == 4u8,
        1u8 << 3u8 == 8u8,
        1u8 << 4u8 == 16u8,
        1u8 << 5u8 == 32u8,
        1u8 << 6u8 == 64u8,
        1u8 << 7u8 == 128u8,
        v ^ 0u8 == v,
{
}

/// Multiplication by `x` on the images of single bits.
proof fn lemma_mul_x_on_bit(n: u8)
    requires
        n < 8,
    ensures
        residue::product(phi8_poly(2), phi8_poly(1u8 << n)) == phi8_poly(byte_mul_x(1u8 << n)),
{
    lemma_image_values();
    lemma_byte_bits(0, 0, n);
    lemma_horner_all(phi8_poly(2), phi8_poly(1u8 << n));
}

proof fn lemma_mul_x_on_low(v: u8, n: nat)
    requires
        n <= 8,
    ensures
        residue::product(phi8_poly(2), phi8_poly(low_bits(v, n as u8))) == phi8_poly(
            byte_mul_x(low_bits(v, n as u8)),
        ),
    decreases n,
{
    lemma_byte_bits(v, 0, 0);
    lemma_phi8(0, 0);
    residue::lemma_mul_units(phi8_poly(2));
    if n > 0 {
        let m = (n - 1) as u8;
        let (l, b) = (low_bits(v, m), bit_in_place(v, m));
        lemma_mul_x_on_low(v, (n - 1) as nat);
        lemma_byte_bits(v, 0, m);
        lemma_byte_bits(l, b, m);
        lemma_mul_x_on_bit(m);
        lemma_phi8(l, b);
        lemma_phi8(byte_mul_x(l), byte_mul_x(b));
        residue::lemma_mul_distributes(phi8_poly(2), phi8_poly(l), phi8_poly(b));
        assert(n as u8 == (m + 1) as u8);
    }
}

/// The embedding takes multiplication by `x` to multiplication by the image of
/// `x`.
pub proof fn lemma_phi8_mul_x(v: u8)
    ensures
        residue::product(phi8_poly(2), phi8_poly(v)) == phi8_poly(byte_mul_x(v)),
{
    lemma_mul_x_on_low(v, 8);
    lemma_byte_bits(v, 0, 0);
}

proof fn lemma_power_on(b: u8, n: nat)
    requires
        n < 8,
    ensures
        residue::product(phi8_poly(1u8 << (n as u8)), phi8_poly(b)) == phi8_poly(
            byte_mul_x_pow(b, n),
        ),
    decreases n,
{
    lemma_byte_bits(0, 0, 0);
    if n == 0 {
        lemma_phi8(0, 0);
        residue::lemma_mul_units(phi8_poly(b));
    } else {
        let m = (n - 1) as u8;
        lemma_power_on(b, (n - 1) as nat);
        lemma_byte_bits(0, 0, m);
        lemma_mul_x_on_bit(m);
        assert(n as u8 == (m + 1) as u8);
        residue::lemma_mul_associates(phi8_poly(2), phi8_poly(1u8 << m), phi8_poly(b));
        lemma_phi8_mul_x(byte_mul_x_pow(b, (n - 1) as nat));
    }
}

proof fn lemma_terms_on(a: u8, b: u8, n: nat)
    requires
        n <= 8,
    ensures
        residue::product(phi8_poly(low_bits(a, n as u8)), phi8_poly(b)) == phi8_poly(
            byte_terms(a, b, n),
        ),
    decreases n,
{
    lemma_byte_bits(a, 0, 0);
    lemma_phi8(0, 0);
    residue::lemma_mul_units(phi8_poly(b));
    if n > 0 {
        let m = (n - 1) as u8;
        let k = (n - 1) as nat;
        let (l, p) = (low_bits(a, m), bit_in_place(a, m));
        lemma_terms_on(a, b, k);
        lemma_byte_bits(a, 0, m);
        lemma_byte_bits(byte_terms(a, b, k), 0, 0);
        lemma_power_on(b, k);
        lemma_phi8(l, p);
        lemma_phi8(byte_terms(a, b, k), byte_mul_x_pow(b, k));
        residue::lemma_mul_distributes(phi8_poly(b), phi8_poly(l), phi8_poly(p));
        residue::lemma_xor(phi8_poly(byte_terms(a, b, k)), 0, 0);
        assert(n as u8 == (m + 1) as u8);
    }
}

/// The embedding respects products: it is a homomorphism of fields.
pub proof fn lemma_phi8_product(a: u8, b: u8)
    ensures
        residue::product(phi8_poly(a), phi8_poly(b)) == phi8_poly(byte_product(a, b)),
{
    lemma_terms_on(a, b, 8);
    lemma_byte_bits(a, 0, 0);
}

} // verus!
