//! GF(2^128) in GHASH form: polynomials over GF(2) modulo
//! `x^128 + x^7 + x^2 + x + 1`, bit `i` of the 128-bit value being the
//! coefficient of `x^i`.

use crate::field::frobenius;
use crate::field::residue;
use core::ops::{Add, AddAssign, Mul, MulAssign};
use vstd::prelude::*;
use vstd::std_specs::ops::{AddSpecImpl, MulSpecImpl};

verus! {

/// An element of GF(2^128): `lo` holds the coefficients of `x^0..x^63`, `hi`
/// those of `x^64..x^127`.
#[derive(Clone, Copy, Debug, Default, PartialEq, Eq, Hash, Structural)]
pub struct F128 {
    pub lo: u64,
    pub hi: u64,
}

/// The 128-bit value with the given halves.
pub open spec fn join(lo: u64, hi: u64) -> u128 {
    ((hi as u128) << 64u128) | (lo as u128)
}

/// The low half of a 128-bit value.
pub open spec fn low_half(v: u128) -> u64 {
    (v & 0xffff_ffff_ffff_ffffu128) as u64
}

/// The high half of a 128-bit value.
pub open spec fn high_half(v: u128) -> u64 {
    (v >> 64u128) as u64
}

proof fn lemma_halves(lo: u64, hi: u64, lo2: u64, hi2: u64, v: u128)
    by (bit_vector)
    ensures
        low_half(join(lo, hi)) == lo,
        high_half(join(lo, hi)) == hi,
        join(low_half(v), high_half(v)) == v,
        join(lo ^ lo2, hi ^ hi2) == join(lo, hi) ^ join(lo2, hi2),
        low_half(v) == v as u64,
        join(0, 0) == 0u128,
        join(1, 0) == 1u128,
        join(2, 0) == 2u128,
        join(0, 1u64 << 57u64) == 1u128 << 121u128,
{
}

impl F128 {
    /// The polynomial that the element stands for.
    pub open spec fn poly(self) -> u128 {
        join(self.lo, self.hi)
    }

    /// The element that stands for a polynomial.
    pub open spec fn of_poly(v: u128) -> F128 {
        F128 { lo: low_half(v), hi: high_half(v) }
    }

    /// The sum of two elements.
    pub open spec fn plus(self, rhs: F128) -> F128 {
        F128 { lo: self.lo ^ rhs.lo, hi: self.hi ^ rhs.hi }
    }

    /// The product of two elements.
    pub open spec fn times(self, rhs: F128) -> F128 {
        F128::of_poly(residue::product(self.poly(), rhs.poly()))
    }

    /// Elements and polynomials correspond one to one, and sums to sums.
    pub proof fn lemma_poly(self, rhs: F128, v: u128)
        ensures
            F128::of_poly(self.poly()) == self,
            F128::of_poly(v).poly() == v,
            self.plus(rhs).poly() == self.poly() ^ rhs.poly(),
            self.times(rhs).poly() == residue::product(self.poly(), rhs.poly()),
            (self.poly() == rhs.poly()) == (self == rhs),
            F128::of_poly(0) == (F128 { lo: 0, hi: 0 }),
            F128::of_poly(1) == (F128 { lo: 1, hi: 0 }),
    {
        lemma_halves(self.lo, self.hi, rhs.lo, rhs.hi, v);
        lemma_halves(rhs.lo, rhs.hi, self.lo, self.hi, v);
        let p = residue::product(self.poly(), rhs.poly());
        lemma_halves(0, 0, 0, 0, p);
        lemma_halves(1, 0, 0, 0, 0);
    }

    /// The additive identity.
    #[verifier::allow_in_spec]
    pub fn zero() -> F128
        returns
            (F128 { lo: 0, hi: 0 }),
    {
        F128 { lo: 0, hi: 0 }
    }

    /// The multiplicative identity.
    #[verifier::allow_in_spec]
    pub fn one() -> F128
        returns
            (F128 { lo: 1, hi: 0 }),
    {
        F128 { lo: 1, hi: 0 }
    }

    /// The element `x`.
    #[verifier::allow_in_spec]
    pub fn generator() -> F128
        returns
            (F128 { lo: 2, hi: 0 }),
    {
        F128 { lo: 2, hi: 0 }
    }

    /// Tells whether the element is zero.
    pub fn is_zero(self) -> (r: bool)
        ensures
            r == (self == F128::zero()),
    {
        self.lo == 0 && self.hi == 0
    }

    fn to_bits(self) -> (v: u128)
        ensures
            v == self.poly(),
    {
        ((self.hi as u128) << 64) | (self.lo as u128)
    }

    fn from_bits(v: u128) -> (r: F128)
        ensures
            r == F128::of_poly(v),
    {
        proof {
            lemma_halves(0, 0, 0, 0, v);
        }
        F128 { lo: v as u64, hi: (v >> 64) as u64 }
    }

    /// The multiplicative inverse of a nonzero element, as `self^(2^128 - 2)`.
    pub fn inv(self) -> (r: F128)
        requires
            self != F128::zero(),
        ensures
            self.times(r) == F128::one(),
            r.times(self) == F128::one(),
            r.poly() == frobenius::inverse(self.poly()),
    {
        let mut t: F128 = self * self;
        let mut acc: F128 = F128::one();
        let ghost a = self.poly();
        let ghost s = residue::product(a, a);
        proof {
            self.lemma_poly(self, 1);
        }
        let mut i: u64 = 0;
        while i < 127
            invariant
                i <= 127,
                t.poly() == frobenius::frobenius(s, i as nat),
                acc.poly() == frobenius::conjugate_product(s, i as nat),
            decreases 127 - i,
        {
            proof {
                acc.lemma_poly(t, 0);
                t.lemma_poly(t, 0);
            }
            acc = acc * t;
            t = t * t;
            i = i + 1;
        }
        proof {
            self.lemma_poly(F128::zero(), 0);
            frobenius::lemma_inverse(a);
            self.lemma_poly(acc, 1);
            acc.lemma_poly(self, 1);
        }
        acc
    }
}

/// `x · a` on the 128-bit value.
fn shift_reduce(a: u128) -> (r: u128)
    ensures
        r == residue::mul_x(a),
{
    let carry: u128 = if a >> 127 == 1 {
        0x87
    } else {
        0
    };
    (a << 1) ^ carry
}

proof fn lemma_horner_bits(a: u128, i: u128)
    by (bit_vector)
    requires
        i < 128,
    ensures
        i < 127 ==> (a >> i) == residue::mul_x(a >> ((i + 1) as u128)) ^ ((a >> i) & 1u128),
        i == 127 ==> (a >> i) == (a >> i) & 1u128,
        (a >> i) & 1u128 == 0u128 || (a >> i) & 1u128 == 1u128,
        a >> 0u128 == a,
{
}

/// One step of Horner's rule: bit `i` of `a` joins the product of the bits above.
pub proof fn lemma_horner_step(a: u128, b: u128, i: u128)
    requires
        i < 128,
    ensures
        residue::product(a >> i, b) == residue::mul_x(
            if i < 127 {
                residue::product(a >> ((i + 1) as u128), b)
            } else {
                0u128
            },
        ) ^ (if (a >> i) & 1u128 == 1u128 {
            b
        } else {
            0u128
        }),
{
    let bit = (a >> i) & 1u128;
    lemma_horner_bits(a, i);
    residue::lemma_mul_units(b);
    residue::lemma_xor(b, 0, 0);
    if i < 127 {
        let high = a >> ((i + 1) as u128);
        residue::lemma_mul_distributes(b, residue::mul_x(high), bit);
        residue::lemma_mul_by_x(high, b);
    } else {
        assert(residue::mul_x(0) == 0) by {
            residue::lemma_mul_x_pow_add(0, 0, 1);
            reveal_with_fuel(residue::mul_x_pow, 2);
        }
        residue::lemma_xor(0, 0, 0);
    }
}

/// The product of two 128-bit values, by Horner's rule from the highest
/// coefficient of `a` down.
fn mul_bits(a: u128, b: u128) -> (r: u128)
    ensures
        r == residue::product(a, b),
{
    let mut acc: u128 = 0;
    let mut i: u32 = 128;
    proof {
        residue::lemma_mul_units(b);
    }
    while i > 0
        invariant
            i <= 128,
            i == 128 ==> acc == 0,
            i < 128 ==> acc == residue::product(a >> (i as u128), b),
        decreases i,
    {
        let ghost before = acc;
        i = i - 1;
        acc = shift_reduce(acc);
        let bit: u128 = (a >> i) & 1;
        proof {
            assert(a >> i == a >> (i as u128));
            lemma_horner_step(a, b, i as u128);
            residue::lemma_xor(acc, 0, 0);
        }
        if bit == 1 {
            acc = acc ^ b;
        }
    }
    proof {
        lemma_horner_bits(a, 0);
    }
    acc
}

impl Add for F128 {
    type Output = F128;

    fn add(self, rhs: F128) -> (r: F128) {
        F128 { lo: self.lo ^ rhs.lo, hi: self.hi ^ rhs.hi }
    }
}

impl AddSpecImpl for F128 {
    open spec fn obeys_add_spec() -> bool {
        true
    }

    open spec fn add_req(self, rhs: F128) -> bool {
        true
    }

    open spec fn add_spec(self, rhs: F128) -> F128 {
        self.plus(rhs)
    }
}

impl AddAssign for F128 {
    fn add_assign(&mut self, rhs: F128)
        ensures
            *final(self) == old(self).plus(rhs),
    {
        *self = *self + rhs;
    }
}

impl Mul for F128 {
    type Output = F128;

    fn mul(self, rhs: F128) -> (r: F128) {
        F128::from_bits(mul_bits(self.to_bits(), rhs.to_bits()))
    }
}

impl MulSpecImpl for F128 {
    open spec fn obeys_mul_spec() -> bool {
        true
    }

    open spec fn mul_req(self, rhs: F128) -> bool {
        true
    }

    open spec fn mul_spec(self, rhs: F128) -> F128 {
        self.times(rhs)
    }
}

impl MulAssign for F128 {
    fn mul_assign(&mut self, rhs: F128)
        ensures
            *final(self) == old(self).times(rhs),
    {
        *self = *self * rhs;
    }
}

/// `x · a`.
pub fn mul_by_x(a: F128) -> (r: F128)
    ensures
        r == F128::generator().times(a),
        r.poly() == residue::mul_x(a.poly()),
{
    proof {
        lemma_halves(0, 0, 0, 0, 0);
        residue::lemma_mul_by_x(a.poly(), 0);
        F128::generator().lemma_poly(a, residue::mul_x(a.poly()));
    }
    F128::from_bits(shift_reduce(a.to_bits()))
}

// ---------------------------------------------------------------------------
// Reduction of 256-bit polynomials.
// ---------------------------------------------------------------------------

proof fn lemma_fold_high_bits(h: u128)
    by (bit_vector)
    ensures
        frobenius::fold_high(h) == h ^ residue::mul_x(h) ^ residue::mul_x(residue::mul_x(h))
            ^ residue::mul_x(
            residue::mul_x(
                residue::mul_x(
                    residue::mul_x(residue::mul_x(residue::mul_x(residue::mul_x(h)))),
                ),
            ),
        ),
        residue::mul_x(1u128 << 127u128) == 0x87u128,
        0x87u128 == 1u128 ^ (1u128 << 1u128) ^ (1u128 << 2u128) ^ (1u128 << 7u128),
{
}

/// `x^128 · h = (x^7 + x^2 + x + 1) · h`.
pub proof fn lemma_fold_high(h: u128)
    ensures
        residue::mul_x_pow(h, 128) == frobenius::fold_high(h),
{
    lemma_fold_high_bits(h);
    // x^128 · 1 = 1 + x + x^2 + x^7.
    residue::lemma_mul_x_pow_one(127);
    assert(residue::mul_x_pow(1, 128) == 0x87);
    residue::lemma_mul_x_pow_one(1);
    residue::lemma_mul_x_pow_one(2);
    residue::lemma_mul_x_pow_one(7);
    let (p1, p2, p7) = (
        residue::mul_x_pow(1, 1),
        residue::mul_x_pow(1, 2),
        residue::mul_x_pow(1, 7),
    );
    residue::lemma_mul_by_x_pow(h, 1, 128);
    residue::lemma_mul_by_x_pow(h, 1, 1);
    residue::lemma_mul_by_x_pow(h, 1, 2);
    residue::lemma_mul_by_x_pow(h, 1, 7);
    residue::lemma_mul_units(h);
    residue::lemma_mul_distributes(h, 1u128 ^ p1 ^ p2, p7);
    residue::lemma_mul_distributes(h, 1u128 ^ p1, p2);
    residue::lemma_mul_distributes(h, 1, p1);
    reveal_with_fuel(residue::mul_x_pow, 8);
}

/// Reduces the 256-bit polynomial with words `r0, r1, r2, r3`, lowest first.
pub fn ghash_reduce(r0: u64, r1: u64, r2: u64, r3: u64) -> (r: F128)
    ensures
        r.poly() == join(r0, r1) ^ residue::mul_x_pow(join(r2, r3), 128),
{
    let lo: u128 = ((r1 as u128) << 64) | (r0 as u128);
    let h: u128 = ((r3 as u128) << 64) | (r2 as u128);
    let o: u128 = (h >> 127) ^ (h >> 126) ^ (h >> 121);
    let folded: u128 = h ^ (h << 1) ^ (h << 2) ^ (h << 7) ^ o ^ (o << 1) ^ (o << 2) ^ (o << 7);
    proof {
        lemma_fold_high(h);
        F128::zero().lemma_poly(F128::zero(), lo ^ folded);
    }
    F128::from_bits(lo ^ folded)
}

} // verus!
