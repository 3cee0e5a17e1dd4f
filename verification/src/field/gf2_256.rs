//! GF(2^256) as a quadratic extension of [`F128`]: `F256 = F128[u]/(u² + u + β)`.
//!
//! An element is `c0 + c1·u` with `c0, c1 ∈ F128`. The base field embeds as
//! `a ↦ a + 0·u`.
//!
//! Over a binary field every element is a square, so `u² + β` is never
//! irreducible. The degree-2 irreducibles are the Artin–Schreier polynomials
//! `u² + u + β`, irreducible over F128 iff `Tr(β) = 1`: the equation
//! `t² + t = β` then has no root in F128. See [`beta`].
//!
//! Multiplication (Karatsuba): with `u² = u + β`,
//! ```text
//!   (a0 + a1·u)(b0 + b1·u)
//!     = (a0·b0 + β·a1·b1) + (a0·b0 + (a0+a1)(b0+b1))·u
//! ```
//! i.e. `m0 = a0·b0`, `m1 = (a0+a1)(b0+b1)`, `m2 = a1·b1`, then
//! `c0 = m0 + β·m2`, `c1 = m0 + m1`. Three F128 products and one product by `β`.
//!
//! Inversion goes through the norm: the conjugate of `A = c0 + c1·u` is
//! `Ā = (c0+c1) + c1·u`, the norm is `N(A) = A·Ā = c0² + c0·c1 + β·c1² ∈ F128`,
//! and `A⁻¹ = Ā · N(A)⁻¹`.

use crate::field::frobenius;
use crate::field::gf2_128;
use crate::field::gf2_128::{ghash_reduce, F128};
use crate::field::residue;
use core::ops::{Add, AddAssign, Mul, MulAssign};
use vstd::arithmetic::power2::{
    lemma2_to64, lemma2_to64_rest, lemma_pow2_adds, lemma_pow2_unfold, pow2,
};
use vstd::prelude::*;
use vstd::std_specs::ops::{AddSpecImpl, MulSpecImpl};

verus! {

/// An element `c0 + c1·u` of GF(2^256).
#[derive(Clone, Copy, Debug, Default, PartialEq, Eq, Hash, Structural)]
pub struct F256 {
    /// Coefficient of `u^0` (the embedded F128 part).
    pub c0: F128,
    /// Coefficient of `u^1`.
    pub c1: F128,
}

/// The polynomial of `β`: the single term `x^121`.
pub open spec fn beta_poly() -> u128 {
    1u128 << 121u128
}

/// `(a0 + a1·u)(b0 + b1·u)` with `u² = u + β`, as the coefficients of `1` and `u`.
pub open spec fn mul_parts(a0: u128, a1: u128, b0: u128, b1: u128) -> (u128, u128) {
    (
        residue::product(a0, b0) ^ residue::product(beta_poly(), residue::product(a1, b1)),
        (residue::product(a0, b1) ^ residue::product(a1, b0)) ^ residue::product(a1, b1),
    )
}

/// The Artin–Schreier constant `β = x^121`, which has trace 1, so that
/// `u² + u + β` is irreducible over F128. No lower power of `x` has trace 1.
#[verifier::allow_in_spec]
pub fn beta() -> F128
    returns
        (F128 { lo: 0, hi: 1u64 << 57 }),
{
    F128 { lo: 0, hi: 1u64 << 57 }
}

/// `β` stands for `x^121`.
pub proof fn lemma_beta()
    ensures
        beta().poly() == beta_poly(),
{
    assert(gf2_128::join(0, 1u64 << 57u64) == 1u128 << 121u128) by (bit_vector);
}

proof fn lemma_split_at_7(a: u128)
    by (bit_vector)
    ensures
        a == ((a >> 7u128) << 7u128) ^ (a & 127u128),
{
}

proof fn lemma_mul_x_doubles(y: u128)
    by (bit_vector)
    requires
        y < 0x8000_0000_0000_0000_0000_0000_0000_0000u128,
    ensures
        residue::mul_x(y) == y + y,
{
}

/// Multiplying by a power of `x` is scaling by a power of two while no bit is lost.
proof fn lemma_power_scales(a: u128, k: nat)
    requires
        a * pow2(k) <= u128::MAX,
    ensures
        residue::mul_x_pow(a, k) == a * pow2(k),
    decreases k,
{
    if k == 0 {
        lemma2_to64();
    } else {
        lemma_pow2_unfold(k);
        let p = pow2((k - 1) as nat) as int;
        assert(a * (2 * p) == 2 * (a * p)) by (nonlinear_arith);
        assert(a * p >= 0) by (nonlinear_arith)
            requires
                p >= 0,
        ;
        lemma_power_scales(a, (k - 1) as nat);
        lemma_mul_x_doubles(residue::mul_x_pow(a, (k - 1) as nat));
    }
}

/// The two shifts that make up a multiplication by `x^121`.
proof fn lemma_shift_powers(v: u128)
    ensures
        residue::mul_x_pow(v & 127u128, 121) == v << 121u128,
        residue::mul_x_pow(v >> 7u128, 7) == (v >> 7u128) << 7u128,
{
    let low = v & 127u128;
    let high = v >> 7u128;
    assert(low < 128 && v << 121u128 == low * 0x0200_0000_0000_0000_0000_0000_0000_0000u128
        && high < 0x0200_0000_0000_0000_0000_0000_0000_0000u128 && high << 7u128 == high * 128u128)
        by (bit_vector)
        requires
            low == v & 127u128,
            high == v >> 7u128,
    ;
    lemma2_to64();
    lemma2_to64_rest();
    lemma_pow2_adds(64, 57);
    lemma_power_scales(low, 121);
    lemma_power_scales(high, 7);
}

proof fn lemma_shift_words(lo: u64, hi: u64)
    by (bit_vector)
    ensures
        gf2_128::join(0, lo << 57u64) == gf2_128::join(lo, hi) << 121u128,
        gf2_128::join((lo >> 7u64) ^ (hi << 57u64), hi >> 7u64) == gf2_128::join(lo, hi) >> 7u128,
{
}

/// Multiplies by `β = x^121`: the shift of `a` by 121 places, reduced once.
///
/// `121 = 64 + 57`, so the shifted value has the words `0`, `lo << 57`,
/// `(lo >> 7) ^ (hi << 57)` and `hi >> 7`.
pub fn mul_by_beta(a: F128) -> (r: F128)
    ensures
        r == a.times(beta()),
        r == beta().times(a),
{
    let lo: u64 = a.lo;
    let hi: u64 = a.hi;
    let r1: u64 = lo << 57;
    let r2: u64 = (lo >> 7) ^ (hi << 57);
    let r3: u64 = hi >> 7;
    let r = ghash_reduce(0, r1, r2, r3);
    proof {
        let v = a.poly();
        let (high, low) = (v >> 7u128, v & 127u128);
        lemma_shift_words(lo, hi);
        lemma_split_at_7(v);
        lemma_shift_powers(v);
        residue::lemma_mul_x_pow_add(high << 7u128, low, 121);
        residue::lemma_mul_x_pow_sum(high, 7, 121);
        residue::lemma_xor(residue::mul_x_pow(high, 128), v << 121u128, 0);
        residue::lemma_mul_x_pow_one(121);
        residue::lemma_mul_by_x_pow(v, 1, 121);
        residue::lemma_mul_units(v);
        residue::lemma_mul_commutes(v, beta_poly());
        lemma_beta();
        a.lemma_poly(beta(), 0);
        beta().lemma_poly(a, 0);
        r.lemma_poly(a.times(beta()), 0);
    }
    r
}

proof fn lemma_xor_words(x: u64, y: u64, z: u64)
    by (bit_vector)
    ensures
        x ^ y == y ^ x,
        (x ^ y) ^ z == x ^ (y ^ z),
        x ^ 0u64 == x,
        0u64 ^ x == x,
        x ^ x == 0u64,
        (x ^ y) ^ y == x,
        (x ^ y == 0u64) == (x == y),
{
}

impl F256 {
    /// The sum of two elements.
    #[verifier::opaque]
    pub open spec fn plus(self, rhs: F256) -> F256 {
        F256 { c0: self.c0.plus(rhs.c0), c1: self.c1.plus(rhs.c1) }
    }

    /// The product of two elements: the product of the polynomials in `u`, with
    /// `u² = u + β`.
    #[verifier::opaque]
    pub open spec fn times(self, rhs: F256) -> F256 {
        F256 {
            c0: self.c0.times(rhs.c0).plus(beta().times(self.c1.times(rhs.c1))),
            c1: self.c0.times(rhs.c1).plus(self.c1.times(rhs.c0)).plus(self.c1.times(rhs.c1)),
        }
    }

    /// The element with the given coefficient polynomials.
    pub open spec fn of_polys(p: (u128, u128)) -> F256 {
        F256 { c0: F128::of_poly(p.0), c1: F128::of_poly(p.1) }
    }

    /// The element `0`.
    #[verifier::allow_in_spec]
    pub fn zero() -> F256
        returns
            (F256 { c0: F128::zero(), c1: F128::zero() }),
    {
        F256 { c0: F128::zero(), c1: F128::zero() }
    }

    /// The element `1`.
    #[verifier::allow_in_spec]
    pub fn one() -> F256
        returns
            (F256 { c0: F128::one(), c1: F128::zero() }),
    {
        F256 { c0: F128::one(), c1: F128::zero() }
    }

    /// The element `c0 + c1·u`.
    #[verifier::allow_in_spec]
    pub fn new(c0: F128, c1: F128) -> F256
        returns
            (F256 { c0, c1 }),
    {
        F256 { c0, c1 }
    }

    /// Embeds `a ∈ F128` as `a + 0·u`.
    #[verifier::allow_in_spec]
    pub fn from_f128(a: F128) -> F256
        returns
            (F256 { c0: a, c1: F128::zero() }),
    {
        F256 { c0: a, c1: F128::zero() }
    }

    /// Tells whether the element is zero.
    pub fn is_zero(self) -> (r: bool)
        ensures
            r == (self == F256::zero()),
    {
        self.c0.is_zero() && self.c1.is_zero()
    }

    // -----------------------------------------------------------------------
    // The field laws.
    // -----------------------------------------------------------------------

    proof fn lemma_parts(self, rhs: F256)
        ensures
            self.times(rhs) == F256::of_polys(
                mul_parts(self.c0.poly(), self.c1.poly(), rhs.c0.poly(), rhs.c1.poly()),
            ),
            self.plus(rhs) == F256::of_polys(
                (self.c0.poly() ^ rhs.c0.poly(), self.c1.poly() ^ rhs.c1.poly()),
            ),
            self == F256::of_polys((self.c0.poly(), self.c1.poly())),
    {
        reveal(F256::plus);
        reveal(F256::times);
        lemma_beta();
        let (a0, a1, b0, b1) = (self.c0, self.c1, rhs.c0, rhs.c1);
        a0.lemma_poly(b0, 0);
        a1.lemma_poly(b1, 0);
        a0.lemma_poly(b1, 0);
        a1.lemma_poly(b0, 0);
        beta().lemma_poly(a1.times(b1), 0);
        a0.times(b0).lemma_poly(beta().times(a1.times(b1)), 0);
        a0.times(b1).lemma_poly(a1.times(b0), 0);
        a0.times(b1).plus(a1.times(b0)).lemma_poly(a1.times(b1), 0);
        self.times(rhs).c0.lemma_poly(F128::zero(), 0);
        self.times(rhs).c1.lemma_poly(F128::zero(), 0);
        self.plus(rhs).c0.lemma_poly(F128::zero(), 0);
        self.plus(rhs).c1.lemma_poly(F128::zero(), 0);
    }

    proof fn lemma_of_polys(p: (u128, u128))
        ensures
            F256::of_polys(p).c0.poly() == p.0,
            F256::of_polys(p).c1.poly() == p.1,
            F256::of_polys((0, 0)) == F256::zero(),
            F256::of_polys((1, 0)) == F256::one(),
    {
        F128::zero().lemma_poly(F128::zero(), p.0);
        F128::zero().lemma_poly(F128::zero(), p.1);
    }

    /// Addition is commutative and associative, with identity 0, and every
    /// element is its own negative.
    pub proof fn lemma_plus(self, b: F256, c: F256)
        ensures
            self.plus(b) == b.plus(self),
            self.plus(b).plus(c) == self.plus(b.plus(c)),
            self.plus(F256::zero()) == self,
            F256::zero().plus(self) == self,
            self.plus(self) == F256::zero(),
            self.plus(b).plus(b) == self,
            (self.plus(b) == F256::zero()) == (self == b),
    {
        reveal(F256::plus);
        lemma_xor_words(self.c0.lo, b.c0.lo, c.c0.lo);
        lemma_xor_words(self.c0.hi, b.c0.hi, c.c0.hi);
        lemma_xor_words(self.c1.lo, b.c1.lo, c.c1.lo);
        lemma_xor_words(self.c1.hi, b.c1.hi, c.c1.hi);
    }

    /// Sums of four terms may be paired either way.
    pub proof fn lemma_plus_pairs(a: F256, b: F256, c: F256, d: F256)
        ensures
            a.plus(b).plus(c.plus(d)) == a.plus(c).plus(b.plus(d)),
    {
        a.lemma_plus(b, c.plus(d));
        b.lemma_plus(c, d);
        b.lemma_plus(c, F256::zero());
        c.lemma_plus(b, d);
        a.lemma_plus(c, b.plus(d));
    }

    /// Multiplication is commutative.
    pub proof fn lemma_times_commutes(self, b: F256)
        ensures
            self.times(b) == b.times(self),
    {
        self.lemma_parts(b);
        b.lemma_parts(self);
        let (a0, a1, b0, b1) = (self.c0.poly(), self.c1.poly(), b.c0.poly(), b.c1.poly());
        residue::lemma_mul_commutes(a0, b0);
        residue::lemma_mul_commutes(a0, b1);
        residue::lemma_mul_commutes(a1, b0);
        residue::lemma_mul_commutes(a1, b1);
        residue::lemma_xor(residue::product(a0, b1), residue::product(a1, b0), 0);
    }

    /// 1 is the identity and 0 annihilates.
    pub proof fn lemma_times_units(self)
        ensures
            self.times(F256::one()) == self,
            F256::one().times(self) == self,
            self.times(F256::zero()) == F256::zero(),
            F256::zero().times(self) == F256::zero(),
    {
        self.lemma_times_commutes(F256::one());
        self.lemma_times_commutes(F256::zero());
        self.lemma_parts(F256::one());
        self.lemma_parts(F256::zero());
        F256::lemma_of_polys((1, 0));
        F256::lemma_of_polys((0, 0));
        let (a0, a1) = (self.c0.poly(), self.c1.poly());
        residue::lemma_mul_units(a0);
        residue::lemma_mul_units(a1);
        residue::lemma_mul_units(beta_poly());
        residue::lemma_xor(a0, 0, 0);
        residue::lemma_xor(a1, 0, 0);
        residue::lemma_xor(0, 0, 0);
    }

    /// Multiplication distributes over addition.
    pub proof fn lemma_times_distributes(self, b: F256, c: F256)
        ensures
            self.times(b.plus(c)) == self.times(b).plus(self.times(c)),
            b.plus(c).times(self) == b.times(self).plus(c.times(self)),
    {
        self.lemma_times_commutes(b.plus(c));
        self.lemma_times_commutes(b);
        self.lemma_times_commutes(c);
        b.lemma_parts(c);
        self.lemma_parts(b.plus(c));
        self.lemma_parts(b);
        self.lemma_parts(c);
        self.times(b).lemma_parts(self.times(c));
        let (a0, a1) = (self.c0.poly(), self.c1.poly());
        let (b0, b1) = (b.c0.poly(), b.c1.poly());
        let (d0, d1) = (c.c0.poly(), c.c1.poly());
        F256::lemma_of_polys((b0 ^ d0, b1 ^ d1));
        let p = mul_parts(a0, a1, b0, b1);
        let q = mul_parts(a0, a1, d0, d1);
        F256::lemma_of_polys(p);
        F256::lemma_of_polys(q);
        residue::lemma_mul_distributes(a0, b0, d0);
        residue::lemma_mul_distributes(a0, b1, d1);
        residue::lemma_mul_distributes(a1, b0, d0);
        residue::lemma_mul_distributes(a1, b1, d1);
        let (m, n) = (residue::product(a1, b1), residue::product(a1, d1));
        residue::lemma_mul_distributes(beta_poly(), m, n);
        residue::lemma_xor_pairs(
            residue::product(a0, b0),
            residue::product(a0, d0),
            residue::product(beta_poly(), m),
            residue::product(beta_poly(), n),
        );
        let (s, t) = (residue::product(a0, b1), residue::product(a0, d1));
        let (v, w) = (residue::product(a1, b0), residue::product(a1, d0));
        residue::lemma_xor_pairs(s, t, v, w);
        residue::lemma_xor_pairs(s ^ v, t ^ w, m, n);
    }

    /// Multiplication is associative.
    pub proof fn lemma_times_associates(self, b: F256, c: F256)
        ensures
            self.times(b).times(c) == self.times(b.times(c)),
    {
        let (a0, a1) = (self.c0.poly(), self.c1.poly());
        let (b0, b1) = (b.c0.poly(), b.c1.poly());
        let (d0, d1) = (c.c0.poly(), c.c1.poly());
        let ab = mul_parts(a0, a1, b0, b1);
        let bc = mul_parts(b0, b1, d0, d1);
        self.lemma_parts(b);
        b.lemma_parts(c);
        F256::lemma_of_polys(ab);
        F256::lemma_of_polys(bc);
        self.times(b).lemma_parts(c);
        self.lemma_parts(b.times(c));
        lemma_mul_parts_associate(a0, a1, b0, b1, d0, d1);
    }
}

/// `(p + β·q)·r = p·r + β·(q·r)`, and the same from the left.
proof fn lemma_beta_expand(p: u128, q: u128, r: u128)
    ensures
        residue::product(p ^ residue::product(beta_poly(), q), r) == residue::product(p, r)
            ^ residue::product(beta_poly(), residue::product(q, r)),
        residue::product(r, p ^ residue::product(beta_poly(), q)) == residue::product(r, p)
            ^ residue::product(beta_poly(), residue::product(r, q)),
{
    let b = beta_poly();
    residue::lemma_mul_distributes(r, p, residue::product(b, q));
    residue::lemma_mul_associates(b, q, r);
    residue::lemma_mul_commutes(q, r);
    residue::lemma_mul_commutes(r, residue::product(b, q));
}

/// Products with a sum of three terms.
proof fn lemma_expand_three(p: u128, q: u128, s: u128, r: u128)
    ensures
        residue::product((p ^ q) ^ s, r) == (residue::product(p, r) ^ residue::product(q, r))
            ^ residue::product(s, r),
        residue::product(r, (p ^ q) ^ s) == (residue::product(r, p) ^ residue::product(r, q))
            ^ residue::product(r, s),
{
    residue::lemma_mul_distributes(r, p ^ q, s);
    residue::lemma_mul_distributes(r, p, q);
}

proof fn lemma_regroup_first(t1: u128, t2: u128, t3: u128, t4: u128, t5: u128)
    ensures
        (t1 ^ t2) ^ ((t3 ^ t4) ^ t5) == (t1 ^ t3) ^ ((t4 ^ t2) ^ t5),
{
    residue::lemma_xor_pairs(t1, t2, t3 ^ t4, t5);
    residue::lemma_xor(t4, t2, t5);
    residue::lemma_xor(t1, t3, t4);
    residue::lemma_xor(t1 ^ t3, t4, t2 ^ t5);
}

proof fn lemma_regroup_second(
    t1: u128,
    t2: u128,
    t3: u128,
    t4: u128,
    t5: u128,
    t6: u128,
    t7: u128,
    t8: u128,
)
    ensures
        ((t1 ^ t2) ^ ((t3 ^ t4) ^ t5)) ^ ((t6 ^ t7) ^ t8) == (((t1 ^ t3) ^ t6) ^ (t4 ^ t2)) ^ ((t7
            ^ t5) ^ t8),
{
    let (a, b) = (t1 ^ t3, t4 ^ t2);
    lemma_regroup_first(t1, t2, t3, t4, t5);
    residue::lemma_xor(t6, t7, t8);
    residue::lemma_xor_pairs(a, b ^ t5, t6, t7 ^ t8);
    residue::lemma_xor(b, t5, t7 ^ t8);
    residue::lemma_xor(t5, t7, t8);
    residue::lemma_xor(a ^ t6, b, (t7 ^ t5) ^ t8);
}

proof fn lemma_mul_parts_associate(a0: u128, a1: u128, b0: u128, b1: u128, d0: u128, d1: u128)
    ensures
        ({
            let ab = mul_parts(a0, a1, b0, b1);
            let bc = mul_parts(b0, b1, d0, d1);
            mul_parts(ab.0, ab.1, d0, d1) == mul_parts(a0, a1, bc.0, bc.1)
        }),
{
    let b = beta_poly();
    let (p00, p01) = (residue::product(a0, b0), residue::product(a0, b1));
    let (p10, p11) = (residue::product(a1, b0), residue::product(a1, b1));
    let (q00, q01) = (residue::product(b0, d0), residue::product(b0, d1));
    let (q10, q11) = (residue::product(b1, d0), residue::product(b1, d1));
    // All triple products, associated to the right.
    residue::lemma_mul_associates(a0, b0, d0);
    residue::lemma_mul_associates(a0, b0, d1);
    residue::lemma_mul_associates(a0, b1, d0);
    residue::lemma_mul_associates(a0, b1, d1);
    residue::lemma_mul_associates(a1, b0, d0);
    residue::lemma_mul_associates(a1, b0, d1);
    residue::lemma_mul_associates(a1, b1, d0);
    residue::lemma_mul_associates(a1, b1, d1);
    let (t000, t001) = (residue::product(a0, q00), residue::product(a0, q01));
    let (t010, t011) = (residue::product(a0, q10), residue::product(a0, q11));
    let (t100, t101) = (residue::product(a1, q00), residue::product(a1, q01));
    let (t110, t111) = (residue::product(a1, q10), residue::product(a1, q11));
    // Left side.
    lemma_beta_expand(p00, p11, d0);
    lemma_beta_expand(p00, p11, d1);
    lemma_expand_three(p01, p10, p11, d0);
    lemma_expand_three(p01, p10, p11, d1);
    // Right side.
    lemma_beta_expand(q00, q11, a0);
    lemma_beta_expand(q00, q11, a1);
    lemma_expand_three(q01, q10, q11, a0);
    lemma_expand_three(q01, q10, q11, a1);
    // The coefficient of 1.
    residue::lemma_mul_distributes(b, t011 ^ t101, t111);
    residue::lemma_mul_distributes(b, t011, t101);
    residue::lemma_mul_distributes(b, t101 ^ t110, t111);
    residue::lemma_mul_distributes(b, t101, t110);
    lemma_regroup_first(
        t000,
        residue::product(b, t110),
        residue::product(b, t011),
        residue::product(b, t101),
        residue::product(b, t111),
    );
    // The coefficient of u.
    lemma_regroup_second(t001, residue::product(b, t111), t010, t100, t110, t011, t101, t111);
}

impl F256 {
    /// The conjugate `(c0 + c1) + c1·u`.
    pub open spec fn conj(self) -> F256 {
        F256 { c0: self.c0.plus(self.c1), c1: self.c1 }
    }

    /// The norm `c0·(c0 + c1) + β·c1²`.
    pub open spec fn field_norm(self) -> F128 {
        self.c0.times(self.c0.plus(self.c1)).plus(beta().times(self.c1.times(self.c1)))
    }

    /// The element squared `n` times: its power to `2^n`.
    pub open spec fn squared(self, n: nat) -> F256
        decreases n,
    {
        if n == 0 {
            self
        } else {
            let s = self.squared((n - 1) as nat);
            s.times(s)
        }
    }

    /// The element as a scalar of F128 times 1.
    pub open spec fn scaled(self, s: F128) -> F256 {
        F256 { c0: self.c0.times(s), c1: self.c1.times(s) }
    }

    /// The inclusion of F128 is a field homomorphism, and a product with an
    /// embedded element is the coefficientwise product.
    pub proof fn lemma_embedding(self, a: F128, b: F128)
        ensures
            F256::from_f128(a).plus(F256::from_f128(b)) == F256::from_f128(a.plus(b)),
            F256::from_f128(a).times(F256::from_f128(b)) == F256::from_f128(a.times(b)),
            F256::from_f128(F128::one()) == F256::one(),
            F256::from_f128(F128::zero()) == F256::zero(),
            F256::from_f128(a) == F256::from_f128(b) ==> a == b,
            self.times(F256::from_f128(a)) == self.scaled(a),
            F256::from_f128(a).times(self) == self.scaled(a),
    {
        F256::from_f128(a).lemma_scaled(b);
        self.lemma_scaled(a);
        a.lemma_poly(b, 0);
        F128::zero().lemma_poly(b, 0);
        residue::lemma_mul_units(b.poly());
        F256::from_f128(a).lemma_parts(F256::from_f128(b));
        residue::lemma_xor(0, 0, 0);
        a.plus(b).lemma_poly(F128::zero(), 0);
        self.lemma_times_commutes(F256::from_f128(a));
    }

    proof fn lemma_scaled(self, s: F128)
        ensures
            self.times(F256::from_f128(s)) == self.scaled(s),
    {
        let (a0, a1) = (self.c0.poly(), self.c1.poly());
        self.lemma_parts(F256::from_f128(s));
        F128::zero().lemma_poly(F128::zero(), 0);
        residue::lemma_mul_units(a0);
        residue::lemma_mul_units(a1);
        residue::lemma_mul_units(beta_poly());
        residue::lemma_xor(residue::product(a0, s.poly()), 0, 0);
        residue::lemma_xor(residue::product(a1, s.poly()), 0, 0);
        self.c0.lemma_poly(s, 0);
        self.c1.lemma_poly(s, 0);
    }

    /// `u` is a root of `u² + u + β`.
    pub proof fn lemma_minimal_polynomial()
        ensures
            ({
                let u = F256::new(F128::zero(), F128::one());
                u.times(u) == u.plus(F256::from_f128(beta()))
            }),
    {
        let u = F256::new(F128::zero(), F128::one());
        u.lemma_parts(u);
        u.lemma_parts(F256::from_f128(beta()));
        lemma_beta();
        F128::zero().lemma_poly(F128::zero(), 0);
        F128::one().lemma_poly(F128::one(), 1);
        residue::lemma_mul_units(0);
        residue::lemma_mul_units(1);
        residue::lemma_mul_units(beta_poly());
        residue::lemma_xor(beta_poly(), 0, 0);
        residue::lemma_xor(0, 1, 0);
        residue::lemma_xor(1, 0, 0);
    }

    /// Products of four factors may be paired either way.
    pub proof fn lemma_times_pairs(a: F256, b: F256, c: F256, d: F256)
        ensures
            a.times(b).times(c.times(d)) == a.times(c).times(b.times(d)),
    {
        a.lemma_times_associates(b, c.times(d));
        b.lemma_times_associates(c, d);
        b.lemma_times_commutes(c);
        c.lemma_times_associates(b, d);
        a.lemma_times_associates(c, b.times(d));
    }

    /// Repeated squaring respects sums and products, and its counts add up.
    pub proof fn lemma_squared_homomorphism(self, b: F256, m: nat, n: nat)
        ensures
            self.plus(b).squared(n) == self.squared(n).plus(b.squared(n)),
            self.times(b).squared(n) == self.squared(n).times(b.squared(n)),
            self.squared(m).squared(n) == self.squared(m + n),
        decreases n,
    {
        if n > 0 {
            let k = (n - 1) as nat;
            self.lemma_squared_homomorphism(b, m, k);
            let (s, t) = (self.squared(k), b.squared(k));
            F256::lemma_times_pairs(s, t, s, t);
            s.plus(t).lemma_times_distributes(s, t);
            s.lemma_times_distributes(s, t);
            t.lemma_times_distributes(s, t);
            s.lemma_times_commutes(t);
            let (ss, st, tt) = (s.times(s), s.times(t), t.times(t));
            ss.lemma_plus(st, st.plus(tt));
            st.lemma_plus(st, tt);
            tt.lemma_plus(st, F256::zero());
            assert(ss.plus(st).plus(st.plus(tt)) == ss.plus(tt));
        }
    }

    proof fn lemma_squared_parts(self, n: nat)
        ensures
            self.squared(n).c1.poly() == frobenius::frobenius(self.c1.poly(), n),
            self.squared(n).c0.poly() == frobenius::frobenius(self.c0.poly(), n)
                ^ residue::product(
                frobenius::frobenius(self.c1.poly(), n),
                frobenius::trace_terms(beta_poly(), n),
            ),
        decreases n,
    {
        let (a0, a1, b) = (self.c0.poly(), self.c1.poly(), beta_poly());
        if n == 0 {
            residue::lemma_mul_units(a1);
            residue::lemma_xor(a0, 0, 0);
        } else {
            let k = (n - 1) as nat;
            self.lemma_squared_parts(k);
            let s = self.squared(k);
            s.lemma_parts(s);
            let (f0, f1) = (frobenius::frobenius(a0, k), frobenius::frobenius(a1, k));
            let t = frobenius::trace_terms(b, k);
            F256::lemma_of_polys(mul_parts(s.c0.poly(), s.c1.poly(), s.c0.poly(), s.c1.poly()));
            let q = residue::product(f1, f1);
            let tt = residue::product(t, t);
            // The coefficient of u.
            residue::lemma_mul_commutes(s.c0.poly(), f1);
            residue::lemma_xor(residue::product(s.c0.poly(), f1), 0, 0);
            residue::lemma_xor(q, 0, 0);
            // The coefficient of 1.
            frobenius::lemma_square_add(f0, residue::product(f1, t));
            frobenius::lemma_product_pairs(f1, t, f1, t);
            residue::lemma_mul_commutes(b, q);
            residue::lemma_mul_distributes(q, tt, b);
            residue::lemma_xor(
                residue::product(f0, f0),
                residue::product(q, tt),
                residue::product(q, b),
            );
            frobenius::lemma_trace_square(b, k);
        }
    }

    /// The conjugate is the power to `2^128`; it is an involution and fixes exactly
    /// the embedded F128, so 256 squarings are the identity.
    pub proof fn lemma_conjugate_is_frobenius(self, a: F128)
        ensures
            self.squared(128) == self.conj(),
            self.conj().conj() == self,
            F256::from_f128(a).conj() == F256::from_f128(a),
            self.conj() == self <==> self.c1 == F128::zero(),
            self.squared(256) == self,
    {
        let (a0, a1) = (self.c0.poly(), self.c1.poly());
        self.lemma_squared_parts(128);
        frobenius::lemma_frobenius_identity(a0);
        frobenius::lemma_frobenius_identity(a1);
        frobenius::lemma_trace_beta();
        residue::lemma_mul_units(a1);
        self.c0.lemma_poly(self.c1, 0);
        self.squared(128).c0.lemma_poly(self.conj().c0, 0);
        self.squared(128).c1.lemma_poly(self.conj().c1, 0);
        lemma_xor_words(self.c0.lo, self.c1.lo, 0);
        lemma_xor_words(self.c0.hi, self.c1.hi, 0);
        lemma_xor_words(self.c1.lo, self.c0.lo, self.c0.lo);
        lemma_xor_words(self.c1.hi, self.c0.hi, self.c0.hi);
        lemma_xor_words(self.c0.lo, 0, 0);
        lemma_xor_words(self.c0.hi, 0, 0);
        lemma_xor_words(a.lo, 0, 0);
        lemma_xor_words(a.hi, 0, 0);
        self.lemma_squared_homomorphism(self, 128, 128);
        let c = self.conj();
        c.lemma_squared_parts(128);
        frobenius::lemma_frobenius_identity(c.c0.poly());
        c.c0.lemma_poly(c.c1, 0);
        c.squared(128).c0.lemma_poly(c.conj().c0, 0);
        c.squared(128).c1.lemma_poly(c.conj().c1, 0);
    }

    /// Conjugation respects sums and products.
    pub proof fn lemma_conjugate_homomorphism(self, b: F256)
        ensures
            self.plus(b).conj() == self.conj().plus(b.conj()),
            self.times(b).conj() == self.conj().times(b.conj()),
    {
        self.lemma_conjugate_is_frobenius(F128::zero());
        b.lemma_conjugate_is_frobenius(F128::zero());
        self.plus(b).lemma_conjugate_is_frobenius(F128::zero());
        self.times(b).lemma_conjugate_is_frobenius(F128::zero());
        self.lemma_squared_homomorphism(b, 0, 128);
    }

    /// The norm is the product with the conjugate.
    pub proof fn lemma_norm_is_product(self)
        ensures
            self.times(self.conj()) == F256::from_f128(self.field_norm()),
    {
        let (a0, a1) = (self.c0.poly(), self.c1.poly());
        let c = self.conj();
        self.lemma_parts(c);
        self.c0.lemma_poly(self.c1, 0);
        self.lemma_norm_poly();
        self.field_norm().lemma_poly(F128::zero(), 0);
        let (m, q) = (residue::product(a0, a1), residue::product(a1, a1));
        residue::lemma_mul_distributes(a1, a0, a1);
        residue::lemma_mul_commutes(a0, a1);
        residue::lemma_xor(m, m, q);
        residue::lemma_xor(q, 0, 0);
        residue::lemma_xor(m ^ (m ^ q), q, 0);
        F128::zero().lemma_poly(F128::zero(), 0);
    }

    proof fn lemma_norm_poly(self)
        ensures
            self.field_norm().poly() == residue::product(
                self.c0.poly(),
                self.c0.poly() ^ self.c1.poly(),
            ) ^ residue::product(beta_poly(), residue::product(self.c1.poly(), self.c1.poly())),
    {
        lemma_beta();
        self.c0.lemma_poly(self.c1, 0);
        self.c0.lemma_poly(self.c0.plus(self.c1), 0);
        self.c1.lemma_poly(self.c1, 0);
        beta().lemma_poly(self.c1.times(self.c1), 0);
        self.c0.times(self.c0.plus(self.c1)).lemma_poly(beta().times(self.c1.times(self.c1)), 0);
    }

    /// Only zero has norm zero.
    pub proof fn lemma_norm_nonzero(self)
        requires
            self != F256::zero(),
        ensures
            self.field_norm() != F128::zero(),
    {
        let (a0, a1, b) = (self.c0.poly(), self.c1.poly(), beta_poly());
        self.lemma_norm_poly();
        self.field_norm().lemma_poly(F128::zero(), 0);
        self.c0.lemma_poly(F128::zero(), 0);
        self.c1.lemma_poly(F128::zero(), 0);
        F128::zero().lemma_poly(F128::zero(), 0);
        if self.field_norm() == F128::zero() {
            if a1 == 0 {
                residue::lemma_xor(a0, 0, 0);
                residue::lemma_mul_units(0);
                residue::lemma_mul_units(b);
                residue::lemma_xor(residue::product(a0, a0), 0, 0);
                frobenius::lemma_no_zero_divisors(a0, a0);
            } else {
                let i = frobenius::inverse(a1);
                let t = residue::product(a0, i);
                frobenius::lemma_inverse(a1);
                // a0 = t·a1.
                residue::lemma_mul_associates(a0, i, a1);
                residue::lemma_mul_units(a0);
                residue::lemma_mul_units(a1);
                let q = residue::product(a1, a1);
                // a0 + a1 = (t + 1)·a1, so a0·(a0 + a1) = t(t + 1)·a1².
                residue::lemma_mul_distributes(a1, t, 1);
                frobenius::lemma_product_pairs(t, a1, t ^ 1, a1);
                let tt = residue::product(t, t);
                residue::lemma_mul_distributes(t, t, 1);
                residue::lemma_mul_units(t);
                residue::lemma_mul_distributes(q, tt ^ t, b);
                frobenius::lemma_no_zero_divisors((tt ^ t) ^ b, q);
                residue::lemma_xor(tt ^ t, b, 0);
                if q == 0 {
                    frobenius::lemma_no_zero_divisors(a1, a1);
                }
                frobenius::lemma_beta_irreducible(t);
            }
        }
    }

    /// A product is zero only if a factor is.
    pub proof fn lemma_no_zero_divisors(self, b: F256)
        requires
            self.times(b) == F256::zero(),
        ensures
            self == F256::zero() || b == F256::zero(),
    {
        if self != F256::zero() {
            let r = self.inverse();
            self.lemma_inverse();
            r.lemma_times_associates(self, b);
            r.lemma_times_units();
            b.lemma_times_units();
        }
    }

    /// The conjugate over the norm.
    pub open spec fn inverse(self) -> F256 {
        self.conj().scaled(F128::of_poly(frobenius::inverse(self.field_norm().poly())))
    }

    /// Every nonzero element times its inverse is 1, and no other element is
    /// its inverse.
    pub proof fn lemma_inverse(self)
        requires
            self != F256::zero(),
        ensures
            self.times(self.inverse()) == F256::one(),
            self.inverse().times(self) == F256::one(),
            forall|b: F256| #[trigger] self.times(b) == F256::one() ==> b == self.inverse(),
    {
        let n = self.field_norm();
        let k = F128::of_poly(frobenius::inverse(n.poly()));
        self.lemma_norm_nonzero();
        n.lemma_poly(F128::zero(), frobenius::inverse(n.poly()));
        n.lemma_poly(k, 1);
        F128::zero().lemma_poly(F128::zero(), 0);
        frobenius::lemma_inverse(n.poly());
        assert(n.times(k) == F128::one());
        self.conj().lemma_embedding(k, k);
        self.lemma_times_associates(self.conj(), F256::from_f128(k));
        self.lemma_norm_is_product();
        self.lemma_embedding(n, k);
        let r = self.inverse();
        self.lemma_times_commutes(r);
        assert forall|b: F256| #[trigger] self.times(b) == F256::one() implies b == r by {
            r.lemma_times_associates(self, b);
            b.lemma_times_units();
            r.lemma_times_units();
        }
    }

    /// Multiplies by a scalar of the base field: `c0·s + (c1·s)·u`.
    pub fn mul_f128(self, s: F128) -> (r: F256)
        ensures
            r == self.scaled(s),
            r == self.times(F256::from_f128(s)),
    {
        proof {
            self.lemma_embedding(s, s);
        }
        F256 { c0: self.c0 * s, c1: self.c1 * s }
    }

    /// The nontrivial automorphism over F128, `x ↦ x^(2^128)`: it fixes F128
    /// and sends `u` to `u + 1`.
    pub fn conjugate(self) -> (r: F256)
        ensures
            r == self.conj(),
            r == self.squared(128),
    {
        proof {
            self.lemma_conjugate_is_frobenius(F128::zero());
        }
        F256 { c0: self.c0 + self.c1, c1: self.c1 }
    }

    /// The field norm `self · conj(self) = c0² + c0·c1 + β·c1²`.
    pub fn norm(self) -> (r: F128)
        ensures
            r == self.field_norm(),
            F256::from_f128(r) == self.times(self.conj()),
    {
        proof {
            self.lemma_norm_is_product();
        }
        self.c0 * (self.c0 + self.c1) + mul_by_beta(self.c1 * self.c1)
    }

    /// The multiplicative inverse, `conj(self) / norm(self)`; callers rule out
    /// zero with [`is_zero`](Self::is_zero).
    pub fn inv(self) -> (r: F256)
        requires
            self != F256::zero(),
        ensures
            r == self.inverse(),
            self.times(r) == F256::one(),
    {
        proof {
            self.lemma_inverse();
            self.lemma_norm_nonzero();
        }
        let n_inv = self.norm().inv();
        proof {
            n_inv.lemma_poly(n_inv, 0);
        }
        F256 { c0: (self.c0 + self.c1) * n_inv, c1: self.c1 * n_inv }
    }
}

impl Add for F256 {
    type Output = F256;

    fn add(self, rhs: F256) -> (r: F256) {
        proof {
            reveal(F256::plus);
        }
        F256 { c0: self.c0 + rhs.c0, c1: self.c1 + rhs.c1 }
    }
}

impl AddSpecImpl for F256 {
    open spec fn obeys_add_spec() -> bool {
        true
    }

    open spec fn add_req(self, rhs: F256) -> bool {
        true
    }

    open spec fn add_spec(self, rhs: F256) -> F256 {
        self.plus(rhs)
    }
}

impl AddAssign for F256 {
    fn add_assign(&mut self, rhs: F256)
        ensures
            *final(self) == old(self).plus(rhs),
    {
        *self = *self + rhs;
    }
}

/// Karatsuba's three products give the two schoolbook coefficients.
proof fn lemma_karatsuba(a0: u128, a1: u128, b0: u128, b1: u128)
    ensures
        residue::product(a0, b0) ^ residue::product(a0 ^ a1, b0 ^ b1) == mul_parts(
            a0,
            a1,
            b0,
            b1,
        ).1,
{
    residue::lemma_mul_distributes(b0 ^ b1, a0, a1);
    residue::lemma_mul_distributes(a0, b0, b1);
    residue::lemma_mul_distributes(a1, b0, b1);
    let (p, q) = (residue::product(a0, b0), residue::product(a0, b1));
    let (v, w) = (residue::product(a1, b0), residue::product(a1, b1));
    residue::lemma_xor(p, q, v ^ w);
    residue::lemma_xor(p, p, q ^ (v ^ w));
    residue::lemma_xor(q ^ (v ^ w), 0, 0);
    residue::lemma_xor(q, v, w);
}

impl Mul for F256 {
    type Output = F256;

    fn mul(self, rhs: F256) -> (r: F256) {
        let a0 = self.c0;
        let a1 = self.c1;
        let b0 = rhs.c0;
        let b1 = rhs.c1;
        let m0 = a0 * b0;
        let m2 = a1 * b1;
        let m1 = (a0 + a1) * (b0 + b1);
        let r = F256 { c0: m0 + mul_by_beta(m2), c1: m0 + m1 };
        proof {
            self.lemma_parts(rhs);
            lemma_karatsuba(a0.poly(), a1.poly(), b0.poly(), b1.poly());
            reveal(F256::times);
            a0.lemma_poly(b0, 0);
            a0.lemma_poly(a1, 0);
            b0.lemma_poly(b1, 0);
            a0.plus(a1).lemma_poly(b0.plus(b1), 0);
            m0.lemma_poly(m1, 0);
            r.c1.lemma_poly(F128::zero(), 0);
        }
        r
    }
}

impl MulSpecImpl for F256 {
    open spec fn obeys_mul_spec() -> bool {
        true
    }

    open spec fn mul_req(self, rhs: F256) -> bool {
        true
    }

    open spec fn mul_spec(self, rhs: F256) -> F256 {
        self.times(rhs)
    }
}

impl MulAssign for F256 {
    fn mul_assign(&mut self, rhs: F256)
        ensures
            *final(self) == old(self).times(rhs),
    {
        *self = *self * rhs;
    }
}

/// `F128 · F256` from the left: the same as [`F256::mul_f128`].
impl Mul<F256> for F128 {
    type Output = F256;

    fn mul(self, rhs: F256) -> (r: F256) {
        rhs.mul_f128(self)
    }
}

impl MulSpecImpl<F256> for F128 {
    open spec fn obeys_mul_spec() -> bool {
        true
    }

    open spec fn mul_req(self, rhs: F256) -> bool {
        true
    }

    open spec fn mul_spec(self, rhs: F256) -> F256 {
        rhs.scaled(self)
    }
}

} // verus!
