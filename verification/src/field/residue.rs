//! Arithmetic of GF(2)\[x\] modulo `x^128 + x^7 + x^2 + x + 1`.
//!
//! A residue is a `u128` whose bit `i` is the coefficient of `x^i`. Addition is
//! exclusive or. Multiplication is defined from one step, multiplication by `x`
//! ([`mul_x`]), and the ring laws are proved. An additive map that commutes with
//! multiplication by `x` is multiplication by its value at 1 ([`lemma_linear`]);
//! most of the laws are instances of that.

use vstd::prelude::*;

verus! {

// ---------------------------------------------------------------------------
// Coefficients.
// ---------------------------------------------------------------------------

/// The coefficient of `x^i`.
pub open spec fn coeff(a: u128, i: int) -> bool {
    (a >> (i as u128)) & 1u128 == 1u128
}

/// `a` if `b` holds, else zero.
pub open spec fn gate(b: bool, a: u128) -> u128 {
    if b {
        a
    } else {
        0u128
    }
}

/// The terms of `a` below `x^n`.
pub open spec fn low_terms(a: u128, n: int) -> u128 {
    if n >= 128 {
        a
    } else {
        a & sub_one(1u128 << (n as u128))
    }
}

/// `a - 1`, wrapping at zero.
pub open spec fn sub_one(a: u128) -> u128 {
    (a - 1) as u128
}

// ---------------------------------------------------------------------------
// Definitions.
// ---------------------------------------------------------------------------

/// `x · a`: shift by one place, and replace `x^128` by `x^7 + x^2 + x + 1`.
pub open spec fn mul_x(a: u128) -> u128 {
    (a << 1u128) ^ gate(a >> 127u128 == 1u128, 0x87u128)
}

/// `x^k · a`.
pub open spec fn mul_x_pow(a: u128, k: nat) -> u128
    decreases k,
{
    if k == 0 {
        a
    } else {
        mul_x(mul_x_pow(a, (k - 1) as nat))
    }
}

/// `Σ_{i < n} a_i · x^i · b`.
pub open spec fn mul_terms(a: u128, b: u128, n: nat) -> u128
    decreases n,
{
    if n == 0 {
        0u128
    } else {
        mul_terms(a, b, (n - 1) as nat) ^ gate(
            coeff(a, n - 1),
            mul_x_pow(b, (n - 1) as nat),
        )
    }
}

/// The product `a · b = Σ_{i < 128} a_i · x^i · b`.
#[verifier::opaque]
pub open spec fn product(a: u128, b: u128) -> u128 {
    mul_terms(a, b, 128)
}

// ---------------------------------------------------------------------------
// Exclusive or.
// ---------------------------------------------------------------------------

/// Addition is commutative, associative, and its own inverse.
pub proof fn lemma_xor(a: u128, b: u128, c: u128)
    by (bit_vector)
    ensures
        a ^ b == b ^ a,
        (a ^ b) ^ c == a ^ (b ^ c),
        a ^ 0u128 == a,
        0u128 ^ a == a,
        a ^ a == 0u128,
        (a ^ b) ^ b == a,
        (a ^ b == 0u128) == (a == b),
{
}

/// Sums of four terms may be paired either way.
pub proof fn lemma_xor_pairs(a: u128, b: u128, c: u128, d: u128)
    by (bit_vector)
    ensures
        (a ^ b) ^ (c ^ d) == (a ^ c) ^ (b ^ d),
{
}

proof fn lemma_mul_x_bits(a: u128, b: u128, i: u128)
    by (bit_vector)
    ensures
        mul_x(a ^ b) == mul_x(a) ^ mul_x(b),
        mul_x(0u128) == 0u128,
        i < 127 ==> mul_x(1u128 << i) == 1u128 << ((i + 1) as u128),
        ((a ^ b) >> i) & 1u128 == ((a >> i) & 1u128) ^ ((b >> i) & 1u128),
        ((a >> i) & 1u128 == 0u128) || ((a >> i) & 1u128 == 1u128),
{
}

proof fn lemma_low_terms_bits(a: u128, i: u128)
    by (bit_vector)
    requires
        i < 128,
    ensures
        i < 127 ==> (a & sub_one(1u128 << ((i + 1) as u128))) == (a & sub_one(1u128 << i)) ^ gate(
            (a >> i) & 1u128 == 1u128,
            1u128 << i,
        ),
        i == 127 ==> a == (a & sub_one(1u128 << i)) ^ gate(
            (a >> i) & 1u128 == 1u128,
            1u128 << i,
        ),
        (a & sub_one(1u128 << 0u128)) == 0u128,
        1u128 << 0u128 == 1u128,
{
}

proof fn lemma_gate_xor(p: bool, q: bool, a: u128, b: u128)
    ensures
        gate(p != q, a) == gate(p, a) ^ gate(q, a),
        gate(p, a ^ b) == gate(p, a) ^ gate(p, b),
{
    lemma_xor(a, b, 0);
    lemma_xor(0, 0, 0);
}

proof fn lemma_mul_x_add(a: u128, b: u128)
    ensures
        mul_x(a ^ b) == mul_x(a) ^ mul_x(b),
        mul_x(0) == 0,
{
    lemma_mul_x_bits(a, b, 0);
}

pub proof fn lemma_low_terms_step(a: u128, n: int)
    requires
        0 <= n < 128,
    ensures
        low_terms(a, n + 1) == low_terms(a, n) ^ gate(coeff(a, n), 1u128 << (n as u128)),
        low_terms(a, 0) == 0,
{
    lemma_low_terms_bits(a, n as u128);
    assert((n as u128 + 1) as u128 == (n + 1) as u128);
}

// ---------------------------------------------------------------------------
// Multiplication by powers of x.
// ---------------------------------------------------------------------------

/// `x^k · a` is additive in `a`, and `x^k · x = x · x^k`.
pub proof fn lemma_mul_x_pow_add(a: u128, b: u128, k: nat)
    ensures
        mul_x_pow(a ^ b, k) == mul_x_pow(a, k) ^ mul_x_pow(b, k),
        mul_x_pow(mul_x(a), k) == mul_x(mul_x_pow(a, k)),
        mul_x_pow(0, k) == 0,
    decreases k,
{
    if k > 0 {
        lemma_mul_x_pow_add(a, b, (k - 1) as nat);
        lemma_mul_x_add(mul_x_pow(a, (k - 1) as nat), mul_x_pow(b, (k - 1) as nat));
    }
}

/// Exponents add up.
pub proof fn lemma_mul_x_pow_sum(a: u128, j: nat, k: nat)
    ensures
        mul_x_pow(mul_x_pow(a, j), k) == mul_x_pow(a, j + k),
    decreases k,
{
    if k > 0 {
        lemma_mul_x_pow_sum(a, j, (k - 1) as nat);
    }
}

/// `x^k · 1` is the single term `x^k`.
pub proof fn lemma_mul_x_pow_one(k: nat)
    requires
        k < 128,
    ensures
        mul_x_pow(1, k) == 1u128 << (k as u128),
    decreases k,
{
    if k == 0 {
        lemma_low_terms_bits(0, 0);
    } else {
        lemma_mul_x_pow_one((k - 1) as nat);
        lemma_mul_x_bits(0, 0, (k - 1) as u128);
        assert(((k - 1) as u128 + 1) as u128 == k as u128);
    }
}

// ---------------------------------------------------------------------------
// The ring laws.
// ---------------------------------------------------------------------------

/// `f` respects addition.
pub open spec fn additive(f: spec_fn(u128) -> u128) -> bool {
    forall|a: u128, b: u128| #[trigger] f(a ^ b) == f(a) ^ f(b)
}

/// `f` commutes with multiplication by `x`.
pub open spec fn commutes_with_x(f: spec_fn(u128) -> u128) -> bool {
    forall|a: u128| #[trigger] f(mul_x(a)) == mul_x(f(a))
}

proof fn lemma_linear_terms(f: spec_fn(u128) -> u128, a: u128, n: nat)
    requires
        additive(f),
        commutes_with_x(f),
        n <= 128,
    ensures
        f(low_terms(a, n as int)) == mul_terms(a, f(1), n),
    decreases n,
{
    assert(f(0) == 0) by {
        lemma_xor(0, 0, 0);
        assert(f(0u128 ^ 0u128) == f(0) ^ f(0));
        lemma_xor(f(0), f(0), 0);
    }
    if n == 0 {
        lemma_low_terms_step(a, 0);
    } else {
        let m = (n - 1) as nat;
        lemma_linear_terms(f, a, m);
        lemma_low_terms_step(a, m as int);
        lemma_linear_power(f, m);
        lemma_mul_x_pow_one(m);
        let p = gate(coeff(a, m as int), 1u128 << (m as u128));
        assert(f(low_terms(a, m as int) ^ p) == f(low_terms(a, m as int)) ^ f(p));
    }
}

proof fn lemma_linear_power(f: spec_fn(u128) -> u128, k: nat)
    requires
        commutes_with_x(f),
    ensures
        f(mul_x_pow(1, k)) == mul_x_pow(f(1), k),
    decreases k,
{
    if k > 0 {
        lemma_linear_power(f, (k - 1) as nat);
        assert(f(mul_x(mul_x_pow(1, (k - 1) as nat))) == mul_x(f(mul_x_pow(1, (k - 1) as nat))));
    }
}

/// An additive map that commutes with `x` is multiplication by its value at 1.
pub proof fn lemma_linear(f: spec_fn(u128) -> u128, a: u128)
    requires
        additive(f),
        commutes_with_x(f),
    ensures
        f(a) == product(a, f(1)),
{
    reveal(product);
    lemma_linear_terms(f, a, 128);
}

proof fn lemma_mul_terms_right(a: u128, b: u128, c: u128, n: nat)
    ensures
        mul_terms(a, b ^ c, n) == mul_terms(a, b, n) ^ mul_terms(a, c, n),
        mul_terms(a, mul_x(b), n) == mul_x(mul_terms(a, b, n)),
    decreases n,
{
    if n == 0 {
        lemma_xor(0, 0, 0);
        lemma_mul_x_add(0, 0);
    } else {
        let m = (n - 1) as nat;
        lemma_mul_terms_right(a, b, c, m);
        lemma_mul_x_pow_add(b, c, m);
        let p = coeff(a, m as int);
        let (u, v) = (mul_x_pow(b, m), mul_x_pow(c, m));
        lemma_gate_xor(p, p, u, v);
        lemma_xor_pairs(mul_terms(a, b, m), mul_terms(a, c, m), gate(p, u), gate(p, v));
        lemma_mul_x_add(mul_terms(a, b, m), gate(p, u));
        lemma_mul_x_add(0, 0);
    }
}

proof fn lemma_mul_terms_one(a: u128, n: nat)
    requires
        n <= 128,
    ensures
        mul_terms(a, 1, n) == low_terms(a, n as int),
    decreases n,
{
    if n == 0 {
        lemma_low_terms_step(a, 0);
    } else {
        lemma_mul_terms_one(a, (n - 1) as nat);
        lemma_low_terms_step(a, n - 1);
        lemma_mul_x_pow_one((n - 1) as nat);
    }
}

/// Multiplication distributes over addition on the right.
pub proof fn lemma_mul_distributes(a: u128, b: u128, c: u128)
    ensures
        product(a, b ^ c) == product(a, b) ^ product(a, c),
        product(b ^ c, a) == product(b, a) ^ product(c, a),
{
    reveal(product);
    lemma_mul_terms_right(a, b, c, 128);
    lemma_mul_commutes(a, b ^ c);
    lemma_mul_commutes(a, b);
    lemma_mul_commutes(a, c);
}

/// `1` is the multiplicative identity, and `0` annihilates.
pub proof fn lemma_mul_units(a: u128)
    ensures
        product(a, 1) == a,
        product(1, a) == a,
        product(a, 0) == 0,
        product(0, a) == 0,
{
    assert(product(a, 1) == a) by {
        reveal(product);
        lemma_mul_terms_one(a, 128);
    }
    lemma_mul_commutes(a, 1);
    lemma_mul_commutes(a, 0);
    assert(product(a, 0) == 0) by {
        reveal(product);
        lemma_mul_terms_right(a, 0, 0, 128);
        lemma_xor(0, 0, 0);
        lemma_xor(mul_terms(a, 0, 128), 0, 0);
    }
}

/// Multiplication is commutative.
pub proof fn lemma_mul_commutes(a: u128, b: u128)
    ensures
        product(a, b) == product(b, a),
{
    let f = |c: u128| product(a, c);
    assert(additive(f) && commutes_with_x(f)) by {
        reveal(product);
        assert forall|c: u128, d: u128| #[trigger] f(c ^ d) == f(c) ^ f(d) by {
            lemma_mul_terms_right(a, c, d, 128);
        }
        assert forall|c: u128| #[trigger] f(mul_x(c)) == mul_x(f(c)) by {
            lemma_mul_terms_right(a, c, 0, 128);
        }
    }
    lemma_linear(f, b);
    assert(product(a, 1) == a) by {
        reveal(product);
        lemma_mul_terms_one(a, 128);
    }
}

/// A factor `x` may be taken out of either side.
pub proof fn lemma_mul_by_x(a: u128, b: u128)
    ensures
        product(a, mul_x(b)) == mul_x(product(a, b)),
        product(mul_x(a), b) == mul_x(product(a, b)),
        product(2, a) == mul_x(a),
{
    assert forall|p: u128, q: u128| product(p, mul_x(q)) == mul_x(product(p, q)) by {
        reveal(product);
        lemma_mul_terms_right(p, q, 0, 128);
    }
    lemma_mul_commutes(mul_x(a), b);
    lemma_mul_commutes(a, b);
    assert(product(b, mul_x(a)) == mul_x(product(b, a)));
    assert(mul_x(1) == 2) by (bit_vector);
    lemma_mul_commutes(2, a);
    assert(product(a, mul_x(1)) == mul_x(product(a, 1)));
    lemma_mul_units(a);
}

/// A factor `x^k` may be taken out of the right.
pub proof fn lemma_mul_by_x_pow(a: u128, b: u128, k: nat)
    ensures
        product(a, mul_x_pow(b, k)) == mul_x_pow(product(a, b), k),
    decreases k,
{
    if k > 0 {
        lemma_mul_by_x_pow(a, b, (k - 1) as nat);
        lemma_mul_by_x(a, mul_x_pow(b, (k - 1) as nat));
    }
}

/// Multiplication is associative.
pub proof fn lemma_mul_associates(a: u128, b: u128, c: u128)
    ensures
        product(product(a, b), c) == product(a, product(b, c)),
{
    let f = |t: u128| product(product(t, b), c);
    assert forall|t: u128, s: u128| #[trigger] f(t ^ s) == f(t) ^ f(s) by {
        lemma_mul_distributes(b, t, s);
        lemma_mul_distributes(c, product(t, b), product(s, b));
    }
    assert forall|t: u128| #[trigger] f(mul_x(t)) == mul_x(f(t)) by {
        lemma_mul_by_x(t, b);
        lemma_mul_by_x(product(t, b), c);
    }
    lemma_linear(f, a);
    lemma_mul_units(b);
}

} // verus!
