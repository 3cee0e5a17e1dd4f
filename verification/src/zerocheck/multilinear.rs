//! Lagrange interpolation on the `φ_8` nodes of the univariate skip.

use crate::field::gf2_128::F128;
use crate::field::gf2_256::F256;
use crate::field::phi8;
use crate::field::phi8::phi8;
use crate::field::sums;
use crate::zerocheck::univariate_skip;
use crate::zerocheck::univariate_skip::power_of_two;
use vstd::arithmetic::power2::{lemma2_to64, pow2};
use vstd::prelude::*;

verus! {

/// Node `i`: the image of `i` under `φ_8`, in GF(2^256).
pub open spec fn node(i: int) -> F256 {
    F256::from_f128(F128::of_poly(phi8::phi8_poly(i as u8)))
}

/// `Π_{j < n, j ≠ i} (z + node(j))`.
pub open spec fn node_product(z: F256, i: int, n: nat) -> F256
    decreases n,
{
    if n == 0 {
        F256::one()
    } else if n - 1 == i {
        node_product(z, i, (n - 1) as nat)
    } else {
        node_product(z, i, (n - 1) as nat).times(z.plus(node(n - 1)))
    }
}

/// The Lagrange polynomial of node `i` among the first `2^k`, at `z`.
pub open spec fn lagrange_weight(k: nat, z: F256, i: int) -> F256 {
    node_product(z, i, pow2(k)).times(node_product(node(i), i, pow2(k)).inverse())
}

/// Different indices have different nodes.
pub proof fn lemma_nodes_differ(i: int, j: int)
    requires
        0 <= i < 256,
        0 <= j < 256,
        i != j,
    ensures
        node(i) != node(j),
{
    phi8::lemma_phi8(i as u8, j as u8);
    F128::zero().lemma_poly(F128::zero(), phi8::phi8_poly(i as u8));
    F128::zero().lemma_poly(F128::zero(), phi8::phi8_poly(j as u8));
}

/// The denominators are nonzero.
pub proof fn lemma_denominator(i: int, n: nat)
    requires
        0 <= i < 256,
        n <= 256,
    ensures
        node_product(node(i), i, n) != F256::zero(),
    decreases n,
{
    if n > 0 {
        let m = (n - 1) as nat;
        lemma_denominator(i, m);
        if m != i {
            let a = node_product(node(i), i, m);
            let b = node(i).plus(node(m as int));
            lemma_nodes_differ(i, m as int);
            node(i).lemma_plus(node(m as int), F256::zero());
            if a.times(b) == F256::zero() {
                a.lemma_no_zero_divisors(b);
            }
        }
    }
}

proof fn lemma_numerator_vanishes(i: int, j: int, n: nat)
    requires
        0 <= j < n,
        i != j,
    ensures
        node_product(node(j), i, n) == F256::zero(),
    decreases n,
{
    let m = (n - 1) as nat;
    let z = node(j);
    if m == j {
        z.lemma_plus(z, z);
        node_product(z, i, m).lemma_times_units();
    } else {
        lemma_numerator_vanishes(i, j, m);
        z.plus(node(m as int)).lemma_times_units();
    }
}

/// The Lagrange polynomial of node `i` is 1 at node `i` and 0 at every other
/// node.
pub proof fn lemma_lagrange_at_nodes(k: nat, i: int, j: int)
    requires
        k <= 8,
        0 <= i < pow2(k),
        0 <= j < pow2(k),
    ensures
        lagrange_weight(k, node(j), i) == (if i == j {
            F256::one()
        } else {
            F256::zero()
        }),
{
    lemma2_to64();
    univariate_skip::lemma_pow2_monotone(k, 8);
    let d = node_product(node(i), i, pow2(k));
    lemma_denominator(i, pow2(k));
    if i == j {
        d.lemma_inverse();
    } else {
        lemma_numerator_vanishes(i, j, pow2(k));
        d.inverse().lemma_times_units();
    }
}

// ---------------------------------------------------------------------------
// Polynomials.
// ---------------------------------------------------------------------------

/// The value at `z` of the polynomial with coefficients `c`, lowest first.
pub open spec fn poly_value(c: Seq<F256>, z: F256) -> F256
    decreases c.len(),
{
    if c.len() == 0 {
        F256::zero()
    } else {
        c[0].plus(z.times(poly_value(c.skip(1), z)))
    }
}

/// The sum of two polynomials with as many coefficients.
spec fn poly_plus(c: Seq<F256>, d: Seq<F256>) -> Seq<F256> {
    Seq::new(c.len(), |i: int| c[i].plus(d[i]))
}

/// A polynomial times a scalar.
spec fn poly_scaled(c: Seq<F256>, s: F256) -> Seq<F256> {
    Seq::new(c.len(), |i: int| c[i].times(s))
}

/// A polynomial times `z + a`.
spec fn poly_times_linear(c: Seq<F256>, a: F256) -> Seq<F256> {
    poly_plus(seq![F256::zero()] + c, poly_scaled(c, a).push(F256::zero()))
}

/// The quotient of a polynomial by `z + r`.
spec fn poly_quotient(c: Seq<F256>, r: F256) -> Seq<F256>
    decreases c.len(),
{
    if c.len() <= 1 {
        Seq::empty()
    } else {
        seq![poly_value(c.skip(1), r)] + poly_quotient(c.skip(1), r)
    }
}

proof fn lemma_poly_plus(c: Seq<F256>, d: Seq<F256>, z: F256)
    requires
        c.len() == d.len(),
    ensures
        poly_value(poly_plus(c, d), z) == poly_value(c, z).plus(poly_value(d, z)),
    decreases c.len(),
{
    if c.len() == 0 {
        F256::zero().lemma_plus(F256::zero(), F256::zero());
    } else {
        let (c1, d1) = (c.skip(1), d.skip(1));
        lemma_poly_plus(c1, d1, z);
        assert(poly_plus(c, d).skip(1) =~= poly_plus(c1, d1));
        let (p, q) = (poly_value(c1, z), poly_value(d1, z));
        z.lemma_times_distributes(p, q);
        F256::lemma_plus_pairs(c[0], d[0], z.times(p), z.times(q));
    }
}

proof fn lemma_poly_scaled(c: Seq<F256>, s: F256, z: F256)
    ensures
        poly_value(poly_scaled(c, s), z) == poly_value(c, z).times(s),
    decreases c.len(),
{
    if c.len() == 0 {
        s.lemma_times_units();
    } else {
        let c1 = c.skip(1);
        lemma_poly_scaled(c1, s, z);
        assert(poly_scaled(c, s).skip(1) =~= poly_scaled(c1, s));
        let p = poly_value(c1, z);
        s.lemma_times_distributes(c[0], z.times(p));
        z.lemma_times_associates(p, s);
    }
}

proof fn lemma_poly_push_zero(c: Seq<F256>, z: F256)
    ensures
        poly_value(c.push(F256::zero()), z) == poly_value(c, z),
    decreases c.len(),
{
    let d = c.push(F256::zero());
    if c.len() == 0 {
        assert(d.skip(1) =~= Seq::empty());
        assert(poly_value(d.skip(1), z) == F256::zero());
        z.lemma_times_units();
        F256::zero().lemma_plus(F256::zero(), F256::zero());
    } else {
        lemma_poly_push_zero(c.skip(1), z);
        assert(d.skip(1) =~= c.skip(1).push(F256::zero()));
    }
}

proof fn lemma_poly_times_linear(c: Seq<F256>, a: F256, z: F256)
    ensures
        poly_value(poly_times_linear(c, a), z) == poly_value(c, z).times(z.plus(a)),
        poly_times_linear(c, a).len() == c.len() + 1,
{
    let up = seq![F256::zero()] + c;
    let low = poly_scaled(c, a).push(F256::zero());
    lemma_poly_plus(up, low, z);
    assert(up.skip(1) =~= c);
    let v = poly_value(c, z);
    F256::zero().lemma_plus(z.times(v), z.times(v));
    z.times(v).lemma_plus(F256::zero(), F256::zero());
    lemma_poly_push_zero(poly_scaled(c, a), z);
    lemma_poly_scaled(c, a, z);
    v.lemma_times_distributes(z, a);
    v.lemma_times_commutes(z);
}

/// Division by `z + r` with remainder.
proof fn lemma_poly_quotient(c: Seq<F256>, r: F256, z: F256)
    requires
        c.len() > 0,
    ensures
        poly_quotient(c, r).len() == c.len() - 1,
        poly_value(c, z) == z.plus(r).times(poly_value(poly_quotient(c, r), z)).plus(
            poly_value(c, r),
        ),
    decreases c.len(),
{
    let d = c.skip(1);
    let q = poly_quotient(c, r);
    if c.len() == 1 {
        assert(poly_value(d, z) == F256::zero() && poly_value(d, r) == F256::zero());
        assert(poly_value(q, z) == F256::zero());
        z.lemma_times_units();
        r.lemma_times_units();
        z.plus(r).lemma_times_units();
        c[0].lemma_plus(F256::zero(), F256::zero());
    } else {
        let e = poly_quotient(d, r);
        lemma_poly_quotient(d, r, z);
        assert(q.skip(1) =~= e);
        let (w, v, g) = (z.plus(r), poly_value(d, r), poly_value(e, z));
        // d(z) = w·g + v, and z·v = w·v + r·v.
        let wg = w.times(g);
        z.lemma_times_distributes(wg, v);
        w.lemma_times_distributes(v, z.times(g));
        v.lemma_times_distributes(z, r);
        let (zv, rv) = (z.times(v), r.times(v));
        zv.lemma_plus(rv, rv);
        // z·(w·g) = w·(z·g).
        z.lemma_times_associates(w, g);
        z.lemma_times_commutes(w);
        w.lemma_times_associates(z, g);
        let (a, wv) = (w.times(z.times(g)), w.times(v));
        assert(zv == wv.plus(rv));
        assert(poly_value(c, z) == c[0].plus(a.plus(wv.plus(rv))));
        // c0 + (a + (wv + rv)) = (wv + a) + (c0 + rv).
        a.lemma_plus(wv, rv);
        wv.lemma_plus(a, F256::zero());
        let s = wv.plus(a);
        c[0].lemma_plus(s, rv);
        s.lemma_plus(c[0], rv);
        assert(poly_value(q, z) == v.plus(z.times(g)));
        assert(poly_value(c, r) == c[0].plus(rv));
    }
}

/// A polynomial with fewer coefficients than roots, or as many, vanishes.
pub proof fn lemma_too_many_roots(c: Seq<F256>, roots: Seq<F256>, z: F256)
    requires
        c.len() <= roots.len(),
        forall|i: int, j: int| 0 <= i < j < roots.len() ==> roots[i] != roots[j],
        forall|i: int| 0 <= i < roots.len() ==> poly_value(c, #[trigger] roots[i]) == F256::zero(),
    ensures
        poly_value(c, z) == F256::zero(),
    decreases c.len(),
{
    if c.len() > 0 {
        let n = roots.len() - 1;
        let r = roots[n];
        let q = poly_quotient(c, r);
        let rest = roots.drop_last();
        lemma_poly_quotient(c, r, z);
        assert forall|i: int| 0 <= i < rest.len() implies poly_value(q, #[trigger] rest[i])
            == F256::zero() by {
            let x = roots[i];
            assert(poly_value(c, x) == F256::zero());
            assert(x != roots[n]);
            lemma_poly_quotient(c, r, x);
            let w = x.plus(r);
            x.lemma_plus(r, r);
            w.times(poly_value(q, x)).lemma_plus(F256::zero(), F256::zero());
            w.lemma_no_zero_divisors(poly_value(q, x));
        }
        lemma_too_many_roots(q, rest, z);
        z.plus(r).lemma_times_units();
        F256::zero().lemma_plus(F256::zero(), F256::zero());
    }
}

// ---------------------------------------------------------------------------
// Interpolation.
// ---------------------------------------------------------------------------

/// The coefficients of `Π_{j < n, j ≠ i} (z + node(j))`.
spec fn numerator_poly(i: int, n: nat) -> Seq<F256>
    decreases n,
{
    if n == 0 {
        seq![F256::one()]
    } else if n - 1 == i {
        numerator_poly(i, (n - 1) as nat)
    } else {
        poly_times_linear(numerator_poly(i, (n - 1) as nat), node(n - 1))
    }
}

proof fn lemma_numerator_poly(i: int, n: nat, z: F256)
    requires
        0 <= i,
    ensures
        numerator_poly(i, n).len() == (if n <= i {
            n + 1
        } else {
            n
        }),
        poly_value(numerator_poly(i, n), z) == node_product(z, i, n),
    decreases n,
{
    if n == 0 {
        let c = numerator_poly(i, 0);
        assert(c.skip(1) =~= Seq::empty());
        assert(poly_value(c.skip(1), z) == F256::zero());
        z.lemma_times_units();
        F256::one().lemma_plus(F256::zero(), F256::zero());
    } else {
        lemma_numerator_poly(i, (n - 1) as nat, z);
        if n - 1 != i {
            lemma_poly_times_linear(numerator_poly(i, (n - 1) as nat), node(n - 1), z);
        }
    }
}

/// The coefficients of the Lagrange polynomial of node `i`.
spec fn weight_poly(k: nat, i: int) -> Seq<F256> {
    poly_scaled(
        numerator_poly(i, pow2(k)),
        node_product(node(i), i, pow2(k)).inverse(),
    )
}

/// The coefficients of `Σ_{i < m} v(i)·(Lagrange polynomial of node i)`.
spec fn interpolant(k: nat, v: spec_fn(int) -> F256, m: nat) -> Seq<F256>
    decreases m,
{
    if m == 0 {
        Seq::new(pow2(k), |i: int| F256::zero())
    } else {
        poly_plus(
            interpolant(k, v, (m - 1) as nat),
            poly_scaled(weight_poly(k, m - 1), v(m - 1)),
        )
    }
}

proof fn lemma_poly_zeros(n: nat, z: F256)
    ensures
        poly_value(Seq::new(n, |i: int| F256::zero()), z) == F256::zero(),
    decreases n,
{
    if n > 0 {
        let c = Seq::new(n, |i: int| F256::zero());
        lemma_poly_zeros((n - 1) as nat, z);
        assert(c.skip(1) =~= Seq::new((n - 1) as nat, |i: int| F256::zero()));
        z.lemma_times_units();
        F256::zero().lemma_plus(F256::zero(), F256::zero());
    }
}

proof fn lemma_interpolant(k: nat, v: spec_fn(int) -> F256, m: nat, z: F256)
    requires
        m <= pow2(k),
    ensures
        interpolant(k, v, m).len() == pow2(k),
        poly_value(interpolant(k, v, m), z) == sums::sum(
            |i: int| v(i).times(lagrange_weight(k, z, i)),
            m,
        ),
    decreases m,
{
    let f = |i: int| v(i).times(lagrange_weight(k, z, i));
    if m == 0 {
        lemma_poly_zeros(pow2(k), z);
    } else {
        let i = m - 1;
        lemma_interpolant(k, v, (m - 1) as nat, z);
        lemma_numerator_poly(i, pow2(k), z);
        let d = node_product(node(i), i, pow2(k)).inverse();
        lemma_poly_scaled(numerator_poly(i, pow2(k)), d, z);
        lemma_poly_scaled(weight_poly(k, i), v(i), z);
        lemma_poly_plus(
            interpolant(k, v, (m - 1) as nat),
            poly_scaled(weight_poly(k, i), v(i)),
            z,
        );
        lagrange_weight(k, z, i).lemma_times_commutes(v(i));
        assert(f(i) == v(i).times(lagrange_weight(k, z, i)));
    }
}

/// A polynomial padded with zero coefficients.
spec fn padded(c: Seq<F256>, n: nat) -> Seq<F256> {
    Seq::new(
        n,
        |i: int|
            if i < c.len() {
                c[i]
            } else {
                F256::zero()
            },
    )
}

proof fn lemma_padded(c: Seq<F256>, n: nat, z: F256)
    requires
        c.len() <= n,
    ensures
        poly_value(padded(c, n), z) == poly_value(c, z),
    decreases n,
{
    if n == c.len() {
        assert(padded(c, n) =~= c);
    } else {
        let m = (n - 1) as nat;
        lemma_padded(c, m, z);
        lemma_poly_push_zero(padded(c, m), z);
        assert(padded(c, n) =~= padded(c, m).push(F256::zero()));
    }
}

/// The Lagrange weights interpolate: a polynomial of degree below `2^k` is
/// determined at every point by its values at the `2^k` nodes, and the weights give
/// its value, `Σ_i p(node(i))·weight_i(z) = p(z)`.
pub proof fn lemma_interpolation(k: nat, c: Seq<F256>, z: F256)
    requires
        k <= 8,
        c.len() <= pow2(k),
    ensures
        sums::sum(
            |i: int| poly_value(c, node(i)).times(lagrange_weight(k, z, i)),
            pow2(k),
        ) == poly_value(c, z),
{
    let n = pow2(k);
    let v = |i: int| poly_value(c, node(i));
    let p = interpolant(k, v, n);
    let q = padded(c, n);
    let d = poly_plus(p, q);
    let roots = Seq::new(n, |i: int| node(i));
    lemma2_to64();
    univariate_skip::lemma_pow2_monotone(k, 8);
    lemma_interpolant(k, v, n, z);
    lemma_padded(c, n, z);
    lemma_poly_plus(p, q, z);
    assert forall|i: int, j: int| 0 <= i < j < roots.len() implies roots[i] != roots[j] by {
        lemma_nodes_differ(i, j);
    }
    assert forall|j: int| 0 <= j < roots.len() implies poly_value(d, #[trigger] roots[j])
        == F256::zero() by {
        let x = node(j);
        let f = |i: int| v(i).times(lagrange_weight(k, x, i));
        lemma_interpolant(k, v, n, x);
        lemma_padded(c, n, x);
        lemma_poly_plus(p, q, x);
        assert forall|i: int| 0 <= i < n && i != j implies #[trigger] f(i) == F256::zero() by {
            lemma_lagrange_at_nodes(k, i, j);
            v(i).lemma_times_units();
        }
        sums::lemma_sum_single(f, n, j);
        lemma_lagrange_at_nodes(k, j, j);
        v(j).lemma_times_units();
        v(j).lemma_plus(v(j), v(j));
    }
    lemma_too_many_roots(d, roots, z);
    let s = poly_value(p, z);
    s.lemma_plus(poly_value(c, z), F256::zero());
    sums::lemma_sum_ext(
        |i: int| v(i).times(lagrange_weight(k, z, i)),
        |i: int| poly_value(c, node(i)).times(lagrange_weight(k, z, i)),
        n,
    );
}

/// The nodes are a copy of GF(2^8): sums and products of bytes go to sums and
/// products of nodes, and the byte 2 to a fixed root.
pub proof fn lemma_nodes_are_bytes(a: u8, b: u8)
    ensures
        node((a ^ b) as int) == node(a as int).plus(node(b as int)),
        node(phi8::byte_product(a, b) as int) == node(a as int).times(node(b as int)),
        node(0) == F256::zero(),
        node(1) == F256::one(),
        node(2).c0.poly() == 0x0dcb364640a222fe6b8330483c2e9849u128,
        node(2).c1 == F128::zero(),
{
    phi8::lemma_phi8(a, b);
    phi8::lemma_phi8_product(a, b);
    phi8::lemma_phi8_two();
    let (p, q) = (phi8::phi8_poly(a), phi8::phi8_poly(b));
    let (x, y) = (F128::of_poly(p), F128::of_poly(q));
    let v = phi8::phi8_poly(a ^ b);
    let w = phi8::phi8_poly(phi8::byte_product(a, b));
    x.lemma_poly(y, p);
    y.lemma_poly(x, q);
    x.plus(y).lemma_poly(F128::of_poly(v), v);
    x.times(y).lemma_poly(F128::of_poly(w), w);
    F256::from_f128(x).lemma_embedding(x, y);
    x.lemma_poly(y, phi8::phi8_poly(2));
}

/// `Π_{j < n, j ≠ skip} (z + node(j))`.
fn product_of_differences(z: F256, skip: usize, n: usize) -> (r: F256)
    requires
        n <= 256,
    ensures
        r == node_product(z, skip as int, n as nat),
{
    let mut acc = F256::one();
    let mut j: usize = 0;
    while j < n
        invariant
            j <= n,
            n <= 256,
            acc == node_product(z, skip as int, j as nat),
        decreases n - j,
    {
        if j != skip {
            let p = phi8(j as u8);
            proof {
                p.lemma_poly(p, 0);
            }
            acc = acc * (z + F256::from_f128(p));
        }
        j = j + 1;
    }
    acc
}

/// The `2^k` Lagrange weights at `z`: entry `i` is
/// `Π_{j ≠ i} (z + node(j)) / (node(i) + node(j))`.
pub fn lagrange_weights_naive(k: usize, z: F256) -> (w: Vec<F256>)
    requires
        k <= 8,
    ensures
        w@ == Seq::new(pow2(k as nat), |i: int| lagrange_weight(k as nat, z, i)),
{
    proof {
        lemma2_to64();
        univariate_skip::lemma_pow2_monotone(k as nat, 8);
    }
    let n: usize = power_of_two(k);
    let mut w: Vec<F256> = Vec::with_capacity(n);
    let ghost all = Seq::new(pow2(k as nat), |i: int| lagrange_weight(k as nat, z, i));
    let mut i: usize = 0;
    while i < n
        invariant
            i <= n,
            n == pow2(k as nat),
            n <= 256,
            all == Seq::new(pow2(k as nat), |i: int| lagrange_weight(k as nat, z, i)),
            w@ == all.take(i as int),
        decreases n - i,
    {
        let own = phi8(i as u8);
        proof {
            own.lemma_poly(own, 0);
            lemma_denominator(i as int, n as nat);
        }
        let numerator = product_of_differences(z, i, n);
        let denominator = product_of_differences(F256::from_f128(own), i, n);
        w.push(numerator * denominator.inv());
        proof {
            assert(w@ =~= all.take(i + 1));
        }
        i = i + 1;
    }
    proof {
        assert(w@ =~= all);
    }
    w
}

} // verus!
