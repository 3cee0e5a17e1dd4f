//! Finite sums in GF(2^256).

use crate::field::gf2_256::F256;
use vstd::prelude::*;

verus! {

/// `Σ_{i < n} f(i)`.
pub open spec fn sum(f: spec_fn(int) -> F256, n: nat) -> F256
    decreases n,
{
    if n == 0 {
        F256::zero()
    } else {
        sum(f, (n - 1) as nat).plus(f(n - 1))
    }
}

/// A sum depends only on its terms.
pub proof fn lemma_sum_ext(f: spec_fn(int) -> F256, g: spec_fn(int) -> F256, n: nat)
    requires
        forall|i: int| 0 <= i < n ==> #[trigger] f(i) == g(i),
    ensures
        sum(f, n) == sum(g, n),
    decreases n,
{
    if n > 0 {
        lemma_sum_ext(f, g, (n - 1) as nat);
        assert(f(n - 1) == g(n - 1));
    }
}

/// The sum of sums is the sum of the termwise sums.
pub proof fn lemma_sum_plus(f: spec_fn(int) -> F256, g: spec_fn(int) -> F256, n: nat)
    ensures
        sum(|i: int| f(i).plus(g(i)), n) == sum(f, n).plus(sum(g, n)),
    decreases n,
{
    if n == 0 {
        F256::zero().lemma_plus(F256::zero(), F256::zero());
    } else {
        let k = (n - 1) as nat;
        lemma_sum_plus(f, g, k);
        F256::lemma_plus_pairs(sum(f, k), sum(g, k), f(k as int), g(k as int));
    }
}

/// A sum of zeros is zero.
pub proof fn lemma_sum_zero(f: spec_fn(int) -> F256, n: nat)
    requires
        forall|i: int| 0 <= i < n ==> #[trigger] f(i) == F256::zero(),
    ensures
        sum(f, n) == F256::zero(),
    decreases n,
{
    if n > 0 {
        lemma_sum_zero(f, (n - 1) as nat);
        assert(f(n - 1) == F256::zero());
        F256::zero().lemma_plus(F256::zero(), F256::zero());
    }
}

/// An additive map may be applied term by term.
pub proof fn lemma_sum_map(phi: spec_fn(F256) -> F256, f: spec_fn(int) -> F256, n: nat)
    requires
        phi(F256::zero()) == F256::zero(),
        forall|a: F256, b: F256| #[trigger] phi(a.plus(b)) == phi(a).plus(phi(b)),
    ensures
        phi(sum(f, n)) == sum(|i: int| phi(f(i)), n),
    decreases n,
{
    if n > 0 {
        lemma_sum_map(phi, f, (n - 1) as nat);
    }
}

/// A common factor may be taken out of a sum, on either side.
pub proof fn lemma_sum_scale(c: F256, f: spec_fn(int) -> F256, n: nat)
    ensures
        c.times(sum(f, n)) == sum(|i: int| c.times(f(i)), n),
        sum(f, n).times(c) == sum(|i: int| f(i).times(c), n),
{
    let l = |a: F256| c.times(a);
    let r = |a: F256| a.times(c);
    c.lemma_times_units();
    assert forall|a: F256, b: F256| #[trigger] l(a.plus(b)) == l(a).plus(l(b)) by {
        c.lemma_times_distributes(a, b);
    }
    assert forall|a: F256, b: F256| #[trigger] r(a.plus(b)) == r(a).plus(r(b)) by {
        c.lemma_times_distributes(a, b);
    }
    lemma_sum_map(l, f, n);
    lemma_sum_map(r, f, n);
    lemma_sum_ext(|i: int| l(f(i)), |i: int| c.times(f(i)), n);
    lemma_sum_ext(|i: int| r(f(i)), |i: int| f(i).times(c), n);
}

/// The two orders of a double sum agree.
pub proof fn lemma_sum_swap(f: spec_fn(int, int) -> F256, m: nat, n: nat)
    ensures
        sum(|i: int| sum(|j: int| f(i, j), n), m) == sum(|j: int| sum(|i: int| f(i, j), m), n),
    decreases m,
{
    let rows = |i: int| sum(|j: int| f(i, j), n);
    let cols = |j: int| sum(|i: int| f(i, j), m);
    if m == 0 {
        assert forall|j: int| 0 <= j < n implies #[trigger] cols(j) == F256::zero() by {}
        lemma_sum_zero(cols, n);
    } else {
        let k = (m - 1) as nat;
        let short = |j: int| sum(|i: int| f(i, j), k);
        let last = |j: int| f(k as int, j);
        lemma_sum_swap(f, k, n);
        lemma_sum_plus(short, last, n);
        assert forall|j: int| 0 <= j < n implies #[trigger] cols(j) == short(j).plus(last(j)) by {}
        lemma_sum_ext(cols, |j: int| short(j).plus(last(j)), n);
        lemma_sum_ext(rows, rows, k);
        assert(rows(k as int) == sum(last, n));
    }
}

/// A sum over `m + n` terms splits after the first `m`.
pub proof fn lemma_sum_split(f: spec_fn(int) -> F256, m: nat, n: nat)
    ensures
        sum(f, m + n) == sum(f, m).plus(sum(|i: int| f(m + i), n)),
    decreases n,
{
    let g = |i: int| f(m + i);
    if n == 0 {
        sum(f, m).lemma_plus(F256::zero(), F256::zero());
    } else {
        let k = (n - 1) as nat;
        lemma_sum_split(f, m, k);
        sum(f, m).lemma_plus(sum(g, k), g(k as int));
        assert(sum(f, m + n) == sum(f, m + k).plus(f((m + k) as int)));
    }
}

/// A sum over `m` blocks of `b` terms.
pub proof fn lemma_sum_blocks(f: spec_fn(int) -> F256, m: nat, b: nat)
    ensures
        sum(f, m * b) == sum(|i: int| sum(|j: int| f(i * b + j), b), m),
    decreases m,
{
    let blocks = |i: int| sum(|j: int| f(i * b + j), b);
    if m == 0 {
        assert(m * b == 0);
    } else {
        let k = (m - 1) as nat;
        lemma_sum_blocks(f, k, b);
        assert(m * b == k * b + b) by (nonlinear_arith)
            requires
                m == k + 1,
        ;
        lemma_sum_split(f, k * b, b);
        lemma_sum_ext(|j: int| f((k * b) as nat + j), |j: int| f(k as int * b + j), b);
        assert(blocks(k as int) == sum(|j: int| f(k as int * b + j), b));
    }
}

/// A sum with one nonzero term is that term.
pub proof fn lemma_sum_single(f: spec_fn(int) -> F256, n: nat, k: int)
    requires
        0 <= k < n,
        forall|i: int| 0 <= i < n && i != k ==> #[trigger] f(i) == F256::zero(),
    ensures
        sum(f, n) == f(k),
    decreases n,
{
    let m = (n - 1) as nat;
    if k == m {
        lemma_sum_zero(f, m);
        f(k).lemma_plus(F256::zero(), F256::zero());
    } else {
        lemma_sum_single(f, m, k);
        assert(f(m as int) == F256::zero());
        f(k).lemma_plus(F256::zero(), F256::zero());
    }
}

/// `Σ_i a[i]·b[i]`.
pub open spec fn dot(a: Seq<F256>, b: Seq<F256>) -> F256 {
    sum(|i: int| a[i].times(b[i]), a.len())
}

} // verus!
