//! The verifier's evaluation of the multilinear extension of `rs_eq_ind`, in
//! `O(ℓ · 256²)` operations for `ℓ` suffix coordinates, without materializing it
//! (DP24 §1.3, Figure 3).

use crate::field::bits;
use crate::field::gf2_256::F256;
use crate::field::sums;
use crate::pcs::ring_switch::elems;
use crate::pcs::ring_switch::fold;
use crate::pcs::ring_switch::reduction;
use crate::pcs::tensor_algebra;
use crate::pcs::tensor_algebra::TensorAlgebra;
use crate::r1cs_mul64::adder;
use crate::zerocheck::univariate_skip;
use core::ops::AddAssign;
use vstd::arithmetic::power2::{lemma2_to64, lemma_pow2_unfold, pow2};
use vstd::prelude::*;

verus! {

/// The product with `1 ⊗ 1 + 1 ⊗ z + q ⊗ 1`, which is `eq(z, q)` in
/// characteristic 2.
pub open spec fn eq_step(rows: Seq<F256>, z: F256, q: F256) -> Seq<F256> {
    tensor_algebra::rows_plus(
        tensor_algebra::rows_plus(rows, tensor_algebra::scaled_rows(rows, z)),
        tensor_algebra::scaled_columns(rows, q),
    )
}

/// The product with the first `n` equality factors.
pub open spec fn evolved(rows: Seq<F256>, z: Seq<F256>, q: Seq<F256>, n: nat) -> Seq<F256>
    decreases n,
{
    if n == 0 {
        rows
    } else {
        eq_step(evolved(rows, z, q, (n - 1) as nat), z[n - 1], q[n - 1])
    }
}

/// `Σ_j eq(q)[j] ⊗ eq(z)[j]` over the first `n` coordinates.
pub open spec fn eq_outer(z: Seq<F256>, q: Seq<F256>, n: nat) -> Seq<F256> {
    tensor_algebra::outer_sum(
        |j: int| univariate_skip::eq_product(q, j, n),
        |j: int| univariate_skip::eq_product(z, j, n),
        pow2(n),
    )
}

/// The multilinear extension at `query` of the transparent multilinear with
/// suffix point `z`: `Σ_j eq(query)[j] · (bits of eq(z)[j] against e)`.
pub open spec fn transparent_at(z: Seq<F256>, query: Seq<F256>, e: Seq<F256>) -> F256 {
    sums::dot(
        univariate_skip::eq_tensor(query),
        elems::elems_fold(univariate_skip::eq_tensor(z), e),
    )
}

// ---------------------------------------------------------------------------
// Laws.
// ---------------------------------------------------------------------------

/// One row of a step on a sum of products.
proof fn lemma_step_terms(a: F256, b: F256, z: F256, q: F256, i: int)
    requires
        0 <= i < 256,
    ensures
        bits::gate(a.times(F256::one().plus(q)).bit(i), b.times(F256::one().plus(z))).plus(
            bits::gate(a.times(q).bit(i), b.times(z)),
        ) == bits::gate(a.bit(i), b).plus(bits::gate(a.bit(i), b.times(z))).plus(
            bits::gate(a.times(q).bit(i), b),
        ),
{
    let (aq, bz) = (a.times(q), b.times(z));
    a.lemma_times_distributes(F256::one(), q);
    b.lemma_times_distributes(F256::one(), z);
    a.lemma_times_units();
    b.lemma_times_units();
    a.lemma_bit_plus(aq, i);
    let (x, y) = (a.bit(i), aq.bit(i));
    let v = b.plus(bz);
    bits::lemma_gate(x, y, v, v);
    bits::lemma_gate(x, y, b, bz);
    bits::lemma_gate(y, x, b, bz);
    let (xb, xz) = (bits::gate(x, b), bits::gate(x, bz));
    let (yb, yz) = (bits::gate(y, b), bits::gate(y, bz));
    // (xb + xz + (yb + yz)) + yz = xb + xz + yb.
    xb.plus(xz).lemma_plus(yb.plus(yz), yz);
    yb.lemma_plus(yz, yz);
}

/// A step on a sum of products doubles the number of products.
proof fn lemma_step_outer(
    a: spec_fn(int) -> F256,
    b: spec_fn(int) -> F256,
    a2: spec_fn(int) -> F256,
    b2: spec_fn(int) -> F256,
    n: nat,
    z: F256,
    q: F256,
)
    requires
        forall|j: int|
            0 <= j < n ==> {
                &&& #[trigger] a2(j) == a(j).times(F256::one().plus(q))
                &&& a2(n + j) == a(j).times(q)
                &&& b2(j) == b(j).times(F256::one().plus(z))
                &&& b2(n + j) == b(j).times(z)
            },
    ensures
        eq_step(tensor_algebra::outer_sum(a, b, n), z, q) == tensor_algebra::outer_sum(
            a2,
            b2,
            2 * n,
        ),
{
    let rows = tensor_algebra::outer_sum(a, b, n);
    let bz = |k: int| b(k).times(z);
    let aq = |k: int| a(k).times(q);
    tensor_algebra::lemma_outer_scaled(a, b, n, z);
    tensor_algebra::lemma_outer_scaled(a, b, n, q);
    let left = eq_step(rows, z, q);
    let right = tensor_algebra::outer_sum(a2, b2, 2 * n);
    assert forall|i: int| 0 <= i < 256 implies left[i] == right[i] by {
        let f = |k: int| bits::gate(a(k).bit(i), b(k));
        let g = |k: int| bits::gate(a(k).bit(i), bz(k));
        let h = |k: int| bits::gate(aq(k).bit(i), b(k));
        let fg = |k: int| f(k).plus(g(k));
        sums::lemma_sum_plus(f, g, n);
        sums::lemma_sum_plus(fg, h, n);
        let t = |k: int| bits::gate(a2(k).bit(i), b2(k));
        let top = |k: int| t(n + k);
        sums::lemma_sum_split(t, n, n);
        sums::lemma_sum_plus(t, top, n);
        let l = |k: int| fg(k).plus(h(k));
        let r = |k: int| t(k).plus(top(k));
        assert forall|k: int| 0 <= k < n implies #[trigger] l(k) == r(k) by {
            assert(a2(k) == a(k).times(F256::one().plus(q)));
            lemma_step_terms(a(k), b(k), z, q, i);
        }
        sums::lemma_sum_ext(l, r, n);
        assert(n + n == 2 * n);
    }
    assert(left =~= right);
}

/// One step on the outer sum of two equality tensors.
proof fn lemma_step_eq(z: Seq<F256>, q: Seq<F256>, n: nat)
    requires
        n < z.len(),
        n < q.len(),
    ensures
        eq_step(eq_outer(z, q, n), z[n as int], q[n as int]) == eq_outer(z, q, n + 1),
{
    let a = |j: int| univariate_skip::eq_product(q, j, n);
    let b = |j: int| univariate_skip::eq_product(z, j, n);
    let a2 = |j: int| univariate_skip::eq_product(q, j, n + 1);
    let b2 = |j: int| univariate_skip::eq_product(z, j, n + 1);
    let p = pow2(n);
    assert forall|j: int| 0 <= j < p implies {
        &&& #[trigger] a2(j) == a(j).times(F256::one().plus(q[n as int]))
        &&& a2(p + j) == a(j).times(q[n as int])
        &&& b2(j) == b(j).times(F256::one().plus(z[n as int]))
        &&& b2(p + j) == b(j).times(z[n as int])
    } by {
        univariate_skip::lemma_eq_double(q, j, n);
        univariate_skip::lemma_eq_double(z, j, n);
        assert(p + j == j + p);
    }
    lemma_pow2_unfold(n + 1);
    lemma_step_outer(a, b, a2, b2, p, z[n as int], q[n as int]);
}

/// The identity is the outer sum over no coordinates.
proof fn lemma_eq_outer_empty(z: Seq<F256>, q: Seq<F256>)
    ensures
        eq_outer(z, q, 0) == tensor_algebra::vertical(F256::one()),
{
    lemma2_to64();
    let o = eq_outer(z, q, 0);
    let v = tensor_algebra::vertical(F256::one());
    let a = |j: int| univariate_skip::eq_product(q, j, 0);
    let b = |j: int| univariate_skip::eq_product(z, j, 0);
    assert forall|i: int| 0 <= i < 256 implies o[i] == v[i] by {
        let f = |k: int| bits::gate(a(k).bit(i), b(k));
        sums::lemma_sum_single(f, 1, 0);
        bits::lemma_basis_zero();
        bits::lemma_basis(0, i);
    }
    assert(o =~= v);
}

/// Evolving from the outer sum over the first `m` coordinates by the factors of
/// the next `n`.
proof fn lemma_evolved_from(z: Seq<F256>, q: Seq<F256>, m: nat, n: nat)
    requires
        m + n <= z.len(),
        m + n <= q.len(),
    ensures
        evolved(eq_outer(z, q, m), z.skip(m as int), q.skip(m as int), n) == eq_outer(z, q, m + n),
    decreases n,
{
    if n > 0 {
        lemma_evolved_from(z, q, m, (n - 1) as nat);
        lemma_step_eq(z, q, (m + n - 1) as nat);
    }
}

/// Evolving the identity by all equality factors gives `Σ_j eq(q)[j] ⊗ eq(z)[j]`.
pub proof fn lemma_evolved(z: Seq<F256>, q: Seq<F256>, n: nat)
    requires
        n <= z.len(),
        n <= q.len(),
    ensures
        evolved(tensor_algebra::vertical(F256::one()), z, q, n) == eq_outer(z, q, n),
{
    lemma_eq_outer_empty(z, q);
    lemma_evolved_from(z, q, 0, n);
    assert(z.skip(0) =~= z);
    assert(q.skip(0) =~= q);
}

/// Folding `Σ_j eq(q)[j] ⊗ eq(z)[j]` against weights evaluates the transparent
/// multilinear.
pub proof fn lemma_eq_outer_folded(z: Seq<F256>, q: Seq<F256>, e: Seq<F256>)
    requires
        z.len() == q.len(),
    ensures
        tensor_algebra::folded(eq_outer(z, q, z.len()), e) == transparent_at(z, q, e),
{
    let n = z.len();
    let a = |j: int| univariate_skip::eq_product(q, j, n);
    let b = |j: int| univariate_skip::eq_product(z, j, n);
    tensor_algebra::lemma_outer_folded(a, b, pow2(n), e);
    let tq = univariate_skip::eq_tensor(q);
    let te = elems::elems_fold(univariate_skip::eq_tensor(z), e);
    sums::lemma_sum_ext(
        |k: int| a(k).times(bits::bit_fold(b(k), |i: int| e[i])),
        |k: int| tq[k].times(te[k]),
        pow2(n),
    );
}

/// The succinct verifier evaluates what the full verifier materializes: at the
/// suffix point of `x_outer` and the equality tensor of `r''`, the evaluation is
/// the multilinear extension of the transparent multilinear.
pub proof fn lemma_succinct_agrees(x_outer: Seq<F256>, query: Seq<F256>, r_dprime: Seq<F256>)
    requires
        x_outer.len() >= 2,
        query.len() == x_outer.len() - 2,
    ensures
        transparent_at(x_outer.skip(2), query, univariate_skip::eq_tensor(r_dprime)) == sums::dot(
            univariate_skip::eq_tensor(query),
            reduction::transparent(x_outer, r_dprime),
        ),
{
}

/// Only the first `n` coordinates matter.
proof fn lemma_eq_outer_prefix(z: Seq<F256>, q: Seq<F256>, n: nat)
    requires
        n <= z.len(),
        n <= q.len(),
    ensures
        eq_outer(z, q.take(n as int), n) == eq_outer(z, q, n),
{
    let s = q.take(n as int);
    let (a, a2) = (
        |j: int| univariate_skip::eq_product(q, j, n),
        |j: int| univariate_skip::eq_product(s, j, n),
    );
    let b = |j: int| univariate_skip::eq_product(z, j, n);
    let (l, r) = (eq_outer(z, s, n), eq_outer(z, q, n));
    assert forall|i: int| 0 <= i < 256 implies l[i] == r[i] by {
        let f = |k: int| bits::gate(a2(k).bit(i), b(k));
        let g = |k: int| bits::gate(a(k).bit(i), b(k));
        assert forall|k: int| 0 <= k < pow2(n) implies #[trigger] f(k) == g(k) by {
            univariate_skip::lemma_eq_prefix(q, s, k, n);
        }
        sums::lemma_sum_ext(f, g, pow2(n));
    }
    assert(l =~= r);
}

/// Splitting the evaluation into a prefix and the rest changes nothing.
pub proof fn lemma_prefix_then_finish(z: Seq<F256>, q: Seq<F256>, m: nat, e: Seq<F256>)
    requires
        z.len() == q.len(),
        m <= z.len(),
    ensures
        tensor_algebra::folded(
            evolved(
                eq_outer(z, q.take(m as int), m),
                z.skip(m as int),
                q.skip(m as int),
                (z.len() - m) as nat,
            ),
            e,
        ) == transparent_at(z, q, e),
{
    lemma_eq_outer_prefix(z, q, m);
    lemma_evolved_from(z, q, m, (z.len() - m) as nat);
    lemma_eq_outer_folded(z, q, e);
}

// ---------------------------------------------------------------------------
// The evaluation.
// ---------------------------------------------------------------------------

/// Multiplies by the equality factors of the given pairs.
fn evolve(start: TensorAlgebra, z_vals: &[F256], query: &[F256]) -> (r: TensorAlgebra)
    requires
        start.elems@.len() == 256,
        query@.len() <= z_vals@.len(),
    ensures
        r.elems@ == evolved(start.elems@, z_vals@, query@, query@.len()),
        r.elems@.len() == 256,
{
    let ghost rows = start.elems@;
    let mut eval = start;
    let mut i: usize = 0;
    while i < query.len()
        invariant
            i <= query.len(),
            query@.len() <= z_vals@.len(),
            eval.elems@ == evolved(rows, z_vals@, query@, i as nat),
            eval.elems@.len() == 256,
        decreases query.len() - i,
    {
        let vert_scaled = eval.clone().scale_vertical(z_vals[i]);
        let hztl_scaled = eval.clone().scale_horizontal(query[i]);
        eval.add_assign(&vert_scaled);
        eval.add_assign(&hztl_scaled);
        i = i + 1;
    }
    eval
}

/// Evaluates the multilinear extension of `rs_eq_ind` at `query`.
///
/// `z_vals` is the suffix point, `x_outer[2..]`; `query` the final challenges of
/// the sumcheck, as many; `eq_r_dprime` the equality tensor of `r''`.
pub fn eval_rs_eq(z_vals: &[F256], query: &[F256], eq_r_dprime: &[F256]) -> (r: F256)
    requires
        z_vals.len() == query.len(),
        eq_r_dprime.len() == 256,
    ensures
        r == transparent_at(z_vals@, query@, eq_r_dprime@),
        r == sums::sum(
            |j: int|
                univariate_skip::eq_at(query@, j).times(
                    sums::sum(
                        |b: int|
                            if univariate_skip::eq_at(z_vals@, j).bit(b) {
                                eq_r_dprime@[b]
                            } else {
                                F256::zero()
                            },
                        256,
                    ),
                ),
            pow2(query@.len()),
        ),
{
    let eval = evolve(TensorAlgebra::from_vertical(F256::one()), z_vals, query);
    proof {
        lemma_evolved(z_vals@, query@, z_vals@.len());
        lemma_eq_outer_folded(z_vals@, query@, eq_r_dprime@);
        lemma_transparent_value(z_vals@, query@, eq_r_dprime@);
    }
    eval.fold_vertical(eq_r_dprime)
}

/// The first part of [`eval_rs_eq`]: the pairs of `query_prefix` and as many
/// leading `z_vals`, as `Σ_j eq(query_prefix)[j] ⊗ eq(z_vals)[j]`.
pub fn eval_rs_eq_prefix(z_vals: &[F256], query_prefix: &[F256]) -> (r: TensorAlgebra)
    requires
        query_prefix.len() <= z_vals.len(),
    ensures
        r.elems@ == eq_outer(z_vals@, query_prefix@, query_prefix@.len()),
        r.elems@.len() == 256,
        forall|i: int|
            0 <= i < 256 ==> #[trigger] r.elems@[i] == sums::sum(
                |j: int|
                    if univariate_skip::eq_at(query_prefix@, j).bit(i) {
                        univariate_skip::eq_product(z_vals@, j, query_prefix@.len())
                    } else {
                        F256::zero()
                    },
                pow2(query_prefix@.len()),
            ),
{
    proof {
        lemma_evolved(z_vals@, query_prefix@, query_prefix@.len());
        let n = query_prefix@.len();
        let o = eq_outer(z_vals@, query_prefix@, n);
        let (a, b) = (
            |j: int| univariate_skip::eq_product(query_prefix@, j, n),
            |j: int| univariate_skip::eq_product(z_vals@, j, n),
        );
        assert forall|i: int| 0 <= i < 256 implies #[trigger] o[i] == sums::sum(
            |j: int|
                if univariate_skip::eq_at(query_prefix@, j).bit(i) {
                    univariate_skip::eq_product(z_vals@, j, query_prefix@.len())
                } else {
                    F256::zero()
                },
            pow2(query_prefix@.len()),
        ) by {
            sums::lemma_sum_ext(
                |k: int| bits::gate(a(k).bit(i), b(k)),
                |j: int|
                    if univariate_skip::eq_at(query_prefix@, j).bit(i) {
                        univariate_skip::eq_product(z_vals@, j, query_prefix@.len())
                    } else {
                        F256::zero()
                    },
                pow2(n),
            );
        }
    }
    evolve(TensorAlgebra::from_vertical(F256::one()), z_vals, query_prefix)
}

/// The rest of [`eval_rs_eq`], from the tensor of a prefix.
pub fn eval_rs_eq_finish_from_prefix(
    prefix: &TensorAlgebra,
    z_vals_suffix: &[F256],
    query_suffix: &[F256],
    eq_r_dprime: &[F256],
) -> (r: F256)
    requires
        prefix.elems@.len() == 256,
        z_vals_suffix.len() == query_suffix.len(),
        eq_r_dprime.len() == 256,
    ensures
        r == tensor_algebra::folded(
            evolved(prefix.elems@, z_vals_suffix@, query_suffix@, query_suffix@.len()),
            eq_r_dprime@,
        ),
        r == sums::sum(
            |i: int|
                bits::basis(i % 256).times(
                    univariate_skip::eq_at(query_suffix@, i / 256),
                ).times(
                    fold::fold_against(
                        prefix.elems@[i % 256].times(
                            univariate_skip::eq_at(z_vals_suffix@, i / 256),
                        ),
                        eq_r_dprime@,
                    ),
                ),
            256 * pow2(query_suffix@.len()),
        ),
{
    let eval = evolve(prefix.clone(), z_vals_suffix, query_suffix);
    proof {
        lemma_finish_value(prefix.elems@, z_vals_suffix@, query_suffix@, eq_r_dprime@);
    }
    eval.fold_vertical(eq_r_dprime)
}

// ---------------------------------------------------------------------------
// Binary suffixes.
// ---------------------------------------------------------------------------

/// The bits of `y`, lowest first, as field elements 0 and 1.
pub open spec fn binary_point(y: u32, n: nat) -> Seq<F256> {
    Seq::new(
        n,
        |j: int|
            if (y >> (j as u32)) & 1 == 1 {
                F256::one()
            } else {
                F256::zero()
            },
    )
}

/// At a binary coordinate the step is a single vertical scaling: by `z` for 1,
/// by `1 + z` for 0.
pub proof fn lemma_binary_step(rows: Seq<F256>, z: F256)
    requires
        rows.len() == 256,
    ensures
        eq_step(rows, z, F256::one()) == tensor_algebra::scaled_rows(rows, z),
        eq_step(rows, z, F256::zero()) == tensor_algebra::scaled_rows(
            rows,
            F256::one().plus(z),
        ),
{
    let t = tensor_algebra::transposed(rows);
    let zero_rows = Seq::new(256, |i: int| F256::zero());
    assert(tensor_algebra::scaled_rows(t, F256::one()) =~= t) by {
        assert forall|i: int| 0 <= i < 256 implies tensor_algebra::scaled_rows(t, F256::one())[i]
            == t[i] by {
            t[i].lemma_times_units();
        }
    }
    assert(tensor_algebra::scaled_rows(t, F256::zero()) =~= zero_rows) by {
        assert forall|i: int| 0 <= i < 256 implies tensor_algebra::scaled_rows(t, F256::zero())[i]
            == zero_rows[i] by {
            t[i].lemma_times_units();
        }
    }
    tensor_algebra::lemma_transpose_involution(rows);
    assert(tensor_algebra::transposed(zero_rows) =~= zero_rows) by {
        assert forall|i: int| 0 <= i < 256 implies tensor_algebra::transposed(zero_rows)[i]
            == zero_rows[i] by {
            let e = tensor_algebra::transposed(zero_rows)[i];
            assert forall|j: int| 0 <= j < 256 implies #[trigger] e.bit(j) == F256::zero().bit(
                j,
            ) by {
                tensor_algebra::lemma_transposed_bit(zero_rows, i, j);
                F256::zero().lemma_bit_plus(F256::zero(), i);
                F256::zero().lemma_bit_plus(F256::zero(), j);
            }
            e.lemma_bit_ext(F256::zero());
        }
    }
    let one_step = eq_step(rows, z, F256::one());
    let zero_step = eq_step(rows, z, F256::zero());
    assert forall|i: int| 0 <= i < 256 implies one_step[i] == tensor_algebra::scaled_rows(
        rows,
        z,
    )[i] && zero_step[i] == tensor_algebra::scaled_rows(rows, F256::one().plus(z))[i] by {
        let e = rows[i];
        let ez = e.times(z);
        e.lemma_plus(ez, e);
        ez.lemma_plus(e, e);
        e.plus(ez).lemma_plus(F256::zero(), F256::zero());
        e.lemma_times_distributes(F256::one(), z);
        e.lemma_times_units();
    }
    assert(one_step =~= tensor_algebra::scaled_rows(rows, z));
    assert(zero_step =~= tensor_algebra::scaled_rows(rows, F256::one().plus(z)));
}

/// [`eval_rs_eq_finish_from_prefix`] at a binary suffix: bit `j` of `y_bits` is
/// the `j`-th coordinate.
pub fn eval_rs_eq_finish_from_prefix_binary_q(
    prefix: &TensorAlgebra,
    z_vals_suffix: &[F256],
    y_bits: u32,
    eq_r_dprime: &[F256],
) -> (r: F256)
    requires
        prefix.elems@.len() == 256,
        z_vals_suffix.len() <= 32,
        eq_r_dprime.len() == 256,
    ensures
        r == tensor_algebra::folded(
            evolved(
                prefix.elems@,
                z_vals_suffix@,
                binary_point(y_bits, z_vals_suffix@.len()),
                z_vals_suffix@.len(),
            ),
            eq_r_dprime@,
        ),
        forall|q: Seq<F256>|
            {
                &&& q.len() == z_vals_suffix@.len()
                &&& forall|j: int|
                    0 <= j < q.len() ==> #[trigger] q[j] == F256::one() || q[j] == F256::zero()
                &&& adder::value(|j: int| q[j] == F256::one(), q.len()) == y_bits as nat % pow2(
                    q.len(),
                )
            } ==> r == tensor_algebra::folded(
                #[trigger] evolved(prefix.elems@, z_vals_suffix@, q, q.len()),
                eq_r_dprime@,
            ),
{
    let ghost rows = prefix.elems@;
    let ghost n = z_vals_suffix@.len();
    let ghost q = binary_point(y_bits, n);
    let mut eval = prefix.clone();
    let mut j: usize = 0;
    while j < z_vals_suffix.len()
        invariant
            j <= z_vals_suffix.len(),
            z_vals_suffix.len() <= 32,
            n == z_vals_suffix@.len(),
            q == binary_point(y_bits, n),
            eval.elems@ == evolved(rows, z_vals_suffix@, q, j as nat),
            eval.elems@.len() == 256,
        decreases z_vals_suffix.len() - j,
    {
        let z_i = z_vals_suffix[j];
        let scalar = if (y_bits >> (j as u32)) & 1 == 1 {
            z_i
        } else {
            F256::one() + z_i
        };
        proof {
            lemma_binary_step(eval.elems@, z_i);
        }
        eval = eval.scale_vertical(scalar);
        j = j + 1;
    }
    proof {
        assert forall|p: Seq<F256>|
            {
                &&& p.len() == z_vals_suffix@.len()
                &&& forall|j: int|
                    0 <= j < p.len() ==> #[trigger] p[j] == F256::one() || p[j] == F256::zero()
                &&& adder::value(|j: int| p[j] == F256::one(), p.len()) == y_bits as nat % pow2(
                    p.len(),
                )
            } implies eval.elems@ == #[trigger] evolved(
            rows,
            z_vals_suffix@,
            p,
            p.len(),
        ) by {
            lemma_binary_point(p, y_bits);
            assert(p == q);
        }
    }
    eval.fold_vertical(eq_r_dprime)
}

// ---------------------------------------------------------------------------
// The values.
// ---------------------------------------------------------------------------

/// The evaluation, written out over the two equality tensors.
proof fn lemma_transparent_value(z: Seq<F256>, query: Seq<F256>, e: Seq<F256>)
    requires
        z.len() == query.len(),
    ensures
        transparent_at(z, query, e) == sums::sum(
            |j: int|
                univariate_skip::eq_at(query, j).times(
                    sums::sum(
                        |b: int|
                            if univariate_skip::eq_at(z, j).bit(b) {
                                e[b]
                            } else {
                                F256::zero()
                            },
                        256,
                    ),
                ),
            pow2(query.len()),
        ),
{
    let tq = univariate_skip::eq_tensor(query);
    let te = elems::elems_fold(univariate_skip::eq_tensor(z), e);
    let f = |j: int| tq[j].times(te[j]);
    let g = |j: int|
        univariate_skip::eq_at(query, j).times(
            sums::sum(
                |b: int|
                    if univariate_skip::eq_at(z, j).bit(b) {
                        e[b]
                    } else {
                        F256::zero()
                    },
                256,
            ),
        );
    assert forall|j: int| 0 <= j < pow2(query.len()) implies #[trigger] f(j) == g(j) by {
        fold::lemma_fold_against_value(univariate_skip::eq_at(z, j), e);
    }
    sums::lemma_sum_ext(f, g, pow2(query.len()));
}

/// Evolving any tensor `Σ_k δ_k ⊗ rows[k]` multiplies its left factors by the
/// entries of `eq(q)` and its right factors by those of `eq(z)`.
pub proof fn lemma_evolved_rows(rows: Seq<F256>, z: Seq<F256>, q: Seq<F256>, n: nat)
    requires
        rows.len() == 256,
        n <= z.len(),
        n <= q.len(),
    ensures
        evolved(rows, z, q, n) == tensor_algebra::outer_sum(
            |i: int| bits::basis(i % 256).times(univariate_skip::eq_product(q, i / 256, n)),
            |i: int| rows[i % 256].times(univariate_skip::eq_product(z, i / 256, n)),
            256 * pow2(n),
        ),
    decreases n,
{
    let a = |i: int| bits::basis(i % 256).times(univariate_skip::eq_product(q, i / 256, n));
    let b = |i: int| rows[i % 256].times(univariate_skip::eq_product(z, i / 256, n));
    if n == 0 {
        lemma2_to64();
        tensor_algebra::lemma_outer_decompose(rows);
        let (c, d) = (|k: int| bits::basis(k), |k: int| rows[k]);
        let (l, r) = (
            tensor_algebra::outer_sum(c, d, 256),
            tensor_algebra::outer_sum(a, b, 256),
        );
        assert forall|i: int| 0 <= i < 256 implies l[i] == r[i] by {
            let f = |k: int| bits::gate(c(k).bit(i), d(k));
            let g = |k: int| bits::gate(a(k).bit(i), b(k));
            assert forall|k: int| 0 <= k < 256 implies #[trigger] f(k) == g(k) by {
                assert(k % 256 == k);
                bits::basis(k).lemma_times_units();
                rows[k].lemma_times_units();
            }
            sums::lemma_sum_ext(f, g, 256);
        }
        assert(l =~= r);
    } else {
        let m = (n - 1) as nat;
        let p = pow2(m);
        let a0 = |i: int| bits::basis(i % 256).times(univariate_skip::eq_product(q, i / 256, m));
        let b0 = |i: int| rows[i % 256].times(univariate_skip::eq_product(z, i / 256, m));
        let (zc, qc) = (z[m as int], q[m as int]);
        let size = 256 * p;
        lemma_evolved_rows(rows, z, q, m);
        lemma_pow2_unfold(n);
        assert forall|j: int| 0 <= j < size implies {
            &&& #[trigger] a(j) == a0(j).times(F256::one().plus(qc))
            &&& a(size + j) == a0(j).times(qc)
            &&& b(j) == b0(j).times(F256::one().plus(zc))
            &&& b(size + j) == b0(j).times(zc)
        } by {
            let (k, c) = (j % 256, j / 256);
            assert(0 <= c < p);
            assert((size + j) % 256 == k && (size + j) / 256 == c + p);
            univariate_skip::lemma_eq_double(q, c, m);
            univariate_skip::lemma_eq_double(z, c, m);
            let (eq_q, eq_z) = (
                univariate_skip::eq_product(q, c, m),
                univariate_skip::eq_product(z, c, m),
            );
            bits::basis(k).lemma_times_associates(eq_q, F256::one().plus(qc));
            bits::basis(k).lemma_times_associates(eq_q, qc);
            rows[k].lemma_times_associates(eq_z, F256::one().plus(zc));
            rows[k].lemma_times_associates(eq_z, zc);
        }
        lemma_step_outer(a0, b0, a, b, size, zc, qc);
        assert(2 * size == 256 * pow2(n));
    }
}

/// The folded value of an evolved tensor, written out.
proof fn lemma_finish_value(rows: Seq<F256>, z: Seq<F256>, q: Seq<F256>, e: Seq<F256>)
    requires
        rows.len() == 256,
        z.len() == q.len(),
    ensures
        tensor_algebra::folded(evolved(rows, z, q, q.len()), e) == sums::sum(
            |i: int|
                bits::basis(i % 256).times(univariate_skip::eq_at(q, i / 256)).times(
                    fold::fold_against(
                        rows[i % 256].times(univariate_skip::eq_at(z, i / 256)),
                        e,
                    ),
                ),
            256 * pow2(q.len()),
        ),
{
    let n = q.len();
    let a = |i: int| bits::basis(i % 256).times(univariate_skip::eq_product(q, i / 256, n));
    let b = |i: int| rows[i % 256].times(univariate_skip::eq_product(z, i / 256, n));
    lemma_evolved_rows(rows, z, q, n);
    tensor_algebra::lemma_outer_folded(a, b, 256 * pow2(n), e);
    sums::lemma_sum_ext(
        |k: int| a(k).times(bits::bit_fold(b(k), |i: int| e[i])),
        |i: int|
            bits::basis(i % 256).times(univariate_skip::eq_at(q, i / 256)).times(
                fold::fold_against(rows[i % 256].times(univariate_skip::eq_at(z, i / 256)), e),
            ),
        256 * pow2(n),
    );
}

/// The binary point of `y` is the only one whose coordinates stand for the low bits
/// of `y`: `y mod 2^n = Σ_j q[j]·2^j`.
pub proof fn lemma_binary_point(q: Seq<F256>, y: u32)
    requires
        q.len() <= 32,
        forall|j: int| 0 <= j < q.len() ==> #[trigger] q[j] == F256::one() || q[j] == F256::zero(),
        adder::value(|j: int| q[j] == F256::one(), q.len()) == y as nat % pow2(q.len()),
    ensures
        q == binary_point(y, q.len()),
{
    let n = q.len();
    let f = |j: int| q[j] == F256::one();
    let v = adder::value(f, n);
    assert forall|j: int| 0 <= j < n implies q[j] == binary_point(y, n)[j] by {
        adder::lemma_value_bits(f, n, j);
        adder::lemma_low_bits(y as nat, n, j);
        vstd::bits::lemma_u32_shr_is_div(y, j as u32);
        let s = y >> (j as u32);
        assert((s & 1 == 1) == (s % 2 == 1)) by (bit_vector);
        assert(f(j) == (q[j] == F256::one()));
        assert(F256::one() != F256::zero());
    }
    assert(q =~= binary_point(y, n));
}

} // verus!
