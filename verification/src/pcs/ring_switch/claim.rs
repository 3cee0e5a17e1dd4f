//! The claim check and the batching of the 256 slice values.

use crate::field::bits;
use crate::field::gf2_256::F256;
use crate::field::sums;
use crate::pcs::pack;
use crate::pcs::ring_switch::eq;
use crate::pcs::ring_switch::fold;
use crate::pcs::tensor_algebra;
use crate::pcs::tensor_algebra::gather_bits;
use crate::zerocheck::multilinear;
use crate::zerocheck::multilinear::lagrange_weights_naive;
use crate::zerocheck::univariate_skip;
use vstd::arithmetic::power2::{lemma2_to64, lemma_pow2_adds, pow2};
use vstd::prelude::*;

verus! {

/// The number of coordinates that the univariate skip absorbs.
const K_SKIP: usize = 6;

/// The weight of prefix `i`: the Lagrange weight of its low six bits, and one
/// equality factor for each of the two bits above.
pub open spec fn claim_weight(z_skip: F256, x0: F256, x1: F256, i: int) -> F256 {
    multilinear::lagrange_weight(6, z_skip, i % 64).times(
        univariate_skip::eq_factor(x0, (i / 64) % 2 == 1),
    ).times(univariate_skip::eq_factor(x1, (i / 128) % 2 == 1))
}

/// The 256 claim weights.
pub open spec fn claim_weights(z_skip: F256, x0: F256, x1: F256) -> Seq<F256> {
    Seq::new(256, |i: int| claim_weight(z_skip, x0, x1, i))
}

/// Builds the 256 weights of the claim check,
/// ```text
/// weights[i] = ν_φ8(i & 63)(z_skip) · eq(x_outer_0, (i >> 6) & 1)
///                                   · eq(x_outer_1, (i >> 7) & 1)
/// ```
/// The low six bits of `i` select a `φ_8` node; its Lagrange weights do not
/// factor into a tensor, so they are taken directly.
pub fn build_claim_weights(z_skip: F256, x_outer_0: F256, x_outer_1: F256) -> (w: Vec<F256>)
    ensures
        w@ == claim_weights(z_skip, x_outer_0, x_outer_1),
        w@.len() == 256,
        forall|i: int|
            0 <= i < 256 ==> #[trigger] w@[i] == multilinear::lagrange_weight(
                6,
                z_skip,
                i % 64,
            ).times(
                if (i / 64) % 2 == 1 {
                    x_outer_0
                } else {
                    F256::one().plus(x_outer_0)
                },
            ).times(
                if (i / 128) % 2 == 1 {
                    x_outer_1
                } else {
                    F256::one().plus(x_outer_1)
                },
            ),
{
    let lambda = lagrange_weights_naive(K_SKIP, z_skip);
    proof {
        lemma2_to64();
    }
    let one = F256::one();
    let mut w: Vec<F256> = Vec::with_capacity(256);
    let ghost all = claim_weights(z_skip, x_outer_0, x_outer_1);
    let mut i: usize = 0;
    while i < 256
        invariant
            i <= 256,
            one == F256::one(),
            lambda@ == Seq::new(64, |i: int| multilinear::lagrange_weight(6, z_skip, i)),
            all == claim_weights(z_skip, x_outer_0, x_outer_1),
            w@ == all.take(i as int),
        decreases 256 - i,
    {
        let f0 = if (i / 64) % 2 == 1 {
            x_outer_0
        } else {
            one + x_outer_0
        };
        let f1 = if (i / 128) % 2 == 1 {
            x_outer_1
        } else {
            one + x_outer_1
        };
        w.push(lambda[i % 64] * f0 * f1);
        proof {
            assert(w@ =~= all.take(i + 1));
        }
        i = i + 1;
    }
    proof {
        assert(w@ =~= all);
    }
    w
}

/// `Σ_i a[i]·b[i]`.
pub fn inner_product(a: &[F256], b: &[F256]) -> (r: F256)
    requires
        a.len() == b.len(),
    ensures
        r == sums::dot(a@, b@),
        r == sums::sum(|i: int| a@[i].times(b@[i]), a@.len()),
{
    let mut acc = F256::zero();
    let mut i: usize = 0;
    let ghost f = |k: int| a@[k].times(b@[k]);
    while i < a.len()
        invariant
            i <= a.len(),
            a.len() == b.len(),
            f == (|k: int| a@[k].times(b@[k])),
            acc == sums::sum(f, i as nat),
        decreases a.len() - i,
    {
        acc = acc + a[i] * b[i];
        i = i + 1;
    }
    acc
}

/// The verifier's claim check: `Σ_i weights[i]·s_hat_v[i]`.
pub fn claim_check(weights: &[F256], s_hat_v: &[F256]) -> (r: F256)
    requires
        weights.len() == s_hat_v.len(),
    ensures
        r == sums::dot(weights@, s_hat_v@),
        r == sums::sum(|i: int| weights@[i].times(s_hat_v@[i]), weights@.len()),
{
    inner_product(weights, s_hat_v)
}

/// Transposes the 256×256 bit matrix whose row `i` is `s_hat_v[i]`: bit `i` of
/// entry `b` of the result is bit `b` of `s_hat_v[i]`.
pub fn tensor_algebra_transpose(s_hat_v: &[F256]) -> (u: Vec<F256>)
    requires
        s_hat_v.len() == 256,
    ensures
        u@ == tensor_algebra::transposed(s_hat_v@),
        forall|b: int, i: int|
            0 <= b < 256 && 0 <= i < 256 ==> #[trigger] u@[b].bit(i) == s_hat_v@[i].bit(b),
{
    let mut u: Vec<F256> = Vec::with_capacity(256);
    let mut b: usize = 0;
    while b < 256
        invariant
            b <= 256,
            s_hat_v.len() == 256,
            u@ == tensor_algebra::transposed(s_hat_v@).take(b as int),
        decreases 256 - b,
    {
        u.push(gather_bits(s_hat_v, b));
        proof {
            assert(u@ =~= tensor_algebra::transposed(s_hat_v@).take(b + 1));
        }
        b = b + 1;
    }
    proof {
        assert(u@ =~= tensor_algebra::transposed(s_hat_v@));
        assert forall|b: int, i: int| 0 <= b < 256 && 0 <= i < 256 implies #[trigger] u@[b].bit(i)
            == s_hat_v@[i].bit(b) by {
            tensor_algebra::lemma_transposed_bit(s_hat_v@, b, i);
        }
    }
    u
}

// ---------------------------------------------------------------------------
// What the claim check checks.
// ---------------------------------------------------------------------------

/// `ẑ_skip(z_skip, x_outer)`: the witness bits in groups of 64, each group
/// against the Lagrange weights at `z_skip`, the groups against the equality
/// tensor of `x_outer`.
pub open spec fn zhat_skip(z: Seq<bool>, z_skip: F256, x_outer: Seq<F256>) -> F256 {
    sums::sum(
        |o: int|
            univariate_skip::eq_at(x_outer, o).times(
                sums::sum(
                    |s: int|
                        bits::gate(
                            z[64 * o + s],
                            multilinear::lagrange_weight(6, z_skip, s),
                        ),
                    64,
                ),
            ),
        pow2(x_outer.len()),
    )
}

/// The tensor of two coordinates, entry by entry.
proof fn lemma_eq_of_two(x: Seq<F256>, a: int)
    requires
        x.len() == 2,
        0 <= a < 4,
    ensures
        univariate_skip::eq_at(x, a) == univariate_skip::eq_factor(x[0], a % 2 == 1).times(
            univariate_skip::eq_factor(x[1], (a / 2) % 2 == 1),
        ),
{
    lemma2_to64();
    reveal_with_fuel(univariate_skip::eq_product, 3);
    let f0 = univariate_skip::eq_factor(x[0], a % 2 == 1);
    f0.lemma_times_units();
    assert(a / 1 == a);
}

/// The claim weights of the packed witness against its slices recover the value
/// of the univariate-skip extension: a slice fold of `packed(z)` passes the claim
/// check exactly for `ẑ_skip(z_skip, x_outer)`.
pub proof fn lemma_claim_check_recovers(z: Seq<bool>, z_skip: F256, x_outer: Seq<F256>)
    requires
        x_outer.len() >= 2,
        z.len() == 256 * pow2((x_outer.len() - 2) as nat),
    ensures
        sums::dot(
            claim_weights(z_skip, x_outer[0], x_outer[1]),
            fold::slice_fold(pack::packed(z), univariate_skip::eq_tensor(x_outer.skip(2))),
        ) == zhat_skip(z, z_skip, x_outer),
{
    let n = pow2((x_outer.len() - 2) as nat);
    let suffix = x_outer.skip(2);
    let t = univariate_skip::eq_tensor(suffix);
    let w = pack::packed(z);
    let weights = claim_weights(z_skip, x_outer[0], x_outer[1]);
    let s = fold::slice_fold(w, t);
    assert(w.len() == n);
    lemma2_to64();
    // One term for every prefix i and suffix index j.
    let term = |i: int, j: int| bits::gate(z[256 * j + i], weights[i].times(t[j]));
    let rows = |i: int| sums::sum(|j: int| term(i, j), n);
    let left = |i: int| weights[i].times(s[i]);
    assert forall|i: int| 0 <= i < 256 implies #[trigger] left(i) == rows(i) by {
        let f = |j: int| bits::gate(w[j].bit(i), t[j]);
        sums::lemma_sum_scale(weights[i], f, n);
        let g = |j: int| weights[i].times(f(j));
        let h = |j: int| term(i, j);
        assert forall|j: int| 0 <= j < n implies #[trigger] g(j) == h(j) by {
            pack::lemma_packed_bit(z, j, i);
            bits::lemma_gate(w[j].bit(i), false, t[j], weights[i]);
        }
        sums::lemma_sum_ext(g, h, n);
    }
    sums::lemma_sum_ext(left, rows, 256);
    sums::lemma_sum_swap(term, 256, n);
    // The other side, four groups of 64 to a packed element.
    let lambda = |k: int| multilinear::lagrange_weight(6, z_skip, k);
    let inner = |o: int| sums::sum(|k: int| bits::gate(z[64 * o + k], lambda(k)), 64);
    let group = |o: int| univariate_skip::eq_at(x_outer, o).times(inner(o));
    assert(pow2(x_outer.len()) == n * 4) by {
        lemma_pow2_adds(2, (x_outer.len() - 2) as nat);
    }
    sums::lemma_sum_blocks(group, n, 4);
    let cols = |j: int| sums::sum(|i: int| term(i, j), 256);
    let quads = |j: int| sums::sum(|a: int| group(j * 4 + a), 4);
    assert forall|j: int| 0 <= j < n implies #[trigger] cols(j) == quads(j) by {
        let col = |i: int| term(i, j);
        sums::lemma_sum_blocks(col, 4, 64);
        let block = |a: int| sums::sum(|k: int| col(a * 64 + k), 64);
        let quad = |a: int| group(j * 4 + a);
        assert forall|a: int| 0 <= a < 4 implies #[trigger] block(a) == quad(a) by {
            lemma_one_group(z, z_skip, x_outer, j, a);
            let o = j * 4 + a;
            let f = |k: int| bits::gate(z[64 * o + k], lambda(k));
            let g = |k: int|
                bits::gate(z[64 * o + k], multilinear::lagrange_weight(6, z_skip, k));
            sums::lemma_sum_ext(f, g, 64);
            let u = |k: int|
                bits::gate(z[256 * j + (a * 64 + k)], weights[a * 64 + k].times(t[j]));
            let v = |k: int| col(a * 64 + k);
            sums::lemma_sum_ext(u, v, 64);
        }
        sums::lemma_sum_ext(block, quad, 4);
    }
    sums::lemma_sum_ext(cols, quads, n);
    let whole = |o: int|
        univariate_skip::eq_at(x_outer, o).times(
            sums::sum(
                |s: int| bits::gate(z[64 * o + s], multilinear::lagrange_weight(6, z_skip, s)),
                64,
            ),
        );
    assert forall|o: int| 0 <= o < n * 4 implies #[trigger] group(o) == whole(o) by {
        let f = |k: int| bits::gate(z[64 * o + k], lambda(k));
        let g = |k: int| bits::gate(z[64 * o + k], multilinear::lagrange_weight(6, z_skip, k));
        sums::lemma_sum_ext(f, g, 64);
    }
    sums::lemma_sum_ext(group, whole, n * 4);
}

/// The 64 prefixes with the same two top bits.
proof fn lemma_one_group(z: Seq<bool>, z_skip: F256, x_outer: Seq<F256>, j: int, a: int)
    requires
        x_outer.len() >= 2,
        0 <= j < pow2((x_outer.len() - 2) as nat),
        0 <= a < 4,
    ensures
        ({
            let weights = claim_weights(z_skip, x_outer[0], x_outer[1]);
            let t = univariate_skip::eq_tensor(x_outer.skip(2));
            let o = j * 4 + a;
            sums::sum(
                |k: int| bits::gate(z[256 * j + (a * 64 + k)], weights[a * 64 + k].times(t[j])),
                64,
            ) == univariate_skip::eq_at(x_outer, o).times(
                sums::sum(
                    |k: int|
                        bits::gate(z[64 * o + k], multilinear::lagrange_weight(6, z_skip, k)),
                    64,
                ),
            )
        }),
{
    let weights = claim_weights(z_skip, x_outer[0], x_outer[1]);
    let t = univariate_skip::eq_tensor(x_outer.skip(2));
    let o = j * 4 + a;
    let e = univariate_skip::eq_at(x_outer, o);
    lemma2_to64();
    univariate_skip::lemma_eq_split(x_outer, 2, a, j);
    let pair = x_outer.take(2);
    lemma_eq_of_two(pair, a);
    let f0 = univariate_skip::eq_factor(x_outer[0], a % 2 == 1);
    let f1 = univariate_skip::eq_factor(x_outer[1], (a / 2) % 2 == 1);
    let f = |k: int| bits::gate(z[64 * o + k], multilinear::lagrange_weight(6, z_skip, k));
    let g = |k: int| bits::gate(z[256 * j + (a * 64 + k)], weights[a * 64 + k].times(t[j]));
    sums::lemma_sum_scale(e, f, 64);
    let h = |k: int| e.times(f(k));
    assert forall|k: int| 0 <= k < 64 implies #[trigger] g(k) == h(k) by {
        let i = a * 64 + k;
        let l = multilinear::lagrange_weight(6, z_skip, k);
        assert(i % 64 == k && i / 64 == a && i / 128 == a / 2);
        assert(256 * j + i == 64 * o + k);
        // (l·f0·f1)·t = ((f0·f1)·t)·l.
        l.lemma_times_associates(f0, f1);
        l.lemma_times_associates(f0.times(f1), t[j]);
        l.lemma_times_commutes(e);
        bits::lemma_gate(z[64 * o + k], false, l, e);
    }
    sums::lemma_sum_ext(g, h, 64);
}

/// The claim is the univariate-skip extension: where `c(o)` are the coefficients of
/// the polynomial of degree below 64 that takes the bits of group `o` at the nodes,
/// `ẑ_skip(z_skip, x_outer) = Σ_o eq(x_outer)[o] · c(o)(z_skip)`.
pub proof fn lemma_zhat_is_extension(
    z: Seq<bool>,
    z_skip: F256,
    x_outer: Seq<F256>,
    c: spec_fn(int) -> Seq<F256>,
)
    requires
        forall|o: int| 0 <= o < pow2(x_outer.len()) ==> (#[trigger] c(o)).len() <= 64,
        forall|o: int, k: int|
            0 <= o < pow2(x_outer.len()) && 0 <= k < 64 ==> #[trigger] multilinear::poly_value(
                c(o),
                multilinear::node(k),
            ) == (if z[64 * o + k] {
                F256::one()
            } else {
                F256::zero()
            }),
    ensures
        zhat_skip(z, z_skip, x_outer) == sums::sum(
            |o: int|
                univariate_skip::eq_at(x_outer, o).times(multilinear::poly_value(c(o), z_skip)),
            pow2(x_outer.len()),
        ),
{
    lemma2_to64();
    let f = |o: int|
        univariate_skip::eq_at(x_outer, o).times(
            sums::sum(
                |s: int| bits::gate(z[64 * o + s], multilinear::lagrange_weight(6, z_skip, s)),
                64,
            ),
        );
    let g = |o: int|
        univariate_skip::eq_at(x_outer, o).times(multilinear::poly_value(c(o), z_skip));
    assert forall|o: int| 0 <= o < pow2(x_outer.len()) implies #[trigger] f(o) == g(o) by {
        assert(c(o).len() <= 64);
        multilinear::lemma_interpolation(6, c(o), z_skip);
        let u = |s: int| bits::gate(z[64 * o + s], multilinear::lagrange_weight(6, z_skip, s));
        let v = |i: int|
            multilinear::poly_value(c(o), multilinear::node(i)).times(
                multilinear::lagrange_weight(6, z_skip, i),
            );
        assert forall|k: int| 0 <= k < 64 implies #[trigger] u(k) == v(k) by {
            assert(multilinear::poly_value(c(o), multilinear::node(k)) == (if z[64 * o + k] {
                F256::one()
            } else {
                F256::zero()
            }));
            multilinear::lagrange_weight(6, z_skip, k).lemma_times_units();
        }
        sums::lemma_sum_ext(u, v, 64);
    }
    sums::lemma_sum_ext(f, g, pow2(x_outer.len()));
}

} // verus!
