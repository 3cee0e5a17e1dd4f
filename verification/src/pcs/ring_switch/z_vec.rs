//! Slice values from a partial fold of the witness.

use crate::field::bits;
use crate::field::gf2_256::F256;
use crate::field::sums;
use crate::parallel::{par_sum_rows, RowJob};
use crate::pcs::ring_switch::eq::build_eq_parallel;
use crate::pcs::ring_switch::fold;
use crate::zerocheck::univariate_skip;
use vstd::arithmetic::power2::{lemma2_to64, lemma_pow2_adds, pow2};
use vstd::prelude::*;

verus! {

/// `Σ_k eq(tail)[k] · z_vec[256·k + b]` for every `b`.
pub open spec fn tail_fold(z_vec: Seq<F256>, tail: Seq<F256>) -> Seq<F256> {
    Seq::new(
        256,
        |b: int|
            sums::sum(
                |k: int| univariate_skip::eq_at(tail, k).times(z_vec[256 * k + b]),
                pow2(tail.len()),
            ),
    )
}

/// The partial fold of a packed witness at the outer coordinates: entry
/// `256·k + b` is `Σ_x eq(outer)[x] · bit_b(W[k + 2^t·x])`.
pub open spec fn is_partial_fold(
    z_vec: Seq<F256>,
    witness: Seq<F256>,
    t: nat,
    outer: Seq<F256>,
) -> bool {
    &&& witness.len() == pow2(t) * pow2(outer.len())
    &&& z_vec.len() == 256 * pow2(t)
    &&& forall|k: int, b: int|
        0 <= k < pow2(t) && 0 <= b < 256 ==> #[trigger] z_vec[256 * k + b] == sums::sum(
            |x: int|
                bits::gate(
                    witness[x * pow2(t) + k].bit(b),
                    univariate_skip::eq_at(outer, x),
                ),
            pow2(outer.len()),
        )
}

/// Block `k` adds `eq_tail[k] · z_vec[256·k ..]`.
struct TailJob<'a> {
    z_vec: &'a [F256],
    eq_tail: &'a [F256],
}

impl<'a> RowJob for TailJob<'a> {
    closed spec fn ready(&self) -> bool {
        self.z_vec@.len() == 256 * self.eq_tail@.len()
    }

    closed spec fn count(&self) -> nat {
        self.eq_tail@.len()
    }

    closed spec fn entry(&self, i: int, r: int) -> F256 {
        self.eq_tail@[i].times(self.z_vec@[256 * i + r])
    }

    fn absorb(&self, acc: Vec<F256>, i: usize) -> (v: Vec<F256>) {
        let mut v = acc;
        let w = self.eq_tail[i];
        let total: usize = self.z_vec.len();
        let base: usize = i * 256;
        let mut b: usize = 0;
        while b < 256
            invariant
                b <= 256,
                v.len() == 256,
                acc.len() == 256,
                i < self.eq_tail@.len(),
                base == 256 * i,
                total == self.z_vec@.len(),
                w == self.eq_tail@[i as int],
                self.z_vec@.len() == 256 * self.eq_tail@.len(),
                forall|k: int|
                    0 <= k < b ==> #[trigger] v@[k] == acc@[k].plus(self.entry(i as int, k)),
                forall|k: int| b <= k < 256 ==> #[trigger] v@[k] == acc@[k],
            decreases 256 - b,
        {
            let e = v[b] + w * self.z_vec[base + b];
            v.set(b, e);
            b = b + 1;
        }
        v
    }
}

/// The slice values at the point `(tail, outer)` from the partial fold `z_vec` of
/// the witness at `outer`: `s_hat_v[b] = Σ_k eq(tail)[k] · z_vec[256·k + b]`.
/// Without tail coordinates, `z_vec` is the answer.
pub fn s_hat_v_from_z_vec(z_vec: &[F256], x_inner_rest_tail: &[F256]) -> (v: Vec<F256>)
    requires
        z_vec@.len() == 256 * pow2(x_inner_rest_tail@.len()),
    ensures
        v@ == tail_fold(z_vec@, x_inner_rest_tail@),
        v@.len() == 256,
        forall|b: int|
            0 <= b < 256 ==> #[trigger] v@[b] == sums::sum(
                |k: int|
                    univariate_skip::eq_at(x_inner_rest_tail@, k).times(z_vec@[256 * k + b]),
                pow2(x_inner_rest_tail@.len()),
            ),
{
    let total: usize = z_vec.len();
    if x_inner_rest_tail.len() == 0 {
        let v: Vec<F256> = vstd::slice::slice_to_vec(z_vec);
        proof {
            lemma2_to64();
            let t = tail_fold(z_vec@, x_inner_rest_tail@);
            assert forall|b: int| 0 <= b < 256 implies v@[b] == t[b] by {
                let f = |k: int|
                    univariate_skip::eq_at(x_inner_rest_tail@, k).times(z_vec@[256 * k + b]);
                sums::lemma_sum_single(f, 1, 0);
                z_vec@[b].lemma_times_units();
            }
            assert(v@ =~= t);
        }
        return v;
    }
    let eq_tail = build_eq_parallel(x_inner_rest_tail);
    let job = TailJob { z_vec, eq_tail: eq_tail.as_slice() };
    let v = par_sum_rows(&job, eq_tail.len());
    proof {
        let t = tail_fold(z_vec@, x_inner_rest_tail@);
        assert forall|b: int| 0 <= b < 256 implies v@[b] == t[b] by {
            sums::lemma_sum_ext(
                |k: int| job.entry(k, b),
                |k: int| univariate_skip::eq_at(x_inner_rest_tail@, k).times(z_vec@[256 * k + b]),
                eq_tail@.len(),
            );
        }
        assert(v@ =~= t);
    }
    v
}

/// From a partial fold of the witness, the tail fold is the slice fold at the
/// whole suffix point.
pub proof fn lemma_tail_fold(
    z_vec: Seq<F256>,
    witness: Seq<F256>,
    tail: Seq<F256>,
    outer: Seq<F256>,
)
    requires
        is_partial_fold(z_vec, witness, tail.len(), outer),
    ensures
        tail_fold(z_vec, tail) == fold::slice_fold(
            witness,
            univariate_skip::eq_tensor(tail + outer),
        ),
{
    let (p, m) = (pow2(tail.len()), pow2(outer.len()));
    let point = tail + outer;
    let t = univariate_skip::eq_tensor(point);
    let (l, r) = (tail_fold(z_vec, tail), fold::slice_fold(witness, t));
    lemma_pow2_adds(tail.len(), outer.len());
    assert(point.take(tail.len() as int) =~= tail);
    assert(point.skip(tail.len() as int) =~= outer);
    assert forall|b: int| 0 <= b < 256 implies l[b] == r[b] by {
        let whole = |i: int| bits::gate(witness[i].bit(b), t[i]);
        assert(m * p == p * m) by (nonlinear_arith);
        sums::lemma_sum_blocks(whole, m, p);
        let term = |k: int, x: int|
            univariate_skip::eq_at(tail, k).times(
                bits::gate(witness[x * p + k].bit(b), univariate_skip::eq_at(outer, x)),
            );
        let part = |k: int| univariate_skip::eq_at(tail, k).times(z_vec[256 * k + b]);
        let rows = |k: int| sums::sum(|x: int| term(k, x), m);
        assert forall|k: int| 0 <= k < p implies #[trigger] part(k) == rows(k) by {
            let f = |x: int|
                bits::gate(witness[x * p + k].bit(b), univariate_skip::eq_at(outer, x));
            assert(z_vec[256 * k + b] == sums::sum(f, m));
            sums::lemma_sum_scale(univariate_skip::eq_at(tail, k), f, m);
            sums::lemma_sum_ext(
                |x: int| univariate_skip::eq_at(tail, k).times(f(x)),
                |x: int| term(k, x),
                m,
            );
        }
        sums::lemma_sum_ext(part, rows, p);
        sums::lemma_sum_swap(term, p, m);
        let cols = |x: int| sums::sum(|k: int| term(k, x), p);
        let blocks = |x: int| sums::sum(|k: int| whole(x * p + k), p);
        assert forall|x: int| 0 <= x < m implies #[trigger] cols(x) == blocks(x) by {
            let f = |k: int| term(k, x);
            let g = |k: int| whole(x * p + k);
            assert forall|k: int| 0 <= k < p implies #[trigger] f(k) == g(k) by {
                univariate_skip::lemma_eq_split(point, tail.len(), k, x);
                bits::lemma_gate(
                    witness[x * p + k].bit(b),
                    false,
                    univariate_skip::eq_at(outer, x),
                    univariate_skip::eq_at(tail, k),
                );
            }
            sums::lemma_sum_ext(f, g, p);
        }
        sums::lemma_sum_ext(cols, blocks, m);
    }
    assert(l =~= r);
}

} // verus!
