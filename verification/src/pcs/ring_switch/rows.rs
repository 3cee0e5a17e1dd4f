//! `fold_1b_rows`: `s_hat_v[r] = Σ_i bit_r(W[i]) · tensor[i]` for `r ∈ 0..256`.

use crate::field::bits;
use crate::field::gf2_256::F256;
use crate::field::sums;
use crate::parallel::{par_sum_rows, RowJob};
use crate::pcs::pack::LOG_PACKING;
use crate::pcs::ring_switch::eq;
use crate::pcs::ring_switch::fold;
use crate::pcs::ring_switch::fold::scatter_set_bits;
use crate::zerocheck::PaddingSpec;
use vstd::prelude::*;

verus! {

/// Index `i` adds `tensor[i]` at every set bit of `witness[i]`.
struct NaiveJob<'a> {
    witness: &'a [F256],
    tensor: &'a [F256],
}

impl<'a> RowJob for NaiveJob<'a> {
    closed spec fn ready(&self) -> bool {
        self.witness@.len() == self.tensor@.len()
    }

    closed spec fn count(&self) -> nat {
        self.witness@.len()
    }

    closed spec fn entry(&self, i: int, r: int) -> F256 {
        bits::gate(self.witness@[i].bit(r), self.tensor@[i])
    }

    fn absorb(&self, acc: Vec<F256>, i: usize) -> (v: Vec<F256>) {
        let mut v = acc;
        scatter_set_bits(&mut v, self.witness[i], self.tensor[i]);
        v
    }
}

/// `s_hat_v[r] = Σ_i bit_r(W[i]) · tensor[i]`, one private accumulator per run
/// of positions, the partial sums added up.
pub fn fold_1b_rows_naive(packed_witness: &[F256], suffix_tensor: &[F256]) -> (v: Vec<F256>)
    requires
        packed_witness.len() == suffix_tensor.len(),
    ensures
        v@ == fold::slice_fold(packed_witness@, suffix_tensor@),
        v.len() == 256,
        forall|r: int|
            0 <= r < 256 ==> #[trigger] v@[r] == sums::sum(
                |i: int|
                    if packed_witness@[i].bit(r) {
                        suffix_tensor@[i]
                    } else {
                        F256::zero()
                    },
                packed_witness@.len(),
            ),
{
    let job = NaiveJob { witness: packed_witness, tensor: suffix_tensor };
    let v = par_sum_rows(&job, packed_witness.len());
    proof {
        let s = fold::slice_fold(packed_witness@, suffix_tensor@);
        assert forall|r: int| 0 <= r < 256 implies v@[r] == s[r] by {
            sums::lemma_sum_ext(
                |i: int| job.entry(i, r),
                |i: int| bits::gate(packed_witness@[i].bit(r), suffix_tensor@[i]),
                packed_witness@.len(),
            );
        }
        assert(v@ =~= s);
        assert forall|r: int| 0 <= r < 256 implies #[trigger] v@[r] == sums::sum(
            |i: int|
                if packed_witness@[i].bit(r) {
                    suffix_tensor@[i]
                } else {
                    F256::zero()
                },
            packed_witness@.len(),
        ) by {
            fold::lemma_slice_fold_entry(packed_witness@, suffix_tensor@, r);
        }
    }
    v
}

/// Block `i` adds `eq_lo[k] · eq_hi[i]` at every set bit of its `k`-th element.
struct SplitJob<'a> {
    witness: &'a [F256],
    eq_lo: &'a [F256],
    eq_hi: &'a [F256],
}

impl<'a> SplitJob<'a> {
    spec fn term(&self, i: int, k: int, r: int) -> F256 {
        bits::gate(
            self.witness@[i * self.eq_lo@.len() + k].bit(r),
            self.eq_lo@[k].times(self.eq_hi@[i]),
        )
    }
}

impl<'a> RowJob for SplitJob<'a> {
    closed spec fn ready(&self) -> bool {
        self.witness@.len() == self.eq_lo@.len() * self.eq_hi@.len()
    }

    closed spec fn count(&self) -> nat {
        self.eq_hi@.len()
    }

    closed spec fn entry(&self, i: int, r: int) -> F256 {
        sums::sum(|k: int| self.term(i, k, r), self.eq_lo@.len())
    }

    fn absorb(&self, acc: Vec<F256>, i: usize) -> (v: Vec<F256>) {
        let mut v = acc;
        let b: usize = self.eq_lo.len();
        let total: usize = self.witness.len();
        let e_hi = self.eq_hi[i];
        let mut k: usize = 0;
        proof {
            assert forall|r: int| 0 <= r < 256 implies #[trigger] v@[r] == acc@[r].plus(
                sums::sum(|j: int| self.term(i as int, j, r), 0),
            ) by {
                acc@[r].lemma_plus(F256::zero(), F256::zero());
            }
        }
        while k < b
            invariant
                k <= b,
                b == self.eq_lo@.len(),
                total == self.witness@.len(),
                i < self.eq_hi@.len(),
                e_hi == self.eq_hi@[i as int],
                self.ready(),
                v.len() == 256,
                acc.len() == 256,
                forall|r: int|
                    0 <= r < 256 ==> #[trigger] v@[r] == acc@[r].plus(
                        sums::sum(|j: int| self.term(i as int, j, r), k as nat),
                    ),
            decreases b - k,
        {
            proof {
                eq::lemma_index_of_block(i as int, k as int, b as int, self.eq_hi@.len() as int);
                assert(i * b >= 0) by (nonlinear_arith)
                    requires
                        i >= 0,
                        b >= 0,
                ;
            }
            let ghost before = v@;
            scatter_set_bits(&mut v, self.witness[i * b + k], self.eq_lo[k] * e_hi);
            proof {
                assert forall|r: int| 0 <= r < 256 implies #[trigger] v@[r] == acc@[r].plus(
                    sums::sum(|j: int| self.term(i as int, j, r), (k + 1) as nat),
                ) by {
                    let f = |j: int| self.term(i as int, j, r);
                    assert(before[r] == acc@[r].plus(sums::sum(f, k as nat)));
                    acc@[r].lemma_plus(sums::sum(f, k as nat), f(k as int));
                }
            }
            k = k + 1;
        }
        v
    }
}

/// The split fold against the tensor that the two factors stand for.
fn fold_1b_rows_split_portable(packed_witness: &[F256], eq_lo: &[F256], eq_hi: &[F256]) -> (v: Vec<
    F256,
>)
    requires
        eq_lo.len() > 0,
        packed_witness.len() == eq_lo.len() * eq_hi.len(),
    ensures
        v@ == fold::slice_fold(packed_witness@, eq::product_tensor(eq_lo@, eq_hi@)),
        v.len() == 256,
        forall|r: int|
            0 <= r < 256 ==> #[trigger] v@[r] == sums::sum(
                |i: int|
                    if packed_witness@[i].bit(r) {
                        eq_lo@[i % (eq_lo@.len() as int)].times(eq_hi@[i / (eq_lo@.len() as int)])
                    } else {
                        F256::zero()
                    },
                packed_witness@.len(),
            ),
{
    let job = SplitJob { witness: packed_witness, eq_lo, eq_hi };
    let v = par_sum_rows(&job, eq_hi.len());
    proof {
        let t = eq::product_tensor(eq_lo@, eq_hi@);
        let s = fold::slice_fold(packed_witness@, t);
        let (b, n) = (eq_lo@.len(), eq_hi@.len());
        assert forall|r: int| 0 <= r < 256 implies v@[r] == s[r] by {
            let f = |i: int| bits::gate(packed_witness@[i].bit(r), t[i]);
            sums::lemma_sum_blocks(f, n, b);
            assert(n * b == b * n) by (nonlinear_arith);
            let blocks = |i: int| sums::sum(|j: int| f(i * b + j), b);
            let rows = |i: int| job.entry(i, r);
            assert forall|i: int| 0 <= i < n implies #[trigger] rows(i) == blocks(i) by {
                let g = |k: int| job.term(i, k, r);
                let h = |k: int| f(i * b + k);
                assert forall|k: int| 0 <= k < b implies #[trigger] g(k) == h(k) by {
                    eq::lemma_index_of_block(i, k, b as int, n as int);
                }
                sums::lemma_sum_ext(g, h, b);
            }
            sums::lemma_sum_ext(rows, blocks, n);
        }
        assert(v@ =~= s);
        assert forall|r: int| 0 <= r < 256 implies #[trigger] v@[r] == sums::sum(
            |i: int|
                if packed_witness@[i].bit(r) {
                    eq_lo@[i % (eq_lo@.len() as int)].times(eq_hi@[i / (eq_lo@.len() as int)])
                } else {
                    F256::zero()
                },
            packed_witness@.len(),
        ) by {
            fold::lemma_slice_fold_entry(packed_witness@, t, r);
            sums::lemma_sum_ext(
                |i: int|
                    if packed_witness@[i].bit(r) {
                        t[i]
                    } else {
                        F256::zero()
                    },
                |i: int|
                    if packed_witness@[i].bit(r) {
                        eq_lo@[i % (eq_lo@.len() as int)].times(eq_hi@[i / (eq_lo@.len() as int)])
                    } else {
                        F256::zero()
                    },
                packed_witness@.len(),
            );
        }
    }
    v
}

/// `s_hat_v` for each of the suffix tensors, which all have the length of the
/// packed witness.
pub fn fold_1b_rows_multi(packed_witness: &[F256], suffix_tensors: &[&[F256]]) -> (out: Vec<
    Vec<F256>,
>)
    requires
        forall|k: int|
            0 <= k < suffix_tensors@.len() ==> (#[trigger] suffix_tensors@[k])@.len()
                == packed_witness@.len(),
    ensures
        out.len() == suffix_tensors.len(),
        forall|k: int|
            0 <= k < out.len() ==> (#[trigger] out@[k])@ == fold::slice_fold(
                packed_witness@,
                suffix_tensors@[k]@,
            ),
{
    let m: usize = LOG_PACKING + (packed_witness.len() as u64).trailing_zeros() as usize;
    fold_1b_rows_multi_padded(packed_witness, suffix_tensors, &PaddingSpec::dense(m))
}

/// [`fold_1b_rows_multi`] for a zero-padded witness. Zero positions add nothing,
/// so the padding does not change the result.
pub fn fold_1b_rows_multi_padded(
    packed_witness: &[F256],
    suffix_tensors: &[&[F256]],
    padding: &PaddingSpec,
) -> (out: Vec<Vec<F256>>)
    requires
        forall|k: int|
            0 <= k < suffix_tensors@.len() ==> (#[trigger] suffix_tensors@[k])@.len()
                == packed_witness@.len(),
    ensures
        out.len() == suffix_tensors.len(),
        forall|k: int|
            0 <= k < out.len() ==> (#[trigger] out@[k])@ == fold::slice_fold(
                packed_witness@,
                suffix_tensors@[k]@,
            ),
{
    let _ = padding;
    let mut out: Vec<Vec<F256>> = Vec::new();
    let mut i: usize = 0;
    while i < suffix_tensors.len()
        invariant
            i <= suffix_tensors.len(),
            out.len() == i,
            forall|k: int|
                0 <= k < suffix_tensors@.len() ==> (#[trigger] suffix_tensors@[k])@.len()
                    == packed_witness@.len(),
            forall|k: int|
                0 <= k < i ==> (#[trigger] out@[k])@ == fold::slice_fold(
                    packed_witness@,
                    suffix_tensors@[k]@,
                ),
        decreases suffix_tensors.len() - i,
    {
        let t: &[F256] = suffix_tensors[i];
        out.push(fold_1b_rows_naive(packed_witness, t));
        i = i + 1;
    }
    out
}

/// The fold against two tensors.
pub fn fold_1b_rows_2way_mfr(packed_witness: &[F256], t0: &[F256], t1: &[F256]) -> (out: (
    Vec<F256>,
    Vec<F256>,
))
    requires
        packed_witness.len() == t0.len(),
        packed_witness.len() == t1.len(),
    ensures
        out.0@ == fold::slice_fold(packed_witness@, t0@),
        out.1@ == fold::slice_fold(packed_witness@, t1@),
{
    (fold_1b_rows_naive(packed_witness, t0), fold_1b_rows_naive(packed_witness, t1))
}

/// [`fold_1b_rows_2way_mfr`] for a zero-padded witness.
pub fn fold_1b_rows_2way_mfr_padded(
    packed_witness: &[F256],
    t0: &[F256],
    t1: &[F256],
    padding: &PaddingSpec,
) -> (out: (Vec<F256>, Vec<F256>))
    requires
        packed_witness.len() == t0.len(),
        packed_witness.len() == t1.len(),
    ensures
        out.0@ == fold::slice_fold(packed_witness@, t0@),
        out.1@ == fold::slice_fold(packed_witness@, t1@),
{
    let _ = padding;
    fold_1b_rows_2way_mfr(packed_witness, t0, t1)
}

/// The fold against two tensors.
pub fn fold_1b_rows_2way_mfr_8wide(packed_witness: &[F256], t0: &[F256], t1: &[F256]) -> (out: (
    Vec<F256>,
    Vec<F256>,
))
    requires
        packed_witness.len() == t0.len(),
        packed_witness.len() == t1.len(),
    ensures
        out.0@ == fold::slice_fold(packed_witness@, t0@),
        out.1@ == fold::slice_fold(packed_witness@, t1@),
{
    fold_1b_rows_2way_mfr(packed_witness, t0, t1)
}

/// [`fold_1b_rows_2way_mfr_8wide`] for a zero-padded witness.
pub fn fold_1b_rows_2way_mfr_8wide_padded(
    packed_witness: &[F256],
    t0: &[F256],
    t1: &[F256],
    padding: &PaddingSpec,
) -> (out: (Vec<F256>, Vec<F256>))
    requires
        packed_witness.len() == t0.len(),
        packed_witness.len() == t1.len(),
    ensures
        out.0@ == fold::slice_fold(packed_witness@, t0@),
        out.1@ == fold::slice_fold(packed_witness@, t1@),
{
    let _ = padding;
    fold_1b_rows_2way_mfr(packed_witness, t0, t1)
}

/// The fold against one tensor.
pub fn fold_1b_rows_1way_mfr(packed_witness: &[F256], t: &[F256]) -> (v: Vec<F256>)
    requires
        packed_witness.len() == t.len(),
    ensures
        v@ == fold::slice_fold(packed_witness@, t@),
{
    fold_1b_rows_naive(packed_witness, t)
}

/// The fold against one tensor.
pub fn fold_1b_rows_1way_mfr_8wide_k4(packed_witness: &[F256], t: &[F256]) -> (v: Vec<F256>)
    requires
        packed_witness.len() == t.len(),
    ensures
        v@ == fold::slice_fold(packed_witness@, t@),
{
    fold_1b_rows_naive(packed_witness, t)
}

/// The fold against one tensor, for a zero-padded witness.
pub fn fold_1b_rows_1way_mfr_16wide_padded(
    packed_witness: &[F256],
    t: &[F256],
    padding: &PaddingSpec,
) -> (v: Vec<F256>)
    requires
        packed_witness.len() == t.len(),
    ensures
        v@ == fold::slice_fold(packed_witness@, t@),
{
    let _ = padding;
    fold_1b_rows_naive(packed_witness, t)
}

/// [`fold_1b_rows_1way_mfr_16wide_padded`] without padding.
pub fn fold_1b_rows_1way_mfr_16wide_k4(packed_witness: &[F256], t: &[F256]) -> (v: Vec<F256>)
    requires
        packed_witness.len() == t.len(),
    ensures
        v@ == fold::slice_fold(packed_witness@, t@),
{
    fold_1b_rows_naive(packed_witness, t)
}

/// The fold against a tensor given by its two factors, as
/// [`build_eq_split`](crate::pcs::ring_switch::eq::build_eq_split) returns them.
/// Entry `i` of the tensor is `eq_lo[i mod B] · eq_hi[i / B]`, `B = eq_lo.len()`.
pub fn fold_1b_rows_split(
    packed_witness: &[F256],
    eq_lo: &[F256],
    eq_hi: &[F256],
    padding: &PaddingSpec,
) -> (v: Vec<F256>)
    requires
        eq_lo.len() > 0,
        packed_witness.len() == eq_lo.len() * eq_hi.len(),
    ensures
        v@ == fold::slice_fold(packed_witness@, eq::product_tensor(eq_lo@, eq_hi@)),
        v.len() == 256,
        forall|r: int|
            0 <= r < 256 ==> #[trigger] v@[r] == sums::sum(
                |i: int|
                    if packed_witness@[i].bit(r) {
                        eq_lo@[i % (eq_lo@.len() as int)].times(eq_hi@[i / (eq_lo@.len() as int)])
                    } else {
                        F256::zero()
                    },
                packed_witness@.len(),
            ),
{
    let _ = padding;
    fold_1b_rows_split_portable(packed_witness, eq_lo, eq_hi)
}

/// [`fold_1b_rows_split`] against two factored tensors.
pub fn fold_1b_rows_split_2way(
    packed_witness: &[F256],
    eq_lo_0: &[F256],
    eq_hi_0: &[F256],
    eq_lo_1: &[F256],
    eq_hi_1: &[F256],
    padding: &PaddingSpec,
) -> (out: (Vec<F256>, Vec<F256>))
    requires
        eq_lo_0.len() > 0,
        eq_lo_1.len() > 0,
        packed_witness.len() == eq_lo_0.len() * eq_hi_0.len(),
        packed_witness.len() == eq_lo_1.len() * eq_hi_1.len(),
    ensures
        out.0@ == fold::slice_fold(packed_witness@, eq::product_tensor(eq_lo_0@, eq_hi_0@)),
        out.1@ == fold::slice_fold(packed_witness@, eq::product_tensor(eq_lo_1@, eq_hi_1@)),
{
    let _ = padding;
    (
        fold_1b_rows_split_portable(packed_witness, eq_lo_0, eq_hi_0),
        fold_1b_rows_split_portable(packed_witness, eq_lo_1, eq_hi_1),
    )
}

/// The fold is additive in the witness.
pub proof fn lemma_slice_fold_linear(a: Seq<F256>, b: Seq<F256>, tensor: Seq<F256>)
    requires
        a.len() == b.len(),
    ensures
        fold::slice_fold(Seq::new(a.len(), |i: int| a[i].plus(b[i])), tensor) == Seq::new(
            256,
            |r: int|
                fold::slice_fold(a, tensor)[r].plus(fold::slice_fold(b, tensor)[r]),
        ),
{
    let c = Seq::new(a.len(), |i: int| a[i].plus(b[i]));
    let s = fold::slice_fold(c, tensor);
    let t = Seq::new(
        256,
        |r: int| fold::slice_fold(a, tensor)[r].plus(fold::slice_fold(b, tensor)[r]),
    );
    assert forall|r: int| 0 <= r < 256 implies s[r] == t[r] by {
        let f = |i: int| bits::gate(a[i].bit(r), tensor[i]);
        let g = |i: int| bits::gate(b[i].bit(r), tensor[i]);
        let h = |i: int| bits::gate(c[i].bit(r), tensor[i]);
        assert forall|i: int| 0 <= i < a.len() implies #[trigger] h(i) == f(i).plus(g(i)) by {
            a[i].lemma_bit_plus(b[i], r);
            bits::lemma_gate(a[i].bit(r), b[i].bit(r), tensor[i], tensor[i]);
        }
        sums::lemma_sum_ext(h, |i: int| f(i).plus(g(i)), a.len());
        sums::lemma_sum_plus(f, g, a.len());
    }
    assert(s =~= t);
}

/// Positions where the witness is zero do not matter: padding may be skipped.
pub proof fn lemma_slice_fold_padding(witness: Seq<F256>, t0: Seq<F256>, t1: Seq<F256>)
    requires
        forall|i: int|
            0 <= i < witness.len() ==> witness[i] == F256::zero() || #[trigger] t0[i] == t1[i],
    ensures
        fold::slice_fold(witness, t0) == fold::slice_fold(witness, t1),
{
    let s = fold::slice_fold(witness, t0);
    let t = fold::slice_fold(witness, t1);
    assert forall|r: int| 0 <= r < 256 implies s[r] == t[r] by {
        let f = |i: int| bits::gate(witness[i].bit(r), t0[i]);
        let g = |i: int| bits::gate(witness[i].bit(r), t1[i]);
        assert forall|i: int| 0 <= i < witness.len() implies #[trigger] f(i) == g(i) by {
            F256::zero().lemma_bit_plus(F256::zero(), r);
            assert(witness[i] == F256::zero() || t0[i] == t1[i]);
        }
        sums::lemma_sum_ext(f, g, witness.len());
    }
    assert(s =~= t);
}

} // verus!
