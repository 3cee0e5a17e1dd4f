//! The prover's side for several claims on one witness.

use crate::challenger;
use crate::challenger::{sample_f256_vec, Challenger, Event};
use crate::field::bits;
use crate::field::gf2_256::F256;
use crate::field::sums;
use crate::pcs::pack::LOG_PACKING;
use crate::pcs::ring_switch::elems;
use crate::pcs::ring_switch::elems::{build_fold_byte_table, fold_b128_elems};
use crate::pcs::ring_switch::eq;
use crate::pcs::ring_switch::eq::{build_eq_parallel, build_eq_split, split_n_lo};
use crate::pcs::ring_switch::fold;
use crate::pcs::ring_switch::reduction;
use crate::pcs::ring_switch::reduction::{reduce_slices, RingSwitchProof};
use crate::pcs::ring_switch::rows::{
    fold_1b_rows_naive, fold_1b_rows_split, fold_1b_rows_split_2way,
};
use crate::pcs::ring_switch::rs_eq_ind::RsEqInd;
use crate::pcs::ring_switch::sparse;
use crate::pcs::ring_switch::sparse::{build_eq_sparse, SparseEqTensor};
use crate::pcs::ring_switch::sparse_fold;
use crate::pcs::ring_switch::sparse_fold::{fold_1b_rows_sparse, fold_b128_elems_sparse_pairs};
use crate::pcs::tensor_algebra;
use crate::zerocheck::univariate_skip;
use crate::zerocheck::PaddingSpec;
use vstd::arithmetic::power2::{lemma2_to64, lemma_pow2_pos, pow2};
use vstd::prelude::*;

verus! {

/// The number of zero suffix coordinates from which on a claim goes through the
/// sparse kernels.
pub const SPARSE_ZERO_THRESHOLD: usize = 3;

/// The output of the batched prover for one claim.
#[derive(Clone, Debug)]
pub struct RingSwitchBatchOutput {
    /// `γ_k` times the transparent multilinear of the claim.
    pub rs_eq_ind: RsEqInd,
    pub sumcheck_claim: F256,
}

/// The suffix tensor of a claim, in the form that its kernels use.
pub enum SuffixForm {
    /// All entries.
    Full(Vec<F256>),
    /// Two factors.
    Split(Vec<F256>, Vec<F256>),
    /// The entries over the nonzero coordinates.
    Sparse(SparseEqTensor),
}

/// The number of zeros among the first `n` coordinates.
pub open spec fn zero_count(coords: Seq<F256>, n: nat) -> nat
    decreases n,
{
    if n == 0 {
        0
    } else {
        zero_count(coords, (n - 1) as nat) + (if coords[n - 1] == F256::zero() {
            1nat
        } else {
            0nat
        })
    }
}

/// A claim with this suffix point goes through the sparse kernels.
pub open spec fn is_sparse(coords: Seq<F256>) -> bool {
    zero_count(coords, coords.len()) >= SPARSE_ZERO_THRESHOLD
}

/// Every entry times `g`.
pub open spec fn scaled_seq(g: F256, v: Seq<F256>) -> Seq<F256> {
    Seq::new(v.len(), |i: int| g.times(v[i]))
}

impl SuffixForm {
    /// The form stands for the equality tensor of `coords`.
    pub open spec fn stands_for(self, coords: Seq<F256>) -> bool {
        match self {
            SuffixForm::Full(t) => t@ == univariate_skip::eq_tensor(coords),
            SuffixForm::Split(lo, hi) => {
                &&& lo@.len() > 0
                &&& eq::product_tensor(lo@, hi@) == univariate_skip::eq_tensor(coords)
            },
            SuffixForm::Sparse(e) => e.wf() && e.represents(coords),
        }
    }

    /// The form that a claim takes: sparse with enough zeros, else split near the
    /// middle where the tensor has at least 16 entries, else full.
    pub open spec fn chosen_for(self, coords: Seq<F256>) -> bool {
        &&& self.stands_for(coords)
        &&& self is Sparse <==> is_sparse(coords)
        &&& self is Split <==> !is_sparse(coords) && coords.len() >= 4
        &&& self matches SuffixForm::Split(lo, hi) ==> {
            let k = eq::split_width(coords.len()) as int;
            &&& lo@ == univariate_skip::eq_tensor(coords.take(k))
            &&& hi@ == univariate_skip::eq_tensor(coords.skip(k))
        }
    }
}

/// The form of the output: it follows the form of the suffix tensor.
pub open spec fn output_form(r: RsEqInd, coords: Seq<F256>, weights: Seq<F256>) -> bool {
    &&& r is Sparse <==> is_sparse(coords)
    &&& r is DeferredDense <==> !is_sparse(coords) && coords.len() >= 4
    &&& r matches RsEqInd::Sparse { len, entries } ==> {
        let pos = sparse::live_among(coords, coords.len());
        &&& len == pow2(coords.len())
        &&& sparse_fold::distinct(entries@)
        &&& forall|i: int, j: int|
            0 <= i < j < entries@.len() ==> (#[trigger] entries@[i]).0 < (#[trigger] entries@[j]).0
        &&& entries@ == Seq::new(
            pow2(pos.len()),
            |c: int|
                (
                    sparse::spread(pos, c, pos.len()) as usize,
                    fold::fold_against(
                        univariate_skip::eq_at(sparse::live_coords(coords), c),
                        weights,
                    ),
                ),
        )
    }
    &&& r matches RsEqInd::DeferredDense { eq_lo, eq_hi, table } ==> {
        let k = eq::split_width(coords.len()) as int;
        &&& eq_lo@ == univariate_skip::eq_tensor(coords.take(k))
        &&& eq_hi@ == univariate_skip::eq_tensor(coords.skip(k))
        &&& table@ == elems::byte_table(weights)
    }
}

// ---------------------------------------------------------------------------
// What the batch computes.
// ---------------------------------------------------------------------------

/// The slice values of claim `i`: the precomputed ones where they are given, else
/// those of the witness.
pub open spec fn claim_slices(
    witness: Seq<F256>,
    x_outers: Seq<&[F256]>,
    precomputed: Seq<Option<&[F256]>>,
    i: int,
) -> Seq<F256> {
    if i < precomputed.len() && precomputed[i] is Some {
        precomputed[i]->Some_0@
    } else {
        reduction::slices(witness, x_outers[i]@)
    }
}

/// The transcript before claim `i`: the reductions of the claims before it, in
/// order.
pub open spec fn transcript_before(
    t: Seq<Event>,
    slices: spec_fn(int) -> Seq<F256>,
    i: nat,
) -> Seq<Event>
    decreases i,
{
    if i == 0 {
        t
    } else {
        reduction::reduced(transcript_before(t, slices, (i - 1) as nat), slices(i - 1))
    }
}

/// The row-batching challenges of claim `i`.
pub open spec fn claim_challenges(
    answers: spec_fn(Seq<Event>) -> F256,
    t: Seq<Event>,
    slices: spec_fn(int) -> Seq<F256>,
    i: int,
) -> Seq<F256> {
    reduction::row_challenges(answers, transcript_before(t, slices, i as nat), slices(i))
}

/// The fold is linear in the weights.
pub proof fn lemma_elems_fold_scaled(tensor: Seq<F256>, weights: Seq<F256>, g: F256)
    requires
        weights.len() == 256,
    ensures
        elems::elems_fold(tensor, scaled_seq(g, weights)) == scaled_seq(
            g,
            elems::elems_fold(tensor, weights),
        ),
{
    let l = elems::elems_fold(tensor, scaled_seq(g, weights));
    let r = scaled_seq(g, elems::elems_fold(tensor, weights));
    assert forall|i: int| 0 <= i < tensor.len() implies l[i] == r[i] by {
        let a = tensor[i];
        let w = |k: int| weights[k];
        let f = |k: int| bits::gate(a.bit(k), w(k));
        sums::lemma_sum_scale(g, f, 256);
        let u = |k: int| g.times(f(k));
        let gw = |k: int| scaled_seq(g, weights)[k];
        let v = |k: int| bits::gate(a.bit(k), gw(k));
        assert forall|k: int| 0 <= k < 256 implies #[trigger] u(k) == v(k) by {
            bits::lemma_gate(a.bit(k), false, weights[k], g);
        }
        sums::lemma_sum_ext(u, v, 256);
    }
    assert(l =~= r);
}

// ---------------------------------------------------------------------------
// The steps.
// ---------------------------------------------------------------------------

fn count_zeros(coords: &[F256]) -> (n: usize)
    ensures
        n == zero_count(coords@, coords@.len()),
{
    let mut n: usize = 0;
    let mut i: usize = 0;
    while i < coords.len()
        invariant
            i <= coords.len(),
            n <= i,
            n == zero_count(coords@, i as nat),
        decreases coords.len() - i,
    {
        if coords[i].is_zero() {
            n = n + 1;
        }
        i = i + 1;
    }
    n
}

/// Builds the suffix tensor of one claim.
pub fn suffix_form(suffix: &[F256]) -> (r: SuffixForm)
    requires
        pow2(suffix@.len()) <= usize::MAX,
    ensures
        r.chosen_for(suffix@),
{
    if count_zeros(suffix) >= SPARSE_ZERO_THRESHOLD {
        proof {
            sparse::lemma_live(suffix@, suffix@.len());
            univariate_skip::lemma_pow2_monotone(
                sparse::live_among(suffix@, suffix@.len()).len(),
                suffix@.len(),
            );
        }
        SuffixForm::Sparse(build_eq_sparse(suffix))
    } else if suffix.len() >= 4 {
        let n_lo: usize = split_n_lo(suffix.len());
        proof {
            univariate_skip::lemma_pow2_monotone(n_lo as nat, suffix@.len());
            univariate_skip::lemma_pow2_monotone((suffix@.len() - n_lo) as nat, suffix@.len());
            lemma_pow2_pos(n_lo as nat);
        }
        let (lo, hi) = build_eq_split(suffix, n_lo);
        SuffixForm::Split(lo, hi)
    } else {
        SuffixForm::Full(build_eq_parallel(suffix))
    }
}

/// The slice values of the witness against a suffix tensor.
fn form_slices(packed_witness: &[F256], form: &SuffixForm, padding: &PaddingSpec, Ghost(
    coords,
): Ghost<Seq<F256>>) -> (v: Vec<F256>)
    requires
        form.stands_for(coords),
        packed_witness@.len() == pow2(coords.len()),
    ensures
        v@ == fold::slice_fold(packed_witness@, univariate_skip::eq_tensor(coords)),
{
    match form {
        SuffixForm::Full(t) => fold_1b_rows_naive(packed_witness, t.as_slice()),
        SuffixForm::Split(lo, hi) => {
            proof {
                assert(eq::product_tensor(lo@, hi@).len() == lo@.len() * hi@.len());
            }
            fold_1b_rows_split(packed_witness, lo.as_slice(), hi.as_slice(), padding)
        },
        SuffixForm::Sparse(e) => {
            proof {
                sparse_fold::lemma_represents_bounds(*e, coords);
                sparse_fold::lemma_sparse_rows(packed_witness@, *e, coords);
            }
            fold_1b_rows_sparse(packed_witness, e)
        },
    }
}

/// The slice values of two claims whose suffix tensors are split.
fn form_slices_pair(
    packed_witness: &[F256],
    first: &SuffixForm,
    second: &SuffixForm,
    padding: &PaddingSpec,
    Ghost(coords): Ghost<(Seq<F256>, Seq<F256>)>,
) -> (v: (Vec<F256>, Vec<F256>))
    requires
        first.stands_for(coords.0),
        second.stands_for(coords.1),
        packed_witness@.len() == pow2(coords.0.len()),
        packed_witness@.len() == pow2(coords.1.len()),
    ensures
        v.0@ == fold::slice_fold(packed_witness@, univariate_skip::eq_tensor(coords.0)),
        v.1@ == fold::slice_fold(packed_witness@, univariate_skip::eq_tensor(coords.1)),
{
    if let SuffixForm::Split(lo0, hi0) = first {
        if let SuffixForm::Split(lo1, hi1) = second {
            proof {
                assert(eq::product_tensor(lo0@, hi0@).len() == lo0@.len() * hi0@.len());
                assert(eq::product_tensor(lo1@, hi1@).len() == lo1@.len() * hi1@.len());
            }
            return fold_1b_rows_split_2way(
                packed_witness,
                lo0.as_slice(),
                hi0.as_slice(),
                lo1.as_slice(),
                hi1.as_slice(),
                padding,
            );
        }
    }
    (
        form_slices(packed_witness, first, padding, Ghost(coords.0)),
        form_slices(packed_witness, second, padding, Ghost(coords.1)),
    )
}

fn copy(v: &[F256]) -> (r: Vec<F256>)
    ensures
        r@ == v@,
{
    vstd::slice::slice_to_vec(v)
}

/// `g · v`.
pub fn scale_all(g: F256, v: &[F256]) -> (r: Vec<F256>)
    ensures
        r@ == scaled_seq(g, v@),
{
    let mut r: Vec<F256> = Vec::with_capacity(v.len());
    let mut i: usize = 0;
    while i < v.len()
        invariant
            i <= v.len(),
            r@ == scaled_seq(g, v@).take(i as int),
        decreases v.len() - i,
    {
        r.push(g * v[i]);
        proof {
            assert(r@ =~= scaled_seq(g, v@).take(i + 1));
        }
        i = i + 1;
    }
    proof {
        assert(r@ =~= scaled_seq(g, v@));
    }
    r
}

/// The transparent multilinear of a claim times `gamma`, for given equality
/// weights; `gamma` is multiplied into the weights, not into the entries.
fn form_rs_eq_ind(
    form: &SuffixForm,
    l: usize,
    gamma: F256,
    eq_r_dprime: &[F256],
    Ghost(coords): Ghost<Seq<F256>>,
) -> (r: RsEqInd)
    requires
        form.chosen_for(coords),
        eq_r_dprime.len() == 256,
        l == pow2(coords.len()),
    ensures
        r.wf(),
        r.dense() == scaled_seq(
            gamma,
            elems::elems_fold(univariate_skip::eq_tensor(coords), eq_r_dprime@),
        ),
        output_form(r, coords, scaled_seq(gamma, eq_r_dprime@)),
{
    let weights = scale_all(gamma, eq_r_dprime);
    proof {
        lemma_elems_fold_scaled(univariate_skip::eq_tensor(coords), eq_r_dprime@, gamma);
    }
    match form {
        SuffixForm::Full(t) => RsEqInd::Dense(fold_b128_elems(t.as_slice(), weights.as_slice())),
        SuffixForm::Split(lo, hi) => {
            let table = build_fold_byte_table(weights.as_slice());
            proof {
                assert(eq::product_tensor(lo@, hi@).len() == lo@.len() * hi@.len());
                elems::lemma_table_fold(eq::product_tensor(lo@, hi@), weights@);
            }
            RsEqInd::DeferredDense { eq_lo: copy(lo.as_slice()), eq_hi: copy(hi.as_slice()), table }
        },
        SuffixForm::Sparse(e) => {
            let entries = fold_b128_elems_sparse_pairs(e, weights.as_slice());
            proof {
                sparse_fold::lemma_pairs_ascend(*e, coords, weights@);
                sparse_fold::lemma_sparse_elems(*e, coords, weights@);
                let pos = sparse::live_among(coords, coords.len());
                assert(entries@ =~= Seq::new(
                    pow2(pos.len()),
                    |c: int|
                        (
                            sparse::spread(pos, c, pos.len()) as usize,
                            fold::fold_against(
                                univariate_skip::eq_at(sparse::live_coords(coords), c),
                                weights@,
                            ),
                        ),
                ));
            }
            RsEqInd::Sparse { len: l, entries }
        },
    }
}

/// The suffix tensors of all claims, each in the form that suits it: the first
/// phase of the batch.
pub fn suffix_forms(x_outers: &[&[F256]]) -> (forms: Vec<SuffixForm>)
    requires
        forall|i: int|
            0 <= i < x_outers@.len() ==> {
                &&& (#[trigger] x_outers@[i])@.len() >= 2
                &&& pow2((x_outers@[i]@.len() - 2) as nat) <= usize::MAX
            },
    ensures
        forms.len() == x_outers.len(),
        forall|i: int|
            0 <= i < forms@.len() ==> (#[trigger] forms@[i]).chosen_for(x_outers@[i]@.skip(2)),
{
    let mut forms: Vec<SuffixForm> = Vec::new();
    let mut i: usize = 0;
    while i < x_outers.len()
        invariant
            i <= x_outers.len(),
            forms.len() == i,
            forall|i: int|
                0 <= i < x_outers@.len() ==> {
                    &&& (#[trigger] x_outers@[i])@.len() >= 2
                    &&& pow2((x_outers@[i]@.len() - 2) as nat) <= usize::MAX
                },
            forall|k: int|
                0 <= k < i ==> (#[trigger] forms@[k]).chosen_for(x_outers@[k]@.skip(2)),
        decreases x_outers.len() - i,
    {
        let x: &[F256] = x_outers[i];
        let suffix = vstd::slice::slice_subrange(x, 2, x.len());
        proof {
            assert(suffix@ =~= x_outers@[i as int]@.skip(2));
        }
        forms.push(suffix_form(suffix));
        i = i + 1;
    }
    forms
}

/// What the batch requires of its inputs.
pub open spec fn batch_inputs(
    witness: Seq<F256>,
    x_outers: Seq<&[F256]>,
    precomputed: Seq<Option<&[F256]>>,
) -> bool {
    &&& x_outers.len() > 0
    &&& forall|i: int|
        0 <= i < x_outers.len() ==> {
            &&& (#[trigger] x_outers[i])@.len() >= 2
            &&& witness.len() == pow2((x_outers[i]@.len() - 2) as nat)
        }
    &&& precomputed.len() == 0 || precomputed.len() == x_outers.len()
    &&& forall|i: int|
        0 <= i < precomputed.len() ==> ((#[trigger] precomputed[i]) matches Some(p)
            ==> p@.len() == 256)
}

/// The slice values of all claims: precomputed ones are taken over, the others
/// folded from the witness, two split claims in one go. The second phase of the
/// batch.
pub fn batch_slices(
    packed_witness: &[F256],
    x_outers: &[&[F256]],
    precomputed: &[Option<&[F256]>],
    forms: &Vec<SuffixForm>,
    padding: &PaddingSpec,
) -> (s: Vec<Vec<F256>>)
    requires
        batch_inputs(packed_witness@, x_outers@, precomputed@),
        forms@.len() == x_outers@.len(),
        forall|i: int|
            0 <= i < forms@.len() ==> (#[trigger] forms@[i]).chosen_for(x_outers@[i]@.skip(2)),
    ensures
        s@.len() == x_outers@.len(),
        forall|i: int|
            0 <= i < s@.len() ==> (#[trigger] s@[i])@ == claim_slices(
                packed_witness@,
                x_outers@,
                precomputed@,
                i,
            ),
{
    let n: usize = x_outers.len();
    let mut s: Vec<Vec<F256>> = Vec::new();
    let mut needs: Vec<usize> = Vec::new();
    let mut i: usize = 0;
    while i < n
        invariant
            i <= n,
            n == x_outers@.len(),
            s@.len() == i,
            batch_inputs(packed_witness@, x_outers@, precomputed@),
            forms@.len() == n,
            forall|i: int|
                0 <= i < forms@.len() ==> (#[trigger] forms@[i]).chosen_for(x_outers@[i]@.skip(2)),
            forall|k: int|
                0 <= k < i ==> (#[trigger] s@[k])@ == claim_slices(
                    packed_witness@,
                    x_outers@,
                    precomputed@,
                    k,
                ) || needs@.contains(k as usize),
            forall|k: int|
                0 <= k < needs@.len() ==> {
                    &&& #[trigger] needs@[k] < i
                    &&& !(needs@[k] < precomputed@.len()
                        && precomputed@[needs@[k] as int] is Some)
                },
        decreases n - i,
    {
        let given: Option<&[F256]> = if i < precomputed.len() {
            precomputed[i]
        } else {
            None
        };
        let ghost before = needs@;
        let ghost done = s@;
        match given {
            Some(p) => {
                s.push(copy(p));
            },
            None => {
                if let SuffixForm::Sparse(e) = &forms[i] {
                    proof {
                        assert(forms@[i as int].chosen_for(x_outers@[i as int]@.skip(2)));
                        assert(x_outers@[i as int]@.len() >= 2);
                    }
                    s.push(
                        form_slices(
                            packed_witness,
                            &forms[i],
                            padding,
                            Ghost(x_outers@[i as int]@.skip(2)),
                        ),
                    );
                } else {
                    s.push(Vec::new());
                    needs.push(i);
                }
            },
        }
        proof {
            assert forall|k: int| 0 <= k < i + 1 implies (#[trigger] s@[k])@ == claim_slices(
                packed_witness@,
                x_outers@,
                precomputed@,
                k,
            ) || needs@.contains(k as usize) by {
                if k < i {
                    assert(s@[k] == done[k]);
                    if before.contains(k as usize) {
                        let j = choose|j: int| 0 <= j < before.len() && before[j] == k as usize;
                        assert(needs@[j] == k as usize);
                    }
                } else if needs@.len() > before.len() {
                    assert(needs@[before.len() as int] == k as usize);
                }
            }
        }
        i = i + 1;
    }
    if needs.len() == 2 {
        let d0: usize = needs[0];
        let d1: usize = needs[1];
        proof {
            assert(needs@[0] < n && needs@[1] < n);
            assert(forms@[d0 as int].chosen_for(x_outers@[d0 as int]@.skip(2)));
            assert(forms@[d1 as int].chosen_for(x_outers@[d1 as int]@.skip(2)));
            assert(x_outers@[d0 as int]@.len() >= 2);
            assert(x_outers@[d1 as int]@.len() >= 2);
        }
        let (a, b) = form_slices_pair(
            packed_witness,
            &forms[d0],
            &forms[d1],
            padding,
            Ghost((x_outers@[d0 as int]@.skip(2), x_outers@[d1 as int]@.skip(2))),
        );
        let ghost done = s@;
        s.set(d0, a);
        s.set(d1, b);
        proof {
            assert forall|k: int| 0 <= k < n implies (#[trigger] s@[k])@ == claim_slices(
                packed_witness@,
                x_outers@,
                precomputed@,
                k,
            ) by {
                assert(done[k] == done[k]);
                if needs@.contains(k as usize) {
                    let j = choose|j: int| 0 <= j < needs@.len() && needs@[j] == k as usize;
                    assert(j == 0 || j == 1);
                }
            }
        }
    } else {
        let mut j: usize = 0;
        proof {
            assert(needs@.skip(0) =~= needs@);
        }
        while j < needs.len()
            invariant
                j <= needs.len(),
                n == x_outers@.len(),
                s@.len() == n,
                batch_inputs(packed_witness@, x_outers@, precomputed@),
                forms@.len() == n,
                forall|i: int|
                    0 <= i < forms@.len() ==> (#[trigger] forms@[i]).chosen_for(
                        x_outers@[i]@.skip(2),
                    ),
                forall|k: int|
                    0 <= k < n ==> (#[trigger] s@[k])@ == claim_slices(
                        packed_witness@,
                        x_outers@,
                        precomputed@,
                        k,
                    ) || needs@.skip(j as int).contains(k as usize),
                forall|k: int|
                    0 <= k < needs@.len() ==> {
                        &&& #[trigger] needs@[k] < n
                        &&& !(needs@[k] < precomputed@.len()
                            && precomputed@[needs@[k] as int] is Some)
                    },
            decreases needs.len() - j,
        {
            let d: usize = needs[j];
            proof {
                assert(needs@[j as int] < n);
                assert(forms@[d as int].chosen_for(x_outers@[d as int]@.skip(2)));
                assert(x_outers@[d as int]@.len() >= 2);
            }
            let v = form_slices(
                packed_witness,
                &forms[d],
                padding,
                Ghost(x_outers@[d as int]@.skip(2)),
            );
            let ghost done = s@;
            s.set(d, v);
            proof {
                assert forall|k: int| 0 <= k < n implies (#[trigger] s@[k])@ == claim_slices(
                    packed_witness@,
                    x_outers@,
                    precomputed@,
                    k,
                ) || needs@.skip(j + 1).contains(k as usize) by {
                    assert(done[k] == done[k]);
                    let rest = needs@.skip(j as int);
                    if k != d && rest.contains(k as usize) {
                        let m = choose|m: int| 0 <= m < rest.len() && rest[m] == k as usize;
                        assert(m > 0);
                        assert(needs@.skip(j + 1)[m - 1] == k as usize);
                    }
                }
            }
            j = j + 1;
        }
        proof {
            assert forall|k: int| 0 <= k < n implies (#[trigger] s@[k])@ == claim_slices(
                packed_witness@,
                x_outers@,
                precomputed@,
                k,
            ) by {
                assert(needs@.skip(j as int).len() == 0);
            }
        }
    }
    s
}

/// The slice values of claim `i`, as a function of `i`.
pub open spec fn slices_of(
    witness: Seq<F256>,
    x_outers: Seq<&[F256]>,
    precomputed: Seq<Option<&[F256]>>,
) -> spec_fn(int) -> Seq<F256> {
    |i: int| claim_slices(witness, x_outers, precomputed, i)
}

/// What the batch returns for claim `i`.
pub open spec fn claim_result(
    result: (RingSwitchProof, RingSwitchBatchOutput),
    x_outer: Seq<F256>,
    s: Seq<F256>,
    r_dprime: Seq<F256>,
    gamma: F256,
) -> bool {
    &&& result.0.s_hat_v@ == s
    &&& result.1.sumcheck_claim == reduction::sumcheck_target(s, r_dprime)
    &&& result.1.rs_eq_ind.wf()
    &&& result.1.rs_eq_ind.dense() == scaled_seq(gamma, reduction::transparent(x_outer, r_dprime))
    &&& output_form(
        result.1.rs_eq_ind,
        x_outer.skip(2),
        scaled_seq(gamma, univariate_skip::eq_tensor(r_dprime)),
    )
}

/// What the batch returns, and the transcript that it leaves: the claims are
/// reduced one after the other, and then one `γ` is drawn for each.
pub open spec fn batch_result(
    out: (Vec<(RingSwitchProof, RingSwitchBatchOutput)>, Vec<F256>),
    x_outers: Seq<&[F256]>,
    slices: spec_fn(int) -> Seq<F256>,
    answers: spec_fn(Seq<Event>) -> F256,
    t: Seq<Event>,
) -> bool {
    let n = x_outers.len();
    &&& out.0@.len() == n
    &&& out.1@ == challenger::draws(answers, transcript_before(t, slices, n), n)
    &&& forall|i: int|
        0 <= i < n ==> claim_result(
            #[trigger] out.0@[i],
            x_outers[i]@,
            slices(i),
            claim_challenges(answers, t, slices, i),
            out.1@[i],
        )
}

/// The batched prover: the reductions of all claims on one witness, in one pass.
/// The transcript is that of [`prove`](crate::pcs::ring_switch::reduction::prove)
/// on one claim after the other, followed by one `γ` for each claim, and each
/// `rs_eq_ind` has its `γ` multiplied in.
pub fn prove_batched<Ch: Challenger>(
    packed_witness: &[F256],
    x_outers: &[&[F256]],
    challenger: &mut Ch,
) -> (out: (Vec<(RingSwitchProof, RingSwitchBatchOutput)>, Vec<F256>))
    requires
        x_outers@.len() > 0,
        forall|i: int|
            0 <= i < x_outers@.len() ==> {
                &&& (#[trigger] x_outers@[i])@.len() >= 2
                &&& packed_witness@.len() == pow2((x_outers@[i]@.len() - 2) as nat)
            },
    ensures
        ({
            let slices = slices_of(packed_witness@, x_outers@, Seq::empty());
            let t = old(challenger).transcript();
            let n = x_outers@.len();
            &&& batch_result(out, x_outers@, slices, old(challenger).answers(), t)
            &&& final(challenger).transcript() == challenger::after_draws(
                transcript_before(t, slices, n),
                n,
            )
            &&& final(challenger).answers() == old(challenger).answers()
        }),
        ({
            let t = old(challenger).transcript();
            let after = final(challenger).transcript();
            let a = old(challenger).answers();
            let n = x_outers@.len();
            let w = packed_witness@;
            &&& out.0@.len() == n
            &&& out.1@.len() == n
            &&& after.len() == t.len() + 11 * n
            &&& after.take(t.len() as int) == t
            &&& after.subrange(
                (t.len() + 10 * n) as int,
                (t.len() + 11 * n) as int,
            ) == Seq::new(
                n,
                |i: int| Event::Draw,
            )
            &&& forall|k: int|
                0 <= k < n ==> #[trigger] out.1@[k] == a(after.take(t.len() + 10 * n + k))
            &&& forall|k: int|
                0 <= k < n ==> {
                    let s = (#[trigger] out.0@[k]).0.s_hat_v@;
                    let rs = out.0@[k].1.rs_eq_ind.dense();
                    let claim = out.0@[k].1.sumcheck_claim;
                    let at = t.len() + 10 * k;
                    let x = x_outers@[k]@;
                    let r = Seq::new(8, |i: int| a(after.take(at + 2 + i)));
                    &&& after.subrange(at, at + 10) == seq![
                        Event::Label(reduction::label()),
                        Event::Message(s),
                    ] + Seq::new(8, |i: int| Event::Draw)
                    &&& out.0@[k].1.rs_eq_ind.wf()
                    &&& s.len() == 256
                    &&& forall|b: int|
                        0 <= b < 256 ==> #[trigger] s[b] == sums::sum(
                            |i: int|
                                if w[i].bit(b) {
                                    univariate_skip::eq_at(x.skip(2), i)
                                } else {
                                    F256::zero()
                                },
                            w.len(),
                        )
                    &&& claim == sums::sum(
                        |b: int|
                            tensor_algebra::transposed(s)[b].times(univariate_skip::eq_at(r, b)),
                        256,
                    )
                    &&& out.0@[k].1.rs_eq_ind is Sparse <==> sparse::live_among(
                        x.skip(2),
                        (x.len() - 2) as nat,
                    ).len() + 3 <= x.len() - 2
                    &&& out.0@[k].1.rs_eq_ind is DeferredDense <==> !(
                    out.0@[k].1.rs_eq_ind is Sparse) && x.len() >= 6
                    &&& out.0@[k].1.rs_eq_ind matches RsEqInd::DeferredDense {
                        eq_lo,
                        eq_hi,
                        table,
                    } ==> {
                        let h = if (x.len() - 2) / 2 < 4 {
                            4
                        } else {
                            (x.len() - 2) / 2
                        };
                        &&& eq_lo@ == univariate_skip::eq_tensor(x.skip(2).take(h))
                        &&& eq_hi@ == univariate_skip::eq_tensor(x.skip(2).skip(h))
                        &&& table@ == elems::byte_table(
                            Seq::new(
                                256,
                                |b: int| out.1@[k].times(univariate_skip::eq_at(r, b)),
                            ),
                        )
                    }
                    &&& out.0@[k].1.rs_eq_ind matches RsEqInd::Sparse { len, entries } ==> {
                        &&& len == w.len()
                        &&& entries@.len() == pow2(
                            sparse::live_among(x.skip(2), (x.len() - 2) as nat).len(),
                        )
                        &&& forall|i: int, j: int|
                            0 <= i < j < entries@.len() ==> (#[trigger] entries@[i]).0 < (
                            #[trigger] entries@[j]).0
                    }
                    &&& rs.len() == w.len()
                    &&& forall|j: int|
                        0 <= j < w.len() ==> #[trigger] rs[j] == out.1@[k].times(
                            sums::sum(
                                |b: int|
                                    if univariate_skip::eq_at(x.skip(2), j).bit(b) {
                                        univariate_skip::eq_at(r, b)
                                    } else {
                                        F256::zero()
                                    },
                                256,
                            ),
                        )
                    &&& sums::sum(|i: int| w[i].times(rs[i]), w.len()) == out.1@[k].times(
                        claim,
                    )
                }
        }),
{
    let m: usize = LOG_PACKING + (packed_witness.len() as u64).trailing_zeros() as usize;
    prove_batched_padded(packed_witness, x_outers, &PaddingSpec::dense(m), challenger)
}

/// [`prove_batched`] for a zero-padded witness.
pub fn prove_batched_padded<Ch: Challenger>(
    packed_witness: &[F256],
    x_outers: &[&[F256]],
    padding: &PaddingSpec,
    challenger: &mut Ch,
) -> (out: (Vec<(RingSwitchProof, RingSwitchBatchOutput)>, Vec<F256>))
    requires
        x_outers@.len() > 0,
        forall|i: int|
            0 <= i < x_outers@.len() ==> {
                &&& (#[trigger] x_outers@[i])@.len() >= 2
                &&& packed_witness@.len() == pow2((x_outers@[i]@.len() - 2) as nat)
            },
    ensures
        ({
            let slices = slices_of(packed_witness@, x_outers@, Seq::empty());
            let t = old(challenger).transcript();
            let n = x_outers@.len();
            &&& batch_result(out, x_outers@, slices, old(challenger).answers(), t)
            &&& final(challenger).transcript() == challenger::after_draws(
                transcript_before(t, slices, n),
                n,
            )
            &&& final(challenger).answers() == old(challenger).answers()
        }),
        ({
            let t = old(challenger).transcript();
            let after = final(challenger).transcript();
            let a = old(challenger).answers();
            let n = x_outers@.len();
            let w = packed_witness@;
            &&& out.0@.len() == n
            &&& out.1@.len() == n
            &&& after.len() == t.len() + 11 * n
            &&& after.take(t.len() as int) == t
            &&& after.subrange(
                (t.len() + 10 * n) as int,
                (t.len() + 11 * n) as int,
            ) == Seq::new(
                n,
                |i: int| Event::Draw,
            )
            &&& forall|k: int|
                0 <= k < n ==> #[trigger] out.1@[k] == a(after.take(t.len() + 10 * n + k))
            &&& forall|k: int|
                0 <= k < n ==> {
                    let s = (#[trigger] out.0@[k]).0.s_hat_v@;
                    let rs = out.0@[k].1.rs_eq_ind.dense();
                    let claim = out.0@[k].1.sumcheck_claim;
                    let at = t.len() + 10 * k;
                    let x = x_outers@[k]@;
                    let r = Seq::new(8, |i: int| a(after.take(at + 2 + i)));
                    &&& after.subrange(at, at + 10) == seq![
                        Event::Label(reduction::label()),
                        Event::Message(s),
                    ] + Seq::new(8, |i: int| Event::Draw)
                    &&& out.0@[k].1.rs_eq_ind.wf()
                    &&& s.len() == 256
                    &&& forall|b: int|
                        0 <= b < 256 ==> #[trigger] s[b] == sums::sum(
                            |i: int|
                                if w[i].bit(b) {
                                    univariate_skip::eq_at(x.skip(2), i)
                                } else {
                                    F256::zero()
                                },
                            w.len(),
                        )
                    &&& claim == sums::sum(
                        |b: int|
                            tensor_algebra::transposed(s)[b].times(univariate_skip::eq_at(r, b)),
                        256,
                    )
                    &&& out.0@[k].1.rs_eq_ind is Sparse <==> sparse::live_among(
                        x.skip(2),
                        (x.len() - 2) as nat,
                    ).len() + 3 <= x.len() - 2
                    &&& out.0@[k].1.rs_eq_ind is DeferredDense <==> !(
                    out.0@[k].1.rs_eq_ind is Sparse) && x.len() >= 6
                    &&& out.0@[k].1.rs_eq_ind matches RsEqInd::DeferredDense {
                        eq_lo,
                        eq_hi,
                        table,
                    } ==> {
                        let h = if (x.len() - 2) / 2 < 4 {
                            4
                        } else {
                            (x.len() - 2) / 2
                        };
                        &&& eq_lo@ == univariate_skip::eq_tensor(x.skip(2).take(h))
                        &&& eq_hi@ == univariate_skip::eq_tensor(x.skip(2).skip(h))
                        &&& table@ == elems::byte_table(
                            Seq::new(
                                256,
                                |b: int| out.1@[k].times(univariate_skip::eq_at(r, b)),
                            ),
                        )
                    }
                    &&& out.0@[k].1.rs_eq_ind matches RsEqInd::Sparse { len, entries } ==> {
                        &&& len == w.len()
                        &&& entries@.len() == pow2(
                            sparse::live_among(x.skip(2), (x.len() - 2) as nat).len(),
                        )
                        &&& forall|i: int, j: int|
                            0 <= i < j < entries@.len() ==> (#[trigger] entries@[i]).0 < (
                            #[trigger] entries@[j]).0
                    }
                    &&& rs.len() == w.len()
                    &&& forall|j: int|
                        0 <= j < w.len() ==> #[trigger] rs[j] == out.1@[k].times(
                            sums::sum(
                                |b: int|
                                    if univariate_skip::eq_at(x.skip(2), j).bit(b) {
                                        univariate_skip::eq_at(r, b)
                                    } else {
                                        F256::zero()
                                    },
                                256,
                            ),
                        )
                    &&& sums::sum(|i: int| w[i].times(rs[i]), w.len()) == out.1@[k].times(
                        claim,
                    )
                }
        }),
{
    let none: Vec<Option<&[F256]>> = Vec::new();
    proof {
        assert(none@ =~= Seq::empty());
    }
    prove_batched_padded_with_precomputed(
        packed_witness,
        x_outers,
        none.as_slice(),
        padding,
        challenger,
    )
}

/// [`prove_batched_padded`] with optional precomputed slice values: where
/// `precomputed_s_hat_v[i]` is given, claim `i` uses it and skips its fold. The
/// list is empty or has one entry for each claim.
pub fn prove_batched_padded_with_precomputed<Ch: Challenger>(
    packed_witness: &[F256],
    x_outers: &[&[F256]],
    precomputed_s_hat_v: &[Option<&[F256]>],
    padding: &PaddingSpec,
    challenger: &mut Ch,
) -> (out: (Vec<(RingSwitchProof, RingSwitchBatchOutput)>, Vec<F256>))
    requires
        x_outers@.len() > 0,
        forall|i: int|
            0 <= i < x_outers@.len() ==> {
                &&& (#[trigger] x_outers@[i])@.len() >= 2
                &&& packed_witness@.len() == pow2((x_outers@[i]@.len() - 2) as nat)
            },
        precomputed_s_hat_v@.len() == 0 || precomputed_s_hat_v@.len() == x_outers@.len(),
        forall|i: int|
            0 <= i < precomputed_s_hat_v@.len() ==> ((
            #[trigger] precomputed_s_hat_v@[i]) matches Some(p) ==> p@.len() == 256),
    ensures
        ({
            let slices = slices_of(packed_witness@, x_outers@, precomputed_s_hat_v@);
            let t = old(challenger).transcript();
            let n = x_outers@.len();
            &&& batch_result(out, x_outers@, slices, old(challenger).answers(), t)
            &&& final(challenger).transcript() == challenger::after_draws(
                transcript_before(t, slices, n),
                n,
            )
            &&& final(challenger).answers() == old(challenger).answers()
        }),
        ({
            let t = old(challenger).transcript();
            let after = final(challenger).transcript();
            let a = old(challenger).answers();
            let n = x_outers@.len();
            let w = packed_witness@;
            &&& out.0@.len() == n
            &&& out.1@.len() == n
            &&& after.len() == t.len() + 11 * n
            &&& after.take(t.len() as int) == t
            &&& after.subrange(
                (t.len() + 10 * n) as int,
                (t.len() + 11 * n) as int,
            ) == Seq::new(
                n,
                |i: int| Event::Draw,
            )
            &&& forall|k: int|
                0 <= k < n ==> #[trigger] out.1@[k] == a(after.take(t.len() + 10 * n + k))
            &&& forall|k: int|
                0 <= k < n ==> {
                    let s = (#[trigger] out.0@[k]).0.s_hat_v@;
                    let rs = out.0@[k].1.rs_eq_ind.dense();
                    let claim = out.0@[k].1.sumcheck_claim;
                    let at = t.len() + 10 * k;
                    let x = x_outers@[k]@;
                    let r = Seq::new(8, |i: int| a(after.take(at + 2 + i)));
                    let given = if precomputed_s_hat_v@.len() == 0 {
                        None
                    } else {
                        precomputed_s_hat_v@[k]
                    };
                    &&& after.subrange(at, at + 10) == seq![
                        Event::Label(reduction::label()),
                        Event::Message(s),
                    ] + Seq::new(8, |i: int| Event::Draw)
                    &&& out.0@[k].1.rs_eq_ind.wf()
                    &&& s.len() == 256
                    &&& given matches Some(p) ==> s == p@
                    &&& given is None ==> forall|b: int|
                        0 <= b < 256 ==> #[trigger] s[b] == sums::sum(
                            |i: int|
                                if w[i].bit(b) {
                                    univariate_skip::eq_at(x.skip(2), i)
                                } else {
                                    F256::zero()
                                },
                            w.len(),
                        )
                    &&& claim == sums::sum(
                        |b: int|
                            tensor_algebra::transposed(s)[b].times(univariate_skip::eq_at(r, b)),
                        256,
                    )
                    &&& out.0@[k].1.rs_eq_ind is Sparse <==> sparse::live_among(
                        x.skip(2),
                        (x.len() - 2) as nat,
                    ).len() + 3 <= x.len() - 2
                    &&& out.0@[k].1.rs_eq_ind is DeferredDense <==> !(
                    out.0@[k].1.rs_eq_ind is Sparse) && x.len() >= 6
                    &&& out.0@[k].1.rs_eq_ind matches RsEqInd::DeferredDense {
                        eq_lo,
                        eq_hi,
                        table,
                    } ==> {
                        let h = if (x.len() - 2) / 2 < 4 {
                            4
                        } else {
                            (x.len() - 2) / 2
                        };
                        &&& eq_lo@ == univariate_skip::eq_tensor(x.skip(2).take(h))
                        &&& eq_hi@ == univariate_skip::eq_tensor(x.skip(2).skip(h))
                        &&& table@ == elems::byte_table(
                            Seq::new(
                                256,
                                |b: int| out.1@[k].times(univariate_skip::eq_at(r, b)),
                            ),
                        )
                    }
                    &&& out.0@[k].1.rs_eq_ind matches RsEqInd::Sparse { len, entries } ==> {
                        &&& len == w.len()
                        &&& entries@.len() == pow2(
                            sparse::live_among(x.skip(2), (x.len() - 2) as nat).len(),
                        )
                        &&& forall|i: int, j: int|
                            0 <= i < j < entries@.len() ==> (#[trigger] entries@[i]).0 < (
                            #[trigger] entries@[j]).0
                    }
                    &&& rs.len() == w.len()
                    &&& forall|j: int|
                        0 <= j < w.len() ==> #[trigger] rs[j] == out.1@[k].times(
                            sums::sum(
                                |b: int|
                                    if univariate_skip::eq_at(x.skip(2), j).bit(b) {
                                        univariate_skip::eq_at(r, b)
                                    } else {
                                        F256::zero()
                                    },
                                256,
                            ),
                        )
                    &&& given is None ==> sums::sum(|i: int| w[i].times(rs[i]), w.len()) == out.1@[k].times(
                        claim,
                    )
                }
        }),
{
    proof {
        assert(batch_inputs(packed_witness@, x_outers@, precomputed_s_hat_v@));
    }
    let l: usize = packed_witness.len();
    let forms = suffix_forms(x_outers);
    let s = batch_slices(packed_witness, x_outers, precomputed_s_hat_v, &forms, padding);
    let ghost slices = slices_of(packed_witness@, x_outers@, precomputed_s_hat_v@);
    proof {
        assert forall|k: int| 0 <= k < s@.len() implies (#[trigger] s@[k])@ == slices(k)
            && s@[k]@.len() == 256 by {
            lemma_slices_len(packed_witness@, x_outers@, precomputed_s_hat_v@, k);
        }
    }
    let out = reduce_claims(x_outers, &forms, &s, l, challenger, Ghost(slices));
    proof {
        let t = old(challenger).transcript();
        let a = old(challenger).answers();
        let after = challenger.transcript();
        let n = x_outers@.len();
        let w = packed_witness@;
        lemma_batch_steps(t, slices, n, 0);
        assert(out.1@.len() == n);
        assert forall|k: int| 0 <= k < n implies #[trigger] out.1@[k] == a(
            after.take(t.len() + 10 * n + k),
        ) by {
            assert(challenger::after_draws(transcript_before(t, slices, n), k as nat)
                =~= after.take(t.len() + 10 * n + k));
        }
        assert forall|k: int| 0 <= k < n implies batch_entry(
            #[trigger] out.0@[k],
            w,
            x_outers@[k]@,
            slices(k),
            t,
            a,
            after,
            k,
            out.1@[k],
            !(k < precomputed_s_hat_v@.len() && precomputed_s_hat_v@[k] is Some),
        ) by {
            assert(x_outers@[k]@.len() >= 2);
            lemma_slices_len(w, x_outers@, precomputed_s_hat_v@, k);
            lemma_batch_entry(
                out.0@[k],
                w,
                x_outers@[k]@,
                slices,
                t,
                a,
                n,
                k,
                out.1@[k],
                !(k < precomputed_s_hat_v@.len() && precomputed_s_hat_v@[k] is Some),
            );
        }
    }
    out
}

/// What the last phase of the batch requires: a suffix tensor and 256 slice values
/// for every claim, on a witness of `l` elements.
pub open spec fn tail_inputs(
    x_outers: Seq<&[F256]>,
    forms: Seq<SuffixForm>,
    s: Seq<Vec<F256>>,
    l: int,
) -> bool {
    &&& forms.len() == x_outers.len()
    &&& s.len() == x_outers.len()
    &&& forall|k: int|
        0 <= k < x_outers.len() ==> {
            &&& (#[trigger] x_outers[k])@.len() >= 2
            &&& l == pow2((x_outers[k]@.len() - 2) as nat)
        }
    &&& forall|k: int|
        0 <= k < forms.len() ==> (#[trigger] forms[k]).chosen_for(x_outers[k]@.skip(2))
    &&& forall|k: int| 0 <= k < s.len() ==> (#[trigger] s[k])@.len() == 256
}

/// The last phase of the batch, for given slice values: one reduction after the
/// other on the transcript, one `γ` for each claim, and the outputs.
pub fn batch_tail<Ch: Challenger>(
    x_outers: &[&[F256]],
    forms: &Vec<SuffixForm>,
    s: &Vec<Vec<F256>>,
    l: usize,
    challenger: &mut Ch,
) -> (out: (Vec<(RingSwitchProof, RingSwitchBatchOutput)>, Vec<F256>))
    requires
        tail_inputs(x_outers@, forms@, s@, l as int),
    ensures
        ({
            let slices = |k: int| s@[k]@;
            let t = old(challenger).transcript();
            let n = x_outers@.len();
            &&& batch_result(out, x_outers@, slices, old(challenger).answers(), t)
            &&& final(challenger).transcript() == challenger::after_draws(
                transcript_before(t, slices, n),
                n,
            )
            &&& final(challenger).answers() == old(challenger).answers()
        }),
{
    reduce_claims(x_outers, forms, s, l, challenger, Ghost(|k: int| s@[k]@))
}

/// The reductions of all claims, with the slice values as a function of the claim.
fn reduce_claims<Ch: Challenger>(
    x_outers: &[&[F256]],
    forms: &Vec<SuffixForm>,
    s: &Vec<Vec<F256>>,
    l: usize,
    challenger: &mut Ch,
    Ghost(slices): Ghost<spec_fn(int) -> Seq<F256>>,
) -> (out: (Vec<(RingSwitchProof, RingSwitchBatchOutput)>, Vec<F256>))
    requires
        tail_inputs(x_outers@, forms@, s@, l as int),
        forall|k: int| 0 <= k < s@.len() ==> (#[trigger] s@[k])@ == slices(k),
    ensures
        ({
            let t = old(challenger).transcript();
            let n = x_outers@.len();
            &&& batch_result(out, x_outers@, slices, old(challenger).answers(), t)
            &&& final(challenger).transcript() == challenger::after_draws(
                transcript_before(t, slices, n),
                n,
            )
            &&& final(challenger).answers() == old(challenger).answers()
        }),
{
    let n: usize = x_outers.len();
    let ghost answers = challenger.answers();
    let ghost t = challenger.transcript();
    // One reduction after the other on the transcript.
    let mut eqs: Vec<Vec<F256>> = Vec::new();
    let mut targets: Vec<F256> = Vec::new();
    let mut i: usize = 0;
    while i < n
        invariant
            i <= n,
            n == x_outers@.len(),
            tail_inputs(x_outers@, forms@, s@, l as int),
            forall|k: int| 0 <= k < n ==> (#[trigger] s@[k])@ == slices(k),
            challenger.answers() == answers,
            challenger.transcript() == transcript_before(t, slices, i as nat),
            eqs@.len() == i,
            targets@.len() == i,
            forall|k: int|
                0 <= k < i ==> (#[trigger] eqs@[k])@ == univariate_skip::eq_tensor(
                    claim_challenges(answers, t, slices, k),
                ),
            forall|k: int|
                0 <= k < i ==> #[trigger] targets@[k] == reduction::sumcheck_target(
                    slices(k),
                    claim_challenges(answers, t, slices, k),
                ),
        decreases n - i,
    {
        proof {
            assert(s@[i as int]@ == slices(i as int));
        }
        let drawn = reduce_slices(s[i].as_slice(), challenger);
        targets.push(drawn.sumcheck_claim);
        eqs.push(drawn.eq_r_dprime);
        i = i + 1;
    }
    // One γ for each claim, drawn after all observations and multiplied into the
    // equality weights.
    let gammas_rs = sample_f256_vec(challenger, n);
    let mut results: Vec<(RingSwitchProof, RingSwitchBatchOutput)> = Vec::new();
    let mut j: usize = 0;
    while j < n
        invariant
            j <= n,
            n == x_outers@.len(),
            tail_inputs(x_outers@, forms@, s@, l as int),
            eqs@.len() == n,
            targets@.len() == n,
            gammas_rs@.len() == n,
            forall|k: int| 0 <= k < n ==> (#[trigger] s@[k])@ == slices(k),
            forall|k: int|
                0 <= k < n ==> (#[trigger] eqs@[k])@ == univariate_skip::eq_tensor(
                    claim_challenges(answers, t, slices, k),
                ),
            forall|k: int|
                0 <= k < n ==> #[trigger] targets@[k] == reduction::sumcheck_target(
                    slices(k),
                    claim_challenges(answers, t, slices, k),
                ),
            results@.len() == j,
            forall|k: int|
                0 <= k < j ==> claim_result(
                    #[trigger] results@[k],
                    x_outers@[k]@,
                    slices(k),
                    claim_challenges(answers, t, slices, k),
                    gammas_rs@[k],
                ),
        decreases n - j,
    {
        proof {
            lemma2_to64();
            assert(forms@[j as int].chosen_for(x_outers@[j as int]@.skip(2)));
            assert(x_outers@[j as int]@.len() >= 2);
            assert(eqs@[j as int]@ == univariate_skip::eq_tensor(
                claim_challenges(answers, t, slices, j as int),
            ));
        }
        let rs_eq_ind = form_rs_eq_ind(
            &forms[j],
            l,
            gammas_rs[j],
            eqs[j].as_slice(),
            Ghost(x_outers@[j as int]@.skip(2)),
        );
        let message = RingSwitchProof { s_hat_v: copy(s[j].as_slice()) };
        results.push((message, RingSwitchBatchOutput { rs_eq_ind, sumcheck_claim: targets[j] }));
        j = j + 1;
    }
    (results, gammas_rs)
}

/// Every claim has 256 slice values.
proof fn lemma_slices_len(
    witness: Seq<F256>,
    x_outers: Seq<&[F256]>,
    precomputed: Seq<Option<&[F256]>>,
    i: int,
)
    requires
        batch_inputs(witness, x_outers, precomputed),
        0 <= i < x_outers.len(),
    ensures
        claim_slices(witness, x_outers, precomputed, i).len() == 256,
{
    if i < precomputed.len() && precomputed[i] is Some {
        assert(precomputed[i]->Some_0@.len() == 256);
    }
}

/// Precomputed slice values that are those of the witness change nothing.
pub proof fn lemma_honest_precomputed(
    witness: Seq<F256>,
    x_outers: Seq<&[F256]>,
    precomputed: Seq<Option<&[F256]>>,
    t: Seq<Event>,
    n: nat,
)
    requires
        n <= x_outers.len(),
        forall|i: int|
            0 <= i < precomputed.len() ==> ((#[trigger] precomputed[i]) matches Some(p)
                ==> p@ == reduction::slices(witness, x_outers[i]@)),
    ensures
        forall|i: int|
            0 <= i < x_outers.len() ==> #[trigger] slices_of(witness, x_outers, precomputed)(i)
                == slices_of(witness, x_outers, Seq::empty())(i),
        transcript_before(t, slices_of(witness, x_outers, precomputed), n) == transcript_before(
            t,
            slices_of(witness, x_outers, Seq::empty()),
            n,
        ),
    decreases n,
{
    let (a, b) = (
        slices_of(witness, x_outers, precomputed),
        slices_of(witness, x_outers, Seq::empty()),
    );
    assert forall|i: int| 0 <= i < x_outers.len() implies #[trigger] a(i) == b(i) by {
        if i < precomputed.len() && precomputed[i] is Some {
            assert(precomputed[i]->Some_0@ == reduction::slices(witness, x_outers[i]@));
        }
    }
    if n > 0 {
        lemma_honest_precomputed(witness, x_outers, precomputed, t, (n - 1) as nat);
        assert(a(n - 1) == b(n - 1));
    }
}

/// Without precomputed values the batch is the sequence of single reductions:
/// claim `i` draws the challenges that a single reduction of its slice values
/// draws there, and leaves the transcript that one leaves.
pub proof fn lemma_batch_is_sequence(
    witness: Seq<F256>,
    x_outers: Seq<&[F256]>,
    answers: spec_fn(Seq<Event>) -> F256,
    t: Seq<Event>,
    i: nat,
)
    requires
        i < x_outers.len(),
    ensures
        ({
            let slices = slices_of(witness, x_outers, Seq::empty());
            let before = transcript_before(t, slices, i);
            let s = reduction::slices(witness, x_outers[i as int]@);
            &&& transcript_before(t, slices, 0) == t
            &&& transcript_before(t, slices, i + 1) == reduction::reduced(before, s)
            &&& claim_challenges(answers, t, slices, i as int) == reduction::row_challenges(
                answers,
                before,
                s,
            )
        }),
{
}

/// The identity behind the batch: the witness against a claim's `rs_eq_ind` is `γ`
/// times its sumcheck target.
pub proof fn lemma_batch_identity(
    witness: Seq<F256>,
    x_outer: Seq<F256>,
    r_dprime: Seq<F256>,
    gamma: F256,
)
    requires
        x_outer.len() >= 2,
        witness.len() == pow2((x_outer.len() - 2) as nat),
    ensures
        sums::dot(witness, scaled_seq(gamma, reduction::transparent(x_outer, r_dprime)))
            == gamma.times(
            reduction::sumcheck_target(reduction::slices(witness, x_outer), r_dprime),
        ),
{
    let b = reduction::transparent(x_outer, r_dprime);
    let gb = scaled_seq(gamma, b);
    reduction::lemma_dp24_identity(witness, x_outer, r_dprime);
    let f = |i: int| witness[i].times(b[i]);
    let g = |i: int| witness[i].times(gb[i]);
    sums::lemma_sum_scale(gamma, f, witness.len());
    let h = |i: int| gamma.times(f(i));
    assert forall|i: int| 0 <= i < witness.len() implies #[trigger] g(i) == h(i) by {
        witness[i].lemma_times_associates(gamma, b[i]);
        witness[i].lemma_times_commutes(gamma);
        gamma.lemma_times_associates(witness[i], b[i]);
    }
    sums::lemma_sum_ext(g, h, witness.len());
}

// ---------------------------------------------------------------------------
// The batch, step by step.
// ---------------------------------------------------------------------------

/// The transcript grows by ten steps with each claim.
proof fn lemma_before_prefix(t: Seq<Event>, slices: spec_fn(int) -> Seq<F256>, k: nat, n: nat)
    requires
        k <= n,
    ensures
        transcript_before(t, slices, n).len() == t.len() + 10 * n,
        transcript_before(t, slices, n).take((t.len() + 10 * k) as int) == transcript_before(t, slices, k),
    decreases n,
{
    let full = transcript_before(t, slices, n);
    if n == 0 {
        assert(full.take(t.len() as int) =~= t);
    } else {
        let m = (n - 1) as nat;
        let short = transcript_before(t, slices, m);
        if k == n {
            lemma_before_prefix(t, slices, m, m);
            assert(full.take((t.len() + 10 * k) as int) =~= full);
        } else {
            lemma_before_prefix(t, slices, k, m);
            assert(full.take((t.len() + 10 * k) as int) =~= short.take((t.len() + 10 * k) as int));
        }
    }
}

/// The steps of claim `k` within the transcript that the batch leaves.
proof fn lemma_batch_steps(t: Seq<Event>, slices: spec_fn(int) -> Seq<F256>, n: nat, k: int)
    requires
        n > 0,
        0 <= k < n,
    ensures
        ({
            let after = challenger::after_draws(transcript_before(t, slices, n), n);
            let before = transcript_before(t, slices, k as nat);
            let at = t.len() + 10 * k;
            &&& after.len() == t.len() + 11 * n
            &&& after.take(t.len() as int) == t
            &&& after.take((t.len() + 10 * n) as int) == transcript_before(t, slices, n)
            &&& after.subrange(
                (t.len() + 10 * n) as int,
                (t.len() + 11 * n) as int,
            ) == Seq::new(
                n,
                |i: int| Event::Draw,
            )
            &&& after.subrange(at, at + 10) == seq![
                Event::Label(reduction::label()),
                Event::Message(slices(k)),
            ] + Seq::new(8, |i: int| Event::Draw)
            &&& forall|i: int|
                0 <= i < 8 ==> #[trigger] after.take(at + 2 + i) == challenger::after_draws(
                    reduction::observed(before, slices(k)),
                    i as nat,
                )
        }),
{
    let full = transcript_before(t, slices, n);
    let after = challenger::after_draws(full, n);
    let before = transcript_before(t, slices, k as nat);
    let next = transcript_before(t, slices, (k + 1) as nat);
    let at = t.len() + 10 * k;
    lemma_before_prefix(t, slices, 0, n);
    lemma_before_prefix(t, slices, (k + 1) as nat, n);
    lemma_before_prefix(t, slices, k as nat, (k + 1) as nat);
    assert(full.take(t.len() as int) =~= t);
    assert(after.take(t.len() as int) =~= full.take(t.len() as int));
    assert(after.take((t.len() + 10 * n) as int) =~= full);
    assert(after.subrange(
                (t.len() + 10 * n) as int,
                (t.len() + 11 * n) as int,
            ) =~= Seq::new(
        n,
        |i: int| Event::Draw,
    ));
    assert(after.take(at + 10) =~= full.take(at + 10));
    assert(after.take(at + 10) == next);
    assert forall|i: int| at <= i < at + 10 implies after[i] == next[i] by {
        assert(after.take(at + 10)[i] == after[i]);
    }
    let steps = seq![Event::Label(reduction::label()), Event::Message(slices(k))] + Seq::new(
        8,
        |i: int| Event::Draw,
    );
    assert(before.len() == at) by {
        lemma_before_prefix(t, slices, k as nat, k as nat);
    }
    assert forall|i: int| 0 <= i < 10 implies after.subrange(at, at + 10)[i] == steps[i] by {
        assert(after[at + i] == next[at + i]);
    }
    assert(after.subrange(at, at + 10) =~= steps);
    assert forall|i: int| 0 <= i < 8 implies #[trigger] after.take(at + 2 + i)
        == challenger::after_draws(reduction::observed(before, slices(k)), i as nat) by {
        let d = challenger::after_draws(reduction::observed(before, slices(k)), i as nat);
        assert(after.take(at + 2 + i) =~= next.take(at + 2 + i)) by {
            assert forall|j: int| 0 <= j < at + 2 + i implies after[j] == next[j] by {
                assert(after.take(at + 10)[j] == after[j]);
            }
        }
        assert(next.take(at + 2 + i) =~= d);
    }
}

/// What the batch returns for claim `k`, on the transcript that it leaves: the
/// slices that it sent, the target for the challenges drawn after them, and a vector
/// with `gamma` multiplied in; `folded` where the slices are those of the witness.
spec fn batch_entry(
    result: (RingSwitchProof, RingSwitchBatchOutput),
    w: Seq<F256>,
    x: Seq<F256>,
    sent: Seq<F256>,
    t: Seq<Event>,
    a: spec_fn(Seq<Event>) -> F256,
    after: Seq<Event>,
    k: int,
    gamma: F256,
    folded: bool,
) -> bool {
    let s = result.0.s_hat_v@;
    let rs = result.1.rs_eq_ind.dense();
    let claim = result.1.sumcheck_claim;
    let at = t.len() + 10 * k;
    let r = Seq::new(8, |i: int| a(after.take(at + 2 + i)));
    &&& after.subrange(at, at + 10) == seq![
        Event::Label(reduction::label()),
        Event::Message(s),
    ] + Seq::new(8, |i: int| Event::Draw)
    &&& s == sent
    &&& result.1.rs_eq_ind.wf()
    &&& s.len() == 256
    &&& folded ==> forall|b: int|
        0 <= b < 256 ==> #[trigger] s[b] == sums::sum(
            |i: int|
                if w[i].bit(b) {
                    univariate_skip::eq_at(x.skip(2), i)
                } else {
                    F256::zero()
                },
            w.len(),
        )
    &&& claim == sums::sum(
        |b: int| tensor_algebra::transposed(s)[b].times(univariate_skip::eq_at(r, b)),
        256,
    )
    &&& result.1.rs_eq_ind is Sparse <==> sparse::live_among(
        x.skip(2),
        (x.len() - 2) as nat,
    ).len() + 3 <= x.len() - 2
    &&& result.1.rs_eq_ind is DeferredDense <==> !(result.1.rs_eq_ind is Sparse) && x.len() >= 6
    &&& result.1.rs_eq_ind matches RsEqInd::DeferredDense { eq_lo, eq_hi, table } ==> {
        let h = if (x.len() - 2) / 2 < 4 {
            4
        } else {
            (x.len() - 2) / 2
        };
        &&& eq_lo@ == univariate_skip::eq_tensor(x.skip(2).take(h))
        &&& eq_hi@ == univariate_skip::eq_tensor(x.skip(2).skip(h))
        &&& table@ == elems::byte_table(
            Seq::new(256, |b: int| gamma.times(univariate_skip::eq_at(r, b))),
        )
    }
    &&& result.1.rs_eq_ind matches RsEqInd::Sparse { len, entries } ==> {
        &&& len == w.len()
        &&& entries@.len() == pow2(sparse::live_among(x.skip(2), (x.len() - 2) as nat).len())
        &&& forall|i: int, j: int|
            0 <= i < j < entries@.len() ==> (#[trigger] entries@[i]).0 < (#[trigger] entries@[j]).0
    }
    &&& rs.len() == w.len()
    &&& forall|j: int|
        0 <= j < w.len() ==> #[trigger] rs[j] == gamma.times(
            sums::sum(
                |b: int|
                    if univariate_skip::eq_at(x.skip(2), j).bit(b) {
                        univariate_skip::eq_at(r, b)
                    } else {
                        F256::zero()
                    },
                256,
            ),
        )
    &&& folded ==> sums::sum(|i: int| w[i].times(rs[i]), w.len()) == gamma.times(claim)
}

proof fn lemma_batch_entry(
    result: (RingSwitchProof, RingSwitchBatchOutput),
    w: Seq<F256>,
    x: Seq<F256>,
    slices: spec_fn(int) -> Seq<F256>,
    t: Seq<Event>,
    a: spec_fn(Seq<Event>) -> F256,
    n: nat,
    k: int,
    gamma: F256,
    folded: bool,
)
    requires
        0 <= k < n,
        x.len() >= 2,
        w.len() == pow2((x.len() - 2) as nat),
        slices(k).len() == 256,
        folded ==> slices(k) == reduction::slices(w, x),
        claim_result(result, x, slices(k), claim_challenges(a, t, slices, k), gamma),
    ensures
        batch_entry(
            result,
            w,
            x,
            slices(k),
            t,
            a,
            challenger::after_draws(transcript_before(t, slices, n), n),
            k,
            gamma,
            folded,
        ),
{
    let after = challenger::after_draws(transcript_before(t, slices, n), n);
    let at = t.len() + 10 * k;
    let r = Seq::new(8, |i: int| a(after.take(at + 2 + i)));
    let c = claim_challenges(a, t, slices, k);
    let s = result.0.s_hat_v@;
    let rs = result.1.rs_eq_ind.dense();
    lemma_batch_steps(t, slices, n, k);
    lemma_zeros_and_live(x.skip(2), (x.len() - 2) as nat);
    lemma2_to64();
    assert(scaled_seq(gamma, univariate_skip::eq_tensor(c)) =~= Seq::new(
        256,
        |b: int| gamma.times(univariate_skip::eq_at(c, b)),
    ));
    assert forall|i: int| 0 <= i < 8 implies r[i] == c[i] by {
        assert(after.take(at + 2 + i) == challenger::after_draws(
            reduction::observed(transcript_before(t, slices, k as nat), slices(k)),
            i as nat,
        ));
    }
    assert(r =~= c);
    reduction::lemma_reduction_values(s, x, r);
    assert forall|j: int| 0 <= j < w.len() implies #[trigger] rs[j] == gamma.times(
        sums::sum(
            |b: int|
                if univariate_skip::eq_at(x.skip(2), j).bit(b) {
                    univariate_skip::eq_at(r, b)
                } else {
                    F256::zero()
                },
            256,
        ),
    ) by {
        assert(rs[j] == gamma.times(reduction::transparent(x, r)[j]));
    }
    if folded {
        lemma_batch_identity(w, x, r, gamma);
        assert forall|b: int| 0 <= b < 256 implies #[trigger] s[b] == sums::sum(
            |i: int|
                if w[i].bit(b) {
                    univariate_skip::eq_at(x.skip(2), i)
                } else {
                    F256::zero()
                },
            w.len(),
        ) by {
            reduction::lemma_slice_values(w, x, b);
        }
    }
}

/// Every coordinate is zero or live.
pub proof fn lemma_zeros_and_live(coords: Seq<F256>, n: nat)
    requires
        n <= coords.len(),
    ensures
        zero_count(coords, n) + sparse::live_among(coords, n).len() == n,
    decreases n,
{
    if n > 0 {
        lemma_zeros_and_live(coords, (n - 1) as nat);
    }
}

} // verus!
