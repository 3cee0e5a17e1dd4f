//! Prover and verifier of the reduction, for one claim.

use crate::challenger;
use crate::challenger::{sample_f256_vec, Challenger, Event};
use crate::field::bits;
use crate::field::gf2_256::F256;
use crate::field::sums;
use crate::pcs::pack;
use crate::pcs::pack::LOG_PACKING;
use crate::pcs::ring_switch::claim;
use crate::pcs::ring_switch::claim::{
    build_claim_weights, claim_check, inner_product, tensor_algebra_transpose,
};
use crate::pcs::ring_switch::elems;
use crate::pcs::ring_switch::elems::fold_b128_elems;
use crate::pcs::ring_switch::eq::build_eq_parallel;
use crate::pcs::ring_switch::fold;
use crate::pcs::ring_switch::rows::fold_1b_rows_naive;
use crate::pcs::tensor_algebra;
use crate::zerocheck::multilinear;
use crate::zerocheck::univariate_skip;
use crate::zerocheck::univariate_skip::build_eq;
use vstd::arithmetic::power2::{lemma2_to64, pow2};
use vstd::prelude::*;

verus! {

/// The prover's message: the 256 slice values at the suffix point.
#[derive(Clone, Debug, PartialEq, Eq)]
pub struct RingSwitchProof {
    pub s_hat_v: Vec<F256>,
}

/// What both sides compute: the transparent multilinear and the sumcheck target.
#[derive(Clone, Debug)]
pub struct RingSwitchOutput {
    pub rs_eq_ind: Vec<F256>,
    pub sumcheck_claim: F256,
}

/// What the verifier needs when it does not materialize `rs_eq_ind`.
#[derive(Clone, Debug)]
pub struct RingSwitchVerifierOutput {
    pub sumcheck_claim: F256,
    /// The equality tensor of the row-batching challenges.
    pub eq_r_dprime: Vec<F256>,
}

/// Why the verifier refuses.
#[derive(Clone, Copy, Debug, PartialEq, Eq, Structural)]
pub enum VerifyError {
    /// The slice values do not add up to the claim.
    ClaimMismatch,
}

/// The domain-separation label, `flock-ring-switch-v0`.
pub open spec fn label() -> Seq<u8> {
    seq![
        0x66u8, 0x6c, 0x6f, 0x63, 0x6b, 0x2d, 0x72, 0x69, 0x6e, 0x67, 0x2d, 0x73, 0x77, 0x69,
        0x74, 0x63, 0x68, 0x2d, 0x76, 0x30,
    ]
}

/// The transcript once the prover's message has been observed.
pub open spec fn observed(t: Seq<Event>, s_hat_v: Seq<F256>) -> Seq<Event> {
    t.push(Event::Label(label())).push(Event::Message(s_hat_v))
}

/// The row-batching challenges `r''`.
pub open spec fn row_challenges(
    answers: spec_fn(Seq<Event>) -> F256,
    t: Seq<Event>,
    s_hat_v: Seq<F256>,
) -> Seq<F256> {
    challenger::draws(answers, observed(t, s_hat_v), 8)
}

/// The transcript after one reduction.
pub open spec fn reduced(t: Seq<Event>, s_hat_v: Seq<F256>) -> Seq<Event> {
    challenger::after_draws(observed(t, s_hat_v), 8)
}

/// The sumcheck target: the transposed slice values against `eq(r'')`.
pub open spec fn sumcheck_target(s_hat_v: Seq<F256>, r_dprime: Seq<F256>) -> F256 {
    sums::dot(tensor_algebra::transposed(s_hat_v), univariate_skip::eq_tensor(r_dprime))
}

/// The slice values of a witness at the suffix point of `x_outer`.
pub open spec fn slices(witness: Seq<F256>, x_outer: Seq<F256>) -> Seq<F256> {
    fold::slice_fold(witness, univariate_skip::eq_tensor(x_outer.skip(2)))
}

/// The transparent multilinear: the suffix tensor, bit by bit against `eq(r'')`.
pub open spec fn transparent(x_outer: Seq<F256>, r_dprime: Seq<F256>) -> Seq<F256> {
    elems::elems_fold(
        univariate_skip::eq_tensor(x_outer.skip(2)),
        univariate_skip::eq_tensor(r_dprime),
    )
}

/// The slice values are the ones that the claim asks for.
pub open spec fn claim_holds(claim: F256, z_skip: F256, x_outer: Seq<F256>, s: Seq<F256>) -> bool {
    sums::dot(claim::claim_weights(z_skip, x_outer[0], x_outer[1]), s) == claim
}

/// Binds the label and the slice values into the transcript.
pub(crate) fn observe_slices<Ch: Challenger>(challenger: &mut Ch, s_hat_v: &[F256])
    ensures
        final(challenger).transcript() == observed(old(challenger).transcript(), s_hat_v@),
        final(challenger).answers() == old(challenger).answers(),
{
    let name: [u8; 20] = [
        0x66, 0x6c, 0x6f, 0x63, 0x6b, 0x2d, 0x72, 0x69, 0x6e, 0x67, 0x2d, 0x73, 0x77, 0x69, 0x74,
        0x63, 0x68, 0x2d, 0x76, 0x30,
    ];
    proof {
        assert(name@ =~= label());
    }
    challenger.observe_label(name.as_slice());
    challenger.observe_f256_slice(s_hat_v);
}

/// The sumcheck target for given slice values and equality weights.
pub fn sumcheck_claim(s_hat_v: &[F256], eq_r_dprime: &[F256]) -> (r: F256)
    requires
        s_hat_v.len() == 256,
        eq_r_dprime.len() == 256,
    ensures
        r == sums::dot(tensor_algebra::transposed(s_hat_v@), eq_r_dprime@),
{
    let s_hat_u = tensor_algebra_transpose(s_hat_v);
    inner_product(s_hat_u.as_slice(), eq_r_dprime)
}

/// Sends the slice values, draws the row-batching challenges, and computes their
/// equality tensor and the sumcheck target.
pub fn reduce_slices<Ch: Challenger>(s_hat_v: &[F256], challenger: &mut Ch) -> (out:
    RingSwitchVerifierOutput)
    requires
        s_hat_v.len() == 256,
    ensures
        ({
            let t = old(challenger).transcript();
            let r = row_challenges(old(challenger).answers(), t, s_hat_v@);
            &&& out.eq_r_dprime@ == univariate_skip::eq_tensor(r)
            &&& out.sumcheck_claim == sumcheck_target(s_hat_v@, r)
            &&& final(challenger).transcript() == reduced(t, s_hat_v@)
            &&& final(challenger).answers() == old(challenger).answers()
        }),
        ({
            let t = old(challenger).transcript();
            let a = old(challenger).answers();
            let sent = t.push(Event::Label(label())).push(Event::Message(s_hat_v@));
            let r = Seq::new(8, |i: int| a(sent + Seq::new(i as nat, |k: int| Event::Draw)));
            &&& final(challenger).transcript() == sent + Seq::new(8, |k: int| Event::Draw)
            &&& out.eq_r_dprime@.len() == 256
            &&& forall|b: int|
                0 <= b < 256 ==> #[trigger] out.eq_r_dprime@[b] == univariate_skip::eq_at(r, b)
            &&& out.sumcheck_claim == sums::sum(
                |b: int|
                    tensor_algebra::transposed(s_hat_v@)[b].times(univariate_skip::eq_at(r, b)),
                256,
            )
        }),
{
    observe_slices(challenger, s_hat_v);
    let r_dprime = sample_f256_vec(challenger, LOG_PACKING);
    proof {
        lemma2_to64();
    }
    let eq_r_dprime = build_eq(r_dprime.as_slice());
    let target = sumcheck_claim(s_hat_v, eq_r_dprime.as_slice());
    proof {
        lemma_reduction_steps(
            old(challenger).answers(),
            old(challenger).transcript(),
            s_hat_v@,
        );
        lemma_reduction_values(s_hat_v@, seq![F256::zero(), F256::zero()], r_dprime@);
    }
    RingSwitchVerifierOutput { sumcheck_claim: target, eq_r_dprime }
}

/// The output of the reduction for given slice values, suffix tensor and
/// row-batching challenges.
pub fn reduction_output(
    s_hat_v: &[F256],
    suffix_tensor: &[F256],
    r_dprime: &[F256],
) -> (out: RingSwitchOutput)
    requires
        s_hat_v.len() == 256,
        r_dprime.len() == 8,
    ensures
        out.sumcheck_claim == sumcheck_target(s_hat_v@, r_dprime@),
        out.rs_eq_ind@ == elems::elems_fold(
            suffix_tensor@,
            univariate_skip::eq_tensor(r_dprime@),
        ),
{
    proof {
        lemma2_to64();
    }
    let eq_r_dprime = build_eq(r_dprime);
    let target = sumcheck_claim(s_hat_v, eq_r_dprime.as_slice());
    let rs_eq_ind = fold_b128_elems(suffix_tensor, eq_r_dprime.as_slice());
    RingSwitchOutput { rs_eq_ind, sumcheck_claim: target }
}

/// The prover's side.
///
/// `packed_witness` has `2^(m-8)` elements and `x_outer` the `m - 6` coordinates
/// of the opening point past the skip; the first two weight the top two prefix
/// bits, the others are the suffix point. The slice values are sent, the
/// row-batching challenges `r''` drawn, and the sumcheck inputs computed.
pub fn prove<Ch: Challenger>(
    packed_witness: &[F256],
    x_outer: &[F256],
    challenger: &mut Ch,
) -> (out: (RingSwitchProof, RingSwitchOutput))
    requires
        x_outer.len() >= 2,
        packed_witness@.len() == pow2((x_outer@.len() - 2) as nat),
    ensures
        ({
            let (proof_, output) = out;
            let t = old(challenger).transcript();
            let s = slices(packed_witness@, x_outer@);
            let r = row_challenges(old(challenger).answers(), t, s);
            &&& proof_.s_hat_v@ == s
            &&& output.rs_eq_ind@ == transparent(x_outer@, r)
            &&& output.sumcheck_claim == sumcheck_target(s, r)
            &&& final(challenger).transcript() == reduced(t, s)
            &&& final(challenger).answers() == old(challenger).answers()
        }),
        ({
            let s = out.0.s_hat_v@;
            let rs = out.1.rs_eq_ind@;
            let t = old(challenger).transcript();
            let a = old(challenger).answers();
            let sent = t.push(Event::Label(label())).push(Event::Message(s));
            let r = Seq::new(8, |i: int| a(sent + Seq::new(i as nat, |k: int| Event::Draw)));
            &&& final(challenger).transcript() == sent + Seq::new(8, |k: int| Event::Draw)
            &&& s.len() == 256
            &&& forall|k: int|
                0 <= k < 256 ==> #[trigger] s[k] == sums::sum(
                    |i: int|
                        if packed_witness@[i].bit(k) {
                            univariate_skip::eq_at(x_outer@.skip(2), i)
                        } else {
                            F256::zero()
                        },
                    packed_witness@.len(),
                )
            &&& rs.len() == packed_witness@.len()
            &&& forall|j: int|
                0 <= j < rs.len() ==> #[trigger] rs[j] == sums::sum(
                    |b: int|
                        if univariate_skip::eq_at(x_outer@.skip(2), j).bit(b) {
                            univariate_skip::eq_at(r, b)
                        } else {
                            F256::zero()
                        },
                    256,
                )
            &&& out.1.sumcheck_claim == sums::sum(
                |b: int|
                    tensor_algebra::transposed(s)[b].times(univariate_skip::eq_at(r, b)),
                256,
            )
            &&& sums::sum(|i: int| packed_witness@[i].times(rs[i]), packed_witness@.len())
                == out.1.sumcheck_claim
        }),
{
    let l: usize = packed_witness.len();
    let suffix = vstd::slice::slice_subrange(x_outer, 2, x_outer.len());
    proof {
        assert(suffix@ =~= x_outer@.skip(2));
        assert(l == pow2(suffix@.len()));
    }
    let suffix_tensor = build_eq_parallel(suffix);
    let s_hat_v = fold_1b_rows_naive(packed_witness, suffix_tensor.as_slice());
    let drawn = reduce_slices(s_hat_v.as_slice(), challenger);
    proof {
        lemma2_to64();
    }
    let rs_eq_ind = fold_b128_elems(suffix_tensor.as_slice(), drawn.eq_r_dprime.as_slice());
    let output = RingSwitchOutput { rs_eq_ind, sumcheck_claim: drawn.sumcheck_claim };
    proof {
        let (a, t) = (old(challenger).answers(), old(challenger).transcript());
        let r = row_challenges(a, t, s_hat_v@);
        lemma_reduction_steps(a, t, s_hat_v@);
        lemma_reduction_values(s_hat_v@, x_outer@, r);
        lemma_dp24_identity(packed_witness@, x_outer@, r);
        assert forall|k: int| 0 <= k < 256 implies #[trigger] s_hat_v@[k] == sums::sum(
            |i: int|
                if packed_witness@[i].bit(k) {
                    univariate_skip::eq_at(x_outer@.skip(2), i)
                } else {
                    F256::zero()
                },
            packed_witness@.len(),
        ) by {
            lemma_slice_values(packed_witness@, x_outer@, k);
        }
    }
    (RingSwitchProof { s_hat_v }, output)
}

/// Whether the slice values add up to the claim under the claim weights.
pub fn check_claim(claim: F256, z_skip: F256, x_outer: &[F256], s_hat_v: &[F256]) -> (ok: bool)
    requires
        x_outer.len() >= 2,
        s_hat_v.len() == 256,
    ensures
        ok == claim_holds(claim, z_skip, x_outer@, s_hat_v@),
{
    let weights = build_claim_weights(z_skip, x_outer[0], x_outer[1]);
    claim_check(weights.as_slice(), s_hat_v) == claim
}

/// The verifier's side: the sumcheck inputs, or `ClaimMismatch` if the slice
/// values do not add up to the claim.
pub fn verify<Ch: Challenger>(
    claim: F256,
    z_skip: F256,
    x_outer: &[F256],
    proof_: &RingSwitchProof,
    challenger: &mut Ch,
) -> (out: Result<RingSwitchOutput, VerifyError>)
    requires
        x_outer.len() >= 2,
        pow2((x_outer@.len() - 2) as nat) <= usize::MAX,
        proof_.s_hat_v@.len() == 256,
    ensures
        ({
            let t = old(challenger).transcript();
            let s = proof_.s_hat_v@;
            let r = row_challenges(old(challenger).answers(), t, s);
            &&& out is Ok <==> claim_holds(claim, z_skip, x_outer@, s)
            &&& out matches Ok(output) ==> {
                &&& output.rs_eq_ind@ == transparent(x_outer@, r)
                &&& output.sumcheck_claim == sumcheck_target(s, r)
                &&& final(challenger).transcript() == reduced(t, s)
            }
            &&& out matches Err(e) ==> {
                &&& e == VerifyError::ClaimMismatch
                &&& final(challenger).transcript() == observed(t, s)
            }
            &&& final(challenger).answers() == old(challenger).answers()
        }),
        ({
            let s = proof_.s_hat_v@;
            let t = old(challenger).transcript();
            let a = old(challenger).answers();
            let sent = t.push(Event::Label(label())).push(Event::Message(s));
            let r = Seq::new(8, |i: int| a(sent + Seq::new(i as nat, |k: int| Event::Draw)));
            let holds = sums::sum(
                |i: int| claim::claim_weight(z_skip, x_outer@[0], x_outer@[1], i).times(s[i]),
                256,
            ) == claim;
            &&& out is Ok <==> holds
            &&& holds ==> final(challenger).transcript() == sent + Seq::new(
                8,
                |k: int| Event::Draw,
            )
            &&& !holds ==> final(challenger).transcript() == sent
            &&& out matches Ok(output) ==> output.sumcheck_claim == sums::sum(
                |b: int|
                    tensor_algebra::transposed(s)[b].times(univariate_skip::eq_at(r, b)),
                256,
            )
            &&& out matches Ok(output) ==> {
                &&& output.rs_eq_ind@.len() == pow2((x_outer@.len() - 2) as nat)
                &&& forall|j: int|
                    0 <= j < output.rs_eq_ind@.len() ==> #[trigger] output.rs_eq_ind@[j] == sums::sum(
                        |b: int|
                            if univariate_skip::eq_at(x_outer@.skip(2), j).bit(b) {
                                univariate_skip::eq_at(r, b)
                            } else {
                                F256::zero()
                            },
                        256,
                    )
            }
        }),
{
    observe_slices(challenger, proof_.s_hat_v.as_slice());
    proof {
        let (a, t) = (old(challenger).answers(), old(challenger).transcript());
        let s = proof_.s_hat_v@;
        lemma_reduction_steps(a, t, s);
        lemma_reduction_values(s, x_outer@, row_challenges(a, t, s));
        lemma_claim_value(claim, z_skip, x_outer@, s);
        lemma2_to64();
    }
    if !check_claim(claim, z_skip, x_outer, proof_.s_hat_v.as_slice()) {
        return Err(VerifyError::ClaimMismatch);
    }
    let r_dprime = sample_f256_vec(challenger, LOG_PACKING);
    let suffix = vstd::slice::slice_subrange(x_outer, 2, x_outer.len());
    proof {
        assert(suffix@ =~= x_outer@.skip(2));
    }
    let suffix_tensor = build_eq(suffix);
    Ok(
        reduction_output(
            proof_.s_hat_v.as_slice(),
            suffix_tensor.as_slice(),
            r_dprime.as_slice(),
        ),
    )
}

/// The verifier's side without `rs_eq_ind`: the same transcript as [`verify`], and
/// the equality tensor of `r''` for
/// [`eval_rs_eq`](crate::pcs::ring_switch::eval::eval_rs_eq).
pub fn verify_succinct<Ch: Challenger>(
    claim: F256,
    z_skip: F256,
    x_outer: &[F256],
    proof_: &RingSwitchProof,
    challenger: &mut Ch,
) -> (out: Result<RingSwitchVerifierOutput, VerifyError>)
    requires
        x_outer.len() >= 2,
        proof_.s_hat_v@.len() == 256,
    ensures
        ({
            let t = old(challenger).transcript();
            let s = proof_.s_hat_v@;
            let r = row_challenges(old(challenger).answers(), t, s);
            &&& out is Ok <==> claim_holds(claim, z_skip, x_outer@, s)
            &&& out matches Ok(output) ==> {
                &&& output.eq_r_dprime@ == univariate_skip::eq_tensor(r)
                &&& output.sumcheck_claim == sumcheck_target(s, r)
                &&& final(challenger).transcript() == reduced(t, s)
            }
            &&& out matches Err(e) ==> {
                &&& e == VerifyError::ClaimMismatch
                &&& final(challenger).transcript() == observed(t, s)
            }
            &&& final(challenger).answers() == old(challenger).answers()
        }),
        ({
            let s = proof_.s_hat_v@;
            let t = old(challenger).transcript();
            let a = old(challenger).answers();
            let sent = t.push(Event::Label(label())).push(Event::Message(s));
            let r = Seq::new(8, |i: int| a(sent + Seq::new(i as nat, |k: int| Event::Draw)));
            let holds = sums::sum(
                |i: int| claim::claim_weight(z_skip, x_outer@[0], x_outer@[1], i).times(s[i]),
                256,
            ) == claim;
            &&& out is Ok <==> holds
            &&& holds ==> final(challenger).transcript() == sent + Seq::new(
                8,
                |k: int| Event::Draw,
            )
            &&& !holds ==> final(challenger).transcript() == sent
            &&& out matches Ok(output) ==> output.sumcheck_claim == sums::sum(
                |b: int|
                    tensor_algebra::transposed(s)[b].times(univariate_skip::eq_at(r, b)),
                256,
            )
            &&& out matches Ok(output) ==> {
                &&& output.eq_r_dprime@.len() == 256
                &&& forall|b: int|
                    0 <= b < 256 ==> #[trigger] output.eq_r_dprime@[b] == univariate_skip::eq_at(
                        r,
                        b,
                    )
            }
        }),
{
    observe_slices(challenger, proof_.s_hat_v.as_slice());
    proof {
        let (a, t) = (old(challenger).answers(), old(challenger).transcript());
        let s = proof_.s_hat_v@;
        lemma_reduction_steps(a, t, s);
        lemma_reduction_values(s, x_outer@, row_challenges(a, t, s));
        lemma_claim_value(claim, z_skip, x_outer@, s);
        lemma2_to64();
    }
    if !check_claim(claim, z_skip, x_outer, proof_.s_hat_v.as_slice()) {
        return Err(VerifyError::ClaimMismatch);
    }
    let r_dprime = sample_f256_vec(challenger, LOG_PACKING);
    proof {
        lemma2_to64();
    }
    let eq_r_dprime = build_eq(r_dprime.as_slice());
    let target = sumcheck_claim(proof_.s_hat_v.as_slice(), eq_r_dprime.as_slice());
    Ok(RingSwitchVerifierOutput { sumcheck_claim: target, eq_r_dprime })
}

// ---------------------------------------------------------------------------
// Laws.
// ---------------------------------------------------------------------------

/// The identity behind the reduction: the packed witness against the transparent
/// multilinear is the sumcheck target of its slice values,
/// `Σ_i W[i]·rs_eq_ind[i] = sumcheck_claim`.
pub proof fn lemma_dp24_identity(witness: Seq<F256>, x_outer: Seq<F256>, r_dprime: Seq<F256>)
    requires
        x_outer.len() >= 2,
        witness.len() == pow2((x_outer.len() - 2) as nat),
    ensures
        sums::dot(witness, transparent(x_outer, r_dprime)) == sumcheck_target(
            slices(witness, x_outer),
            r_dprime,
        ),
{
    let t = univariate_skip::eq_tensor(x_outer.skip(2));
    let e = univariate_skip::eq_tensor(r_dprime);
    lemma_fold_identity(witness, t, e);
}

/// For any tensor and weights, `Σ_i W[i]·(bits of T[i] against e)` is the
/// transposed slice fold against `e`.
pub proof fn lemma_fold_identity(witness: Seq<F256>, tensor: Seq<F256>, e: Seq<F256>)
    requires
        witness.len() == tensor.len(),
    ensures
        sums::dot(witness, elems::elems_fold(tensor, e)) == sums::dot(
            tensor_algebra::transposed(fold::slice_fold(witness, tensor)),
            e,
        ),
{
    let n = witness.len();
    let a = |i: int| witness[i];
    let b = |i: int| tensor[i];
    let s = fold::slice_fold(witness, tensor);
    let o = tensor_algebra::outer_sum(a, b, n);
    assert forall|r: int| 0 <= r < 256 implies s[r] == o[r] by {
        sums::lemma_sum_ext(
            |i: int| bits::gate(witness[i].bit(r), tensor[i]),
            |i: int| bits::gate(a(i).bit(r), b(i)),
            n,
        );
    }
    assert(s =~= o);
    tensor_algebra::lemma_outer_folded(a, b, n, e);
    sums::lemma_sum_ext(
        |i: int| a(i).times(bits::bit_fold(b(i), |k: int| e[k])),
        |i: int| witness[i].times(elems::elems_fold(tensor, e)[i]),
        n,
    );
}

/// The verifier accepts the honest prover's message for the true value of the
/// univariate-skip extension, and for no other claim.
pub proof fn lemma_honest_claim(z: Seq<bool>, claim: F256, z_skip: F256, x_outer: Seq<F256>)
    requires
        x_outer.len() >= 2,
        z.len() == 256 * pow2((x_outer.len() - 2) as nat),
    ensures
        claim_holds(claim, z_skip, x_outer, slices(pack::packed(z), x_outer)) == (claim
            == claim::zhat_skip(z, z_skip, x_outer)),
{
    claim::lemma_claim_check_recovers(z, z_skip, x_outer);
}

/// Changing one slice value whose claim weight is nonzero breaks the claim.
pub proof fn lemma_changed_slice_is_refused(
    claim: F256,
    z_skip: F256,
    x_outer: Seq<F256>,
    s: Seq<F256>,
    i: int,
    v: F256,
)
    requires
        s.len() == 256,
        0 <= i < 256,
        v != s[i],
        claim::claim_weight(z_skip, x_outer[0], x_outer[1], i) != F256::zero(),
        claim_holds(claim, z_skip, x_outer, s),
    ensures
        !claim_holds(claim, z_skip, x_outer, s.update(i, v)),
{
    let w = claim::claim_weights(z_skip, x_outer[0], x_outer[1]);
    let s2 = s.update(i, v);
    let d = s[i].plus(v);
    let f = |k: int| w[k].times(s[k]);
    let g = |k: int| w[k].times(s2[k]);
    let h = |k: int| bits::gate(k == i, w[i].times(d));
    assert forall|k: int| 0 <= k < 256 implies #[trigger] g(k) == f(k).plus(h(k)) by {
        if k == i {
            w[i].lemma_times_distributes(s[i], v);
            let (a, b) = (w[i].times(s[i]), w[i].times(v));
            a.lemma_plus(a, b);
            b.lemma_plus(F256::zero(), F256::zero());
        } else {
            f(k).lemma_plus(F256::zero(), F256::zero());
        }
    }
    sums::lemma_sum_ext(g, |k: int| f(k).plus(h(k)), 256);
    sums::lemma_sum_plus(f, h, 256);
    sums::lemma_sum_single(h, 256, i);
    s[i].lemma_plus(v, v);
    if w[i].times(d) == F256::zero() {
        w[i].lemma_no_zero_divisors(d);
    }
    let c = sums::sum(f, 256);
    let e = w[i].times(d);
    if c.plus(e) == c {
        c.lemma_plus(c, e);
        e.lemma_plus(F256::zero(), F256::zero());
    }
}

// ---------------------------------------------------------------------------
// The transcript.
// ---------------------------------------------------------------------------

/// A reduction extends the transcript by the label, by one message that is the
/// slice values themselves, and by eight draws; each challenge is what the source
/// answers after the message and the draws before it.
pub proof fn lemma_reduction_steps(
    answers: spec_fn(Seq<Event>) -> F256,
    t: Seq<Event>,
    s: Seq<F256>,
)
    ensures
        observed(t, s) == t.push(Event::Label(label())).push(Event::Message(s)),
        reduced(t, s) == t.push(Event::Label(label())).push(Event::Message(s)) + Seq::new(
            8,
            |k: int| Event::Draw,
        ),
        row_challenges(answers, t, s) == Seq::new(
            8,
            |i: int|
                answers(
                    t.push(Event::Label(label())).push(Event::Message(s)) + Seq::new(
                        i as nat,
                        |k: int| Event::Draw,
                    ),
                ),
        ),
{
    let sent = t.push(Event::Label(label())).push(Event::Message(s));
    let r = Seq::new(
        8,
        |i: int| answers(sent + Seq::new(i as nat, |k: int| Event::Draw)),
    );
    assert forall|i: int| 0 <= i < 8 implies row_challenges(answers, t, s)[i] == r[i] by {
        assert(challenger::after_draws(sent, i as nat) =~= sent + Seq::new(
            i as nat,
            |k: int| Event::Draw,
        ));
    }
    assert(row_challenges(answers, t, s) =~= r);
    assert(reduced(t, s) =~= sent + Seq::new(8, |k: int| Event::Draw));
}

/// The slice values are bound before the first draw: two reductions reach the same
/// transcript only from the same one, with the same slice values.
pub proof fn lemma_slices_are_bound(t: Seq<Event>, s: Seq<F256>, t2: Seq<Event>, s2: Seq<F256>)
    ensures
        observed(t, s) == observed(t2, s2) ==> t == t2 && s == s2,
        reduced(t, s) == reduced(t2, s2) ==> t == t2 && s == s2,
{
    let (o, o2) = (observed(t, s), observed(t2, s2));
    if reduced(t, s) == reduced(t2, s2) {
        assert(reduced(t, s).len() == reduced(t2, s2).len());
        assert forall|i: int| 0 <= i < o.len() implies o[i] == o2[i] by {
            assert(reduced(t, s)[i] == o[i]);
            assert(reduced(t2, s2)[i] == o2[i]);
        }
        assert(o =~= o2);
    }
    if o == o2 {
        assert(o.last() == Event::Message(s) && o2.last() == Event::Message(s2));
        assert forall|i: int| 0 <= i < t.len() implies t[i] == t2[i] by {
            assert(o[i] == t[i] && o2[i] == t2[i]);
        }
        assert(t =~= t2);
    }
}

/// The sumcheck target and the transparent multilinear, entry by entry.
pub proof fn lemma_reduction_values(s: Seq<F256>, x_outer: Seq<F256>, r: Seq<F256>)
    requires
        r.len() == 8,
        x_outer.len() >= 2,
    ensures
        sumcheck_target(s, r) == sums::sum(
            |b: int| tensor_algebra::transposed(s)[b].times(univariate_skip::eq_at(r, b)),
            256,
        ),
        transparent(x_outer, r).len() == pow2((x_outer.len() - 2) as nat),
        forall|j: int|
            0 <= j < pow2((x_outer.len() - 2) as nat) ==> #[trigger] transparent(x_outer, r)[j]
                == sums::sum(
                |b: int|
                    if univariate_skip::eq_at(x_outer.skip(2), j).bit(b) {
                        univariate_skip::eq_at(r, b)
                    } else {
                        F256::zero()
                    },
                256,
            ),
{
    lemma2_to64();
    let e = univariate_skip::eq_tensor(r);
    let u = tensor_algebra::transposed(s);
    sums::lemma_sum_ext(
        |i: int| u[i].times(e[i]),
        |b: int| u[b].times(univariate_skip::eq_at(r, b)),
        256,
    );
    assert forall|j: int|
        0 <= j < pow2((x_outer.len() - 2) as nat) implies #[trigger] transparent(x_outer, r)[j]
        == sums::sum(
        |b: int|
            if univariate_skip::eq_at(x_outer.skip(2), j).bit(b) {
                univariate_skip::eq_at(r, b)
            } else {
                F256::zero()
            },
        256,
    ) by {
        let v = univariate_skip::eq_at(x_outer.skip(2), j);
        fold::lemma_fold_against_value(v, e);
        sums::lemma_sum_ext(
            |b: int|
                if v.bit(b) {
                    e[b]
                } else {
                    F256::zero()
                },
            |b: int|
                if univariate_skip::eq_at(x_outer.skip(2), j).bit(b) {
                    univariate_skip::eq_at(r, b)
                } else {
                    F256::zero()
                },
            256,
        );
    }
}

/// The slice values of a witness, entry by entry.
pub proof fn lemma_slice_values(witness: Seq<F256>, x_outer: Seq<F256>, k: int)
    requires
        x_outer.len() >= 2,
        witness.len() == pow2((x_outer.len() - 2) as nat),
        0 <= k < 256,
    ensures
        slices(witness, x_outer).len() == 256,
        slices(witness, x_outer)[k] == sums::sum(
            |i: int|
                if witness[i].bit(k) {
                    univariate_skip::eq_at(x_outer.skip(2), i)
                } else {
                    F256::zero()
                },
            witness.len(),
        ),
{
    let t = univariate_skip::eq_tensor(x_outer.skip(2));
    fold::lemma_slice_fold_entry(witness, t, k);
    sums::lemma_sum_ext(
        |i: int|
            if witness[i].bit(k) {
                t[i]
            } else {
                F256::zero()
            },
        |i: int|
            if witness[i].bit(k) {
                univariate_skip::eq_at(x_outer.skip(2), i)
            } else {
                F256::zero()
            },
        witness.len(),
    );
}

/// The claim check, weight by weight.
proof fn lemma_claim_value(claim: F256, z_skip: F256, x_outer: Seq<F256>, s: Seq<F256>)
    ensures
        claim_holds(claim, z_skip, x_outer, s) == (sums::sum(
            |i: int| claim::claim_weight(z_skip, x_outer[0], x_outer[1], i).times(s[i]),
            256,
        ) == claim),
{
    let w = claim::claim_weights(z_skip, x_outer[0], x_outer[1]);
    sums::lemma_sum_ext(
        |i: int| w[i].times(s[i]),
        |i: int| claim::claim_weight(z_skip, x_outer[0], x_outer[1], i).times(s[i]),
        256,
    );
}

/// The verifier accepts the honest slice values for the value at `z_skip` of the
/// univariate-skip extension, built from the polynomials through the witness bits,
/// and for no other claim.
pub proof fn lemma_accepts_the_extension(
    z: Seq<bool>,
    claim: F256,
    z_skip: F256,
    x_outer: Seq<F256>,
    c: spec_fn(int) -> Seq<F256>,
)
    requires
        x_outer.len() >= 2,
        z.len() == 256 * pow2((x_outer.len() - 2) as nat),
        forall|o: int| 0 <= o < pow2(x_outer.len()) ==> (#[trigger] c(o)).len() <= 64,
        forall|o: int, k: int|
            0 <= o < pow2(x_outer.len()) && 0 <= k < 64 ==> #[trigger] multilinear::poly_value(
                c(o),
                multilinear::node(k),
            ) == (if z[64 * o + k] {
                F256::one()
            } else {
                F256::zero()
            }),
    ensures
        claim_holds(claim, z_skip, x_outer, slices(pack::packed(z), x_outer)) == (claim
            == sums::sum(
            |o: int|
                univariate_skip::eq_at(x_outer, o).times(multilinear::poly_value(c(o), z_skip)),
            pow2(x_outer.len()),
        )),
{
    lemma_honest_claim(z, claim, z_skip, x_outer);
    claim::lemma_zhat_is_extension(z, z_skip, x_outer, c);
}

} // verus!
