use flock::challenger::{Challenger, RandomChallenger};
use flock::field::{F128, F256};
use flock::lincheck::{pack_z_lincheck, partial_fold_packed_z};
use flock::pcs::pack::pack_witness;
use flock::pcs::ring_switch::batched::{batch_slices, batch_tail, suffix_forms, SuffixForm};
use flock::pcs::ring_switch::claim::inner_product;
use flock::pcs::ring_switch::elems::{
    build_fold_byte_table, deferred_dense_value, fold_b128_from_table, fold_one_slot,
};
use flock::pcs::ring_switch::eq::build_eq_parallel;
use flock::pcs::ring_switch::reduction::reduce_slices;
use flock::pcs::ring_switch::{
    build_claim_weights, build_eq_sparse, build_eq_split, eval_rs_eq,
    eval_rs_eq_finish_from_prefix, eval_rs_eq_prefix, fold_1b_rows_multi, fold_1b_rows_naive,
    fold_b128_elems, fold_b128_elems_naive, fold_b128_elems_sparse_pairs, prove, prove_batched,
    split_n_lo, tensor_algebra_transpose, verify, verify_succinct, RingSwitchProof, RsEqInd,
    VerifyError,
};
use flock::pcs::tensor_algebra::TensorAlgebra;
use flock::zerocheck::multilinear::lagrange_weights_naive;
use flock::zerocheck::univariate_skip::build_eq;
use flock::zerocheck::PaddingSpec;

struct Rng(u64);

impl Rng {
    fn next_u64(&mut self) -> u64 {
        self.0 = self.0.wrapping_add(0x9E3779B97F4A7C15);
        let mut z = self.0;
        z = (z ^ (z >> 30)).wrapping_mul(0xBF58476D1CE4E5B9);
        z = (z ^ (z >> 27)).wrapping_mul(0x94D049BB133111EB);
        z ^ (z >> 31)
    }

    fn f256(&mut self) -> F256 {
        F256 {
            c0: F128 { lo: self.next_u64(), hi: self.next_u64() },
            c1: F128 { lo: self.next_u64(), hi: self.next_u64() },
        }
    }

    fn vec(&mut self, n: usize) -> Vec<F256> {
        (0..n).map(|_| self.f256()).collect()
    }

    fn bits(&mut self, n: usize) -> Vec<bool> {
        (0..n).map(|_| self.next_u64() & 1 == 1).collect()
    }
}

fn bit(x: F256, k: usize) -> bool {
    let w = [x.c0.lo, x.c0.hi, x.c1.lo, x.c1.hi][k / 64];
    (w >> (k % 64)) & 1 == 1
}

fn zhat(z: &[bool], z_skip: F256, x_outer: &[F256]) -> F256 {
    let lambda = lagrange_weights_naive(6, z_skip);
    let eq = build_eq(x_outer);
    let mut acc = F256::zero();
    for (o, &e) in eq.iter().enumerate() {
        for s in 0..64 {
            if z[64 * o + s] {
                acc = acc + e * lambda[s];
            }
        }
    }
    acc
}

#[test]
fn packing_places_every_bit() {
    let mut rng = Rng(1);
    let z = rng.bits(1 << 10);
    let w = pack_witness(&z, 10);
    assert_eq!(w.len(), 4);
    for (p, &b) in z.iter().enumerate() {
        assert_eq!(bit(w[p / 256], p % 256), b);
    }
}

#[test]
fn parallel_doubling_matches_serial_doubling() {
    let mut rng = Rng(2);
    let r = rng.vec(14);
    assert_eq!(build_eq_parallel(&r), build_eq(&r));
    let (lo, hi) = build_eq_split(&r, 14);
    assert_eq!(lo, build_eq(&r));
    assert_eq!(hi, vec![F256::one()]);
}

#[test]
fn split_width_is_half_but_at_least_four() {
    assert_eq!(split_n_lo(4), 4);
    assert_eq!(split_n_lo(7), 4);
    assert_eq!(split_n_lo(9), 4);
    assert_eq!(split_n_lo(10), 5);
    assert_eq!(split_n_lo(21), 10);
}

#[test]
fn row_fold_is_the_sum_over_set_bits() {
    let mut rng = Rng(3);
    let (w, t) = (rng.vec(513), rng.vec(513));
    let s = fold_1b_rows_naive(&w, &t);
    for r in 0..256 {
        let mut want = F256::zero();
        for i in 0..w.len() {
            if bit(w[i], r) {
                want = want + t[i];
            }
        }
        assert_eq!(s[r], want);
    }
    assert_eq!(fold_1b_rows_naive(&[], &[]), vec![F256::zero(); 256]);
    let u = rng.vec(513);
    let both = fold_1b_rows_multi(&w, &[&t, &u]);
    assert_eq!(both, vec![s, fold_1b_rows_naive(&w, &u)]);
    assert!(fold_1b_rows_multi(&w, &[]).is_empty());
}

#[test]
fn element_fold_is_the_sum_of_weights() {
    let mut rng = Rng(4);
    let (t, e) = (rng.vec(300), rng.vec(256));
    let v = fold_b128_elems(&t, &e);
    for i in 0..t.len() {
        let mut want = F256::zero();
        for b in 0..256 {
            if bit(t[i], b) {
                want = want + e[b];
            }
        }
        assert_eq!(v[i], want);
    }
    assert_eq!(fold_b128_elems_naive(&t, &e), v);
    let table = build_fold_byte_table(&e);
    assert_eq!(table.len(), 8192);
    assert_eq!(table[3 * 256 + 0b101], e[24] + e[26]);
    assert_eq!(fold_one_slot(t[7], &table), v[7]);
}

#[test]
fn transpose_moves_bits() {
    let mut rng = Rng(5);
    let s = rng.vec(256);
    let u = tensor_algebra_transpose(&s);
    for b in 0..256 {
        for i in 0..256 {
            assert_eq!(bit(u[b], i), bit(s[i], b));
        }
    }
}

#[test]
fn subring_products_commute() {
    let mut rng = Rng(6);
    let t = TensorAlgebra { elems: rng.vec(256) };
    let (c, d) = (rng.f256(), rng.f256());
    assert_eq!(
        t.clone().scale_vertical(c).scale_horizontal(d),
        t.clone().scale_horizontal(d).scale_vertical(c)
    );
    assert_eq!(
        t.clone().scale_horizontal(c).scale_horizontal(d),
        t.clone().scale_horizontal(c * d)
    );
    // A sum keeps the rows that the shorter right operand does not reach.
    let short = TensorAlgebra { elems: vec![c] };
    let sum = t.clone() + &short;
    assert_eq!(sum.elems[0], t.elems[0] + c);
    assert_eq!(sum.elems[1..], t.elems[1..]);
}

#[test]
fn claim_weights_have_known_entries() {
    let mut rng = Rng(7);
    let (z, x0, x1) = (rng.f256(), rng.f256(), rng.f256());
    let w = build_claim_weights(z, x0, x1);
    let l = lagrange_weights_naive(6, z);
    let one = F256::one();
    assert_eq!(w[5], l[5] * (one + x0) * (one + x1));
    assert_eq!(w[64 + 5], l[5] * x0 * (one + x1));
    assert_eq!(w[128 + 5], l[5] * (one + x0) * x1);
    assert_eq!(w[192 + 63], l[63] * x0 * x1);
}

#[test]
fn verifiers_accept_the_honest_message_and_agree() {
    let mut rng = Rng(8);
    let m = 13;
    let z = rng.bits(1 << m);
    let z_skip = rng.f256();
    let x_outer = rng.vec(m - 6);
    let claim = zhat(&z, z_skip, &x_outer);
    let packed = pack_witness(&z, m);
    let (message, out_p) = prove(&packed, &x_outer, &mut RandomChallenger::new(9));
    let out_v = verify(claim, z_skip, &x_outer, &message, &mut RandomChallenger::new(9)).unwrap();
    let out_s =
        verify_succinct(claim, z_skip, &x_outer, &message, &mut RandomChallenger::new(9)).unwrap();
    assert_eq!(out_p.rs_eq_ind, out_v.rs_eq_ind);
    assert_eq!(out_p.sumcheck_claim, out_v.sumcheck_claim);
    assert_eq!(out_p.sumcheck_claim, out_s.sumcheck_claim);
    let query = rng.vec(m - 8);
    assert_eq!(
        eval_rs_eq(&x_outer[2..], &query, &out_s.eq_r_dprime),
        inner_product(&build_eq(&query), &out_v.rs_eq_ind)
    );
}

#[test]
fn verifiers_refuse_a_wrong_claim() {
    let mut rng = Rng(10);
    let m = 9;
    let z = rng.bits(1 << m);
    let z_skip = rng.f256();
    let x_outer = rng.vec(m - 6);
    let claim = zhat(&z, z_skip, &x_outer) + F256::one();
    let (message, _) = prove(&pack_witness(&z, m), &x_outer, &mut RandomChallenger::new(9));
    let full = verify(claim, z_skip, &x_outer, &message, &mut RandomChallenger::new(9));
    assert_eq!(full.err(), Some(VerifyError::ClaimMismatch));
    let succinct = verify_succinct(claim, z_skip, &x_outer, &message, &mut RandomChallenger::new(9));
    assert_eq!(succinct.err(), Some(VerifyError::ClaimMismatch));
}

#[test]
fn every_changed_slice_is_refused() {
    let mut rng = Rng(11);
    let m = 9;
    let z = rng.bits(1 << m);
    let z_skip = rng.f256();
    let x_outer = rng.vec(m - 6);
    let claim = zhat(&z, z_skip, &x_outer);
    let (message, _) = prove(&pack_witness(&z, m), &x_outer, &mut RandomChallenger::new(9));
    let weights = build_claim_weights(z_skip, x_outer[0], x_outer[1]);
    for i in (0..256).step_by(37) {
        assert!(!weights[i].is_zero());
        let mut s_hat_v = message.s_hat_v.clone();
        s_hat_v[i] = s_hat_v[i] + F256::one();
        let bad = RingSwitchProof { s_hat_v };
        assert!(verify(claim, z_skip, &x_outer, &bad, &mut RandomChallenger::new(9)).is_err());
    }
}

#[test]
fn batch_multiplies_gamma_into_each_claim() {
    let mut rng = Rng(12);
    for m in [9usize, 12, 13] {
        let z = rng.bits(1 << m);
        let packed = pack_witness(&z, m);
        let xs: Vec<Vec<F256>> = (0..3).map(|_| rng.vec(m - 6)).collect();
        for n in 1..=3 {
            let mut ch = RandomChallenger::new(5);
            let singles: Vec<_> = xs[..n].iter().map(|x| prove(&packed, x, &mut ch)).collect();
            let gammas: Vec<F256> = (0..n).map(|_| ch.sample_f256()).collect();
            let refs: Vec<&[F256]> = xs[..n].iter().map(|x| x.as_slice()).collect();
            let mut batch_ch = RandomChallenger::new(5);
            let (results, drawn) = prove_batched(&packed, &refs, &mut batch_ch);
            assert_eq!(drawn, gammas);
            assert_eq!(batch_ch.sample_f256(), ch.sample_f256());
            for k in 0..n {
                assert_eq!(results[k].0, singles[k].0);
                assert_eq!(results[k].1.sumcheck_claim, singles[k].1.sumcheck_claim);
                let want: Vec<F256> =
                    singles[k].1.rs_eq_ind.iter().map(|&v| gammas[k] * v).collect();
                assert_eq!(results[k].1.rs_eq_ind.to_dense(), want);
                assert_eq!(
                    matches!(results[k].1.rs_eq_ind, RsEqInd::DeferredDense { .. }),
                    m >= 12
                );
                assert_eq!(
                    inner_product(&packed, &want),
                    gammas[k] * results[k].1.sumcheck_claim
                );
            }
        }
    }
}

#[test]
fn sparse_form_needs_three_zero_coordinates() {
    let mut rng = Rng(13);
    let m = 13;
    let packed = pack_witness(&rng.bits(1 << m), m);
    for zeros in 0..=5 {
        let mut x = rng.vec(m - 6);
        for j in 0..zeros {
            x[2 + j] = F256::zero();
        }
        let (_, single) = prove(&packed, &x, &mut RandomChallenger::new(3));
        let (results, gammas) = prove_batched(&packed, &[&x], &mut RandomChallenger::new(3));
        let r = results[0].1.rs_eq_ind.clone();
        match &r {
            RsEqInd::Sparse { len, entries } => {
                assert!(zeros >= 3);
                assert_eq!(*len, 32);
                assert_eq!(entries.len(), 1 << (5 - zeros));
                assert!(entries.windows(2).all(|w| w[0].0 < w[1].0));
            }
            _ => assert!(zeros < 3),
        }
        let want: Vec<F256> = single.rs_eq_ind.iter().map(|&v| gammas[0] * v).collect();
        assert_eq!(r.into_dense(), want);
    }
}

#[test]
fn forms_of_rs_eq_ind_agree() {
    let mut rng = Rng(14);
    let (lo, hi, e) = (rng.vec(8), rng.vec(4), rng.vec(256));
    let table = build_fold_byte_table(&e);
    let full = fold_b128_from_table(&lo, &hi, &table);
    assert_eq!(full.len(), 32);
    assert_eq!(deferred_dense_value(&lo, &hi, &table, 13), full[13]);
    assert_eq!(full[13], fold_one_slot(lo[5] * hi[1], &table));
    let deferred = RsEqInd::DeferredDense { eq_lo: lo, eq_hi: hi, table };
    let dense = RsEqInd::Dense(full.clone());
    let gamma = rng.f256();
    let start = rng.vec(32);
    for form in [&deferred, &dense] {
        assert_eq!(form.len(), 32);
        assert!(!form.is_empty());
        assert_eq!(form.to_dense(), full);
        assert_eq!(form.clone().into_dense(), full);
        let mut out = start.clone();
        form.add_scaled_into(gamma, &mut out);
        for j in 0..32 {
            assert_eq!(out[j], start[j] + gamma * full[j]);
        }
    }
    assert!(RsEqInd::Dense(vec![]).is_empty());
}

#[test]
fn sparse_entries_are_written_in_order() {
    let mut rng = Rng(15);
    let (a, b, c, gamma) = (rng.f256(), rng.f256(), rng.f256(), rng.f256());
    let s = RsEqInd::Sparse { len: 4, entries: vec![(2, a), (0, b), (2, c)] };
    let zero = F256::zero();
    assert_eq!(s.len(), 4);
    // A later entry for the same index replaces the earlier one ...
    assert_eq!(s.to_dense(), vec![b, zero, c, zero]);
    assert_eq!(s.clone().into_dense(), vec![b, zero, c, zero]);
    // ... but both are added.
    let mut out = vec![zero; 4];
    s.add_scaled_into(gamma, &mut out);
    assert_eq!(out, vec![gamma * b, zero, gamma * a + gamma * c, zero]);
}

#[test]
fn live_bits_are_deposited_at_their_positions() {
    let mut rng = Rng(16);
    let mut coords = rng.vec(5);
    coords[0] = F256::zero();
    coords[3] = F256::zero();
    let eq = build_eq_sparse(&coords);
    assert_eq!(eq.live_positions, vec![1, 2, 4]);
    assert_eq!(eq.live_tensor, build_eq(&[coords[1], coords[2], coords[4]]));
    assert_eq!((eq.len(), eq.is_empty()), (8, false));
    assert_eq!(eq.scatter_idx(0b101), 0b10010);
    assert_eq!(eq.scatter_idx(0b111), 0b10110);
    assert_eq!(eq.materialize()[3], (0b00110, eq.live_tensor[3]));
    let e = rng.vec(256);
    let pairs = fold_b128_elems_sparse_pairs(&eq, &e);
    assert_eq!(pairs[3], (0b00110, fold_b128_elems(&eq.live_tensor, &e)[3]));
}

#[test]
fn a_coordinate_of_one_leaves_zero_entries() {
    let mut rng = Rng(17);
    let coords = vec![F256::one(), F256::zero(), rng.f256()];
    let eq = build_eq_sparse(&coords);
    assert!(eq.live_tensor[0].is_zero());
    assert_eq!(eq.live_tensor[1], F256::one() + coords[2]);
}

#[test]
fn prefix_and_finish_make_the_whole_evaluation() {
    let mut rng = Rng(18);
    let (z, q, e) = (rng.vec(6), rng.vec(6), rng.vec(256));
    let whole = eval_rs_eq(&z, &q, &e);
    for n in 0..=6 {
        let prefix = eval_rs_eq_prefix(&z, &q[..n]);
        assert_eq!(eval_rs_eq_finish_from_prefix(&prefix, &z[n..], &q[n..], &e), whole);
    }
    // Without coordinates the evaluation is the first weight.
    assert_eq!(eval_rs_eq(&[], &[], &e), e[0]);
}

#[test]
fn stripes_hold_eight_blocks_each() {
    let mut rng = Rng(19);
    let (m, k_log) = (12, 8);
    let z = rng.bits(1 << m);
    let v = pack_z_lincheck(&z, m, k_log);
    assert_eq!(v.len(), 512);
    for blk in 0..16 {
        for s in 0..256 {
            assert_eq!((v[(blk / 8) * 256 + s] >> (blk % 8)) & 1 == 1, z[256 * blk + s]);
        }
    }
    let eq = rng.vec(16);
    let folded = partial_fold_packed_z(&v, m, k_log, &eq);
    let mut want = F256::zero();
    for blk in 0..16 {
        if z[256 * blk + 77] {
            want = want + eq[blk];
        }
    }
    assert_eq!(folded[77], want);
    // Fewer than eight blocks still fill one stripe.
    assert_eq!(pack_z_lincheck(&z[..512], 9, 8).len(), 256);
}

/// Records every step and answers with a running counter.
#[derive(Default)]
struct Recorder {
    steps: Vec<String>,
    drawn: u64,
}

impl Challenger for Recorder {
    fn observe_label(&mut self, label: &[u8]) {
        self.steps.push(format!("label {}", String::from_utf8_lossy(label)));
    }

    fn observe_f256_slice(&mut self, values: &[F256]) {
        self.steps.push(format!("message of {}", values.len()));
    }

    fn sample_f256(&mut self) -> F256 {
        self.steps.push("draw".to_string());
        self.drawn += 1;
        F256::from_f128(F128 { lo: self.drawn, hi: 0 })
    }
}

#[test]
fn a_reduction_is_a_label_a_message_and_eight_draws() {
    let mut rng = Rng(20);
    let packed = rng.vec(2);
    let (x_a, x_b) = (rng.vec(3), rng.vec(3));
    let mut one = vec!["label flock-ring-switch-v0".to_string(), "message of 256".to_string()];
    one.extend((0..8).map(|_| "draw".to_string()));

    let mut ch = Recorder::default();
    let (message, out) = prove(&packed, &x_a, &mut ch);
    assert_eq!(ch.steps, one);
    // The challenges are 1 to 8, the sumcheck target the transposed slices against
    // their equality tensor.
    let r: Vec<F256> = (1..=8).map(|k| F256::from_f128(F128 { lo: k, hi: 0 })).collect();
    let eq = build_eq(&r);
    assert_eq!(out.sumcheck_claim, inner_product(&tensor_algebra_transpose(&message.s_hat_v), &eq));
    assert_eq!(out.rs_eq_ind, fold_b128_elems_naive(&build_eq(&x_a[2..]), &eq));

    let mut batch = Recorder::default();
    let (_, gammas) = prove_batched(&packed, &[&x_a, &x_b], &mut batch);
    let mut two = [one.clone(), one.clone()].concat();
    two.extend((0..2).map(|_| "draw".to_string()));
    assert_eq!(batch.steps, two);
    assert_eq!(gammas[1], F256::from_f128(F128 { lo: 18, hi: 0 }));

    // A refused message draws nothing.
    let mut refused = Recorder::default();
    let bad = verify(F256::zero(), rng.f256(), &x_a, &message, &mut refused);
    assert_eq!(bad.err(), Some(VerifyError::ClaimMismatch));
    assert_eq!(refused.steps, one[..2]);
}

#[test]
fn deferred_form_splits_near_the_middle() {
    let mut rng = Rng(21);
    for m in [12usize, 13, 18] {
        let packed = rng.vec(1 << (m - 8));
        let x = rng.vec(m - 6);
        let (results, gammas) = prove_batched(&packed, &[&x], &mut RandomChallenger::new(4));
        let mut ch = RandomChallenger::new(4);
        let r: Vec<F256> = (0..8).map(|_| ch.sample_f256()).collect();
        let weights: Vec<F256> = build_eq(&r).iter().map(|&e| gammas[0] * e).collect();
        let k = split_n_lo(m - 8);
        match &results[0].1.rs_eq_ind {
            RsEqInd::DeferredDense { eq_lo, eq_hi, table } => {
                assert_eq!(*eq_lo, build_eq(&x[2..2 + k]));
                assert_eq!(*eq_hi, build_eq(&x[2 + k..]));
                assert_eq!(*table, build_fold_byte_table(&weights));
            }
            _ => panic!("m={m} should be deferred"),
        }
    }
}

#[test]
fn phases_make_the_whole_prover() {
    let mut rng = Rng(22);
    let m = 13;
    let packed = rng.vec(1 << (m - 8));
    let mut xs: Vec<Vec<F256>> = (0..3).map(|_| rng.vec(m - 6)).collect();
    for j in 2..5 {
        xs[1][j] = F256::zero();
    }

    let (message, out) = prove(&packed, &xs[0], &mut RandomChallenger::new(6));
    let drawn = reduce_slices(&message.s_hat_v, &mut RandomChallenger::new(6));
    assert_eq!(drawn.sumcheck_claim, out.sumcheck_claim);
    assert_eq!(fold_b128_elems(&build_eq(&xs[0][2..]), &drawn.eq_r_dprime), out.rs_eq_ind);

    let refs: Vec<&[F256]> = xs.iter().map(|x| x.as_slice()).collect();
    let (whole, gammas) = prove_batched(&packed, &refs, &mut RandomChallenger::new(6));
    let forms = suffix_forms(&refs);
    assert!(matches!(forms[0], SuffixForm::Split(_, _)));
    assert!(matches!(forms[1], SuffixForm::Sparse(_)));
    let slices = batch_slices(&packed, &refs, &[], &forms, &PaddingSpec::dense(m));
    let (parts, drawn) =
        batch_tail(&refs, &forms, &slices, packed.len(), &mut RandomChallenger::new(6));
    assert_eq!(drawn, gammas);
    for k in 0..3 {
        assert_eq!(parts[k].0, whole[k].0);
        assert_eq!(slices[k], whole[k].0.s_hat_v);
        assert_eq!(parts[k].1.sumcheck_claim, whole[k].1.sumcheck_claim);
        assert_eq!(parts[k].1.rs_eq_ind.to_dense(), whole[k].1.rs_eq_ind.to_dense());
    }
}

#[test]
fn many_zero_coordinates_need_little_room() {
    let mut rng = Rng(23);
    let mut coords = vec![F256::zero(); 70];
    coords[3] = rng.f256();
    let eq = build_eq_sparse(&coords);
    assert_eq!(eq.live_positions, vec![3]);
    assert_eq!(eq.live_tensor, build_eq(&coords[3..4]));
}
