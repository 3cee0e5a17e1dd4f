use flock::field::F128;
use flock::lincheck::pack_z_lincheck;
use flock::pcs::LigeritoProfile;
use flock::r1cs_mul64::{
    build_block_r1cs, build_block_witness, build_matrices,
    generate_witness_with_ab_packed_and_lincheck, maj_bit, min_n_blocks_log, pp_bit, prod_bit,
    read_prod, rip_bit, sum_bit, x_bit, y_bit, Mul64Setup, K, K_LOG, K_SKIP, MAJ_BASE, MAJ_COUNT,
    PP_BASE, PP_COUNT, PROD_BASE, RIP_BASE, RIP_COUNT, SUM_BASE, SUM_COUNT, USEFUL_BITS, X_BASE,
    Y_BASE, Z_CONST_POS,
};

fn bit(z: &[F128], p: usize) -> bool {
    let e = z[p / 128];
    let w = if p % 128 < 64 { e.lo } else { e.hi };
    (w >> (p % 64)) & 1 == 1
}

#[test]
fn layout_has_known_slots() {
    assert_eq!((K, K_LOG, K_SKIP), (16_384, 14, 6));
    assert_eq!((X_BASE, Y_BASE, PROD_BASE, Z_CONST_POS), (0, 64, 128, 256));
    assert_eq!((PP_BASE, MAJ_BASE, SUM_BASE), (320, 4_416, 8_448));
    assert_eq!((RIP_BASE, USEFUL_BITS), (12_417, 12_480));
    assert_eq!((PP_COUNT, MAJ_COUNT, SUM_COUNT, RIP_COUNT), (4_096, 4_032, 3_969, 63));
    assert_eq!((x_bit(5), y_bit(5), prod_bit(127)), (5, 69, 255));
    assert_eq!((pp_bit(63, 126), maj_bit(1, 1), maj_bit(63, 126)), (4_415, 4_416, 8_447));
    assert_eq!((sum_bit(1, 2), sum_bit(63, 126)), (8_448, 12_416));
    assert_eq!((rip_bit(64), rip_bit(126)), (12_417, 12_479));
}

#[test]
fn rows_are_short_and_in_order() {
    let (a, b) = build_matrices();
    for m in [&a, &b] {
        assert_eq!((m.num_rows, m.num_cols, m.rows.len()), (K, K, K));
        for row in &m.rows {
            assert!(row.len() <= 5);
            assert!(row.windows(2).all(|w| w[0] < w[1]));
            assert!(row.iter().all(|&s| s < USEFUL_BITS));
        }
    }
    assert!(a.rows.iter().any(|r| r.len() == 5));
}

#[test]
fn rows_have_known_columns() {
    let (a, b) = build_matrices();
    assert_eq!(a.rows[Z_CONST_POS], vec![Z_CONST_POS]);
    assert_eq!(b.rows[Z_CONST_POS], vec![Z_CONST_POS]);
    assert_eq!(a.rows[x_bit(3)], vec![x_bit(3)]);
    assert_eq!(b.rows[y_bit(3)], vec![Z_CONST_POS]);
    assert_eq!(a.rows[pp_bit(2, 7)], vec![x_bit(5)]);
    assert_eq!(b.rows[pp_bit(2, 7)], vec![y_bit(2)]);
    assert_eq!(a.rows[prod_bit(0)], vec![pp_bit(0, 0)]);
    // Round 1: no carry is pending yet.
    assert_eq!(a.rows[maj_bit(1, 1)], vec![pp_bit(0, 1)]);
    assert_eq!(b.rows[maj_bit(1, 1)], vec![pp_bit(0, 1), pp_bit(1, 1)]);
    assert_eq!(a.rows[prod_bit(1)], vec![pp_bit(0, 1), pp_bit(1, 1)]);
    // At bit 64 of round 1 there is no running sum yet.
    assert_eq!(a.rows[maj_bit(1, 64)], Vec::<usize>::new());
    assert_eq!(a.rows[sum_bit(1, 64)], vec![pp_bit(1, 64)]);
    // Round 2: the carry is the AND wire and the running sum of the bit below.
    assert_eq!(a.rows[maj_bit(2, 3)], vec![pp_bit(0, 2), maj_bit(1, 2), sum_bit(1, 3)]);
    // Round 3 at bit 5.
    assert_eq!(
        a.rows[sum_bit(3, 5)],
        vec![pp_bit(3, 5), maj_bit(2, 4), sum_bit(1, 4), sum_bit(2, 5)]
    );
    // The ripple adder.
    assert_eq!(a.rows[rip_bit(64)], vec![maj_bit(63, 63), sum_bit(62, 63), sum_bit(63, 64)]);
    assert_eq!(b.rows[rip_bit(64)], vec![sum_bit(63, 64)]);
    assert_eq!(
        a.rows[prod_bit(65)],
        vec![maj_bit(63, 64), sum_bit(62, 64), sum_bit(63, 64), sum_bit(63, 65), rip_bit(64)]
    );
    assert_eq!(a.rows[prod_bit(127)], vec![maj_bit(63, 126), sum_bit(63, 126), rip_bit(126)]);
    assert_eq!(b.rows[prod_bit(127)], vec![Z_CONST_POS]);
    for s in (Z_CONST_POS + 1..PP_BASE).chain(USEFUL_BITS..K) {
        assert!(a.rows[s].is_empty() && b.rows[s].is_empty());
    }
}

#[test]
fn witness_of_three_times_five() {
    let z = build_block_witness(3, 5);
    assert_eq!(z.len(), K);
    assert_eq!(read_prod(&z), 15);
    assert!(z[Z_CONST_POS] && z[x_bit(0)] && z[x_bit(1)] && !z[x_bit(2)]);
    assert!(z[y_bit(0)] && !z[y_bit(1)] && z[y_bit(2)]);
    assert!(z[pp_bit(0, 0)] && z[pp_bit(0, 1)] && z[pp_bit(2, 2)] && z[pp_bit(2, 3)]);
    assert_eq!(z[PP_BASE..MAJ_BASE].iter().filter(|&&b| b).count(), 4);
    // No two rows overlap, so nothing is carried: each AND wire equals its sum.
    assert!(z[maj_bit(1, 1)] && z[pp_bit(0, 1)]);
    assert!(!z[maj_bit(1, 2)] && !z[maj_bit(2, 2)] && !z[maj_bit(2, 3)]);
    assert!(z[RIP_BASE..].iter().all(|&b| !b));
    let big = build_block_witness(u64::MAX, u64::MAX);
    assert_eq!(read_prod(&big), (u64::MAX as u128) * (u64::MAX as u128));
}

#[test]
fn every_wire_but_the_inputs_is_determined() {
    let (a, b) = build_matrices();
    let z = build_block_witness(0xDEAD_BEEF_CAFE_F00D, 0x0123_4567_89AB_CDEF);
    let holds = |z: &[bool]| {
        (0..K).all(|r| {
            let av = a.rows[r].iter().fold(false, |acc, &s| acc ^ z[s]);
            let bv = b.rows[r].iter().fold(false, |acc, &s| acc ^ z[s]);
            (av && bv) == z[r]
        })
    };
    assert!(holds(&z));
    for t in (128..K).filter(|&t| t != Z_CONST_POS).step_by(53) {
        let mut bad = z.clone();
        bad[t] = !bad[t];
        assert!(!holds(&bad), "wire {t}");
    }
}

#[test]
fn satisfied_blocks_hold_their_product() {
    let muls = [(7u64, 9u64), (u64::MAX, 2), (0, 5)];
    let (z, a, b, stripe) = generate_witness_with_ab_packed_and_lincheck(&muls, 2);
    let r1cs = build_block_r1cs(2);
    assert_eq!((r1cs.m, r1cs.k_log, r1cs.k_skip), (16, 14, 6));
    assert_eq!((r1cs.useful_bits, r1cs.const_pin), (USEFUL_BITS, Some(Z_CONST_POS)));
    assert!(r1cs.satisfies_packed(&z));
    for blk in 0..4 {
        let (x, y) = if blk < 3 { muls[blk] } else { (0, 0) };
        assert_eq!((z[128 * blk].lo, z[128 * blk].hi), (x, y));
        let p = z[128 * blk + 1];
        assert_eq!(p.lo as u128 + ((p.hi as u128) << 64), (x as u128) * (y as u128));
        // The constant wire, and the first row of partial products.
        assert_eq!(z[128 * blk + 2].lo, 1);
        assert_eq!(z[128 * blk + 2].hi, if y & 1 == 1 { x } else { 0 });
    }
    for p in 0..4 * K {
        assert_eq!(bit(&z, p), bit(&a, p) && bit(&b, p));
    }
    let bits: Vec<bool> = (0..4 * K).map(|p| bit(&z, p)).collect();
    assert_eq!(stripe, pack_z_lincheck(&bits, 16, 14));
}

#[test]
fn tampered_batches_are_refused() {
    let (z, _, _, _) = generate_witness_with_ab_packed_and_lincheck(&[(3, 4)], 1);
    let r1cs = build_block_r1cs(1);
    let mut wrong_product = z.clone();
    wrong_product[1].lo ^= 1;
    assert!(!r1cs.satisfies_packed(&wrong_product));
    let mut wrong_input = z.clone();
    wrong_input[0].lo ^= 1;
    assert!(!r1cs.satisfies_packed(&wrong_input));
    // All zeros meet every row, but not the pinned constant.
    let zeros = vec![F128 { lo: 0, hi: 0 }; 256];
    assert!(!r1cs.satisfies_packed(&zeros));
    let mut unpinned = build_block_r1cs(1);
    unpinned.const_pin = None;
    assert!(unpinned.satisfies_packed(&zeros));
}

#[test]
fn batches_are_padded_to_a_power_of_two() {
    assert_eq!(min_n_blocks_log(1), 8);
    assert_eq!(min_n_blocks_log(256), 8);
    assert_eq!(min_n_blocks_log(257), 9);
    assert_eq!(min_n_blocks_log(1 << 20), 20);
    assert_eq!(min_n_blocks_log((1 << 20) + 1), 21);
}

#[test]
fn setup_fits_its_batch() {
    let setup = Mul64Setup::new(200, 2);
    assert_eq!((setup.n_muls, setup.m()), (200, 22));
    assert_eq!((setup.n_blocks_log(), setup.n_block_slots()), (8, 256));
    assert_eq!(setup.pcs_params.m, 22);
    assert_eq!(setup.pcs_params.log_batch_size, 6);
    assert_eq!(setup.pcs_params.log_inv_rate, 2);
    assert_eq!(setup.pcs_params.profile, LigeritoProfile::Fast { log_inv_rate: 2 });
    let muls: Vec<(u64, u64)> =
        (0..200u64).map(|i| (i.wrapping_mul(0x9E37_79B9_7F4A_7C15), !i)).collect();
    let (z, a, b, stripe) = setup.generate_witness_ab(&muls);
    assert_eq!((z.len(), a.len(), b.len(), stripe.len()), (32_768, 32_768, 32_768, 524_288));
    assert!(setup.r1cs.satisfies_packed(&z));
    assert_eq!(z[128 * 199].lo, muls[199].0);
    assert_eq!(z[128 * 200], F128 { lo: 0, hi: 0 });
    for profile in [
        LigeritoProfile::Fast { log_inv_rate: 1 },
        LigeritoProfile::Slim { log_inv_rate: 3 },
        LigeritoProfile::Secure { log_inv_rate: 5 },
    ] {
        let other = Mul64Setup::with_profile(300, profile);
        assert_eq!((other.m(), other.pcs_params.profile), (23, profile));
        assert_eq!(other.pcs_params.log_inv_rate, profile.log_inv_rate());
    }
    assert_eq!(LigeritoProfile::Slim { log_inv_rate: 3 }.log_inv_rate(), 3);
}
