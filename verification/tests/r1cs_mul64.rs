use flock::r1cs::SparseBinaryMatrix;
use flock::r1cs_mul64::{
    build_block_r1cs, build_block_witness, build_block_zab, build_matrices,
    generate_witness_with_ab_packed_and_lincheck, maj_bit, pp_bit, prod_bit, read_prod, rip_bit,
    sum_bit, x_bit, y_bit, K, PP_BASE, PROD_BITS, USEFUL_BITS, WORD_BITS, Z_CONST_POS,
};

/// SplitMix64 PRNG, deterministic.
struct Rng(u64);
impl Rng {
    fn new(seed: u64) -> Self {
        Self(seed)
    }
    fn next_u64(&mut self) -> u64 {
        self.0 = self.0.wrapping_add(0x9E3779B97F4A7C15);
        let mut z = self.0;
        z = (z ^ (z >> 30)).wrapping_mul(0xBF58476D1CE4E5B9);
        z = (z ^ (z >> 27)).wrapping_mul(0x94D049BB133111EB);
        z ^ (z >> 31)
    }
}

/// Interesting corners + random pairs.
fn test_pairs(n_random: usize, seed: u64) -> Vec<(u64, u64)> {
    let mut pairs = vec![
        (0, 0),
        (0, u64::MAX),
        (u64::MAX, u64::MAX),
        (1, u64::MAX),
        (1u64 << 63, 3),
        (1u64 << 63, 1u64 << 63),
        (0xDEAD_BEEF_CAFE_F00D, 0x0123_4567_89AB_CDEF),
    ];
    let mut rng = Rng::new(seed);
    pairs.extend((0..n_random).map(|_| (rng.next_u64(), rng.next_u64())));
    pairs
}

/// Every slot accessor lands in its region exactly once, and the regions
/// tile [0, USEFUL_BITS) with only the declared gap.
#[test]
fn layout_is_injective() {
    assert!(USEFUL_BITS <= K);

    let mut seen = vec![false; K];
    let mut claim = |s: usize| {
        assert!(!seen[s], "slot {s} assigned twice");
        seen[s] = true;
    };
    for b in 0..WORD_BITS {
        claim(x_bit(b));
        claim(y_bit(b));
    }
    for b in 0..PROD_BITS {
        claim(prod_bit(b));
    }
    claim(Z_CONST_POS);
    for j in 0..WORD_BITS {
        for i in j..j + WORD_BITS {
            claim(pp_bit(j, i));
        }
    }
    for j in 1..WORD_BITS {
        for i in j..j + WORD_BITS {
            claim(maj_bit(j, i));
        }
        for i in j + 1..j + WORD_BITS {
            claim(sum_bit(j, i));
        }
    }
    for i in WORD_BITS..PROD_BITS - 1 {
        claim(rip_bit(i));
    }
    let n_claimed = seen.iter().filter(|&&x| x).count();
    assert_eq!(n_claimed, USEFUL_BITS - (PP_BASE - Z_CONST_POS - 1));
    assert!(
        seen[..USEFUL_BITS]
            .iter()
            .enumerate()
            .all(|(s, &x)| x || (Z_CONST_POS < s && s < PP_BASE))
    );
}

/// Row-by-row R1CS check `(A·z) ⊙ (B·z) = z` on one block.
fn satisfies_singleblock(
    a: &SparseBinaryMatrix,
    b: &SparseBinaryMatrix,
    z: &[bool],
) -> Result<(), usize> {
    for r in 0..a.rows.len() {
        let av = a.rows[r].iter().fold(false, |acc, &s| acc ^ z[s]);
        let bv = b.rows[r].iter().fold(false, |acc, &s| acc ^ z[s]);
        if (av && bv) != z[r] {
            return Err(r);
        }
    }
    Ok(())
}

/// The boolean witness satisfies the circuit and carries the right
/// full 128-bit product; flipping a product bit breaks it.
#[test]
fn witness_satisfies_and_product_correct() {
    let (a_0, b_0) = build_matrices();
    for (x, y) in test_pairs(24, 0x9E37) {
        let mut z = build_block_witness(x, y);
        assert_eq!(
            read_prod(&z),
            (x as u128) * (y as u128),
            "x={x:#x} y={y:#x}"
        );
        satisfies_singleblock(&a_0, &b_0, &z)
            .unwrap_or_else(|r| panic!("row {r} unsatisfied for x={x:#x} y={y:#x}"));
        // Tamper: flip one product bit (incl. the high half) → some row
        // must break.
        let flip = prod_bit((x ^ y) as usize % PROD_BITS);
        z[flip] = !z[flip];
        assert!(
            satisfies_singleblock(&a_0, &b_0, &z).is_err(),
            "tampered witness accepted for x={x:#x} y={y:#x}"
        );
    }
}

/// The fused word-level builder matches the boolean reference: same z,
/// and its a/b outputs equal `A_0·z` / `B_0·z`.
#[test]
fn fused_builder_matches_reference() {
    let (a_0, b_0) = build_matrices();
    const W: usize = K / 64;
    for (x, y) in test_pairs(24, 0xB16B) {
        let (mut z, mut a, mut b) = ([0u64; W], [0u64; W], [0u64; W]);
        build_block_zab(x, y, &mut z, &mut a, &mut b);

        let z_ref = build_block_witness(x, y);
        let getbit = |buf: &[u64; W], s: usize| (buf[s >> 6] >> (s & 63)) & 1 == 1;
        for s in 0..K {
            assert_eq!(getbit(&z, s), z_ref[s], "z bit {s} (x={x:#x} y={y:#x})");
            let av = a_0.rows[s].iter().fold(false, |acc, &t| acc ^ z_ref[t]);
            let bv = b_0.rows[s].iter().fold(false, |acc, &t| acc ^ z_ref[t]);
            assert_eq!(getbit(&a, s), av, "a bit {s} (x={x:#x} y={y:#x})");
            assert_eq!(getbit(&b, s), bv, "b bit {s} (x={x:#x} y={y:#x})");
        }
    }
}

/// Full-batch `BlockR1cs::satisfies` on the packed witness, incl. the
/// padding slots (const-wire pin requires them to be valid 0·0 blocks).
#[test]
fn packed_batch_satisfies() {
    let n_log = 3;
    let r1cs = build_block_r1cs(n_log);
    let muls = test_pairs(0, 0)[..6].to_vec(); // 6 muls in 8 slots → padding
    let (z, a, b, _stripe) = generate_witness_with_ab_packed_and_lincheck(&muls, n_log);
    assert!(r1cs.satisfies_packed(&z));
    assert_eq!(a, r1cs.apply_a_packed(&z));
    assert_eq!(b, r1cs.apply_b_packed(&z));
}
