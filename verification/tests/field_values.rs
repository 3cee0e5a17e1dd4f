use flock::challenger::{sample_f256_vec, Challenger, RandomChallenger};
use flock::field::gf2_128::ghash_reduce;
use flock::field::gf2_256::beta;
use flock::field::phi8::phi8;
use flock::field::{mul_by_x, F128, F256};
use flock::zerocheck::multilinear::lagrange_weights_naive;
use flock::zerocheck::univariate_skip::build_eq;
use flock::zerocheck::PaddingSpec;
use std::ops::{AddAssign, MulAssign};

fn f128(lo: u64, hi: u64) -> F128 {
    F128 { lo, hi }
}

fn f256(w0: u64, w1: u64, w2: u64, w3: u64) -> F256 {
    F256::new(f128(w0, w1), f128(w2, w3))
}

fn a() -> F256 {
    f256(0xfedcba9876543210, 0x0123456789abcdef, 0x8899aabbccddeeff, 0x0011223344556677)
}

fn b() -> F256 {
    f256(0x0123456789abcdef, 0xdeadbeefcafef00d, 0x8796a5b4c3d2e1f0, 0x0f1e2d3c4b5a6978)
}

#[test]
fn product_has_known_value() {
    assert_eq!(
        a() * b(),
        f256(0xd70a32c7400bb130, 0xb0c87c36bb6e9404, 0x1c544d5f1e795068, 0x431f9c7dd7cbca19)
    );
    assert_eq!(a().c0 * b().c0, f128(0x15f7d35a39ed4b9c, 0xb374dcea83c92fc8));
}

#[test]
fn inverse_has_known_value() {
    assert_eq!(
        a().inv(),
        f256(0x3cb07183d2d90ef8, 0xd9c33aea62aaf9a6, 0x6ba902c024c1f78b, 0xad8b7310e05619ee)
    );
    assert_eq!(a().c0.inv(), f128(0xe7a4a93e6b40984a, 0xac20a8a9f088c918));
    assert_eq!(F256::one().inv(), F256::one());
}

#[test]
fn norm_and_conjugate_have_known_values() {
    assert_eq!(a().norm(), f128(0x79a57f9fe7c0a1fc, 0x126387fdb3316e96));
    assert_eq!(
        a().conjugate(),
        f256(0x7645_1023_ba89_dcef, 0x0132_6754_cdfe_ab98, 0x8899aabbccddeeff, 0x0011223344556677)
    );
}

#[test]
fn conjugate_is_128_squarings() {
    let mut s = a();
    for _ in 0..128 {
        s = s * s;
    }
    assert_eq!(s, a().conjugate());
    for _ in 0..128 {
        s = s * s;
    }
    assert_eq!(s, a());
}

#[test]
fn assignment_forms_agree() {
    let mut s = a();
    s.add_assign(b());
    assert_eq!(s, a() + b());
    let mut p = a();
    p.mul_assign(b());
    assert_eq!(p, a() * b());
    let mut q = a().c0;
    q.add_assign(b().c0);
    q.mul_assign(b().c1);
    assert_eq!(q, (a().c0 + b().c0) * b().c1);
    assert_eq!(F256::default(), F256::zero());
}

#[test]
fn zero_and_one_are_told_apart() {
    assert!(F256::zero().is_zero());
    assert!(!F256::one().is_zero());
    assert!(!F256::new(F128::zero(), F128::one()).is_zero());
    assert!(F128::zero().is_zero());
    assert!(!f128(0, 1).is_zero());
}

#[test]
fn reduction_folds_the_upper_words() {
    // x^128 = x^7 + x^2 + x + 1, x^255 = x^127·x^128.
    assert_eq!(ghash_reduce(5, 6, 0, 0), f128(5, 6));
    assert_eq!(ghash_reduce(0, 0, 1, 0), f128(0x87, 0));
    assert_eq!(mul_by_x(f128(0, 1 << 63)), f128(0x87, 0));
    assert_eq!(mul_by_x(f128(3, 0)), f128(6, 0));
    let mut x = f128(0x87, 0);
    for _ in 0..127 {
        x = mul_by_x(x);
    }
    assert_eq!(ghash_reduce(0, 0, 0, 1 << 63), x);
}

#[test]
fn phi8_is_the_embedding_of_the_byte_field() {
    let g = phi8(2);
    assert_eq!(g, f128(0x6b8330483c2e9849, 0x0dcb364640a222fe));
    // g is a root of x^8 + x^4 + x^3 + x + 1, and 2^k goes to g^k.
    let mut p = F128::one();
    for k in 0..8 {
        assert_eq!(phi8(1 << k), p);
        p = p * g;
    }
    assert_eq!(p, phi8(16) + phi8(8) + phi8(2) + phi8(1));
    // 0x53 and 0xca are inverse to each other in the byte field.
    assert_eq!(phi8(0x53) * phi8(0xca), F128::one());
    assert_eq!(phi8(0xff), f128(0x990483806bffbe0d, 0x71af641f08dbd1a0));
    for v in 0..=255u8 {
        assert_eq!(phi8(v ^ 0x35), phi8(v) + phi8(0x35));
    }
}

#[test]
fn lagrange_weights_interpolate() {
    // Two nodes, 0 and 1: the weights at z are 1 + z and z.
    let z = a();
    assert_eq!(lagrange_weights_naive(1, z), vec![F256::one() + z, z]);
    assert_eq!(lagrange_weights_naive(0, z), vec![F256::one()]);
    for j in 0..64usize {
        let w = lagrange_weights_naive(6, F256::from_f128(phi8(j as u8)));
        assert_eq!(w.len(), 64);
        for (i, &v) in w.iter().enumerate() {
            assert_eq!(v, if i == j { F256::one() } else { F256::zero() });
        }
    }
}

#[test]
fn equality_tensor_has_known_entries() {
    let (r, s) = (a(), b());
    let one = F256::one();
    assert_eq!(build_eq(&[]), vec![one]);
    assert_eq!(
        build_eq(&[r, s]),
        vec![(one + r) * (one + s), r * (one + s), (one + r) * s, r * s]
    );
    let t = build_eq(&[r, s, r * s, r + s]);
    let mut total = F256::zero();
    for &e in &t {
        total = total + e;
    }
    assert_eq!(total, one);
}

#[test]
fn beta_has_trace_one_and_no_root() {
    assert_eq!(beta(), f128(0, 1 << 57));
    for v in [F128::zero(), F128::one(), a().c0, b().c0, beta()] {
        assert_ne!(v * v + v, beta());
    }
}

#[test]
fn only_two_powers_have_trace_one() {
    let mut x = F128::one();
    for k in 0..128 {
        let mut trace = F128::zero();
        let mut t = x;
        for _ in 0..128 {
            trace = trace + t;
            t = t * t;
        }
        assert_eq!(trace, if k == 121 || k == 127 { F128::one() } else { F128::zero() });
        x = mul_by_x(x);
    }
}

#[test]
fn random_challenger_follows_its_generator() {
    let mut ch = RandomChallenger::new(0);
    ch.observe_label(b"ignored");
    let v = ch.sample_f256();
    assert_eq!(
        v,
        f256(0xe220a8397b1dcdaf, 0x6e789e6aa1b965f4, 0x06c45d188009454f, 0xf88bb8a8724c81ec)
    );
    let mut one = RandomChallenger::new(77);
    let mut two = RandomChallenger::new(77);
    two.observe_f256_slice(&[v]);
    let drawn = sample_f256_vec(&mut one, 3);
    assert_eq!(drawn, vec![two.sample_f256(), two.sample_f256(), two.sample_f256()]);
    assert_ne!(drawn[0], drawn[1]);
}

#[test]
fn dense_padding_uses_every_bit() {
    let p = PaddingSpec::dense(10);
    assert_eq!((p.k_log, p.useful_bits_per_block), (10, 1024));
    assert_eq!(PaddingSpec::dense(0).useful_bits_per_block, 1);
    assert_eq!(PaddingSpec::dense(72).useful_bits_per_block, usize::MAX);
}
