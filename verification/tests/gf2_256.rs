use flock::field::gf2_256::{beta, mul_by_beta};
use flock::field::{F128, F256};

struct Rng(u64);
impl Rng {
    fn new(seed: u64) -> Self {
        Self(seed)
    }
    fn next_u64(&mut self) -> u64 {
        self.0 = self.0.wrapping_add(0x9E3779B97F4A7C15);
        let mut z = self.0;
        z = (z ^ (z >> 30)).wrapping_mul(0xBF58476D1CE4E5B9);
        z = (z ^ (z >> 27)).wrapping_mul(0x94D049BB133111EB);
        z ^ (z >> 31)
    }
    fn next_f128(&mut self) -> F128 {
        F128 {
            lo: self.next_u64(),
            hi: self.next_u64(),
        }
    }
    fn next_f256(&mut self) -> F256 {
        F256 {
            c0: self.next_f128(),
            c1: self.next_f128(),
        }
    }
}

/// `Tr_{F128/F2}(b) = Σ_{i=0}^{127} b^{2^i} ∈ {0, 1}`.
fn trace_f128(b: F128) -> F128 {
    let mut acc = F128::zero();
    let mut cur = b;
    for _ in 0..128 {
        acc = acc + cur;
        cur = cur * cur;
    }
    acc
}

/// `u² + u + β` is irreducible over F128 ⟺ `Tr(β) = 1`. This is the
/// soundness-critical invariant: a reducible polynomial would make F256 a
/// ring with zero divisors, not a field.
#[test]
fn beta_is_irreducible() {
    assert_eq!(
        trace_f128(beta()),
        F128::one(),
        "Tr(β) must be 1 for irreducibility"
    );
}

/// Search for the lowest-weight `β` with `Tr(β) = 1`. Prints the smallest
/// power `x^k` and the smallest low-bit-pattern candidates so `BETA` can be
/// chosen for a cheap mul-by-β.
#[test]
fn beta_candidate_survey() {
    // Smallest k with Tr(x^k) = 1 (β = x^k → mul-by-β is k shift+folds).
    let mut xk = F128::one();
    let mut best_pow = None;
    for k in 0..256usize {
        if trace_f128(xk) == F128::one() && best_pow.is_none() {
            best_pow = Some((k, xk));
        }
        xk = xk * F128::generator();
    }
    println!("smallest x^k with trace 1: {best_pow:?}");

    // Smallest single low-word bit pattern with trace 1.
    let mut best_lo = None;
    for lo in 1u64..=64 {
        if trace_f128(F128 { lo, hi: 0 }) == F128::one() {
            best_lo = Some(lo);
            break;
        }
    }
    println!("smallest lo (hi=0) with trace 1: {best_lo:?}");

    assert!(best_pow.is_some(), "some power of x must have trace 1");
}

/// The shift-based `mul_by_beta` equals the general F128
/// multiply `a · BETA`, across the full input range incl. high bits.
#[test]
fn mul_by_beta_matches_general() {
    let mut rng = Rng::new(0xBE7A);
    for _ in 0..512 {
        let a = rng.next_f128();
        assert_eq!(mul_by_beta(a), a * beta());
    }
    // Edge cases: the carry boundaries of the 121-bit shift.
    for &a in &[
        F128 { lo: 1, hi: 0 },      // 1·β = β
        F128 { lo: 1 << 7, hi: 0 }, // x^7·x^121 = x^128 = 0x87 (reduction)
        F128 {
            lo: u64::MAX,
            hi: 0,
        },
        F128 {
            lo: 0,
            hi: u64::MAX,
        },
        F128 {
            lo: u64::MAX,
            hi: u64::MAX,
        },
    ] {
        assert_eq!(mul_by_beta(a), a * beta(), "edge a={a:?}");
    }
}

/// `BETA` is exactly `x^121` (the documented single-bit choice), so the
/// doc comment and the `mul_by_beta` cost analysis stay honest.
#[test]
fn beta_is_x_pow_121() {
    let mut xk = F128::one();
    for _ in 0..121 {
        xk = xk * F128::generator();
    }
    assert_eq!(beta(), xk, "BETA must equal x^121");
}

#[test]
fn add_identities() {
    let mut rng = Rng::new(2);
    for _ in 0..128 {
        let a = rng.next_f256();
        assert_eq!(a + F256::zero(), a);
        assert_eq!(a + a, F256::zero());
    }
}

#[test]
fn mul_identities() {
    let mut rng = Rng::new(3);
    for _ in 0..128 {
        let a = rng.next_f256();
        assert_eq!(a * F256::zero(), F256::zero());
        assert_eq!(a * F256::one(), a);
        assert_eq!(F256::one() * a, a);
    }
}

#[test]
fn commutativity() {
    let mut rng = Rng::new(4);
    for _ in 0..256 {
        let a = rng.next_f256();
        let b = rng.next_f256();
        assert_eq!(a * b, b * a);
    }
}

#[test]
fn associativity_and_distributivity() {
    let mut rng = Rng::new(5);
    for _ in 0..256 {
        let a = rng.next_f256();
        let b = rng.next_f256();
        let c = rng.next_f256();
        assert_eq!((a * b) * c, a * (b * c));
        assert_eq!(a * (b + c), a * b + a * c);
    }
}

/// `F128 ↪ F256` is a ring homomorphism: it respects + and ×, so base-field
/// arithmetic is preserved under the embedding.
#[test]
fn embedding_is_homomorphism() {
    let mut rng = Rng::new(6);
    for _ in 0..256 {
        let a = rng.next_f128();
        let b = rng.next_f128();
        let ea = F256::from_f128(a);
        let eb = F256::from_f128(b);
        assert_eq!(ea + eb, F256::from_f128(a + b));
        assert_eq!(
            ea * eb,
            F256::from_f128(a * b),
            "embedding must respect mul"
        );
        // Embedded ONE / ZERO line up.
        assert_eq!(F256::from_f128(F128::one()), F256::one());
        assert_eq!(F256::from_f128(F128::zero()), F256::zero());
    }
}

/// `mul_f128` (and the `F128 * F256` impl) agree with the full F256 mul
/// after embedding the scalar.
#[test]
fn mul_f128_matches_full_mul() {
    let mut rng = Rng::new(7);
    for _ in 0..256 {
        let a = rng.next_f256();
        let s = rng.next_f128();
        let expected = a * F256::from_f128(s);
        assert_eq!(a.mul_f128(s), expected);
        assert_eq!(s * a, expected);
    }
}

#[test]
fn conjugate_is_involution_and_frobenius() {
    let mut rng = Rng::new(8);
    for _ in 0..256 {
        let a = rng.next_f256();
        // conj is an involution.
        assert_eq!(a.conjugate().conjugate(), a);
        // conj is the Frobenius x ↦ x^{2^128}: it is a field automorphism,
        // so conj(a·b) = conj(a)·conj(b).
        let b = rng.next_f256();
        assert_eq!((a * b).conjugate(), a.conjugate() * b.conjugate());
        // Frobenius fixes exactly the base field F128.
        let base = F256::from_f128(rng.next_f128());
        assert_eq!(base.conjugate(), base);
    }
}

#[test]
fn norm_matches_product_with_conjugate() {
    let mut rng = Rng::new(9);
    for _ in 0..256 {
        let a = rng.next_f256();
        let n = a * a.conjugate();
        // The norm lives in the base field (u-coefficient is zero).
        assert_eq!(n.c1, F128::zero(), "norm must lie in F128");
        assert_eq!(n, F256::from_f128(a.norm()));
    }
}

#[test]
fn inverse_roundtrip() {
    let mut rng = Rng::new(10);
    for _ in 0..256 {
        let a = rng.next_f256();
        if a.is_zero() {
            continue;
        }
        assert_eq!(a * a.inv(), F256::one());
        assert_eq!(a.inv() * a, F256::one());
    }
}

/// `u` is a genuine root of `u² + u + β = 0`, i.e. `u² = u + β`. The most
/// direct check that the reduction baked into `mul` matches the defining
/// polynomial.
#[test]
fn u_satisfies_minimal_polynomial() {
    let u = F256 {
        c0: F128::zero(),
        c1: F128::one(),
    };
    let u2 = u * u;
    let u_plus_beta = u + F256::from_f128(beta());
    assert_eq!(u2, u_plus_beta, "u² must equal u + β");
}

/// F256 has odd multiplicative structure: `a^(2^256) = a` (Frobenius^256 =
/// identity). Cheap surrogate: `a^(2^256 - 1) = 1` for nonzero a, checked
/// here as `a · a^(2^256 - 2) = 1` against the norm-based inverse.
#[test]
fn frobenius_256_is_identity_on_squares() {
    let mut rng = Rng::new(11);
    for _ in 0..32 {
        let a = rng.next_f256();
        // a^{2^256} = (a^{2^128})^{2^128} = conj(conj(a)) = a.
        // conj = Frobenius^128, so applying it twice = Frobenius^256.
        assert_eq!(a.conjugate().conjugate(), a);
    }
}
