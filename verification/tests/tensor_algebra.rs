use flock::field::{F128, F256};
use flock::pcs::tensor_algebra::{f256_bit, TensorAlgebra, DEGREE};

struct Rng(u64);
impl Rng {
    fn new(seed: u64) -> Self {
        Self(seed)
    }
    fn nx(&mut self) -> u64 {
        self.0 = self.0.wrapping_add(0x9E3779B97F4A7C15);
        let mut z = self.0;
        z = (z ^ (z >> 30)).wrapping_mul(0xBF58476D1CE4E5B9);
        z = (z ^ (z >> 27)).wrapping_mul(0x94D049BB133111EB);
        z ^ (z >> 31)
    }
    fn f128(&mut self) -> F128 {
        F128 {
            lo: self.nx(),
            hi: self.nx(),
        }
    }
    fn f256(&mut self) -> F256 {
        F256 {
            c0: self.f128(),
            c1: self.f128(),
        }
    }
    fn ta(&mut self) -> TensorAlgebra {
        let elems = (0..DEGREE).map(|_| self.f256()).collect();
        TensorAlgebra { elems }
    }
}

#[test]
fn transpose_involution() {
    let mut rng = Rng::new(0xC0FFEE);
    for _ in 0..10 {
        let t = rng.ta();
        assert_eq!(t.clone().transpose().transpose(), t);
    }
}

#[test]
fn transpose_bit_semantics() {
    // bit_j(elems[i]) on input becomes bit_i(elems[j]) on output.
    let mut rng = Rng::new(42);
    let original = rng.ta();
    let transposed = original.clone().transpose();

    for i in 0..DEGREE {
        for j in 0..DEGREE {
            let orig_ij = f256_bit(original.elems[i], j);
            let trans_ji = f256_bit(transposed.elems[j], i);
            assert_eq!(orig_ij, trans_ji, "transpose mismatch at (i={i}, j={j})");
        }
    }
}

#[test]
fn from_vertical_scale_vertical() {
    // from_vertical(x).scale_vertical(y) should equal from_vertical(x*y).
    let mut rng = Rng::new(123);
    for _ in 0..10 {
        let x = rng.f256();
        let y = rng.f256();
        let lhs = TensorAlgebra::from_vertical(x).scale_vertical(y);
        let rhs = TensorAlgebra::from_vertical(x * y);
        assert_eq!(lhs, rhs);
    }
}

#[test]
fn scale_horizontal_via_transpose() {
    let mut rng = Rng::new(456);
    for _ in 0..10 {
        let t = rng.ta();
        let s = rng.f256();
        let via_api = t.clone().scale_horizontal(s);
        let manual = t.transpose().scale_vertical(s).transpose();
        assert_eq!(via_api, manual);
    }
}

#[test]
fn add_is_xor_pairwise() {
    let mut rng = Rng::new(789);
    let a = rng.ta();
    let b = rng.ta();
    let sum = a.clone() + &b;
    for i in 0..DEGREE {
        assert_eq!(sum.elems[i], a.elems[i] + b.elems[i]);
    }
}

#[test]
fn add_zero_is_identity() {
    let mut rng = Rng::new(1011);
    let t = rng.ta();
    let z = TensorAlgebra::zero();
    assert_eq!(t.clone() + &z, t);
}

#[test]
fn one_from_vertical_one() {
    assert_eq!(
        TensorAlgebra::one(),
        TensorAlgebra::from_vertical(F256::one())
    );
}

#[test]
fn scale_vertical_distributes_over_add() {
    let mut rng = Rng::new(1213);
    let a = rng.ta();
    let b = rng.ta();
    let s = rng.f256();
    let lhs = (a.clone() + &b).scale_vertical(s);
    let rhs = a.scale_vertical(s) + &b.scale_vertical(s);
    assert_eq!(lhs, rhs);
}

#[test]
fn fold_vertical_with_zero_coeffs_is_zero() {
    let mut rng = Rng::new(1415);
    let t = rng.ta();
    let zeros = vec![F256::zero(); DEGREE];
    assert_eq!(t.fold_vertical(&zeros), F256::zero());
}
