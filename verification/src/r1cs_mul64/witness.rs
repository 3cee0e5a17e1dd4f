//! The witness of one block, wire by wire.

use crate::field::bits;
use crate::r1cs_mul64::adder;
use crate::r1cs_mul64::circuit;
use crate::r1cs_mul64::layout;
use crate::r1cs_mul64::layout::{
    prod_bit, K, MAJ_BASE, PP_BASE, PROD_BASE, PROD_BITS, RIP_BASE, SUM_BASE, USEFUL_BITS,
    WORD_BITS, Y_BASE, Z_CONST_POS,
};
use vstd::arithmetic::power2::{
    lemma2_to64, lemma2_to64_rest, lemma_pow2_adds, lemma_pow2_unfold, pow2,
};
use vstd::prelude::*;

verus! {

/// Bit `t` of a word.
fn bit(w: u64, t: usize) -> (b: bool)
    requires
        t < 64,
    ensures
        b == bits::word_bit(w, t as int),
{
    (w >> (t as u64)) & 1 == 1
}

/// Bit `i` of row `j` of the partial products.
fn pp_value(x: u64, y: u64, j: usize, i: usize) -> (b: bool)
    requires
        j < 64,
        i < 128,
    ensures
        b == adder::row_bit(x, y, j as int, i as int),
{
    j <= i && i < j + 64 && bit(x, i - j) && bit(y, j)
}

/// The sums and carries of every round, and the ripple carries.
struct Adders {
    sums: Vec<Vec<bool>>,
    carries: Vec<Vec<bool>>,
    ripples: Vec<bool>,
}

impl Adders {
    /// Bit `i` of the sums after round `j`, and of the carries, for the first `n`
    /// rounds.
    spec fn rounds_hold(self, x: u64, y: u64, n: int) -> bool {
        &&& self.sums@.len() == n
        &&& self.carries@.len() == n
        &&& forall|j: int|
            0 <= j < n ==> {
                &&& (#[trigger] self.sums@[j])@.len() == 128
                &&& forall|i: int|
                    0 <= i < 128 ==> #[trigger] self.sums@[j]@[i] == adder::sum_after(
                        x,
                        y,
                        j as nat,
                        i,
                    )
            }
        &&& forall|j: int|
            0 <= j < n ==> {
                &&& (#[trigger] self.carries@[j])@.len() == 128
                &&& forall|i: int|
                    0 <= i < 128 ==> #[trigger] self.carries@[j]@[i] == adder::carry_after(
                        x,
                        y,
                        j as nat,
                        i,
                    )
            }
    }

    spec fn holds(self, x: u64, y: u64) -> bool {
        &&& self.rounds_hold(x, y, 64)
        &&& self.ripples@.len() == 128
        &&& forall|i: int| 0 <= i < 128 ==> #[trigger] self.ripples@[i] == adder::ripple(x, y, i)
    }
}

/// The sums and carries after round `j`, from those after round `j − 1`.
fn next_round(x: u64, y: u64, j: usize, sums: &Vec<bool>, carries: &Vec<bool>) -> (r: (
    Vec<bool>,
    Vec<bool>,
))
    requires
        1 <= j < 64,
        sums@.len() == 128,
        carries@.len() == 128,
        forall|i: int|
            0 <= i < 128 ==> #[trigger] sums@[i] == adder::sum_after(x, y, (j - 1) as nat, i),
        forall|i: int|
            0 <= i < 128 ==> #[trigger] carries@[i] == adder::carry_after(x, y, (j - 1) as nat, i),
    ensures
        r.0@.len() == 128,
        r.1@.len() == 128,
        forall|i: int| 0 <= i < 128 ==> #[trigger] r.0@[i] == adder::sum_after(x, y, j as nat, i),
        forall|i: int|
            0 <= i < 128 ==> #[trigger] r.1@[i] == adder::carry_after(x, y, j as nat, i),
{
    let mut s: Vec<bool> = Vec::with_capacity(128);
    let mut c: Vec<bool> = Vec::with_capacity(129);
    c.push(false);
    let mut i: usize = 0;
    while i < 127
        invariant
            i <= 127,
            1 <= j < 64,
            sums@.len() == 128,
            carries@.len() == 128,
            s@.len() == i,
            c@.len() == i + 1,
            forall|i: int|
                0 <= i < 128 ==> #[trigger] sums@[i] == adder::sum_after(x, y, (j - 1) as nat, i),
            forall|i: int|
                0 <= i < 128 ==> #[trigger] carries@[i] == adder::carry_after(
                    x,
                    y,
                    (j - 1) as nat,
                    i,
                ),
            forall|k: int| 0 <= k < i ==> #[trigger] s@[k] == adder::sum_after(x, y, j as nat, k),
            forall|k: int|
                0 <= k <= i ==> #[trigger] c@[k] == adder::carry_after(x, y, j as nat, k),
        decreases 127 - i,
    {
        let p = pp_value(x, y, j, i);
        let (sv, cv) = (sums[i], carries[i]);
        let m = (sv != cv) && (sv != p);
        s.push((sv != cv) != p);
        c.push(m != sv);
        i = i + 1;
    }
    let p = pp_value(x, y, j, 127);
    s.push((sums[127] != carries[127]) != p);
    (s, c)
}

/// Runs all adders.
fn run_adders(x: u64, y: u64) -> (r: Adders)
    ensures
        r.holds(x, y),
{
    let mut r = Adders { sums: Vec::new(), carries: Vec::new(), ripples: Vec::new() };
    let mut first: Vec<bool> = Vec::with_capacity(128);
    let mut none: Vec<bool> = Vec::with_capacity(128);
    let mut i: usize = 0;
    while i < 128
        invariant
            i <= 128,
            first@.len() == i,
            none@.len() == i,
            forall|k: int| 0 <= k < i ==> #[trigger] first@[k] == adder::sum_after(x, y, 0, k),
            forall|k: int| 0 <= k < i ==> #[trigger] none@[k] == adder::carry_after(x, y, 0, k),
        decreases 128 - i,
    {
        first.push(pp_value(x, y, 0, i));
        none.push(false);
        i = i + 1;
    }
    r.sums.push(first);
    r.carries.push(none);
    let mut j: usize = 1;
    while j < 64
        invariant
            1 <= j <= 64,
            r.rounds_hold(x, y, j as int),
            r.ripples@.len() == 0,
        decreases 64 - j,
    {
        let ghost prev = r;
        proof {
            assert(r.sums@[j - 1]@.len() == 128);
            assert(r.carries@[j - 1]@.len() == 128);
        }
        let (s, c) = next_round(x, y, j, &r.sums[j - 1], &r.carries[j - 1]);
        r.sums.push(s);
        r.carries.push(c);
        proof {
            assert forall|k: int| 0 <= k < j + 1 implies {
                &&& (#[trigger] r.sums@[k])@.len() == 128
                &&& forall|i: int|
                    0 <= i < 128 ==> #[trigger] r.sums@[k]@[i] == adder::sum_after(
                        x,
                        y,
                        k as nat,
                        i,
                    )
            } by {
                if k < j {
                    assert(r.sums@[k] == prev.sums@[k]);
                }
            }
            assert forall|k: int| 0 <= k < j + 1 implies {
                &&& (#[trigger] r.carries@[k])@.len() == 128
                &&& forall|i: int|
                    0 <= i < 128 ==> #[trigger] r.carries@[k]@[i] == adder::carry_after(
                        x,
                        y,
                        k as nat,
                        i,
                    )
            } by {
                if k < j {
                    assert(r.carries@[k] == prev.carries@[k]);
                }
            }
        }
        j = j + 1;
    }
    r.ripples.push(false);
    let mut k: usize = 0;
    while k < 127
        invariant
            k <= 127,
            r.rounds_hold(x, y, 64),
            r.ripples@.len() == k + 1,
            forall|i: int| 0 <= i <= k ==> #[trigger] r.ripples@[i] == adder::ripple(x, y, i),
        decreases 127 - k,
    {
        proof {
            assert(r.sums@[63]@.len() == 128);
            assert(r.carries@[63]@.len() == 128);
            assert(r.sums@[63]@[k as int] == adder::sum_after(x, y, 63, k as int));
            assert(r.carries@[63]@[k as int] == adder::carry_after(x, y, 63, k as int));
        }
        let (sv, cv, cr) = (r.sums[63][k], r.carries[63][k], r.ripples[k]);
        let m = (sv != cv) && (sv != cr);
        r.ripples.push(m != sv);
        k = k + 1;
    }
    r
}

/// The value of wire `s`, from the adders.
fn wire_value(x: u64, y: u64, r: &Adders, s: usize) -> (b: bool)
    requires
        s < K,
        r.holds(x, y),
    ensures
        b == circuit::witness_bit(x, y, s as int),
{
    proof {
        layout::lemma_slots_are_used(s as int);
    }
    if s < Y_BASE {
        bit(x, s)
    } else if s < PROD_BASE {
        bit(y, s - Y_BASE)
    } else if s < Z_CONST_POS {
        let b: usize = s - PROD_BASE;
        proof {
            adder::lemma_product(x, y);
            assert(adder::result_bit(x, y, b as int) == adder::product_bit(x, y, b as int));
            assert(r.sums@[63]@[b as int] == adder::sum_after(x, y, 63, b as int));
            assert(r.carries@[63]@[b as int] == adder::carry_after(x, y, 63, b as int));
        }
        (r.sums[63][b] != r.carries[63][b]) != r.ripples[b]
    } else if s == Z_CONST_POS {
        true
    } else if s < PP_BASE || s >= USEFUL_BITS {
        false
    } else if s < MAJ_BASE {
        let j: usize = (s - PP_BASE) / 64;
        let i: usize = j + (s - PP_BASE) % 64;
        pp_value(x, y, j, i)
    } else if s < SUM_BASE {
        let j: usize = (s - MAJ_BASE) / 64 + 1;
        let i: usize = j + (s - MAJ_BASE) % 64;
        proof {
            assert(r.sums@[j - 1]@[i as int] == adder::sum_after(x, y, (j - 1) as nat, i as int));
            assert(r.carries@[j - 1]@[i as int] == adder::carry_after(
                x,
                y,
                (j - 1) as nat,
                i as int,
            ));
        }
        let sv = r.sums[j - 1][i];
        (sv != r.carries[j - 1][i]) && (sv != pp_value(x, y, j, i))
    } else if s < RIP_BASE {
        let j: usize = (s - SUM_BASE) / 63 + 1;
        let i: usize = j + 1 + (s - SUM_BASE) % 63;
        proof {
            assert(r.sums@[j as int]@[i as int] == adder::sum_after(x, y, j as nat, i as int));
        }
        r.sums[j][i]
    } else {
        let i: usize = s - RIP_BASE + WORD_BITS;
        proof {
            assert(r.sums@[63]@[i as int] == adder::sum_after(x, y, 63, i as int));
            assert(r.carries@[63]@[i as int] == adder::carry_after(x, y, 63, i as int));
        }
        let sv = r.sums[63][i];
        (sv != r.carries[63][i]) && (sv != r.ripples[i])
    }
}

/// The witness of one block as booleans. The prover's path is the word-level
/// [`build_block_zab`](crate::r1cs_mul64::packed::build_block_zab).
pub fn build_block_witness(x: u64, y: u64) -> (z: Vec<bool>)
    ensures
        z@ == Seq::new(K as nat, |s: int| circuit::witness_bit(x, y, s)),
        z@.len() == 16384,
        forall|b: int|
            0 <= b < 64 ==> #[trigger] z@[b] == ((x >> (b as u64)) & 1 == 1) && z@[64 + b] == ((y
                >> (b as u64)) & 1 == 1),
        adder::value(|b: int| z@[128 + b], 128) == x * y,
        z@[256],
{
    let adders = run_adders(x, y);
    let ghost all = Seq::new(K as nat, |s: int| circuit::witness_bit(x, y, s));
    let mut z: Vec<bool> = Vec::with_capacity(K);
    let mut s: usize = 0;
    while s < K
        invariant
            s <= K,
            adders.holds(x, y),
            all == Seq::new(K as nat, |s: int| circuit::witness_bit(x, y, s)),
            z@ == all.take(s as int),
        decreases K - s,
    {
        z.push(wire_value(x, y, &adders, s));
        proof {
            assert(z@ =~= all.take(s + 1));
        }
        s = s + 1;
    }
    proof {
        assert(z@ =~= all);
        lemma_read_product(x, y);
    }
    z
}

/// The number that the product bits of a block stand for.
pub open spec fn product_of(z: Seq<bool>) -> nat {
    adder::value(|b: int| z[128 + b], 128)
}

/// Reads the 128-bit product out of the witness of a block.
pub fn read_prod(z: &[bool]) -> (p: u128)
    requires
        z@.len() >= 256,
    ensures
        p == product_of(z@),
        p == adder::value(|b: int| z@[128 + b], 128),
{
    let mut p: u128 = 0;
    let mut b: usize = PROD_BITS;
    let ghost f = |b: int| z@[128 + b];
    proof {
        lemma2_to64_rest();
        lemma_pow2_adds(64, 64);
    }
    // p holds the bits from b on.
    while b > 0
        invariant
            b <= 128,
            z@.len() >= 256,
            f == (|b: int| z@[128 + b]),
            adder::value(f, 128) == adder::value(f, b as nat) + pow2(b as nat) * p,
            pow2(b as nat) * p < pow2(128),
            pow2(128) == u128::MAX + 1,
        decreases b,
    {
        let ghost (old_p, old_b) = (p, b);
        proof {
            lemma_pow2_unfold(b as nat);
            let (h, q) = (pow2((b - 1) as nat) as int, p as int);
            assert((2 * h) * q == h * (2 * q)) by (nonlinear_arith);
            assert(h * (2 * q + 1) == h * (2 * q) + h) by (nonlinear_arith);
            assert(h >= 1) by {
                vstd::arithmetic::power2::lemma_pow2_pos((b - 1) as nat);
            }
            assert(h * (2 * q) >= 2 * q) by (nonlinear_arith)
                requires
                    h >= 1,
                    q >= 0,
            ;
            assert(adder::value(f, b as nat) == adder::value(f, (b - 1) as nat) + (if f(b - 1) {
                pow2((b - 1) as nat)
            } else {
                0nat
            }));
        }
        b = b - 1;
        let one: u128 = if z[prod_bit(b)] {
            1
        } else {
            0
        };
        proof {
            adder::lemma_value_below(f, 128);
        }
        p = 2 * p + one;
    }
    proof {
        lemma2_to64();
        assert(pow2(0) * p == p);
    }
    p
}

/// The product that is read from the witness of `x·y` is `x·y`.
pub proof fn lemma_read_product(x: u64, y: u64)
    ensures
        product_of(Seq::new(K as nat, |s: int| circuit::witness_bit(x, y, s))) == x * y,
{
    let z = Seq::new(K as nat, |s: int| circuit::witness_bit(x, y, s));
    let f = |b: int| z[128 + b];
    let g = |b: int| adder::product_bit(x, y, b);
    assert forall|b: int| 0 <= b < 128 implies #[trigger] f(b) == g(b) by {
        layout::lemma_slot(layout::Wire::Prod(b));
    }
    adder::lemma_product_value(x, y, f);
}

} // verus!
