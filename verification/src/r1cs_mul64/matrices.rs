//! The constraint matrices of one block.

use crate::r1cs;
use crate::r1cs::{xor_sup, SparseBinaryMatrix};
use crate::r1cs_mul64::circuit;
use crate::r1cs_mul64::layout;
use crate::r1cs_mul64::layout::{
    maj_bit, pp_bit, prod_bit, rip_bit, sum_bit, x_bit, y_bit, Wire, K, MAJ_BASE, PP_BASE,
    PROD_BASE, RIP_BASE, SUM_BASE, USEFUL_BITS, WORD_BITS, Z_CONST_POS,
};
use vstd::prelude::*;

verus! {

/// The row lists its columns in order and computes the linear form.
pub open spec fn computes(row: Seq<usize>, form: spec_fn(spec_fn(int) -> bool) -> bool) -> bool {
    &&& r1cs::ascending(row)
    &&& r1cs::bounded(row, K as int)
    &&& forall|z: spec_fn(int) -> bool| #[trigger] r1cs::row_parity(z, row) == form(z)
}

fn empty() -> (r: Vec<usize>)
    ensures
        r@.len() <= 0,
        computes(r@, |z: spec_fn(int) -> bool| false),
{
    Vec::new()
}

fn single(s: usize) -> (r: Vec<usize>)
    requires
        s < K,
    ensures
        r@.len() <= 1,
        computes(r@, |z: spec_fn(int) -> bool| z(s as int)),
{
    let mut r: Vec<usize> = Vec::new();
    r.push(s);
    proof {
        assert forall|z: spec_fn(int) -> bool| #[trigger]
            r1cs::row_parity(z, r@) == z(s as int) by {
            assert(r@.drop_last().len() == 0);
            assert(r1cs::row_parity(z, r@.drop_last()) == false);
        }
    }
    r
}

/// The columns of the running sum at bit `i` after round `j`.
fn sum_sup(j: usize, i: usize) -> (r: Vec<usize>)
    requires
        j < 64,
        j <= i < 128,
    ensures
        r@.len() <= 1,
        computes(r@, |z: spec_fn(int) -> bool| circuit::sum_form(z, j as int, i as int)),
{
    if i >= j + WORD_BITS {
        return empty();
    }
    proof {
        layout::lemma_slot(circuit::sum_wire(j as int, i as int));
    }
    let slot: usize = if j == 0 {
        pp_bit(0, i)
    } else if i == j {
        prod_bit(i)
    } else {
        sum_bit(j, i)
    };
    single(slot)
}

/// The columns of the pending carry into bit `i` after round `j`.
fn carry_sup(j: usize, i: usize) -> (r: Vec<usize>)
    requires
        j < 64,
        j < i < 128,
    ensures
        r@.len() <= 2,
        computes(r@, |z: spec_fn(int) -> bool| circuit::carry_form(z, j as int, i as int)),
{
    if j == 0 || i > j + WORD_BITS {
        return empty();
    }
    proof {
        layout::lemma_slot(Wire::Maj(j as int, i - 1));
    }
    let m = single(maj_bit(j, i - 1));
    let s = sum_sup(j - 1, i - 1);
    xor_sup(&m, &s, Ghost(K as int))
}

/// The columns of the ripple carry into bit `i`.
fn ripple_sup(i: usize) -> (r: Vec<usize>)
    requires
        64 <= i < 128,
    ensures
        r@.len() <= 2,
        computes(r@, |z: spec_fn(int) -> bool| circuit::ripple_form(z, i as int)),
{
    if i == WORD_BITS {
        return empty();
    }
    proof {
        layout::lemma_slot(Wire::Rip(i - 1));
    }
    let m = single(rip_bit(i - 1));
    let s = sum_sup(63, i - 1);
    xor_sup(&m, &s, Ghost(K as int))
}

/// The columns of a full adder's sum: running sum, pending carry and partial
/// product of round `j` at bit `i`.
fn full_sum_sup(j: usize, i: usize) -> (r: Vec<usize>)
    requires
        1 <= j < 64,
        j <= i < j + 64,
    ensures
        r@.len() <= 4,
        computes(
            r@,
            |z: spec_fn(int) -> bool|
                (circuit::sum_form(z, j - 1, i as int) != circuit::carry_form(z, j - 1, i as int))
                    != z(Wire::Pp(j as int, i as int).slot()),
        ),
{
    let s = sum_sup(j - 1, i);
    let c = carry_sup(j - 1, i);
    let sc = xor_sup(&s, &c, Ghost(K as int));
    proof {
        layout::lemma_slot(Wire::Pp(j as int, i as int));
    }
    let p = single(pp_bit(j, i));
    xor_sup(&sc, &p, Ghost(K as int))
}

/// Row `s` of `A_0`.
fn a_row(s: usize) -> (r: Vec<usize>)
    requires
        s < K,
    ensures
        r@.len() <= 5,
        computes(r@, |z: spec_fn(int) -> bool| circuit::a_form(z, s as int)),
{
    proof {
        layout::lemma_slots_are_used(s as int);
    }
    if s < PROD_BASE || s == Z_CONST_POS {
        single(s)
    } else if s < Z_CONST_POS {
        let b: usize = s - PROD_BASE;
        if b == 0 {
            single(pp_bit(0, 0))
        } else if b < WORD_BITS {
            full_sum_sup(b, b)
        } else {
            let sum = sum_sup(63, b);
            let c = carry_sup(63, b);
            let sc = xor_sup(&sum, &c, Ghost(K as int));
            let cr = ripple_sup(b);
            xor_sup(&sc, &cr, Ghost(K as int))
        }
    } else if s < PP_BASE || s >= USEFUL_BITS {
        empty()
    } else if s < MAJ_BASE {
        let j: usize = (s - PP_BASE) / 64;
        let i: usize = j + (s - PP_BASE) % 64;
        single(x_bit(i - j))
    } else if s < SUM_BASE {
        let j: usize = (s - MAJ_BASE) / 64 + 1;
        let i: usize = j + (s - MAJ_BASE) % 64;
        let sum = sum_sup(j - 1, i);
        let c = carry_sup(j - 1, i);
        xor_sup(&sum, &c, Ghost(K as int))
    } else if s < RIP_BASE {
        let j: usize = (s - SUM_BASE) / 63 + 1;
        let i: usize = j + 1 + (s - SUM_BASE) % 63;
        full_sum_sup(j, i)
    } else {
        let i: usize = s - RIP_BASE + WORD_BITS;
        let sum = sum_sup(63, i);
        let c = carry_sup(63, i);
        xor_sup(&sum, &c, Ghost(K as int))
    }
}

/// Row `s` of `B_0`.
fn b_row(s: usize) -> (r: Vec<usize>)
    requires
        s < K,
    ensures
        r@.len() <= 3,
        computes(r@, |z: spec_fn(int) -> bool| circuit::b_form(z, s as int)),
{
    proof {
        layout::lemma_slots_are_used(s as int);
    }
    if s <= Z_CONST_POS {
        single(Z_CONST_POS)
    } else if s < PP_BASE || s >= USEFUL_BITS {
        empty()
    } else if s < MAJ_BASE {
        let j: usize = (s - PP_BASE) / 64;
        single(y_bit(j))
    } else if s < SUM_BASE {
        let j: usize = (s - MAJ_BASE) / 64 + 1;
        let i: usize = j + (s - MAJ_BASE) % 64;
        let sum = sum_sup(j - 1, i);
        proof {
            layout::lemma_slot(Wire::Pp(j as int, i as int));
        }
        let p = single(pp_bit(j, i));
        xor_sup(&sum, &p, Ghost(K as int))
    } else if s < RIP_BASE {
        single(Z_CONST_POS)
    } else {
        let i: usize = s - RIP_BASE + WORD_BITS;
        let sum = sum_sup(63, i);
        let cr = ripple_sup(i);
        xor_sup(&sum, &cr, Ghost(K as int))
    }
}

/// The matrix has `K` rows and columns, its rows compute the forms, and none has
/// more than five columns.
pub open spec fn is_matrix(
    m: SparseBinaryMatrix,
    form: spec_fn(spec_fn(int) -> bool, int) -> bool,
) -> bool {
    &&& m.num_rows == K
    &&& m.num_cols == K
    &&& m.rows@.len() == K
    &&& forall|s: int|
        0 <= s < K ==> {
            &&& computes((#[trigger] m.rows@[s])@, |z: spec_fn(int) -> bool| form(z, s))
            &&& m.rows@[s]@.len() <= 5
        }
}

/// Builds `(A_0, B_0)` for one block; `C_0` is the identity. Every row lists its
/// columns in ascending order.
pub fn build_matrices() -> (ab: (SparseBinaryMatrix, SparseBinaryMatrix))
    ensures
        is_matrix(ab.0, |z: spec_fn(int) -> bool, s: int| circuit::a_form(z, s)),
        is_matrix(ab.1, |z: spec_fn(int) -> bool, s: int| circuit::b_form(z, s)),
        ab.0.rows@.len() == 16384,
        ab.1.rows@.len() == 16384,
        forall|s: int, z: spec_fn(int) -> bool|
            0 <= s < 16384 ==> #[trigger] r1cs::row_parity(z, ab.0.rows@[s]@) == circuit::a_form(
                z,
                s,
            ),
        forall|s: int, z: spec_fn(int) -> bool|
            0 <= s < 16384 ==> #[trigger] r1cs::row_parity(z, ab.1.rows@[s]@) == circuit::b_form(
                z,
                s,
            ),
        forall|s: int|
            0 <= s < 16384 ==> {
                &&& (#[trigger] ab.0.rows@[s])@.len() <= 5
                &&& forall|i: int|
                    0 <= i < ab.0.rows@[s]@.len() ==> #[trigger] ab.0.rows@[s]@[i] < 16384
                &&& forall|i: int, j: int|
                    0 <= i < j < ab.0.rows@[s]@.len() ==> #[trigger] ab.0.rows@[s]@[i]
                        < #[trigger] ab.0.rows@[s]@[j]
            },
        forall|s: int|
            0 <= s < 16384 ==> {
                &&& (#[trigger] ab.1.rows@[s])@.len() <= 5
                &&& forall|i: int|
                    0 <= i < ab.1.rows@[s]@.len() ==> #[trigger] ab.1.rows@[s]@[i] < 16384
                &&& forall|i: int, j: int|
                    0 <= i < j < ab.1.rows@[s]@.len() ==> #[trigger] ab.1.rows@[s]@[i]
                        < #[trigger] ab.1.rows@[s]@[j]
            },
        ab.0.num_rows == 16384,
        ab.0.num_cols == 16384,
        ab.1.num_rows == 16384,
        ab.1.num_cols == 16384,
{
    let mut a_rows: Vec<Vec<usize>> = Vec::with_capacity(K);
    let mut b_rows: Vec<Vec<usize>> = Vec::with_capacity(K);
    let mut s: usize = 0;
    while s < K
        invariant
            s <= K,
            a_rows@.len() == s,
            b_rows@.len() == s,
            forall|t: int|
                0 <= t < s ==> {
                    &&& computes(
                        (#[trigger] a_rows@[t])@,
                        |z: spec_fn(int) -> bool| circuit::a_form(z, t),
                    )
                    &&& a_rows@[t]@.len() <= 5
                },
            forall|t: int|
                0 <= t < s ==> {
                    &&& computes(
                        (#[trigger] b_rows@[t])@,
                        |z: spec_fn(int) -> bool| circuit::b_form(z, t),
                    )
                    &&& b_rows@[t]@.len() <= 5
                },
        decreases K - s,
    {
        a_rows.push(a_row(s));
        b_rows.push(b_row(s));
        s = s + 1;
    }
    let a_0 = SparseBinaryMatrix { num_rows: K, num_cols: K, rows: a_rows };
    let b_0 = SparseBinaryMatrix { num_rows: K, num_cols: K, rows: b_rows };
    (a_0, b_0)
}

} // verus!
