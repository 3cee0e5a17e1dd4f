//! The constraints of one block, and the witness that meets them.
//!
//! 1. Partial products: one AND wire `pp(j, i) = x_{i−j} · y_j` for each product
//!    bit `i ∈ [j, j+64)`.
//! 2. Carry-save reduction in 63 rounds: round `j` adds row `j` with one full
//!    adder per product bit `i ∈ [j, j+64)`. Each has an AND wire
//!    `m = (s ⊕ c)(s ⊕ p)`, the carry out being `m ⊕ s`, which is never
//!    materialized, and a materialized sum `s ⊕ c ⊕ p`; at `i = j` the sum is a
//!    final product bit.
//! 3. A ripple-carry adder over bits 64..128, with 63 more AND wires and the
//!    product bits 64..127. The carry out of bit 127 is zero, since `x·y < 2^128`.

use crate::field::bits;
use crate::r1cs_mul64::adder;
use crate::r1cs_mul64::layout;
use crate::r1cs_mul64::layout::{Wire, K, Z_CONST_POS};
use vstd::prelude::*;

verus! {

// ---------------------------------------------------------------------------
// The linear forms.
// ---------------------------------------------------------------------------

/// The wire that holds sum bit `i` of round `j`.
pub open spec fn sum_wire(j: int, i: int) -> Wire {
    if j == 0 {
        Wire::Pp(0, i)
    } else if i == j {
        Wire::Prod(i)
    } else {
        Wire::Sum(j, i)
    }
}

/// The running sum at bit `i ≥ j` after round `j`; zero above the covered bits.
pub open spec fn sum_form(z: spec_fn(int) -> bool, j: int, i: int) -> bool {
    i < j + 64 && z(sum_wire(j, i).slot())
}

/// The pending carry into bit `i` after round `j`: `m ⊕ s` of bit `i − 1`.
pub open spec fn carry_form(z: spec_fn(int) -> bool, j: int, i: int) -> bool {
    j > 0 && i <= j + 64 && (z(Wire::Maj(j, i - 1).slot()) != sum_form(z, j - 1, i - 1))
}

/// The ripple carry into bit `i`: `m ⊕ s` of bit `i − 1`.
pub open spec fn ripple_form(z: spec_fn(int) -> bool, i: int) -> bool {
    i > 64 && (z(Wire::Rip(i - 1).slot()) != sum_form(z, 63, i - 1))
}

/// Row `s` of `A_0` applied to `z`.
pub open spec fn a_form(z: spec_fn(int) -> bool, s: int) -> bool {
    match layout::wire_at(s) {
        Wire::X(b) => z(s),
        Wire::Y(b) => z(s),
        Wire::One => z(s),
        Wire::Prod(b) => if b == 0 {
            z(Wire::Pp(0, 0).slot())
        } else if b < 64 {
            adder::xor3(
                sum_form(z, b - 1, b),
                carry_form(z, b - 1, b),
                z(Wire::Pp(b, b).slot()),
            )
        } else {
            adder::xor3(sum_form(z, 63, b), carry_form(z, 63, b), ripple_form(z, b))
        },
        Wire::Pp(j, i) => z(Wire::X(i - j).slot()),
        Wire::Maj(j, i) => sum_form(z, j - 1, i) != carry_form(z, j - 1, i),
        Wire::Sum(j, i) => adder::xor3(
            sum_form(z, j - 1, i),
            carry_form(z, j - 1, i),
            z(Wire::Pp(j, i).slot()),
        ),
        Wire::Rip(i) => sum_form(z, 63, i) != carry_form(z, 63, i),
        Wire::Free => false,
    }
}

/// Row `s` of `B_0` applied to `z`.
pub open spec fn b_form(z: spec_fn(int) -> bool, s: int) -> bool {
    match layout::wire_at(s) {
        Wire::X(b) => z(Z_CONST_POS as int),
        Wire::Y(b) => z(Z_CONST_POS as int),
        Wire::One => z(Z_CONST_POS as int),
        Wire::Prod(b) => z(Z_CONST_POS as int),
        Wire::Sum(j, i) => z(Z_CONST_POS as int),
        Wire::Pp(j, i) => z(Wire::Y(j).slot()),
        Wire::Maj(j, i) => sum_form(z, j - 1, i) != z(Wire::Pp(j, i).slot()),
        Wire::Rip(i) => sum_form(z, 63, i) != ripple_form(z, i),
        Wire::Free => false,
    }
}

/// `(A_0·z) ∘ (B_0·z) = z`.
pub open spec fn satisfied(z: spec_fn(int) -> bool) -> bool {
    forall|s: int| 0 <= s < K ==> #[trigger] z(s) == (a_form(z, s) && b_form(z, s))
}

// ---------------------------------------------------------------------------
// The witness.
// ---------------------------------------------------------------------------

/// The value of wire `s` in the multiplication `x·y`.
pub open spec fn witness_bit(x: u64, y: u64, s: int) -> bool {
    match layout::wire_at(s) {
        Wire::X(b) => bits::word_bit(x, b),
        Wire::Y(b) => bits::word_bit(y, b),
        Wire::Prod(b) => adder::product_bit(x, y, b),
        Wire::One => true,
        Wire::Pp(j, i) => adder::row_bit(x, y, j, i),
        Wire::Maj(j, i) => {
            let sum = adder::sum_after(x, y, (j - 1) as nat, i);
            (sum != adder::carry_after(x, y, (j - 1) as nat, i)) && (sum != adder::row_bit(
                x,
                y,
                j,
                i,
            ))
        },
        Wire::Sum(j, i) => adder::sum_after(x, y, j as nat, i),
        Wire::Rip(i) => {
            let sum = adder::sum_after(x, y, 63, i);
            (sum != adder::carry_after(x, y, 63, i)) && (sum != adder::ripple(x, y, i))
        },
        Wire::Free => false,
    }
}

/// Row `s` of `A_0·z` in the multiplication `x·y`.
pub open spec fn a_value(x: u64, y: u64, s: int) -> bool {
    match layout::wire_at(s) {
        Wire::Pp(j, i) => bits::word_bit(x, i - j),
        Wire::Maj(j, i) => adder::sum_after(x, y, (j - 1) as nat, i) != adder::carry_after(
            x,
            y,
            (j - 1) as nat,
            i,
        ),
        Wire::Rip(i) => adder::sum_after(x, y, 63, i) != adder::carry_after(x, y, 63, i),
        _ => witness_bit(x, y, s),
    }
}

/// Row `s` of `B_0·z` in the multiplication `x·y`.
pub open spec fn b_value(x: u64, y: u64, s: int) -> bool {
    match layout::wire_at(s) {
        Wire::Pp(j, i) => bits::word_bit(y, j),
        Wire::Maj(j, i) => adder::sum_after(x, y, (j - 1) as nat, i) != adder::row_bit(x, y, j, i),
        Wire::Rip(i) => adder::sum_after(x, y, 63, i) != adder::ripple(x, y, i),
        Wire::Free => false,
        _ => true,
    }
}

/// The witness of `x·y`.
pub open spec fn witness(x: u64, y: u64) -> spec_fn(int) -> bool {
    |s: int| witness_bit(x, y, s)
}

// ---------------------------------------------------------------------------
// Laws.
// ---------------------------------------------------------------------------

/// The forms have the values of the adders.
spec fn forms_hold(z: spec_fn(int) -> bool, x: u64, y: u64, j: int) -> bool {
    &&& forall|i: int|
        j <= i < 128 ==> #[trigger] sum_form(z, j, i) == adder::sum_after(x, y, j as nat, i)
    &&& forall|i: int|
        j < i < 129 ==> #[trigger] carry_form(z, j, i) == adder::carry_after(x, y, j as nat, i)
}

/// In the witness, the forms have the values of the adders.
proof fn lemma_witness_forms(x: u64, y: u64, j: int)
    requires
        0 <= j < 64,
    ensures
        forms_hold(witness(x, y), x, y, j),
{
    let z = witness(x, y);
    assert forall|i: int| j <= i < 128 implies #[trigger] sum_form(z, j, i) == adder::sum_after(
        x,
        y,
        j as nat,
        i,
    ) by {
        lemma_witness_sum(x, y, j, i);
    }
    assert forall|i: int| j < i < 129 implies #[trigger] carry_form(z, j, i) == adder::carry_after(
        x,
        y,
        j as nat,
        i,
    ) by {
        adder::lemma_windows(x, y, j as nat, i);
        if j > 0 && i <= j + 64 {
            layout::lemma_slot(Wire::Maj(j, i - 1));
            lemma_witness_sum(x, y, j - 1, i - 1);
        }
    }
}

proof fn lemma_witness_sum(x: u64, y: u64, j: int, i: int)
    requires
        0 <= j < 64,
        j <= i < 128,
    ensures
        sum_form(witness(x, y), j, i) == adder::sum_after(x, y, j as nat, i),
{
    adder::lemma_windows(x, y, j as nat, i);
    if i < j + 64 {
        layout::lemma_slot(sum_wire(j, i));
        if j > 0 && i == j {
            adder::lemma_low_product(x, y, i as nat);
        }
    }
}

proof fn lemma_witness_ripple(x: u64, y: u64, i: int)
    requires
        64 <= i < 128,
    ensures
        ripple_form(witness(x, y), i) == adder::ripple(x, y, i),
{
    adder::lemma_low_product(x, y, 0);
    if i > 64 {
        layout::lemma_slot(Wire::Rip(i - 1));
        lemma_witness_sum(x, y, 63, i - 1);
    }
}

/// The rows of the constraints have the stated values at the witness.
pub proof fn lemma_witness_rows(x: u64, y: u64, s: int)
    requires
        0 <= s < K,
    ensures
        a_form(witness(x, y), s) == a_value(x, y, s),
        b_form(witness(x, y), s) == b_value(x, y, s),
        witness_bit(x, y, s) == (a_value(x, y, s) && b_value(x, y, s)),
{
    let z = witness(x, y);
    layout::lemma_slots_are_used(s);
    assert(z(Z_CONST_POS as int));
    match layout::wire_at(s) {
        Wire::Prod(b) => {
            adder::lemma_product(x, y);
            assert(adder::result_bit(x, y, b) == adder::product_bit(x, y, b));
            if b == 0 {
                adder::lemma_low_product(x, y, 0);
                layout::lemma_slot(Wire::Pp(0, 0));
            } else if b < 64 {
                adder::lemma_low_product(x, y, b as nat);
                lemma_witness_forms(x, y, b - 1);
                assert(carry_form(z, b - 1, b) == adder::carry_after(x, y, (b - 1) as nat, b));
                assert(sum_form(z, b - 1, b) == adder::sum_after(x, y, (b - 1) as nat, b));
                layout::lemma_slot(Wire::Pp(b, b));
            } else {
                lemma_witness_forms(x, y, 63);
                assert(carry_form(z, 63, b) == adder::carry_after(x, y, 63, b));
                assert(sum_form(z, 63, b) == adder::sum_after(x, y, 63, b));
                lemma_witness_ripple(x, y, b);
            }
        },
        Wire::Pp(j, i) => {
            layout::lemma_slot(Wire::X(i - j));
            layout::lemma_slot(Wire::Y(j));
        },
        Wire::Maj(j, i) => {
            lemma_witness_forms(x, y, j - 1);
            assert(carry_form(z, j - 1, i) == adder::carry_after(x, y, (j - 1) as nat, i));
            assert(sum_form(z, j - 1, i) == adder::sum_after(x, y, (j - 1) as nat, i));
            layout::lemma_slot(Wire::Pp(j, i));
        },
        Wire::Sum(j, i) => {
            lemma_witness_forms(x, y, j - 1);
            assert(carry_form(z, j - 1, i) == adder::carry_after(x, y, (j - 1) as nat, i));
            assert(sum_form(z, j - 1, i) == adder::sum_after(x, y, (j - 1) as nat, i));
            layout::lemma_slot(Wire::Pp(j, i));
        },
        Wire::Rip(i) => {
            lemma_witness_forms(x, y, 63);
            assert(carry_form(z, 63, i) == adder::carry_after(x, y, 63, i));
            assert(sum_form(z, 63, i) == adder::sum_after(x, y, 63, i));
            lemma_witness_ripple(x, y, i);
        },
        _ => {},
    }
}

/// Completeness: the witness of every multiplication meets the constraints.
pub proof fn lemma_witness_satisfies(x: u64, y: u64)
    ensures
        satisfied(witness(x, y)),
        witness(x, y)(Z_CONST_POS as int),
{
    let z = witness(x, y);
    assert forall|s: int| 0 <= s < K implies #[trigger] z(s) == (a_form(z, s) && b_form(z, s)) by {
        lemma_witness_rows(x, y, s);
    }
}

/// The rows that a satisfied block meets.
proof fn lemma_row(z: spec_fn(int) -> bool, w: Wire)
    requires
        satisfied(z),
        w.valid(),
    ensures
        layout::wire_at(w.slot()) == w,
        z(w.slot()) == (a_form(z, w.slot()) && b_form(z, w.slot())),
{
    layout::lemma_slot(w);
}

proof fn lemma_forms_of_satisfied(z: spec_fn(int) -> bool, x: u64, y: u64, j: int)
    requires
        satisfied(z),
        z(Z_CONST_POS as int),
        forall|b: int| 0 <= b < 64 ==> #[trigger] z(b) == bits::word_bit(x, b),
        forall|b: int| 64 <= b < 128 ==> #[trigger] z(b) == bits::word_bit(y, b - 64),
        0 <= j < 64,
    ensures
        forms_hold(z, x, y, j),
    decreases j,
{
    if j == 0 {
        assert forall|i: int| 0 <= i < 128 implies #[trigger] sum_form(z, 0, i)
            == adder::sum_after(x, y, 0, i) by {
            if i < 64 {
                lemma_pp(z, x, y, 0, i);
            }
        }
    } else {
        lemma_forms_of_satisfied(z, x, y, j - 1);
        assert forall|i: int| j <= i < 128 implies #[trigger] sum_form(z, j, i)
            == adder::sum_after(x, y, j as nat, i) by {
            adder::lemma_windows(x, y, j as nat, i);
            if i < j + 64 {
                lemma_row(z, sum_wire(j, i));
                lemma_pp(z, x, y, j, i);
                assert(sum_form(z, j - 1, i) == adder::sum_after(x, y, (j - 1) as nat, i));
                assert(carry_form(z, j - 1, i) == adder::carry_after(x, y, (j - 1) as nat, i));
            }
        }
        assert forall|i: int| j < i < 129 implies #[trigger] carry_form(z, j, i)
            == adder::carry_after(x, y, j as nat, i) by {
            adder::lemma_windows(x, y, j as nat, i);
            if i <= j + 64 {
                let k = i - 1;
                lemma_row(z, Wire::Maj(j, k));
                lemma_pp(z, x, y, j, k);
                assert(sum_form(z, j - 1, k) == adder::sum_after(x, y, (j - 1) as nat, k));
                assert(carry_form(z, j - 1, k) == adder::carry_after(x, y, (j - 1) as nat, k));
            }
        }
    }
}

proof fn lemma_pp(z: spec_fn(int) -> bool, x: u64, y: u64, j: int, i: int)
    requires
        satisfied(z),
        forall|b: int| 0 <= b < 64 ==> #[trigger] z(b) == bits::word_bit(x, b),
        forall|b: int| 64 <= b < 128 ==> #[trigger] z(b) == bits::word_bit(y, b - 64),
        0 <= j < 64,
        j <= i < j + 64,
    ensures
        z(Wire::Pp(j, i).slot()) == adder::row_bit(x, y, j, i),
{
    lemma_row(z, Wire::Pp(j, i));
    assert(z(i - j) == bits::word_bit(x, i - j));
    assert(z(64 + j) == bits::word_bit(y, j));
}

proof fn lemma_ripple_of_satisfied(z: spec_fn(int) -> bool, x: u64, y: u64, i: int)
    requires
        satisfied(z),
        z(Z_CONST_POS as int),
        forms_hold(z, x, y, 63),
        64 <= i < 128,
    ensures
        ripple_form(z, i) == adder::ripple(x, y, i),
    decreases i,
{
    adder::lemma_low_product(x, y, 0);
    if i > 64 {
        let k = i - 1;
        lemma_ripple_of_satisfied(z, x, y, k);
        lemma_row(z, Wire::Rip(k));
        assert(sum_form(z, 63, k) == adder::sum_after(x, y, 63, k));
        assert(carry_form(z, 63, k) == adder::carry_after(x, y, 63, k));
    }
}

/// Soundness: a block that meets the constraints and whose constant wire is 1 is
/// the witness of the multiplication of its `x` and `y`. Every wire is determined
/// by the inputs; in particular its product bits are those of `x·y`.
pub proof fn lemma_satisfied_is_witness(z: spec_fn(int) -> bool, x: u64, y: u64)
    requires
        satisfied(z),
        z(Z_CONST_POS as int),
        forall|b: int| 0 <= b < 64 ==> #[trigger] z(b) == bits::word_bit(x, b),
        forall|b: int| 64 <= b < 128 ==> #[trigger] z(b) == bits::word_bit(y, b - 64),
    ensures
        forall|s: int| 0 <= s < K ==> #[trigger] z(s) == witness_bit(x, y, s),
{
    assert forall|s: int| 0 <= s < K implies #[trigger] z(s) == witness_bit(x, y, s) by {
        layout::lemma_slots_are_used(s);
        assert(z(s) == (a_form(z, s) && b_form(z, s)));
        match layout::wire_at(s) {
            Wire::X(b) => {
                assert(z(b) == bits::word_bit(x, b));
            },
            Wire::Y(b) => {
                assert(z(64 + b) == bits::word_bit(y, b));
            },
            Wire::Prod(b) => {
                adder::lemma_product(x, y);
                assert(adder::result_bit(x, y, b) == adder::product_bit(x, y, b));
                if b == 0 {
                    lemma_pp(z, x, y, 0, 0);
                    adder::lemma_low_product(x, y, 0);
                } else if b < 64 {
                    adder::lemma_low_product(x, y, b as nat);
                    lemma_forms_of_satisfied(z, x, y, b - 1);
                    lemma_pp(z, x, y, b, b);
                    assert(sum_form(z, b - 1, b) == adder::sum_after(x, y, (b - 1) as nat, b));
                    assert(carry_form(z, b - 1, b) == adder::carry_after(x, y, (b - 1) as nat, b));
                } else {
                    lemma_forms_of_satisfied(z, x, y, 63);
                    lemma_ripple_of_satisfied(z, x, y, b);
                    assert(sum_form(z, 63, b) == adder::sum_after(x, y, 63, b));
                    assert(carry_form(z, 63, b) == adder::carry_after(x, y, 63, b));
                }
            },
            Wire::Pp(j, i) => {
                lemma_pp(z, x, y, j, i);
            },
            Wire::Maj(j, i) => {
                lemma_forms_of_satisfied(z, x, y, j - 1);
                lemma_pp(z, x, y, j, i);
                assert(sum_form(z, j - 1, i) == adder::sum_after(x, y, (j - 1) as nat, i));
                assert(carry_form(z, j - 1, i) == adder::carry_after(x, y, (j - 1) as nat, i));
            },
            Wire::Sum(j, i) => {
                lemma_forms_of_satisfied(z, x, y, j);
                assert(sum_form(z, j, i) == adder::sum_after(x, y, j as nat, i));
            },
            Wire::Rip(i) => {
                lemma_forms_of_satisfied(z, x, y, 63);
                lemma_ripple_of_satisfied(z, x, y, i);
                assert(sum_form(z, 63, i) == adder::sum_after(x, y, 63, i));
                assert(carry_form(z, 63, i) == adder::carry_after(x, y, 63, i));
            },
            _ => {},
        }
    }
}

/// Flipping any one wire but the inputs and the constant breaks the constraints.
pub proof fn lemma_flipped_wire_is_refused(x: u64, y: u64, t: int)
    requires
        128 <= t < K,
        t != Z_CONST_POS,
    ensures
        !satisfied(
            |s: int|
                if s == t {
                    !witness_bit(x, y, s)
                } else {
                    witness_bit(x, y, s)
                },
        ),
{
    let z = |s: int|
        if s == t {
            !witness_bit(x, y, s)
        } else {
            witness_bit(x, y, s)
        };
    if satisfied(z) {
        assert forall|b: int| 0 <= b < 64 implies #[trigger] z(b) == bits::word_bit(x, b) by {}
        assert forall|b: int| 64 <= b < 128 implies #[trigger] z(b) == bits::word_bit(
            y,
            b - 64,
        ) by {}
        lemma_satisfied_is_witness(z, x, y);
        assert(z(t) == witness_bit(x, y, t));
    }
}

// ---------------------------------------------------------------------------
// The rows, slot by slot.
// ---------------------------------------------------------------------------

/// The rows of inputs, constant, lowest product bit and partial products, and the
/// empty rows.
pub proof fn lemma_plain_rows(z: spec_fn(int) -> bool, s: int, j: int, t: int)
    requires
        0 <= s < 128,
        0 <= j < 64,
        0 <= t < 64,
    ensures
        a_form(z, s) == z(s),
        b_form(z, s) == z(256),
        a_form(z, 256) == z(256),
        b_form(z, 256) == z(256),
        a_form(z, 128) == z(320),
        b_form(z, 128) == z(256),
        a_form(z, 320 + 64 * j + t) == z(t),
        b_form(z, 320 + 64 * j + t) == z(64 + j),
        forall|e: int|
            256 < e < 320 || 12480 <= e < 16384 ==> !(#[trigger] a_form(z, e)) && !b_form(z, e),
{
    layout::lemma_slot(Wire::Pp(j, j + t));
    layout::lemma_slot(Wire::Prod(0));
}

/// The rows of round `j` at product bit `i`: with `s` the running sum, `c` the
/// pending carry and `p` the partial product, the carry wire is `(s ⊕ c)(s ⊕ p)` and
/// the sum wire `(s ⊕ c ⊕ p)·1`.
pub proof fn lemma_round_rows(z: spec_fn(int) -> bool, j: int, i: int)
    requires
        1 <= j < 64,
        j <= i < j + 64,
    ensures
        ({
            let s = i < j + 63 && (if j == 1 {
                z(320 + i)
            } else {
                z(8448 + 63 * (j - 2) + (i - j))
            });
            let below = i < j + 63 && (if j == 2 {
                z(320 + (i - 1))
            } else {
                z(8448 + 63 * (j - 3) + (i - j))
            });
            let c = j > 1 && (z(4416 + 64 * (j - 2) + (i - j)) != below);
            let p = z(320 + 64 * j + (i - j));
            let carry_slot = 4416 + 64 * (j - 1) + (i - j);
            let sum_slot = if i == j {
                128 + i
            } else {
                8448 + 63 * (j - 1) + (i - j - 1)
            };
            &&& a_form(z, carry_slot) == (s != c)
            &&& b_form(z, carry_slot) == (s != p)
            &&& a_form(z, sum_slot) == ((s != c) != p)
            &&& b_form(z, sum_slot) == z(256)
        }),
{
    layout::lemma_slot(Wire::Maj(j, i));
    layout::lemma_slot(sum_wire(j, i));
}

/// The rows of the ripple adder at product bit `i`: with `s` the last running sum,
/// `c` the pending carry and `r` the ripple carry, the carry wire is
/// `(s ⊕ c)(s ⊕ r)` and the product bit `(s ⊕ c ⊕ r)·1`.
pub proof fn lemma_ripple_rows(z: spec_fn(int) -> bool, i: int)
    requires
        64 <= i < 128,
    ensures
        ({
            let s = i < 127 && z(8448 + 63 * 62 + (i - 64));
            let below = i < 127 && z(8448 + 63 * 61 + (i - 64));
            let c = z(4416 + 64 * 62 + (i - 64)) != below;
            let r = i > 64 && (z(12417 + (i - 65)) != z(8448 + 63 * 62 + (i - 65)));
            &&& i < 127 ==> a_form(z, 12417 + (i - 64)) == (s != c)
            &&& i < 127 ==> b_form(z, 12417 + (i - 64)) == (s != r)
            &&& a_form(z, 128 + i) == ((s != c) != r)
            &&& b_form(z, 128 + i) == z(256)
        }),
{
    layout::lemma_slot(Wire::Prod(i));
    if i < 127 {
        layout::lemma_slot(Wire::Rip(i));
    }
}

} // verus!
