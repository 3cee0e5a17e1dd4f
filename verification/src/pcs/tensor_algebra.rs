//! Tensor algebra over `F_{2^256} ⊗_{F_2} F_{2^256}`.
//!
//! An element is a length-256 vector of `F256` (the "vertical-subring" elements
//! in the nomenclature of DP24). Conceptually it is a 256×256 matrix over F_2,
//! where row `i` is `elems[i]` in its bit decomposition: `bit_j(elems[i])` is
//! the coefficient of `δ_i ⊗ δ_j`, with `δ_k` the k-th basis element of F256.
//!
//! Used by the verifier's polylog `eval_rs_eq` (DP24 §1.3, Figure 3).

use crate::field::bits;
use crate::field::gf2_128::F128;
use crate::field::gf2_256::F256;
use crate::field::sums;
use core::ops::{Add, AddAssign};
use vstd::prelude::*;
use vstd::std_specs::ops::AddSpecImpl;

verus! {

/// The degree of `F_{2^256}` over `F_2`.
pub const DEGREE: usize = 256;

/// An element of `F_{2^256} ⊗_{F_2} F_{2^256}`, stored as 256 `F256` elements
/// (the vertical-subring decomposition).
#[derive(Debug, PartialEq, Eq)]
pub struct TensorAlgebra {
    /// `elems[i]` is the coefficient of `δ_i` in the vertical decomposition.
    pub elems: Vec<F256>,
}

/// The transposed 256×256 bit matrix: bit `i` of row `j` is bit `j` of row `i`.
pub open spec fn transposed(rows: Seq<F256>) -> Seq<F256> {
    Seq::new(256, |j: int| bits::of_bits(|i: int| rows[i].bit(j)))
}

/// Every row multiplied by `c`.
pub open spec fn scaled_rows(rows: Seq<F256>, c: F256) -> Seq<F256> {
    Seq::new(rows.len(), |i: int| rows[i].times(c))
}

/// The product with `c` in the horizontal subring.
pub open spec fn scaled_columns(rows: Seq<F256>, c: F256) -> Seq<F256> {
    transposed(scaled_rows(transposed(rows), c))
}

/// Rows added pairwise, the rest of the longer left operand kept.
pub open spec fn rows_plus(a: Seq<F256>, b: Seq<F256>) -> Seq<F256> {
    Seq::new(
        a.len(),
        |i: int|
            if i < b.len() {
                a[i].plus(b[i])
            } else {
                a[i]
            },
    )
}

/// `Σ_i transposed(rows)[i] · coeffs[i]`.
pub open spec fn folded(rows: Seq<F256>, coeffs: Seq<F256>) -> F256 {
    sums::dot(transposed(rows), coeffs)
}

/// `1 ⊗ x`: the row of `δ_0 = 1` is `x`, all others are zero.
pub open spec fn vertical(x: F256) -> Seq<F256> {
    Seq::new(
        256,
        |i: int|
            if i == 0 {
                x
            } else {
                F256::zero()
            },
    )
}

/// `Σ_{k < n} a(k) ⊗ b(k)`: row `i` is `Σ_k bit_i(a(k)) · b(k)`.
pub open spec fn outer_sum(
    a: spec_fn(int) -> F256,
    b: spec_fn(int) -> F256,
    n: nat,
) -> Seq<F256> {
    Seq::new(256, |i: int| sums::sum(|k: int| bits::gate(a(k).bit(i), b(k)), n))
}

// ---------------------------------------------------------------------------
// Laws.
// ---------------------------------------------------------------------------

/// After a transpose, `bit_j(elems'[i]) = bit_i(elems[j])`.
pub proof fn lemma_transposed_bit(rows: Seq<F256>, i: int, j: int)
    requires
        0 <= i < 256,
        0 <= j < 256,
    ensures
        transposed(rows)[i].bit(j) == rows[j].bit(i),
{
    bits::lemma_of_bits(|k: int| rows[k].bit(i), j);
}

/// Transposing twice changes nothing.
pub proof fn lemma_transpose_involution(rows: Seq<F256>)
    requires
        rows.len() == 256,
    ensures
        transposed(transposed(rows)) == rows,
{
    let t = transposed(rows);
    assert forall|i: int| 0 <= i < 256 implies transposed(t)[i] == rows[i] by {
        assert forall|j: int| 0 <= j < 256 implies #[trigger] transposed(t)[i].bit(j)
            == rows[i].bit(j) by {
            lemma_transposed_bit(t, i, j);
            lemma_transposed_bit(rows, j, i);
        }
        transposed(t)[i].lemma_bit_ext(rows[i]);
    }
    assert(transposed(t) =~= rows);
}

proof fn lemma_outer_bits(
    a: spec_fn(int) -> F256,
    b: spec_fn(int) -> F256,
    n: nat,
    i: int,
    j: int,
)
    requires
        0 <= i < 256,
        0 <= j < 256,
    ensures
        sums::sum(|k: int| bits::gate(a(k).bit(i), b(k)), n).bit(j) == sums::sum(
            |k: int| bits::gate(b(k).bit(j), a(k)),
            n,
        ).bit(i),
    decreases n,
{
    F256::zero().lemma_bit_plus(F256::zero(), i);
    F256::zero().lemma_bit_plus(F256::zero(), j);
    if n > 0 {
        let m = (n - 1) as nat;
        let f = |k: int| bits::gate(a(k).bit(i), b(k));
        let g = |k: int| bits::gate(b(k).bit(j), a(k));
        lemma_outer_bits(a, b, m, i, j);
        sums::sum(f, m).lemma_bit_plus(f(m as int), j);
        sums::sum(g, m).lemma_bit_plus(g(m as int), i);
    }
}

/// A transpose swaps the two factors.
pub proof fn lemma_outer_transposed(a: spec_fn(int) -> F256, b: spec_fn(int) -> F256, n: nat)
    ensures
        transposed(outer_sum(a, b, n)) == outer_sum(b, a, n),
{
    let s = outer_sum(a, b, n);
    let t = outer_sum(b, a, n);
    assert forall|i: int| 0 <= i < 256 implies transposed(s)[i] == t[i] by {
        assert forall|j: int| 0 <= j < 256 implies #[trigger] transposed(s)[i].bit(j)
            == t[i].bit(j) by {
            lemma_transposed_bit(s, i, j);
            lemma_outer_bits(a, b, n, j, i);
        }
        transposed(s)[i].lemma_bit_ext(t[i]);
    }
    assert(transposed(s) =~= t);
}

/// The vertical product multiplies the right factors, the horizontal product
/// the left ones.
pub proof fn lemma_outer_scaled(
    a: spec_fn(int) -> F256,
    b: spec_fn(int) -> F256,
    n: nat,
    c: F256,
)
    ensures
        scaled_rows(outer_sum(a, b, n), c) == outer_sum(a, |k: int| b(k).times(c), n),
        scaled_columns(outer_sum(a, b, n), c) == outer_sum(|k: int| a(k).times(c), b, n),
{
    lemma_outer_scaled_rows(a, b, n, c);
    lemma_outer_transposed(a, b, n);
    lemma_outer_scaled_rows(b, a, n, c);
    lemma_outer_transposed(b, |k: int| a(k).times(c), n);
}

proof fn lemma_outer_scaled_rows(
    a: spec_fn(int) -> F256,
    b: spec_fn(int) -> F256,
    n: nat,
    c: F256,
)
    ensures
        scaled_rows(outer_sum(a, b, n), c) == outer_sum(a, |k: int| b(k).times(c), n),
{
    let s = outer_sum(a, b, n);
    let t = outer_sum(a, |k: int| b(k).times(c), n);
    assert forall|i: int| 0 <= i < 256 implies scaled_rows(s, c)[i] == t[i] by {
        let f = |k: int| bits::gate(a(k).bit(i), b(k));
        sums::lemma_sum_scale(c, f, n);
        assert forall|k: int| 0 <= k < n implies #[trigger] f(k).times(c) == bits::gate(
            a(k).bit(i),
            b(k).times(c),
        ) by {
            bits::lemma_gate(a(k).bit(i), false, b(k), c);
        }
        let g = |k: int| f(k).times(c);
        let h = |k: int| bits::gate(a(k).bit(i), b(k).times(c));
        assert forall|k: int| 0 <= k < n implies #[trigger] g(k) == h(k) by {
            assert(f(k).times(c) == h(k));
        }
        sums::lemma_sum_ext(g, h, n);
        let b2 = |k: int| b(k).times(c);
        sums::lemma_sum_ext(h, |k: int| bits::gate(a(k).bit(i), b2(k)), n);
    }
    assert(scaled_rows(s, c) =~= t);
}

/// Every element is the sum of `δ_k ⊗ elems[k]`.
pub proof fn lemma_outer_decompose(rows: Seq<F256>)
    requires
        rows.len() == 256,
    ensures
        rows == outer_sum(|k: int| bits::basis(k), |k: int| rows[k], 256),
{
    let t = outer_sum(|k: int| bits::basis(k), |k: int| rows[k], 256);
    assert forall|i: int| 0 <= i < 256 implies rows[i] == t[i] by {
        let f = |k: int| bits::gate(bits::basis(k).bit(i), rows[k]);
        assert forall|k: int| 0 <= k < 256 && k != i implies #[trigger] f(k) == F256::zero() by {
            bits::lemma_basis(k, i);
        }
        bits::lemma_basis(i, i);
        sums::lemma_sum_single(f, 256, i);
        let (a, b) = (|k: int| bits::basis(k), |k: int| rows[k]);
        sums::lemma_sum_ext(f, |k: int| bits::gate(a(k).bit(i), b(k)), 256);
    }
    assert(rows =~= t);
}

/// Folding a sum of products: `Σ_k a(k) · (bits of b(k) against the weights)`.
pub proof fn lemma_outer_folded(
    a: spec_fn(int) -> F256,
    b: spec_fn(int) -> F256,
    n: nat,
    coeffs: Seq<F256>,
)
    ensures
        folded(outer_sum(a, b, n), coeffs) == sums::sum(
            |k: int| a(k).times(bits::bit_fold(b(k), |i: int| coeffs[i])),
            n,
        ),
{
    let w = |i: int| coeffs[i];
    lemma_outer_transposed(a, b, n);
    let t = outer_sum(b, a, n);
    let term = |i: int, k: int| bits::gate(b(k).bit(i), a(k)).times(coeffs[i]);
    let rows = |i: int| sums::sum(|k: int| term(i, k), n);
    let left = |i: int| t[i].times(coeffs[i]);
    assert forall|i: int| 0 <= i < 256 implies #[trigger] left(i) == rows(i) by {
        let f = |k: int| bits::gate(b(k).bit(i), a(k));
        sums::lemma_sum_scale(coeffs[i], f, n);
        sums::lemma_sum_ext(|k: int| f(k).times(coeffs[i]), |k: int| term(i, k), n);
    }
    sums::lemma_sum_ext(left, rows, 256);
    sums::lemma_sum_swap(term, 256, n);
    let cols = |k: int| sums::sum(|i: int| term(i, k), 256);
    let right = |k: int| a(k).times(bits::bit_fold(b(k), |i: int| coeffs[i]));
    assert forall|k: int| 0 <= k < n implies #[trigger] cols(k) == right(k) by {
        let g = |i: int| bits::gate(b(k).bit(i), w(i));
        sums::lemma_sum_scale(a(k), g, 256);
        let h = |i: int| a(k).times(g(i));
        let u = |i: int| term(i, k);
        assert forall|i: int| 0 <= i < 256 implies #[trigger] u(i) == h(i) by {
            bits::lemma_gate(b(k).bit(i), false, a(k), coeffs[i]);
            bits::lemma_gate(b(k).bit(i), false, coeffs[i], a(k));
        }
        sums::lemma_sum_ext(u, h, 256);
    }
    sums::lemma_sum_ext(cols, right, n);
}

/// Products with the two subrings commute, and products with the same subring
/// compose to the product of the scalars.
pub proof fn lemma_scalings(rows: Seq<F256>, c: F256, d: F256)
    requires
        rows.len() == 256,
    ensures
        scaled_rows(scaled_columns(rows, d), c) == scaled_columns(scaled_rows(rows, c), d),
        scaled_rows(scaled_rows(rows, c), d) == scaled_rows(rows, c.times(d)),
        scaled_columns(scaled_columns(rows, c), d) == scaled_columns(rows, c.times(d)),
{
    let a = |k: int| bits::basis(k);
    let b = |k: int| rows[k];
    let ad = |k: int| a(k).times(d);
    let ac = |k: int| a(k).times(c);
    let bc = |k: int| b(k).times(c);
    lemma_outer_decompose(rows);
    lemma_outer_scaled(a, b, 256, c);
    lemma_outer_scaled(a, b, 256, d);
    lemma_outer_scaled(ad, b, 256, c);
    lemma_outer_scaled(a, bc, 256, d);
    // Two products with one subring.
    lemma_scaled_rows_twice(rows, c, d);
    let t = transposed(rows);
    lemma_transpose_involution(scaled_rows(t, c));
    lemma_scaled_rows_twice(t, c, d);
}

/// Adding zero changes nothing, and vertical products distribute over sums.
pub proof fn lemma_rows_plus(a: Seq<F256>, b: Seq<F256>, c: F256)
    requires
        a.len() == b.len(),
    ensures
        rows_plus(a, Seq::new(a.len(), |i: int| F256::zero())) == a,
        scaled_rows(rows_plus(a, b), c) == rows_plus(scaled_rows(a, c), scaled_rows(b, c)),
{
    let z = Seq::new(a.len(), |i: int| F256::zero());
    assert forall|i: int| 0 <= i < a.len() implies rows_plus(a, z)[i] == a[i] by {
        a[i].lemma_plus(F256::zero(), F256::zero());
    }
    assert(rows_plus(a, z) =~= a);
    let (l, r) = (
        scaled_rows(rows_plus(a, b), c),
        rows_plus(scaled_rows(a, c), scaled_rows(b, c)),
    );
    assert forall|i: int| 0 <= i < a.len() implies l[i] == r[i] by {
        c.lemma_times_distributes(a[i], b[i]);
    }
    assert(l =~= r);
}

/// The vertical subring is a copy of the field: `(1 ⊗ x)·y = 1 ⊗ x·y`.
pub proof fn lemma_vertical_scaled(x: F256, y: F256)
    ensures
        scaled_rows(vertical(x), y) == vertical(x.times(y)),
{
    y.lemma_times_units();
    assert(scaled_rows(vertical(x), y) =~= vertical(x.times(y)));
}

/// Folding against zeros gives zero.
pub proof fn lemma_folded_zero(rows: Seq<F256>)
    ensures
        folded(rows, Seq::new(256, |i: int| F256::zero())) == F256::zero(),
{
    let t = transposed(rows);
    let z = Seq::new(256, |i: int| F256::zero());
    let f = |i: int| t[i].times(z[i]);
    assert forall|i: int| 0 <= i < 256 implies #[trigger] f(i) == F256::zero() by {
        t[i].lemma_times_units();
    }
    sums::lemma_sum_zero(f, 256);
}

proof fn lemma_scaled_rows_twice(rows: Seq<F256>, c: F256, d: F256)
    ensures
        scaled_rows(scaled_rows(rows, c), d) == scaled_rows(rows, c.times(d)),
{
    assert forall|i: int| 0 <= i < rows.len() implies scaled_rows(scaled_rows(rows, c), d)[i]
        == scaled_rows(rows, c.times(d))[i] by {
        rows[i].lemma_times_associates(c, d);
    }
    assert(scaled_rows(scaled_rows(rows, c), d) =~= scaled_rows(rows, c.times(d)));
}

// ---------------------------------------------------------------------------
// Bit access.
// ---------------------------------------------------------------------------

/// Reads bit `b` of an element.
pub fn f256_bit(x: F256, b: usize) -> (r: u64)
    requires
        b < 256,
    ensures
        r == (if x.bit(b as int) {
            1u64
        } else {
            0u64
        }),
{
    let place: u64 = (b % 64) as u64;
    let word: u64 = if b < 64 {
        x.c0.lo
    } else if b < 128 {
        x.c0.hi
    } else if b < 192 {
        x.c1.lo
    } else {
        x.c1.hi
    };
    proof {
        assert((word >> place) & 1 == 0 || (word >> place) & 1 == 1) by (bit_vector);
        assert(x.word(b as int / 64) == word);
        assert(place as int == b as int % 64);
    }
    (word >> place) & 1
}

/// Builds an element from its four words.
pub(crate) fn f256_from_words(w0: u64, w1: u64, w2: u64, w3: u64) -> (r: F256)
    ensures
        r == F256::of_words(w0, w1, w2, w3),
{
    F256 { c0: F128 { lo: w0, hi: w1 }, c1: F128 { lo: w2, hi: w3 } }
}

proof fn lemma_set_bit(w: u64, b: u64, i: u64, k: u64)
    by (bit_vector)
    requires
        i < 64,
        k < 64,
        b <= 1,
        (w >> i) & 1 == 0,
    ensures
        ((w | (b << i)) >> k) & 1 == (if k == i {
            b
        } else {
            (w >> k) & 1
        }),
        (w >> k) & 1 == 0 || (w >> k) & 1 == 1,
{
}

/// Gathers bit `j` of 64 rows, from row `base` on, into one word.
fn gather_word(rows: &[F256], base: usize, j: usize) -> (w: u64)
    requires
        base + 64 <= rows.len(),
        j < 256,
    ensures
        forall|k: int|
            0 <= k < 64 ==> #[trigger] bits::word_bit(w, k) == rows@[base + k].bit(j as int),
{
    let mut w: u64 = 0;
    let mut i: usize = 0;
    proof {
        assert forall|k: int| 0 <= k < 64 implies !#[trigger] bits::word_bit(w, k) by {
            bits::lemma_word_bit(0, 0, k, 0);
        }
    }
    while i < 64
        invariant
            i <= 64,
            base + 64 <= rows.len(),
            j < 256,
            forall|k: int|
                0 <= k < 64 ==> #[trigger] bits::word_bit(w, k) == (k < i && rows@[base + k].bit(
                    j as int,
                )),
        decreases 64 - i,
    {
        let bit: u64 = f256_bit(rows[base + i], j);
        let ghost before = w;
        proof {
            assert(!bits::word_bit(w, i as int));
            let v = w;
            let p = i as u64;
            assert((v >> p) & 1 == 0 || (v >> p) & 1 == 1) by (bit_vector);
        }
        w = w | (bit << (i as u64));
        proof {
            assert forall|k: int| 0 <= k < 64 implies #[trigger] bits::word_bit(w, k) == (k < i + 1
                && rows@[base + k].bit(j as int)) by {
                lemma_set_bit(before, bit, i as u64, k as u64);
                assert(bits::word_bit(before, k) == (k < i && rows@[base + k].bit(j as int)));
            }
        }
        i = i + 1;
    }
    w
}

/// Gathers bit `j` of 256 rows into one element.
pub(crate) fn gather_bits(rows: &[F256], j: usize) -> (r: F256)
    requires
        rows.len() == 256,
        j < 256,
    ensures
        r == transposed(rows@)[j as int],
{
    let w0: u64 = gather_word(rows, 0, j);
    let w1: u64 = gather_word(rows, 64, j);
    let w2: u64 = gather_word(rows, 128, j);
    let w3: u64 = gather_word(rows, 192, j);
    let r = f256_from_words(w0, w1, w2, w3);
    proof {
        let t = transposed(rows@)[j as int];
        assert forall|k: int| 0 <= k < 256 implies #[trigger] r.bit(k) == t.bit(k) by {
            lemma_transposed_bit(rows@, j as int, k);
            let i = k % 64;
            if k < 64 {
                assert(bits::word_bit(w0, i) == rows@[0 + i].bit(j as int));
            } else if k < 128 {
                assert(bits::word_bit(w1, i) == rows@[64 + i].bit(j as int));
            } else if k < 192 {
                assert(bits::word_bit(w2, i) == rows@[128 + i].bit(j as int));
            } else {
                assert(bits::word_bit(w3, i) == rows@[192 + i].bit(j as int));
            }
        }
        r.lemma_bit_ext(t);
    }
    r
}

/// Transposes the 256×256 bit matrix of the rows in place.
fn square_transpose(elems: &mut Vec<F256>)
    requires
        old(elems).len() == 256,
    ensures
        final(elems)@ == transposed(old(elems)@),
{
    let mut out: Vec<F256> = Vec::with_capacity(DEGREE);
    let mut j: usize = 0;
    while j < DEGREE
        invariant
            j <= 256,
            elems.len() == 256,
            elems@ == old(elems)@,
            out@ == transposed(elems@).take(j as int),
        decreases 256 - j,
    {
        let slot = gather_bits(elems.as_slice(), j);
        out.push(slot);
        proof {
            assert(out@ =~= transposed(elems@).take(j + 1));
        }
        j = j + 1;
    }
    proof {
        assert(out@ =~= transposed(elems@));
    }
    *elems = out;
}

// ---------------------------------------------------------------------------
// The operations.
// ---------------------------------------------------------------------------

pub(crate) fn zero_rows() -> (v: Vec<F256>)
    ensures
        v@ == Seq::new(256, |i: int| F256::zero()),
{
    let v: Vec<F256> = vec![F256::zero(); DEGREE];
    proof {
        assert(v@ =~= Seq::new(256, |i: int| F256::zero()));
    }
    v
}

impl TensorAlgebra {
    /// The all-zero element.
    pub fn zero() -> (r: TensorAlgebra)
        ensures
            r.elems@ == Seq::new(256, |i: int| F256::zero()),
    {
        TensorAlgebra { elems: zero_rows() }
    }

    /// The multiplicative identity `1 ⊗ 1`.
    pub fn one() -> (r: TensorAlgebra)
        ensures
            r.elems@ == vertical(F256::one()),
            r.elems@.len() == 256,
            r.elems@[0] == F256::one(),
            forall|i: int| 1 <= i < 256 ==> #[trigger] r.elems@[i] == F256::zero(),
    {
        TensorAlgebra::from_vertical(F256::one())
    }

    /// Embeds `x` into the vertical subring: `1 ⊗ x`.
    pub fn from_vertical(x: F256) -> (r: TensorAlgebra)
        ensures
            r.elems@ == vertical(x),
            r.elems@.len() == 256,
            r.elems@[0] == x,
            forall|i: int| 1 <= i < 256 ==> #[trigger] r.elems@[i] == F256::zero(),
    {
        let mut elems: Vec<F256> = zero_rows();
        elems.set(0, x);
        proof {
            assert(elems@ =~= vertical(x));
        }
        TensorAlgebra { elems }
    }

    /// Multiplies by an element of the vertical subring: every row is scaled.
    pub fn scale_vertical(self, scalar: F256) -> (r: TensorAlgebra)
        ensures
            r.elems@ == scaled_rows(self.elems@, scalar),
            r.elems@.len() == self.elems@.len(),
            forall|i: int|
                0 <= i < self.elems@.len() ==> #[trigger] r.elems@[i] == self.elems@[i].times(
                    scalar,
                ),
    {
        let mut elems: Vec<F256> = self.elems;
        let ghost rows = elems@;
        let mut i: usize = 0;
        while i < elems.len()
            invariant
                i <= elems.len(),
                elems.len() == rows.len(),
                forall|k: int| 0 <= k < i ==> #[trigger] elems@[k] == rows[k].times(scalar),
                forall|k: int| i <= k < rows.len() ==> #[trigger] elems@[k] == rows[k],
            decreases elems.len() - i,
        {
            let e = elems[i] * scalar;
            elems.set(i, e);
            i = i + 1;
        }
        proof {
            assert(elems@ =~= scaled_rows(rows, scalar));
        }
        TensorAlgebra { elems }
    }

    /// Multiplies by an element of the horizontal subring:
    /// `transpose ∘ scale_vertical ∘ transpose`.
    pub fn scale_horizontal(self, scalar: F256) -> (r: TensorAlgebra)
        requires
            self.elems.len() == 256,
        ensures
            r.elems@ == scaled_columns(self.elems@, scalar),
            r.elems@.len() == 256,
            forall|i: int|
                0 <= i < 256 ==> #[trigger] transposed(r.elems@)[i] == transposed(
                    self.elems@,
                )[i].times(scalar),
    {
        proof {
            lemma_transpose_involution(scaled_rows(transposed(self.elems@), scalar));
        }
        self.transpose().scale_vertical(scalar).transpose()
    }

    /// Swaps the roles of the two subrings: `bit_j(elems'[i]) = bit_i(elems[j])`.
    pub fn transpose(self) -> (r: TensorAlgebra)
        requires
            self.elems.len() == 256,
        ensures
            r.elems@ == transposed(self.elems@),
            forall|i: int, j: int|
                0 <= i < 256 && 0 <= j < 256 ==> #[trigger] r.elems@[i].bit(j)
                    == self.elems@[j].bit(i),
    {
        let mut elems: Vec<F256> = self.elems;
        square_transpose(&mut elems);
        proof {
            assert forall|i: int, j: int|
                0 <= i < 256 && 0 <= j < 256 implies #[trigger] elems@[i].bit(j)
                == self.elems@[j].bit(i) by {
                lemma_transposed_bit(self.elems@, i, j);
            }
        }
        TensorAlgebra { elems }
    }

    /// Folds to one element: `Σ_i coeffs[i] · transpose(self).elems[i]`.
    pub fn fold_vertical(self, coeffs: &[F256]) -> (r: F256)
        requires
            self.elems.len() == 256,
            coeffs.len() == 256,
        ensures
            r == folded(self.elems@, coeffs@),
            r == sums::sum(|i: int| transposed(self.elems@)[i].times(coeffs@[i]), 256),
    {
        let t = self.transpose();
        let mut acc = F256::zero();
        let mut i: usize = 0;
        let ghost f = |k: int| t.elems@[k].times(coeffs@[k]);
        while i < DEGREE
            invariant
                i <= 256,
                t.elems.len() == 256,
                coeffs.len() == 256,
                f == (|k: int| t.elems@[k].times(coeffs@[k])),
                acc == sums::sum(f, i as nat),
            decreases 256 - i,
        {
            acc = acc + t.elems[i] * coeffs[i];
            i = i + 1;
        }
        acc
    }

    fn accumulate(&mut self, rhs: &TensorAlgebra)
        ensures
            final(self).elems@ == rows_plus(old(self).elems@, rhs.elems@),
            final(self).elems@.len() == old(self).elems@.len(),
            forall|i: int|
                0 <= i < old(self).elems@.len() ==> #[trigger] final(self).elems@[i] == (if i
                    < rhs.elems@.len() {
                    old(self).elems@[i].plus(rhs.elems@[i])
                } else {
                    old(self).elems@[i]
                }),
    {
        let ghost rows = self.elems@;
        let mut i: usize = 0;
        while i < self.elems.len() && i < rhs.elems.len()
            invariant
                i <= self.elems.len(),
                i <= rhs.elems.len(),
                self.elems.len() == rows.len(),
                rows == old(self).elems@,
                forall|k: int|
                    0 <= k < i ==> #[trigger] self.elems@[k] == rows[k].plus(rhs.elems@[k]),
                forall|k: int| i <= k < rows.len() ==> #[trigger] self.elems@[k] == rows[k],
            decreases self.elems.len() - i,
        {
            let e = self.elems[i] + rhs.elems[i];
            self.elems.set(i, e);
            i = i + 1;
        }
        proof {
            assert(self.elems@ =~= rows_plus(rows, rhs.elems@));
        }
    }
}

impl Clone for TensorAlgebra {
    fn clone(&self) -> (r: TensorAlgebra)
        ensures
            r.elems@ == self.elems@,
    {
        let elems: Vec<F256> = self.elems.clone();
        proof {
            assert(elems@ =~= self.elems@);
        }
        TensorAlgebra { elems }
    }
}

impl Add<&TensorAlgebra> for TensorAlgebra {
    type Output = TensorAlgebra;

    fn add(self, rhs: &TensorAlgebra) -> (r: TensorAlgebra)
        ensures
            r.elems@ == rows_plus(self.elems@, rhs.elems@),
            r.elems@.len() == self.elems@.len(),
            forall|i: int|
                0 <= i < self.elems@.len() ==> #[trigger] r.elems@[i] == (if i < rhs.elems@.len() {
                    self.elems@[i].plus(rhs.elems@[i])
                } else {
                    self.elems@[i]
                }),
    {
        let mut out = self;
        out.accumulate(rhs);
        out
    }
}

impl AddSpecImpl<&TensorAlgebra> for TensorAlgebra {
    open spec fn obeys_add_spec() -> bool {
        false
    }

    open spec fn add_req(self, rhs: &TensorAlgebra) -> bool {
        true
    }

    open spec fn add_spec(self, rhs: &TensorAlgebra) -> TensorAlgebra {
        choose|r: TensorAlgebra| r.elems@ == rows_plus(self.elems@, rhs.elems@)
    }
}

impl AddAssign<&TensorAlgebra> for TensorAlgebra {
    fn add_assign(&mut self, rhs: &TensorAlgebra)
        ensures
            final(self).elems@ == rows_plus(old(self).elems@, rhs.elems@),
            final(self).elems@.len() == old(self).elems@.len(),
            forall|i: int|
                0 <= i < old(self).elems@.len() ==> #[trigger] final(self).elems@[i] == (if i
                    < rhs.elems@.len() {
                    old(self).elems@[i].plus(rhs.elems@[i])
                } else {
                    old(self).elems@[i]
                }),
    {
        self.accumulate(rhs);
    }
}

} // verus!
