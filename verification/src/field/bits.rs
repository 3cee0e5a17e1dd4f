//! The 256 bits of an element of GF(2^256), in the natural basis over GF(2).
//!
//! Bit `k` lies in word `k / 64` of `(c0.lo, c0.hi, c1.lo, c1.hi)`, at place
//! `k % 64`: it is the coefficient of `x^(k % 128) · u^(k / 128)`.

use crate::field::gf2_128::F128;
use crate::field::gf2_256::F256;
use crate::field::sums;
use vstd::prelude::*;

verus! {

/// Bit `i` of a word.
pub open spec fn word_bit(w: u64, i: int) -> bool {
    (w >> (i as u64)) & 1u64 == 1u64
}

impl F256 {
    /// Word `k` of the four.
    pub open spec fn word(self, k: int) -> u64 {
        if k == 0 {
            self.c0.lo
        } else if k == 1 {
            self.c0.hi
        } else if k == 2 {
            self.c1.lo
        } else {
            self.c1.hi
        }
    }

    /// The element with the given words.
    pub open spec fn of_words(w0: u64, w1: u64, w2: u64, w3: u64) -> F256 {
        F256 { c0: F128 { lo: w0, hi: w1 }, c1: F128 { lo: w2, hi: w3 } }
    }

    /// Bit `k` of the 256.
    pub open spec fn bit(self, k: int) -> bool {
        word_bit(self.word(k / 64), k % 64)
    }
}

/// `a` where the bit is set, else 0.
pub open spec fn gate(b: bool, a: F256) -> F256 {
    if b {
        a
    } else {
        F256::zero()
    }
}

/// The basis element with bit `k` set.
pub open spec fn basis(k: int) -> F256 {
    let w = 1u64 << ((k % 64) as u64);
    F256::of_words(
        if k / 64 == 0 {
            w
        } else {
            0
        },
        if k / 64 == 1 {
            w
        } else {
            0
        },
        if k / 64 == 2 {
            w
        } else {
            0
        },
        if k / 64 == 3 {
            w
        } else {
            0
        },
    )
}

/// The element with the given bits.
pub open spec fn of_bits(f: spec_fn(int) -> bool) -> F256 {
    sums::sum(|k: int| gate(f(k), basis(k)), 256)
}

proof fn lemma_word_bits(a: u64, b: u64, i: u64, j: u64)
    by (bit_vector)
    requires
        i < 64,
        j < 64,
    ensures
        ((a ^ b) >> i) & 1u64 == ((a >> i) & 1u64) ^ ((b >> i) & 1u64),
        (a >> i) & 1u64 == 0u64 || (a >> i) & 1u64 == 1u64,
        0u64 ^ 0u64 == 0u64,
        0u64 ^ 1u64 == 1u64,
        1u64 ^ 0u64 == 1u64,
        1u64 ^ 1u64 == 0u64,
        (0u64 >> i) & 1u64 == 0u64,
        ((1u64 << j) >> i) & 1u64 == (if i == j {
            1u64
        } else {
            0u64
        }),
        (a >> i) & 1u64 == (b >> i) & 1u64 && (i < 63 ==> a >> ((i + 1) as u64) == b >> ((i
            + 1) as u64))
            ==> a >> i == b >> i,
        a >> 0u64 == a,
{
}

/// The bits of a sum of words, of zero and of a single bit.
pub proof fn lemma_word_bit(a: u64, b: u64, i: int, j: int)
    requires
        0 <= i < 64,
        0 <= j < 64,
    ensures
        word_bit(a ^ b, i) == (word_bit(a, i) != word_bit(b, i)),
        !word_bit(0, i),
        word_bit(1u64 << (j as u64), i) == (i == j),
{
    lemma_word_bits(a, b, i as u64, j as u64);
    lemma_word_bits(b, a, i as u64, j as u64);
}

proof fn lemma_or_bits(w: u64, i: u64, k: u64)
    by (bit_vector)
    requires
        i < 64,
        k < 64,
    ensures
        ((w | (1u64 << i)) >> k) & 1 == (if k == i {
            1u64
        } else {
            (w >> k) & 1
        }),
{
}

/// Setting a bit of a word.
pub proof fn lemma_set_bit(w: u64, i: int, k: int)
    requires
        0 <= i < 64,
        0 <= k < 64,
    ensures
        word_bit(w | (1u64 << (i as u64)), k) == (k == i || word_bit(w, k)),
{
    lemma_or_bits(w, i as u64, k as u64);
}

proof fn lemma_word_ext_from(a: u64, b: u64, k: int)
    requires
        0 <= k < 64,
        forall|i: int| 0 <= i < 64 ==> #[trigger] word_bit(a, i) == word_bit(b, i),
    ensures
        a >> (k as u64) == b >> (k as u64),
    decreases 64 - k,
{
    assert(word_bit(a, k) == word_bit(b, k));
    lemma_word_bits(a, b, k as u64, 0);
    lemma_word_bits(b, a, k as u64, 0);
    if k < 63 {
        lemma_word_ext_from(a, b, k + 1);
        assert((k + 1) as u64 == ((k as u64) + 1) as u64);
    }
}

/// A word is determined by its bits.
pub proof fn lemma_word_ext(a: u64, b: u64)
    requires
        forall|i: int| 0 <= i < 64 ==> #[trigger] word_bit(a, i) == word_bit(b, i),
    ensures
        a == b,
{
    lemma_word_ext_from(a, b, 0);
    lemma_word_bits(a, b, 0, 0);
    lemma_word_bits(b, a, 0, 0);
}

impl F256 {
    /// An element is determined by its bits.
    pub proof fn lemma_bit_ext(self, b: F256)
        requires
            forall|k: int| 0 <= k < 256 ==> #[trigger] self.bit(k) == b.bit(k),
        ensures
            self == b,
    {
        assert forall|w: int| 0 <= w < 4 implies #[trigger] self.word(w) == b.word(w) by {
            assert forall|i: int| 0 <= i < 64 implies #[trigger] word_bit(self.word(w), i)
                == word_bit(b.word(w), i) by {
                let k = 64 * w + i;
                assert(k / 64 == w && k % 64 == i);
                assert(self.bit(k) == b.bit(k));
            }
            lemma_word_ext(self.word(w), b.word(w));
        }
        assert(self.word(0) == b.word(0));
        assert(self.word(1) == b.word(1));
        assert(self.word(2) == b.word(2));
        assert(self.word(3) == b.word(3));
    }

    /// Each bit is additive.
    pub proof fn lemma_bit_plus(self, b: F256, k: int)
        requires
            0 <= k < 256,
        ensures
            self.plus(b).bit(k) == (self.bit(k) != b.bit(k)),
            !F256::zero().bit(k),
    {
        reveal(F256::plus);
        let w = k / 64;
        assert(self.plus(b).word(w) == self.word(w) ^ b.word(w));
        lemma_word_bit(self.word(w), b.word(w), k % 64, 0);
    }
}

/// The bits of a basis element.
pub proof fn lemma_basis(j: int, k: int)
    requires
        0 <= j < 256,
        0 <= k < 256,
    ensures
        basis(j).bit(k) == (j == k),
{
    lemma_word_bit(0, 0, k % 64, j % 64);
    if k / 64 == j / 64 {
        assert(basis(j).word(k / 64) == 1u64 << ((j % 64) as u64));
    } else {
        assert(basis(j).word(k / 64) == 0);
    }
}

/// The word 1 has bit 0 set.
pub proof fn lemma_one()
    ensures
        1u64 << 0u64 == 1u64,
{
    assert(1u64 << 0u64 == 1u64) by (bit_vector);
}

/// The first basis element is 1.
pub proof fn lemma_basis_zero()
    ensures
        basis(0) == F256::one(),
{
    lemma_one();
}

proof fn lemma_partial_bits(f: spec_fn(int) -> bool, n: nat, k: int)
    requires
        n <= 256,
        0 <= k < 256,
    ensures
        sums::sum(|j: int| gate(f(j), basis(j)), n).bit(k) == (k < n && f(k)),
    decreases n,
{
    let t = |j: int| gate(f(j), basis(j));
    F256::zero().lemma_bit_plus(F256::zero(), k);
    if n > 0 {
        let m = (n - 1) as nat;
        lemma_partial_bits(f, m, k);
        sums::sum(t, m).lemma_bit_plus(t(m as int), k);
        lemma_basis(m as int, k);
    }
}

/// `of_bits` gives the element with those bits.
pub proof fn lemma_of_bits(f: spec_fn(int) -> bool, k: int)
    requires
        0 <= k < 256,
    ensures
        of_bits(f).bit(k) == f(k),
{
    lemma_partial_bits(f, 256, k);
}

/// An element is the sum of the basis elements of its set bits.
pub proof fn lemma_decompose(a: F256)
    ensures
        a == sums::sum(|k: int| gate(a.bit(k), basis(k)), 256),
{
    let f = |k: int| a.bit(k);
    let b = of_bits(f);
    assert forall|k: int| 0 <= k < 256 implies #[trigger] a.bit(k) == b.bit(k) by {
        lemma_of_bits(f, k);
    }
    a.lemma_bit_ext(b);
    sums::lemma_sum_ext(
        |k: int| gate(f(k), basis(k)),
        |k: int| gate(a.bit(k), basis(k)),
        256,
    );
}

/// Gates of a sum of bits add up, and factors move through gates.
pub proof fn lemma_gate(x: bool, y: bool, a: F256, b: F256)
    ensures
        gate(x != y, a) == gate(x, a).plus(gate(y, a)),
        gate(x, a.plus(b)) == gate(x, a).plus(gate(x, b)),
        gate(x, a).times(b) == gate(x, a.times(b)),
        b.times(gate(x, a)) == gate(x, b.times(a)),
        gate(x, F256::zero()) == F256::zero(),
        gate(x, gate(y, a)) == gate(y, gate(x, a)),
        gate(true, a) == a,
        gate(false, a) == F256::zero(),
{
    a.lemma_plus(a, a);
    F256::zero().lemma_plus(F256::zero(), a);
    b.lemma_times_units();
}

/// `Σ_k bit_k(a) · w[k]`: the bits of `a` against 256 weights.
pub open spec fn bit_fold(a: F256, w: spec_fn(int) -> F256) -> F256 {
    sums::sum(|k: int| gate(a.bit(k), w(k)), 256)
}

/// Folding is additive in the element.
pub proof fn lemma_bit_fold_plus(a: F256, b: F256, w: spec_fn(int) -> F256)
    ensures
        bit_fold(a.plus(b), w) == bit_fold(a, w).plus(bit_fold(b, w)),
        bit_fold(F256::zero(), w) == F256::zero(),
{
    let f = |k: int| gate(a.bit(k), w(k));
    let g = |k: int| gate(b.bit(k), w(k));
    let h = |k: int| gate(a.plus(b).bit(k), w(k));
    sums::lemma_sum_plus(f, g, 256);
    assert forall|k: int| 0 <= k < 256 implies #[trigger] h(k) == f(k).plus(g(k)) by {
        a.lemma_bit_plus(b, k);
        lemma_gate(a.bit(k), b.bit(k), w(k), w(k));
    }
    sums::lemma_sum_ext(h, |k: int| f(k).plus(g(k)), 256);
    let z = |k: int| gate(F256::zero().bit(k), w(k));
    assert forall|k: int| 0 <= k < 256 implies #[trigger] z(k) == F256::zero() by {
        a.lemma_bit_plus(b, k);
    }
    sums::lemma_sum_zero(z, 256);
}

/// The bits of an element lie in its words in the order `c0.lo`, `c0.hi`, `c1.lo`,
/// `c1.hi`, lowest first.
pub proof fn lemma_bit_places(a: F256, t: int)
    requires
        0 <= t < 64,
    ensures
        a.bit(t) == ((a.c0.lo >> (t as u64)) & 1 == 1),
        a.bit(64 + t) == ((a.c0.hi >> (t as u64)) & 1 == 1),
        a.bit(128 + t) == ((a.c1.lo >> (t as u64)) & 1 == 1),
        a.bit(192 + t) == ((a.c1.hi >> (t as u64)) & 1 == 1),
{
}

/// Folding a single bit gives its weight.
pub proof fn lemma_bit_fold_unit(k: int, w: spec_fn(int) -> F256)
    requires
        0 <= k < 256,
    ensures
        bit_fold(basis(k), w) == w(k),
{
    let f = |j: int| gate(basis(k).bit(j), w(j));
    assert forall|j: int| 0 <= j < 256 && j != k implies #[trigger] f(j) == F256::zero() by {
        lemma_basis(k, j);
    }
    lemma_basis(k, k);
    sums::lemma_sum_single(f, 256, k);
}

} // verus!
