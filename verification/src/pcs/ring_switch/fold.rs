//! Folding the bits of packed elements against tensors.
//!
//! `fold_1b_rows` is `s_hat_v[r] = Σ_i bit_r(W[i]) · tensor[i]` for `r ∈ 0..256`:
//! the 256 bit slices of the packed witness, each against the tensor.
//! `fold_b128_elems` is `rs_eq_ind[i] = Σ_b bit_b(suffix[i]) · eq_r_dprime[b]`.

use crate::field::bits;
use crate::field::gf2_256::F256;
use crate::field::sums;
use vstd::prelude::*;

verus! {

/// `Σ_i bit_r(W[i]) · tensor[i]` for every `r`.
pub open spec fn slice_fold(witness: Seq<F256>, tensor: Seq<F256>) -> Seq<F256> {
    Seq::new(
        256,
        |r: int| sums::sum(|i: int| bits::gate(witness[i].bit(r), tensor[i]), witness.len()),
    )
}

/// The bits of `a` against the 256 entries of `w`.
pub open spec fn fold_against(a: F256, w: Seq<F256>) -> F256 {
    bits::bit_fold(a, |k: int| w[k])
}

// ---------------------------------------------------------------------------
// Set bits of one word.
// ---------------------------------------------------------------------------

proof fn lemma_clear_lowest(w: u64, r: u64)
    by (bit_vector)
    requires
        r < 64,
        (w >> r) & 1 == 1,
        w << ((64 - r) as u64) == 0u64,
    ensures
        w != 0u64,
        w & ((w - 1) as u64) == w ^ (1u64 << r),
        w & ((w - 1) as u64) < w,
{
}

/// Clearing the lowest set bit.
proof fn lemma_clear_bit(w: u64, next: u64, r: int)
    requires
        w != 0,
        r == vstd::std_specs::bits::u64_trailing_zeros(w),
        next == w & ((w - 1) as u64),
    ensures
        0 <= r < 64,
        next < w,
        bits::word_bit(w, r),
        forall|k: int|
            0 <= k < 64 ==> #[trigger] bits::word_bit(next, k) == (bits::word_bit(w, k) && k != r),
{
    lemma_clear_lowest(w, r as u64);
    assert forall|k: int| 0 <= k < 64 implies #[trigger] bits::word_bit(next, k) == (
    bits::word_bit(w, k) && k != r) by {
        bits::lemma_word_bit(w, 1u64 << (r as u64), k, r);
    }
}

proof fn lemma_no_bits(k: int)
    requires
        0 <= k < 64,
    ensures
        !bits::word_bit(0, k),
{
    bits::lemma_word_bit(0, 0, k, 0);
}

/// Word `k` of an element, lowest first.
pub(crate) fn f256_limb(x: F256, k: usize) -> (w: u64)
    requires
        k < 4,
    ensures
        w == x.word(k as int),
{
    if k == 0 {
        x.c0.lo
    } else if k == 1 {
        x.c0.hi
    } else if k == 2 {
        x.c1.lo
    } else {
        x.c1.hi
    }
}

/// `acc[base + r] += val` for every set bit `r` of `word`.
fn scatter_word(acc: &mut Vec<F256>, base: usize, word: u64, val: F256)
    requires
        base + 64 <= old(acc).len(),
    ensures
        final(acc).len() == old(acc).len(),
        forall|j: int|
            0 <= j < old(acc).len() ==> #[trigger] final(acc)@[j] == (if base <= j < base + 64
                && bits::word_bit(word, j - base) {
                old(acc)@[j].plus(val)
            } else {
                old(acc)@[j]
            }),
{
    let mut left: u64 = word;
    while left != 0
        invariant
            base + 64 <= acc.len(),
            acc.len() == old(acc).len(),
            forall|k: int|
                0 <= k < 64 ==> (#[trigger] bits::word_bit(left, k) ==> bits::word_bit(word, k)),
            forall|j: int|
                0 <= j < acc.len() ==> #[trigger] acc@[j] == (if base <= j < base + 64
                    && bits::word_bit(word, j - base) && !bits::word_bit(left, j - base) {
                    old(acc)@[j].plus(val)
                } else {
                    old(acc)@[j]
                }),
        decreases left,
    {
        let r: usize = left.trailing_zeros() as usize;
        let next: u64 = left & (left - 1);
        proof {
            lemma_clear_bit(left, next, r as int);
        }
        let ghost before = acc@;
        let e = acc[base + r] + val;
        acc.set(base + r, e);
        proof {
            assert forall|j: int| 0 <= j < acc.len() implies #[trigger] acc@[j] == (if base <= j
                < base + 64 && bits::word_bit(word, j - base) && !bits::word_bit(next, j - base) {
                old(acc)@[j].plus(val)
            } else {
                old(acc)@[j]
            }) by {
                assert(before[j] == before[j]);
            }
            assert forall|k: int| 0 <= k < 64 && #[trigger] bits::word_bit(
                next,
                k,
            ) implies bits::word_bit(word, k) by {
                assert(bits::word_bit(left, k) ==> bits::word_bit(word, k));
            }
        }
        left = next;
    }
    proof {
        assert forall|j: int| 0 <= j < acc.len() implies #[trigger] acc@[j] == (if base <= j < base
            + 64 && bits::word_bit(word, j - base) {
            old(acc)@[j].plus(val)
        } else {
            old(acc)@[j]
        }) by {
            if base <= j < base + 64 {
                lemma_no_bits(j - base);
            }
        }
    }
}

/// `acc[r] += val` for every set bit `r` of `elem`.
pub(crate) fn scatter_set_bits(acc: &mut Vec<F256>, elem: F256, val: F256)
    requires
        old(acc).len() == 256,
    ensures
        final(acc).len() == 256,
        forall|r: int|
            0 <= r < 256 ==> #[trigger] final(acc)@[r] == old(acc)@[r].plus(
                bits::gate(elem.bit(r), val),
            ),
{
    let mut limb: usize = 0;
    while limb < 4
        invariant
            limb <= 4,
            acc.len() == 256,
            old(acc).len() == 256,
            forall|r: int|
                0 <= r < 256 ==> #[trigger] acc@[r] == (if r < 64 * limb && elem.bit(r) {
                    old(acc)@[r].plus(val)
                } else {
                    old(acc)@[r]
                }),
        decreases 4 - limb,
    {
        let word: u64 = f256_limb(elem, limb);
        let ghost before = acc@;
        scatter_word(acc, limb * 64, word, val);
        proof {
            assert forall|r: int| 0 <= r < 256 implies #[trigger] acc@[r] == (if r < 64 * (limb + 1)
                && elem.bit(r) {
                old(acc)@[r].plus(val)
            } else {
                old(acc)@[r]
            }) by {
                assert(before[r] == before[r]);
                if 64 * limb <= r < 64 * limb + 64 {
                    assert(r / 64 == limb && r % 64 == r - 64 * limb);
                }
            }
        }
        limb = limb + 1;
    }
    proof {
        assert forall|r: int| 0 <= r < 256 implies #[trigger] acc@[r] == old(acc)@[r].plus(
            bits::gate(elem.bit(r), val),
        ) by {
            old(acc)@[r].lemma_plus(F256::zero(), F256::zero());
        }
    }
}

/// Taking one set bit out of a word takes one term out of its sum.
proof fn lemma_word_sum_step(w: u64, next: u64, r: int, base: int, eq: Seq<F256>)
    requires
        0 <= r < 64,
        bits::word_bit(w, r),
        forall|k: int|
            0 <= k < 64 ==> #[trigger] bits::word_bit(next, k) == (bits::word_bit(w, k) && k != r),
    ensures
        word_sum(w, base, eq) == word_sum(next, base, eq).plus(eq[base + r]),
{
    let f = |k: int| bits::gate(bits::word_bit(w, k), eq[base + k]);
    let g = |k: int| bits::gate(bits::word_bit(next, k), eq[base + k]);
    let h = |k: int| bits::gate(k == r, eq[base + k]);
    assert forall|k: int| 0 <= k < 64 implies #[trigger] f(k) == g(k).plus(h(k)) by {
        assert(bits::word_bit(next, k) == (bits::word_bit(w, k) && k != r));
        f(k).lemma_plus(F256::zero(), F256::zero());
    }
    sums::lemma_sum_ext(f, |k: int| g(k).plus(h(k)), 64);
    sums::lemma_sum_plus(g, h, 64);
    sums::lemma_sum_single(h, 64, r);
}

/// The set bits of a word against 64 weights.
spec fn word_sum(w: u64, base: int, eq: Seq<F256>) -> F256 {
    sums::sum(|k: int| bits::gate(bits::word_bit(w, k), eq[base + k]), 64)
}

/// Adds `eq[base + b]` for every set bit `b` of `word`.
fn fold_word(word: u64, base: usize, eq: &[F256], start: F256) -> (r: F256)
    requires
        base + 64 <= eq.len(),
    ensures
        r == start.plus(word_sum(word, base as int, eq@)),
{
    let mut acc = start;
    let mut left: u64 = word;
    while left != 0
        invariant
            base + 64 <= eq.len(),
            acc.plus(word_sum(left, base as int, eq@)) == start.plus(
                word_sum(word, base as int, eq@),
            ),
        decreases left,
    {
        let b: usize = left.trailing_zeros() as usize;
        let next: u64 = left & (left - 1);
        proof {
            lemma_clear_bit(left, next, b as int);
            lemma_word_sum_step(left, next, b as int, base as int, eq@);
            let s = word_sum(next, base as int, eq@);
            let e = eq@[base + b];
            s.lemma_plus(e, e);
            acc.lemma_plus(e, s);
        }
        acc = acc + eq[base + b];
        left = next;
    }
    proof {
        let f = |k: int| bits::gate(bits::word_bit(0, k), eq@[base + k]);
        assert forall|k: int| 0 <= k < 64 implies #[trigger] f(k) == F256::zero() by {
            lemma_no_bits(k);
        }
        sums::lemma_sum_zero(f, 64);
        acc.lemma_plus(F256::zero(), F256::zero());
    }
    acc
}

/// `Σ_{b set in elem} eq[b]`: the 256 bits of `elem` against `eq`.
pub(crate) fn fold_bits_against(elem: F256, eq: &[F256]) -> (r: F256)
    requires
        eq.len() == 256,
    ensures
        r == fold_against(elem, eq@),
{
    let mut acc = F256::zero();
    let mut limb: usize = 0;
    let ghost f = |k: int| bits::gate(elem.bit(k), eq@[k]);
    while limb < 4
        invariant
            limb <= 4,
            eq.len() == 256,
            f == (|k: int| bits::gate(elem.bit(k), eq@[k])),
            acc == sums::sum(f, (64 * limb) as nat),
        decreases 4 - limb,
    {
        let word: u64 = f256_limb(elem, limb);
        acc = fold_word(word, limb * 64, eq, acc);
        proof {
            let base = 64 * limb;
            sums::lemma_sum_split(f, base as nat, 64);
            let g = |k: int| f(base as nat + k);
            let h = |k: int| bits::gate(bits::word_bit(word, k), eq@[base + k]);
            assert forall|k: int| 0 <= k < 64 implies #[trigger] g(k) == h(k) by {
                assert((base + k) / 64 == limb && (base + k) % 64 == k);
            }
            sums::lemma_sum_ext(g, h, 64);
        }
        limb = limb + 1;
    }
    proof {
        sums::lemma_sum_ext(f, |k: int| bits::gate(elem.bit(k), (|j: int| eq@[j])(k)), 256);
    }
    acc
}

/// Entry `r` of the slice fold adds the tensor entries at which the witness has bit
/// `r` set.
pub proof fn lemma_slice_fold_entry(witness: Seq<F256>, tensor: Seq<F256>, r: int)
    requires
        0 <= r < 256,
    ensures
        slice_fold(witness, tensor).len() == 256,
        slice_fold(witness, tensor)[r] == sums::sum(
            |i: int|
                if witness[i].bit(r) {
                    tensor[i]
                } else {
                    F256::zero()
                },
            witness.len(),
        ),
{
    sums::lemma_sum_ext(
        |i: int| bits::gate(witness[i].bit(r), tensor[i]),
        |i: int|
            if witness[i].bit(r) {
                tensor[i]
            } else {
                F256::zero()
            },
        witness.len(),
    );
}

/// Folding an element adds the weights of its set bits.
pub proof fn lemma_fold_against_value(a: F256, w: Seq<F256>)
    ensures
        fold_against(a, w) == sums::sum(
            |b: int|
                if a.bit(b) {
                    w[b]
                } else {
                    F256::zero()
                },
            256,
        ),
{
    let g = |k: int| w[k];
    sums::lemma_sum_ext(
        |k: int| bits::gate(a.bit(k), g(k)),
        |b: int|
            if a.bit(b) {
                w[b]
            } else {
                F256::zero()
            },
        256,
    );
}

} // verus!
