//! Packing of witness bits into GF(2^256) elements.

use crate::field::bits;
use crate::field::gf2_256::F256;
use crate::pcs::tensor_algebra::f256_from_words;
use vstd::arithmetic::power2::{lemma2_to64, lemma_pow2_adds, pow2};
use vstd::prelude::*;

verus! {

/// The number of low index bits that one packed element absorbs.
pub const LOG_PACKING: usize = 8;

/// The bits in groups of 256: bit `r` of element `i` is `z[256·i + r]`.
pub open spec fn packed(z: Seq<bool>) -> Seq<F256> {
    Seq::new(z.len() / 256, |i: int| bits::of_bits(|r: int| z[256 * i + r]))
}

/// Bit `r` of packed element `i`.
pub proof fn lemma_packed_bit(z: Seq<bool>, i: int, r: int)
    requires
        0 <= i < z.len() / 256,
        0 <= r < 256,
    ensures
        packed(z)[i].bit(r) == z[256 * i + r],
{
    bits::lemma_of_bits(|k: int| z[256 * i + k], r);
}

/// The 64 bits from `base` on, as a word.
fn pack_word(z: &[bool], base: usize) -> (w: u64)
    requires
        base + 64 <= z.len(),
    ensures
        forall|k: int| 0 <= k < 64 ==> #[trigger] bits::word_bit(w, k) == z@[base + k],
{
    let mut w: u64 = 0;
    let mut i: usize = 0;
    proof {
        assert forall|k: int| 0 <= k < 64 implies !#[trigger] bits::word_bit(w, k) by {
            bits::lemma_word_bit(0, 0, k, 0);
        }
    }
    while i < 64
        invariant
            i <= 64,
            base + 64 <= z.len(),
            forall|k: int|
                0 <= k < 64 ==> #[trigger] bits::word_bit(w, k) == (k < i && z@[base + k]),
        decreases 64 - i,
    {
        let ghost before = w;
        if z[base + i] {
            w = w | (1u64 << (i as u64));
        }
        proof {
            assert forall|k: int| 0 <= k < 64 implies #[trigger] bits::word_bit(w, k) == (k < i + 1
                && z@[base + k]) by {
                bits::lemma_set_bit(before, i as int, k);
                assert(bits::word_bit(before, k) == (k < i && z@[base + k]));
            }
        }
        i = i + 1;
    }
    w
}

/// Packs a witness of `2^m` bits.
pub fn pack_witness(z: &[bool], m: usize) -> (v: Vec<F256>)
    requires
        m >= LOG_PACKING,
        z@.len() == pow2(m as nat),
    ensures
        v@ == packed(z@),
        v@.len() == pow2((m - 8) as nat),
        forall|i: int, r: int|
            0 <= i < v@.len() && 0 <= r < 256 ==> #[trigger] v@[i].bit(r) == z@[256 * i + r],
{
    let mut v: Vec<F256> = Vec::new();
    let total: usize = z.len();
    let n: usize = total / 256;
    proof {
        lemma2_to64();
        lemma_pow2_adds((m - 8) as nat, 8);
        assert(n == pow2((m - 8) as nat));
    }
    let mut i: usize = 0;
    while i < n
        invariant
            i <= n,
            total == z@.len(),
            n == total / 256,
            v@ == packed(z@).take(i as int),
        decreases n - i,
    {
        let base: usize = 256 * i;
        let w0: u64 = pack_word(z, base);
        let w1: u64 = pack_word(z, base + 64);
        let w2: u64 = pack_word(z, base + 128);
        let w3: u64 = pack_word(z, base + 192);
        let e = f256_from_words(w0, w1, w2, w3);
        proof {
            let p = packed(z@)[i as int];
            assert forall|k: int| 0 <= k < 256 implies #[trigger] e.bit(k) == p.bit(k) by {
                lemma_packed_bit(z@, i as int, k);
                let j = k % 64;
                if k < 64 {
                    assert(bits::word_bit(w0, j) == z@[base + j]);
                } else if k < 128 {
                    assert(bits::word_bit(w1, j) == z@[base + 64 + j]);
                } else if k < 192 {
                    assert(bits::word_bit(w2, j) == z@[base + 128 + j]);
                } else {
                    assert(bits::word_bit(w3, j) == z@[base + 192 + j]);
                }
            }
            e.lemma_bit_ext(p);
        }
        v.push(e);
        proof {
            assert(v@ =~= packed(z@).take(i + 1));
        }
        i = i + 1;
    }
    proof {
        assert(v@ =~= packed(z@));
        assert forall|i: int, r: int|
            0 <= i < v@.len() && 0 <= r < 256 implies #[trigger] v@[i].bit(r) == z@[256 * i + r] by {
            lemma_packed_bit(z@, i, r);
        }
    }
    v
}

} // verus!
