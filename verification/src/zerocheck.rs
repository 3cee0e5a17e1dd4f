//! The parts of the zerocheck that the polynomial commitment builds on.

use vstd::arithmetic::power2::{lemma2_to64, lemma_pow2_pos, lemma_pow2_unfold, pow2};
use vstd::prelude::*;

pub mod multilinear;
pub mod univariate_skip;

verus! {

/// Which witness bits can be nonzero: the witness is cut into blocks of
/// `2^k_log` bits, and in each block only the first `useful_bits_per_block` are
/// in use, the rest being zero.
#[derive(Clone, Copy, Debug, PartialEq, Eq, Structural)]
pub struct PaddingSpec {
    /// The block size, as a power of two.
    pub k_log: usize,
    /// The number of bits in use at the start of each block.
    pub useful_bits_per_block: usize,
}

/// `2^m`, or the largest `usize` where that is too large.
pub open spec fn capped_pow2(m: nat) -> int {
    if pow2(m) <= usize::MAX {
        pow2(m) as int
    } else {
        usize::MAX as int
    }
}

impl PaddingSpec {
    /// No padding: a single block of `2^m` bits, all in use.
    pub fn dense(m: usize) -> (r: PaddingSpec)
        ensures
            r.k_log == m,
            r.useful_bits_per_block == capped_pow2(m as nat),
            pow2(m as nat) <= usize::MAX ==> r.useful_bits_per_block == pow2(m as nat),
            pow2(m as nat) > usize::MAX ==> r.useful_bits_per_block == usize::MAX,
    {
        let mut size: usize = 1;
        let mut i: usize = 0;
        proof {
            lemma2_to64();
        }
        while i < m
            invariant
                i <= m,
                size == capped_pow2(i as nat),
                size > 0,
            decreases m - i,
        {
            proof {
                lemma_pow2_unfold((i + 1) as nat);
                lemma_pow2_pos(i as nat);
            }
            if size <= usize::MAX / 2 {
                size = size * 2;
            } else {
                size = usize::MAX;
            }
            i = i + 1;
        }
        PaddingSpec { k_log: m, useful_bits_per_block: size }
    }
}

} // verus!
