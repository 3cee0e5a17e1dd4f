//! A reusable context for batches of one size.

use crate::field::gf2_128::F128;
use crate::lincheck;
use crate::pcs::{LigeritoProfile, PcsParams};
use crate::r1cs::block;
use crate::r1cs::BlockR1cs;
use crate::r1cs_mul64::batch;
use crate::r1cs_mul64::batch::{build_block_r1cs, generate_witness_with_ab_packed_and_lincheck};
use crate::r1cs_mul64::layout::K;
use crate::zerocheck::univariate_skip;
use crate::zerocheck::univariate_skip::power_of_two;
use vstd::arithmetic::power2::{lemma2_to64, lemma_pow2_adds, lemma_pow2_unfold, pow2};
use vstd::prelude::*;

verus! {

/// `r` is the smallest exponent from 8 on with room for `n` blocks.
pub open spec fn is_min_log(n: int, r: nat) -> bool {
    &&& r >= 8
    &&& n <= pow2(r)
    &&& r > 8 ==> pow2((r - 1) as nat) < n
}

/// The smallest `n_blocks_log` for a batch of `n_muls`. The commitment needs
/// `14 + n_blocks_log ≥ 22`, so it is at least 8.
pub fn min_n_blocks_log(n_muls: usize) -> (r: usize)
    requires
        n_muls >= 1,
        2 * (n_muls - 1) <= usize::MAX,
    ensures
        is_min_log(n_muls as int, r as nat),
        pow2(r as nat) <= 256 || pow2(r as nat) <= 2 * (n_muls - 1),
        r >= 8,
        n_muls <= pow2(r as nat),
        r > 8 ==> pow2((r - 1) as nat) < n_muls,
{
    let mut size: usize = 256;
    let mut r: usize = 8;
    proof {
        lemma2_to64();
    }
    while size < n_muls
        invariant
            8 <= r <= size,
            size == pow2(r as nat),
            2 * (n_muls - 1) <= usize::MAX,
            r > 8 ==> pow2((r - 1) as nat) < n_muls,
            size <= 256 || size <= 2 * (n_muls - 1),
        decreases 2 * n_muls - size,
    {
        proof {
            lemma_pow2_unfold((r + 1) as nat);
        }
        size = size * 2;
        r = r + 1;
    }
    r
}

/// The smallest exponent is unique.
pub proof fn lemma_min_log_unique(n: int, r: nat, s: nat)
    requires
        is_min_log(n, r),
        is_min_log(n, s),
    ensures
        r == s,
{
    if r < s {
        univariate_skip::lemma_pow2_monotone(r, (s - 1) as nat);
    } else if s < r {
        univariate_skip::lemma_pow2_monotone(s, (r - 1) as nat);
    }
}

/// The constraint system and the commitment parameters for batches of `n_muls`.
pub struct Mul64Setup {
    /// The size of a batch.
    pub n_muls: usize,
    /// The constraint system.
    pub r1cs: BlockR1cs,
    /// The parameters of the commitment.
    pub pcs_params: PcsParams,
}

impl Mul64Setup {
    /// The constraint system and the parameters fit the size of the batch.
    pub open spec fn wf(self) -> bool {
        let n = (self.r1cs.m - 14) as nat;
        &&& self.r1cs.m >= 14
        &&& is_min_log(self.n_muls as int, n)
        &&& self.n_muls >= 1
        &&& batch::is_mul64(self.r1cs, n)
        &&& self.r1cs.wf()
        &&& self.pcs_params.m == self.r1cs.m
        &&& self.pcs_params.log_inv_rate == self.pcs_params.profile.rate()
        &&& self.pcs_params.log_batch_size == 6
    }

    /// A setup with the fast profile, whose code rate is given.
    pub fn new(n_muls: usize, log_inv_rate: usize) -> (r: Mul64Setup)
        requires
            n_muls >= 1,
            32768 * (n_muls - 1) <= usize::MAX,
        ensures
            r.wf(),
            r.n_muls == n_muls,
            r.pcs_params.profile == (LigeritoProfile::Fast { log_inv_rate }),
            r.pcs_params.log_inv_rate == log_inv_rate,
            r.r1cs.m >= 22,
            r.r1cs.k_log == 14,
            n_muls <= pow2((r.r1cs.m - 14) as nat),
            r.r1cs.m > 22 ==> pow2((r.r1cs.m - 15) as nat) < n_muls,
            r.pcs_params.m == r.r1cs.m,
            r.pcs_params.log_batch_size == 6,
    {
        Mul64Setup::with_profile(n_muls, LigeritoProfile::Fast { log_inv_rate })
    }

    /// A setup with a given profile.
    pub fn with_profile(n_muls: usize, profile: LigeritoProfile) -> (r: Mul64Setup)
        requires
            n_muls >= 1,
            32768 * (n_muls - 1) <= usize::MAX,
        ensures
            r.wf(),
            r.n_muls == n_muls,
            r.pcs_params.profile == profile,
            r.pcs_params.log_inv_rate == profile.rate(),
            r.r1cs.m >= 22,
            r.r1cs.k_log == 14,
            n_muls <= pow2((r.r1cs.m - 14) as nat),
            r.r1cs.m > 22 ==> pow2((r.r1cs.m - 15) as nat) < n_muls,
            r.pcs_params.m == r.r1cs.m,
            r.pcs_params.log_batch_size == 6,
    {
        let n_log: usize = min_n_blocks_log(n_muls);
        proof {
            lemma2_to64();
            lemma_pow2_adds(14, n_log as nat);
            lemma_exponent_small(n_log as nat);
        }
        let r1cs = build_block_r1cs(n_log);
        let pcs_params = PcsParams {
            m: r1cs.m,
            log_inv_rate: profile.log_inv_rate(),
            log_batch_size: 6,
            profile,
        };
        Mul64Setup { n_muls, r1cs, pcs_params }
    }

    /// The number of witness bits, as a power of two.
    pub fn m(&self) -> (m: usize)
        ensures
            m == self.r1cs.m,
    {
        self.r1cs.m
    }

    /// The number of blocks, as a power of two.
    pub fn n_blocks_log(&self) -> (n: usize)
        requires
            self.r1cs.k_log <= self.r1cs.m,
        ensures
            n == self.r1cs.m - self.r1cs.k_log,
    {
        self.r1cs.m - self.r1cs.k_log
    }

    /// The number of blocks.
    pub fn n_block_slots(&self) -> (n: usize)
        requires
            self.r1cs.k_log <= self.r1cs.m,
            pow2((self.r1cs.m - self.r1cs.k_log) as nat) <= usize::MAX,
        ensures
            n == pow2((self.r1cs.m - self.r1cs.k_log) as nat),
    {
        power_of_two(self.n_blocks_log())
    }

    /// The packed `(z, A·z, B·z)` and the striped `z` of a batch, one block to each
    /// slot. In a setup as the constructors build it, `z` meets the constraints.
    pub fn generate_witness_ab(&self, muls: &[(u64, u64)]) -> (out: (
        Vec<F128>,
        Vec<F128>,
        Vec<F128>,
        Vec<u8>,
    ))
        requires
            muls@.len() == self.n_muls,
            self.r1cs.k_log <= self.r1cs.m,
            self.n_muls <= pow2((self.r1cs.m - self.r1cs.k_log) as nat),
            pow2((14 + (self.r1cs.m - self.r1cs.k_log)) as nat) <= usize::MAX,
        ensures
            ({
                let n = pow2((self.r1cs.m - self.r1cs.k_log) as nat) as int;
                &&& batch::is_packed(out.0@, n, batch::batch_z(muls@))
                &&& batch::is_packed(out.1@, n, batch::batch_a(muls@))
                &&& batch::is_packed(out.2@, n, batch::batch_b(muls@))
                &&& lincheck::stripes_hold(out.3@, K as int, n, batch::batch_z(muls@), n)
                &&& self.wf() ==> self.r1cs.satisfied(out.0@)
            }),
            ({
                let z = out.0@;
                let n = pow2((self.r1cs.m - self.r1cs.k_log) as nat);
                &&& z.len() == 128 * n
                &&& out.1@.len() == 128 * n
                &&& out.2@.len() == 128 * n
                &&& forall|blk: int|
                    0 <= blk < n ==> {
                        let (x, y) = if blk < muls@.len() {
                            muls@[blk]
                        } else {
                            (0u64, 0u64)
                        };
                        &&& (#[trigger] z[128 * blk]).lo == x
                        &&& z[128 * blk].hi == y
                        &&& z[128 * blk + 1].lo + 0x1_0000_0000_0000_0000 * z[128 * blk + 1].hi == x * y
                        &&& z[128 * blk + 2].lo == 1
                    }
                &&& forall|p: int|
                    0 <= p < 16384 * n ==> #[trigger] block::packed_bit(z, p) == (block::packed_bit(
                        out.1@,
                        p,
                    ) && block::packed_bit(out.2@, p))
                &&& forall|blk: int, s: int|
                    0 <= blk < n && 0 <= s < 16384 ==> #[trigger] lincheck::stripe_bit(
                        out.3@,
                        16384,
                        blk,
                        s,
                    ) == block::packed_bit(z, 16384 * blk + s)
            }),
    {
        let out = generate_witness_with_ab_packed_and_lincheck(muls, self.n_blocks_log());
        proof {
            if self.wf() {
                batch::lemma_batch_satisfies(
                    self.r1cs,
                    (self.r1cs.m - 14) as nat,
                    out.0@,
                    muls@,
                );
            }
        }
        out
    }

    /// A setup as the constructors build it meets what its methods require.
    pub proof fn lemma_ready(self)
        requires
            self.wf(),
        ensures
            self.r1cs.k_log <= self.r1cs.m,
            self.r1cs.m >= 22,
            self.n_muls <= pow2((self.r1cs.m - self.r1cs.k_log) as nat),
            pow2((14 + (self.r1cs.m - self.r1cs.k_log)) as nat) <= usize::MAX,
            pow2((self.r1cs.m - self.r1cs.k_log) as nat) <= usize::MAX,
    {
        univariate_skip::lemma_pow2_monotone((self.r1cs.m - 14) as nat, self.r1cs.m as nat);
    }
}

/// An exponent is below its power.
proof fn lemma_exponent_small(n: nat)
    ensures
        n < pow2(n),
    decreases n,
{
    if n == 0 {
        lemma2_to64();
    } else {
        lemma_exponent_small((n - 1) as nat);
        lemma_pow2_unfold(n);
    }
}

} // verus!
