//! Equality tensors for the suffix coordinates, whole and factored.

use crate::field::gf2_256::F256;
use crate::parallel::{par_map, SlotJob};
use crate::zerocheck::univariate_skip;
use crate::zerocheck::univariate_skip::double_in_place;
use vstd::arithmetic::power2::{
    lemma2_to64, lemma_pow2_adds, lemma_pow2_pos, lemma_pow2_unfold, pow2,
};
use vstd::prelude::*;

verus! {

/// From this table size on, doubling a table is done in parallel.
const PAR_THRESHOLD: usize = 4096;

/// `lo[i mod B] · hi[i / B]` with `B = lo.len()`: the tensor with factors `lo`
/// and `hi`.
pub open spec fn product_tensor(lo: Seq<F256>, hi: Seq<F256>) -> Seq<F256> {
    Seq::new(
        lo.len() * hi.len(),
        |i: int| lo[i % (lo.len() as int)].times(hi[i / (lo.len() as int)]),
    )
}

/// An index below `b · n` has a quotient below `n`.
pub proof fn lemma_block_index(i: int, b: int, n: int)
    requires
        0 <= i < b * n,
        b > 0,
    ensures
        0 <= i % b < b,
        0 <= i / b < n,
        i == (i / b) * b + i % b,
{
    vstd::arithmetic::div_mod::lemma_fundamental_div_mod(i, b);
    vstd::arithmetic::div_mod::lemma_mod_bound(i, b);
    assert(i / b >= 0) by (nonlinear_arith)
        requires
            i >= 0,
            b > 0,
    ;
    assert(i / b < n) by (nonlinear_arith)
        requires
            i < b * n,
            i == b * (i / b) + i % b,
            i % b >= 0,
            b > 0,
    ;
    assert(b * (i / b) == (i / b) * b) by (nonlinear_arith);
}

/// Block `q`, place `k`: the index `q·b + k`.
pub proof fn lemma_index_of_block(q: int, k: int, b: int, n: int)
    requires
        0 <= q < n,
        0 <= k < b,
    ensures
        0 <= q * b + k < b * n,
        (q * b + k) / b == q,
        (q * b + k) % b == k,
{
    assert(0 <= q * b + k < b * n) by (nonlinear_arith)
        requires
            0 <= q < n,
            0 <= k < b,
    ;
    vstd::arithmetic::div_mod::lemma_fundamental_div_mod_converse(q * b + k, b, q, k);
}

/// One doubling of a table: slot `i` is `t[i]·(1 + r)` below the old length and
/// `t[i - len]·r` from there on.
struct DoubleJob<'a> {
    table: &'a [F256],
    r: F256,
    one_minus_r: F256,
}

impl<'a> SlotJob<F256> for DoubleJob<'a> {
    closed spec fn ready(&self) -> bool {
        true
    }

    closed spec fn count(&self) -> nat {
        (2 * self.table@.len()) as nat
    }

    closed spec fn slot(&self, i: int) -> F256 {
        if i < self.table@.len() {
            self.table@[i].times(self.one_minus_r)
        } else {
            self.table@[i - self.table@.len()].times(self.r)
        }
    }

    fn compute(&self, i: usize) -> (e: F256) {
        let half: usize = self.table.len();
        if i < half {
            self.table[i] * self.one_minus_r
        } else {
            self.table[i - half] * self.r
        }
    }
}

/// The equality tensor of `r`, the same as
/// [`build_eq`](crate::zerocheck::univariate_skip::build_eq); large tables are
/// doubled in parallel.
pub fn build_eq_parallel(r: &[F256]) -> (t: Vec<F256>)
    requires
        pow2(r@.len()) <= usize::MAX,
    ensures
        t@ == univariate_skip::eq_tensor(r@),
{
    let mut t: Vec<F256> = Vec::new();
    t.push(F256::one());
    proof {
        lemma2_to64();
    }
    let mut i: usize = 0;
    while i < r.len()
        invariant
            i <= r.len(),
            pow2(r@.len()) <= usize::MAX,
            univariate_skip::is_eq_prefix(t@, r@, i as nat),
        decreases r.len() - i,
    {
        let r_i = r[i];
        let half: usize = t.len();
        let ghost before = t@;
        proof {
            lemma_pow2_unfold((i + 1) as nat);
            univariate_skip::lemma_pow2_monotone((i + 1) as nat, r@.len());
        }
        if half < PAR_THRESHOLD {
            double_in_place(&mut t, r_i);
        } else {
            let job = DoubleJob { table: t.as_slice(), r: r_i, one_minus_r: F256::one() + r_i };
            let next: Vec<F256> = par_map(&job, 2 * half);
            proof {
                assert forall|k: int| 0 <= k < before.len() implies {
                    &&& #[trigger] next@[k] == before[k].times(F256::one().plus(r_i))
                    &&& next@[before.len() + k] == before[k].times(r_i)
                } by {
                    assert(next@[k] == job.slot(k));
                    assert(next@[half + k] == job.slot(half + k));
                }
                assert(univariate_skip::doubled(before, next@, r_i));
            }
            t = next;
        }
        proof {
            assert(univariate_skip::doubled(before, t@, r_i));
            univariate_skip::lemma_doubled(before, t@, r@, i as nat);
        }
        i = i + 1;
    }
    proof {
        assert(t@ =~= univariate_skip::eq_tensor(r@));
    }
    t
}

/// Splits the point `r` after `n_lo` coordinates and returns the equality
/// tensors of the two parts, of lengths `2^n_lo` and `2^(n - n_lo)`.
///
/// The tensor of `r` is exactly their product:
/// `eq(r)[i] == eq_lo[i mod 2^n_lo] · eq_hi[i / 2^n_lo]`.
pub fn build_eq_split(r: &[F256], n_lo: usize) -> (parts: (Vec<F256>, Vec<F256>))
    requires
        n_lo <= r.len(),
        pow2(n_lo as nat) <= usize::MAX,
        pow2((r@.len() - n_lo) as nat) <= usize::MAX,
    ensures
        parts.0@ == univariate_skip::eq_tensor(r@.take(n_lo as int)),
        parts.1@ == univariate_skip::eq_tensor(r@.skip(n_lo as int)),
        product_tensor(parts.0@, parts.1@) == univariate_skip::eq_tensor(r@),
{
    let low = vstd::slice::slice_subrange(r, 0, n_lo);
    let high = vstd::slice::slice_subrange(r, n_lo, r.len());
    proof {
        assert(low@ =~= r@.take(n_lo as int));
        assert(high@ =~= r@.skip(n_lo as int));
        lemma_product_of_parts(r@, n_lo as nat);
    }
    let eq_lo = build_eq_parallel(low);
    let eq_hi = build_eq_parallel(high);
    (eq_lo, eq_hi)
}

/// The tensor of a point is the product of the tensors of its two parts.
pub proof fn lemma_product_of_parts(r: Seq<F256>, m: nat)
    requires
        m <= r.len(),
    ensures
        product_tensor(
            univariate_skip::eq_tensor(r.take(m as int)),
            univariate_skip::eq_tensor(r.skip(m as int)),
        ) == univariate_skip::eq_tensor(r),
{
    let lo = univariate_skip::eq_tensor(r.take(m as int));
    let hi = univariate_skip::eq_tensor(r.skip(m as int));
    let n = (r.len() - m) as nat;
    lemma_pow2_adds(m, n);
    lemma_pow2_pos(m);
    let b = pow2(m) as int;
    assert forall|i: int| 0 <= i < pow2(r.len()) implies product_tensor(lo, hi)[i]
        == univariate_skip::eq_tensor(r)[i] by {
        lemma_block_index(i, b, pow2(n) as int);
        univariate_skip::lemma_eq_split(r, m, i % b, i / b);
    }
    assert(product_tensor(lo, hi) =~= univariate_skip::eq_tensor(r));
}

/// Half of `n`, but at least 4.
pub open spec fn split_width(n: nat) -> nat {
    if n / 2 < 4 {
        4
    } else {
        n / 2
    }
}

/// The low-split width for a suffix tensor of length `2^n`: `n / 2`, but at
/// least 4.
pub fn split_n_lo(n: usize) -> (r: usize)
    requires
        n >= 4,
    ensures
        r == split_width(n as nat),
        4 <= r <= n,
        r == (if n / 2 < 4 {
            4
        } else {
            n / 2
        }),
{
    if n / 2 < 4 {
        4
    } else {
        n / 2
    }
}

/// Entry `hi·B + lo` of a product tensor is the product of the two entries.
pub proof fn lemma_product_tensor_entry(lo: Seq<F256>, hi: Seq<F256>, i: int, j: int)
    requires
        0 <= i < lo.len(),
        0 <= j < hi.len(),
    ensures
        product_tensor(lo, hi).len() == lo.len() * hi.len(),
        product_tensor(lo, hi)[j * lo.len() + i] == lo[i].times(hi[j]),
{
    lemma_index_of_block(j, i, lo.len() as int, hi.len() as int);
}

} // verus!
