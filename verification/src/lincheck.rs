//! The block-transposed witness of the lincheck, and its fold over the blocks.
//!
//! The witness consists of `2^(m − k_log)` blocks of `2^k_log` bits. Eight blocks
//! form a stripe of `2^k_log` bytes: bit `blk mod 8` of byte `s` of stripe
//! `blk / 8` is bit `s` of block `blk`.

use crate::field::bits;
use crate::field::gf2_256::F256;
use crate::field::sums;
use crate::pcs::pack;
use crate::pcs::ring_switch::fold;
use crate::pcs::ring_switch::z_vec;
use crate::zerocheck::univariate_skip;
use crate::zerocheck::univariate_skip::power_of_two;
use vstd::arithmetic::power2::{lemma2_to64, lemma_pow2_adds, lemma_pow2_pos, pow2};
use vstd::prelude::*;

verus! {

/// Bit `i` of a byte.
pub open spec fn byte_bit(b: u8, i: int) -> bool {
    (b >> (i as u8)) & 1 == 1
}

/// The byte that holds bit `s` of block `blk`, with blocks of `k` bits.
pub open spec fn stripe_index(k: int, blk: int, s: int) -> int {
    (blk / 8) * k + s
}

/// Bit `s` of block `blk`.
pub open spec fn stripe_bit(v: Seq<u8>, k: int, blk: int, s: int) -> bool {
    byte_bit(v[stripe_index(k, blk, s)], blk % 8)
}

/// The number of bytes for `n` blocks of `k` bits.
pub open spec fn stripe_len(k: int, n: int) -> int {
    ((n + 7) / 8) * k
}

/// The stripes hold exactly the bits `f(blk, s)` of the first `done` blocks.
pub open spec fn stripes_hold(
    v: Seq<u8>,
    k: int,
    n: int,
    f: spec_fn(int, int) -> bool,
    done: int,
) -> bool {
    &&& v.len() == stripe_len(k, n)
    &&& forall|blk: int, s: int|
        0 <= blk < 8 * ((n + 7) / 8) && 0 <= s < k ==> #[trigger] stripe_bit(v, k, blk, s) == (blk
            < done && f(blk, s))
}

proof fn lemma_byte(b: u8, i: u8, j: u8)
    by (bit_vector)
    requires
        i < 8,
        j < 8,
    ensures
        ((b | (1u8 << i)) >> j) & 1 == (if j == i {
            1u8
        } else {
            (b >> j) & 1
        }),
        (0u8 >> j) & 1 == 0u8,
{
}

/// The indices of two bits agree only for the same slot of the same stripe.
proof fn lemma_stripe_index(k: int, n: int, blk: int, s: int)
    requires
        0 <= s < k,
        0 <= blk < 8 * ((n + 7) / 8),
    ensures
        0 <= stripe_index(k, blk, s) < stripe_len(k, n),
        stripe_index(k, blk, s) / k == blk / 8,
        stripe_index(k, blk, s) % k == s,
{
    crate::pcs::ring_switch::eq::lemma_index_of_block(blk / 8, s, k, (n + 7) / 8);
    assert(k * ((n + 7) / 8) == ((n + 7) / 8) * k) by (nonlinear_arith);
}

/// Zero bytes hold no blocks.
pub(crate) fn empty_stripes(k: usize, n: usize, Ghost(f): Ghost<spec_fn(int, int) -> bool>) -> (v:
    Vec<u8>)
    requires
        stripe_len(k as int, n as int) <= usize::MAX,
        n + 7 <= usize::MAX,
    ensures
        stripes_hold(v@, k as int, n as int, f, 0),
{
    let v: Vec<u8> = vec![0u8; ((n + 7) / 8) * k];
    proof {
        assert forall|blk: int, s: int|
            0 <= blk < 8 * ((n as int + 7) / 8) && 0 <= s
                < k as int implies #[trigger] stripe_bit(v@, k as int, blk, s) == (blk < 0 && f(
            blk,
            s,
        )) by {
            lemma_stripe_index(k as int, n as int, blk, s);
            lemma_byte(0, 0, (blk % 8) as u8);
        }
    }
    v
}

/// The bits of block `blk` below `s` have been put in, the blocks before it are
/// complete.
pub open spec fn stripes_upto(
    v: Seq<u8>,
    k: int,
    n: int,
    f: spec_fn(int, int) -> bool,
    blk: int,
    s: int,
) -> bool {
    &&& v.len() == stripe_len(k, n)
    &&& forall|c: int, t: int|
        0 <= c < 8 * ((n + 7) / 8) && 0 <= t < k ==> #[trigger] stripe_bit(v, k, c, t) == ((c < blk
            || (c == blk && t < s)) && f(c, t))
}

/// Puts bit `s` of block `blk` in.
pub(crate) fn put_stripe_bit(
    v: &mut Vec<u8>,
    k: usize,
    n: usize,
    blk: usize,
    s: usize,
    on: bool,
    Ghost(f): Ghost<spec_fn(int, int) -> bool>,
)
    requires
        s < k,
        blk < n,
        n + 7 <= usize::MAX,
        stripes_upto(old(v)@, k as int, n as int, f, blk as int, s as int),
        on == f(blk as int, s as int),
    ensures
        stripes_upto(final(v)@, k as int, n as int, f, blk as int, s + 1),
{
    let ghost before = v@;
    proof {
        lemma_stripe_index(k as int, n as int, blk as int, s as int);
        assert((blk as int / 8) * k >= 0) by (nonlinear_arith)
            requires
                blk >= 0,
                k >= 0,
        ;
    }
    let total: usize = v.len();
    let at: usize = (blk / 8) * k + s;
    let place: u8 = (blk % 8) as u8;
    if on {
        let b: u8 = v[at] | (1u8 << place);
        v.set(at, b);
    }
    proof {
        assert forall|c: int, t: int|
            0 <= c < 8 * ((n as int + 7) / 8) && 0 <= t < k as int implies #[trigger] stripe_bit(
            v@,
            k as int,
            c,
            t,
        ) == ((c < blk || (c == blk && t < s + 1)) && f(c, t)) by {
            lemma_stripe_index(k as int, n as int, c, t);
            assert(stripe_bit(before, k as int, c, t) == ((c < blk || (c == blk && t < s)) && f(
                c,
                t,
            )));
            if stripe_index(k as int, c, t) == at {
                assert(c / 8 == blk as int / 8 && t == s);
                lemma_byte(before[at as int], place, (c % 8) as u8);
            }
        }
    }
}

/// Transposes a witness of `2^m` bits into stripes.
pub fn pack_z_lincheck(z: &[bool], m: usize, k_log: usize) -> (v: Vec<u8>)
    requires
        k_log <= m,
        z@.len() == pow2(m as nat),
        stripe_len(pow2(k_log as nat) as int, pow2((m - k_log) as nat) as int) <= usize::MAX,
        pow2((m - k_log) as nat) + 7 <= usize::MAX,
    ensures
        stripes_hold(
            v@,
            pow2(k_log as nat) as int,
            pow2((m - k_log) as nat) as int,
            |blk: int, s: int| z@[blk * pow2(k_log as nat) + s],
            pow2((m - k_log) as nat) as int,
        ),
        v@.len() == ((pow2((m - k_log) as nat) + 7) / 8) * pow2(k_log as nat),
        forall|blk: int, s: int|
            0 <= blk < pow2((m - k_log) as nat) && 0 <= s < pow2(k_log as nat)
                ==> #[trigger] stripe_bit(v@, pow2(k_log as nat) as int, blk, s) == z@[blk * pow2(
                k_log as nat,
            ) + s],
        forall|blk: int, s: int|
            pow2((m - k_log) as nat) <= blk < 8 * ((pow2((m - k_log) as nat) + 7) / 8) && 0 <= s
                < pow2(k_log as nat) ==> !#[trigger] stripe_bit(
                v@,
                pow2(k_log as nat) as int,
                blk,
                s,
            ),
{
    let total: usize = z.len();
    proof {
        lemma_pow2_adds(k_log as nat, (m - k_log) as nat);
        univariate_skip::lemma_pow2_monotone(k_log as nat, m as nat);
    }
    let k: usize = power_of_two(k_log);
    let n: usize = power_of_two(m - k_log);
    let ghost f = |blk: int, s: int| z@[blk * pow2(k_log as nat) + s];
    let mut v = empty_stripes(k, n, Ghost(f));
    let mut blk: usize = 0;
    while blk < n
        invariant
            blk <= n,
            k == pow2(k_log as nat),
            n == pow2((m - k_log) as nat),
            n + 7 <= usize::MAX,
            total == z@.len(),
            z@.len() == k * n,
            f == (|blk: int, s: int| z@[blk * pow2(k_log as nat) + s]),
            stripes_hold(v@, k as int, n as int, f, blk as int),
        decreases n - blk,
    {
        let mut s: usize = 0;
        while s < k
            invariant
                s <= k,
                blk < n,
                k == pow2(k_log as nat),
                n == pow2((m - k_log) as nat),
                n + 7 <= usize::MAX,
                total == z@.len(),
                z@.len() == k * n,
                f == (|blk: int, s: int| z@[blk * pow2(k_log as nat) + s]),
                stripes_upto(v@, k as int, n as int, f, blk as int, s as int),
            decreases k - s,
        {
            proof {
                crate::pcs::ring_switch::eq::lemma_index_of_block(
                    blk as int,
                    s as int,
                    k as int,
                    n as int,
                );
                assert(blk * k >= 0) by (nonlinear_arith)
                    requires
                        blk >= 0,
                        k >= 0,
                ;
            }
            put_stripe_bit(&mut v, k, n, blk, s, z[blk * k + s], Ghost(f));
            s = s + 1;
        }
        blk = blk + 1;
    }
    v
}

/// `Σ_blk eq[blk] · (bit s of block blk)` for every `s`.
pub open spec fn folded_blocks(v: Seq<u8>, k: nat, eq: Seq<F256>) -> Seq<F256> {
    Seq::new(
        k,
        |s: int|
            sums::sum(
                |blk: int| bits::gate(stripe_bit(v, k as int, blk, s), eq[blk]),
                eq.len(),
            ),
    )
}

/// Folds the blocks of a striped witness against weights: `z_vec[s] =
/// Σ_blk eq[blk] · (bit s of block blk)`.
pub fn partial_fold_packed_z(
    z_packed: &[u8],
    m: usize,
    k_log: usize,
    eq_x_outer: &[F256],
) -> (z_vec: Vec<F256>)
    requires
        k_log <= m,
        pow2(k_log as nat) <= usize::MAX,
        eq_x_outer@.len() == pow2((m - k_log) as nat),
        z_packed@.len() == stripe_len(
            pow2(k_log as nat) as int,
            pow2((m - k_log) as nat) as int,
        ),
    ensures
        z_vec@ == folded_blocks(z_packed@, pow2(k_log as nat), eq_x_outer@),
        z_vec@.len() == pow2(k_log as nat),
        forall|s: int|
            0 <= s < pow2(k_log as nat) ==> #[trigger] z_vec@[s] == sums::sum(
                |blk: int|
                    if stripe_bit(z_packed@, pow2(k_log as nat) as int, blk, s) {
                        eq_x_outer@[blk]
                    } else {
                        F256::zero()
                    },
                eq_x_outer@.len(),
            ),
{
    let k: usize = power_of_two(k_log);
    let n: usize = eq_x_outer.len();
    let total: usize = z_packed.len();
    let ghost all = folded_blocks(z_packed@, pow2(k_log as nat), eq_x_outer@);
    let mut out: Vec<F256> = Vec::with_capacity(k);
    let mut s: usize = 0;
    while s < k
        invariant
            s <= k,
            k == pow2(k_log as nat),
            n == eq_x_outer@.len(),
            total == z_packed@.len(),
            total == stripe_len(k as int, n as int),
            all == folded_blocks(z_packed@, k as nat, eq_x_outer@),
            out@ == all.take(s as int),
        decreases k - s,
    {
        let mut acc = F256::zero();
        let ghost f = |blk: int|
            bits::gate(stripe_bit(z_packed@, k as int, blk, s as int), eq_x_outer@[blk]);
        let mut blk: usize = 0;
        while blk < n
            invariant
                blk <= n,
                s < k,
                n == eq_x_outer@.len(),
                total == z_packed@.len(),
                total == stripe_len(k as int, n as int),
                f == (|blk: int|
                    bits::gate(stripe_bit(z_packed@, k as int, blk, s as int), eq_x_outer@[blk])),
                acc == sums::sum(f, blk as nat),
            decreases n - blk,
        {
            proof {
                lemma_stripe_index(k as int, n as int, blk as int, s as int);
                assert((blk as int / 8) * k >= 0) by (nonlinear_arith)
                    requires
                        blk >= 0,
                        k >= 0,
                ;
                acc.lemma_plus(F256::zero(), F256::zero());
            }
            let byte: u8 = z_packed[(blk / 8) * k + s];
            if (byte >> ((blk % 8) as u8)) & 1 == 1 {
                acc = acc + eq_x_outer[blk];
            }
            blk = blk + 1;
        }
        out.push(acc);
        proof {
            assert(out@ =~= all.take(s + 1));
        }
        s = s + 1;
    }
    proof {
        assert(out@ =~= all);
        assert forall|s: int| 0 <= s < pow2(k_log as nat) implies #[trigger] out@[s] == sums::sum(
            |blk: int|
                if stripe_bit(z_packed@, pow2(k_log as nat) as int, blk, s) {
                    eq_x_outer@[blk]
                } else {
                    F256::zero()
                },
            eq_x_outer@.len(),
        ) by {
            sums::lemma_sum_ext(
                |blk: int|
                    bits::gate(stripe_bit(z_packed@, k as int, blk, s), eq_x_outer@[blk]),
                |blk: int|
                    if stripe_bit(z_packed@, pow2(k_log as nat) as int, blk, s) {
                        eq_x_outer@[blk]
                    } else {
                        F256::zero()
                    },
                eq_x_outer@.len(),
            );
        }
    }
    out
}

/// The fold of the striped witness over its blocks is a partial fold of the packed
/// witness, as the slice values of the ring switch take it.
pub proof fn lemma_fold_is_partial(z: Seq<bool>, v: Seq<u8>, k_log: nat, outer: Seq<F256>)
    requires
        k_log >= 8,
        z.len() == pow2(k_log) * pow2(outer.len()),
        stripes_hold(
            v,
            pow2(k_log) as int,
            pow2(outer.len()) as int,
            |blk: int, s: int| z[blk * pow2(k_log) + s],
            pow2(outer.len()) as int,
        ),
    ensures
        z_vec::is_partial_fold(
            folded_blocks(v, pow2(k_log), univariate_skip::eq_tensor(outer)),
            pack::packed(z),
            (k_log - 8) as nat,
            outer,
        ),
{
    let t = (k_log - 8) as nat;
    let (k, p, n) = (pow2(k_log), pow2(t), pow2(outer.len()));
    let eq = univariate_skip::eq_tensor(outer);
    let zv = folded_blocks(v, k, eq);
    let w = pack::packed(z);
    lemma2_to64();
    lemma_pow2_adds(t, 8);
    lemma_pow2_pos(t);
    assert(k == 256 * p);
    assert((256 * p) * n == 256 * (p * n)) by (nonlinear_arith);
    assert(w.len() == p * n);
    assert forall|i: int, b: int| 0 <= i < p && 0 <= b < 256 implies #[trigger] zv[256 * i + b]
        == sums::sum(
        |x: int| bits::gate(w[x * p + i].bit(b), univariate_skip::eq_at(outer, x)),
        n,
    ) by {
        let s = 256 * i + b;
        let f = |blk: int| bits::gate(stripe_bit(v, k as int, blk, s), eq[blk]);
        let g = |x: int| bits::gate(w[x * p + i].bit(b), univariate_skip::eq_at(outer, x));
        assert forall|x: int| 0 <= x < n implies #[trigger] f(x) == g(x) by {
            crate::pcs::ring_switch::eq::lemma_index_of_block(x, i, p as int, n as int);
            pack::lemma_packed_bit(z, x * p + i, b);
            assert(x * k + s == 256 * (x * p + i) + b) by (nonlinear_arith)
                requires
                    k == 256 * p,
                    s == 256 * i + b,
            ;
            assert(stripe_bit(v, k as int, x, s) == z[x * k + s]);
        }
        sums::lemma_sum_ext(f, g, n);
    }
}

/// The slice values at the point `(tail, outer)` are the tail fold of the folded
/// stripes: what the lincheck has folded need not be folded again.
pub proof fn lemma_slices_from_stripes(
    z: Seq<bool>,
    v: Seq<u8>,
    tail: Seq<F256>,
    outer: Seq<F256>,
)
    requires
        z.len() == pow2(tail.len() + 8) * pow2(outer.len()),
        stripes_hold(
            v,
            pow2(tail.len() + 8) as int,
            pow2(outer.len()) as int,
            |blk: int, s: int| z[blk * pow2(tail.len() + 8) + s],
            pow2(outer.len()) as int,
        ),
    ensures
        z_vec::tail_fold(
            folded_blocks(v, pow2(tail.len() + 8), univariate_skip::eq_tensor(outer)),
            tail,
        ) == fold::slice_fold(pack::packed(z), univariate_skip::eq_tensor(tail + outer)),
{
    let k_log = tail.len() + 8;
    lemma_fold_is_partial(z, v, k_log, outer);
    z_vec::lemma_tail_fold(
        folded_blocks(v, pow2(k_log), univariate_skip::eq_tensor(outer)),
        pack::packed(z),
        tail,
        outer,
    );
}

/// Bit `s` of block `blk` is bit `blk mod 8` of byte `s` of stripe `blk / 8`.
pub proof fn lemma_stripe_place(v: Seq<u8>, k: int, blk: int, s: int)
    ensures
        stripe_bit(v, k, blk, s) == ((v[(blk / 8) * k + s] >> ((blk % 8) as u8)) & 1 == 1),
{
}

} // verus!
