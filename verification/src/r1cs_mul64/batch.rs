//! Batches of multiplications, one to a block.

use crate::field::bits;
use crate::field::gf2_128::F128;
use crate::lincheck;
use crate::lincheck::{empty_stripes, put_stripe_bit};
use crate::r1cs;
use crate::r1cs::block;
use crate::r1cs::BlockR1cs;
use crate::r1cs_mul64::adder;
use crate::r1cs_mul64::circuit;
use crate::r1cs_mul64::layout;
use crate::r1cs_mul64::layout::{Wire, K, K_LOG, K_SKIP, USEFUL_BITS, Z_CONST_POS};
use crate::r1cs_mul64::matrices;
use crate::r1cs_mul64::matrices::build_matrices;
use crate::r1cs_mul64::packed;
use crate::r1cs_mul64::packed::build_block_zab;
use crate::zerocheck::univariate_skip;
use crate::zerocheck::univariate_skip::power_of_two;
use vstd::arithmetic::power2::{lemma2_to64, lemma_pow2_adds, lemma_pow2_pos, pow2};
use vstd::prelude::*;

verus! {

// ---------------------------------------------------------------------------
// The constraint system.
// ---------------------------------------------------------------------------

/// The constraint system of `2^n` multiplications.
pub open spec fn is_mul64(r: BlockR1cs, n: nat) -> bool {
    &&& r.m == 14 + n
    &&& r.k_log == K_LOG
    &&& r.k_skip == K_SKIP
    &&& r.useful_bits == USEFUL_BITS
    &&& r.const_pin == Some(Z_CONST_POS)
    &&& matrices::is_matrix(r.a_0, |z: spec_fn(int) -> bool, s: int| circuit::a_form(z, s))
    &&& matrices::is_matrix(r.b_0, |z: spec_fn(int) -> bool, s: int| circuit::b_form(z, s))
}

/// `2^14` is the block size.
proof fn lemma_block_size()
    ensures
        pow2(14) == K,
{
    lemma2_to64();
}

/// Builds the constraint system of `2^n_blocks_log` multiplications, one to a
/// block, with the constant wire pinned to 1.
pub fn build_block_r1cs(n_blocks_log: usize) -> (r: BlockR1cs)
    requires
        pow2((14 + n_blocks_log) as nat) <= usize::MAX,
        14 + n_blocks_log <= usize::MAX,
    ensures
        is_mul64(r, n_blocks_log as nat),
        r.wf(),
        r.m == 14 + n_blocks_log,
        r.k_log == 14,
        r.k_skip == 6,
        r.useful_bits == 12480,
        r.const_pin == Some(256usize),
        forall|s: int, z: spec_fn(int) -> bool|
            0 <= s < 16384 ==> #[trigger] r1cs::row_parity(z, r.a_0.rows@[s]@) == circuit::a_form(
                z,
                s,
            ),
        forall|s: int, z: spec_fn(int) -> bool|
            0 <= s < 16384 ==> #[trigger] r1cs::row_parity(z, r.b_0.rows@[s]@) == circuit::b_form(
                z,
                s,
            ),
{
    let (a_0, b_0) = build_matrices();
    let r = BlockR1cs {
        m: K_LOG + n_blocks_log,
        k_log: K_LOG,
        k_skip: K_SKIP,
        useful_bits: USEFUL_BITS,
        a_0,
        b_0,
        const_pin: Some(Z_CONST_POS),
    };
    proof {
        lemma_block_size();
    }
    r
}

// ---------------------------------------------------------------------------
// The witness of a batch.
// ---------------------------------------------------------------------------

/// The factors of block `blk`: those of the batch, then `0·0`.
pub open spec fn factors(muls: Seq<(u64, u64)>, blk: int) -> (u64, u64) {
    if blk < muls.len() {
        muls[blk]
    } else {
        (0, 0)
    }
}

/// The witness bits of a batch.
pub open spec fn batch_z(muls: Seq<(u64, u64)>) -> spec_fn(int, int) -> bool {
    |blk: int, s: int| circuit::witness_bit(factors(muls, blk).0, factors(muls, blk).1, s)
}

/// The bits of `A·z` for a batch.
pub open spec fn batch_a(muls: Seq<(u64, u64)>) -> spec_fn(int, int) -> bool {
    |blk: int, s: int| circuit::a_value(factors(muls, blk).0, factors(muls, blk).1, s)
}

/// The bits of `B·z` for a batch.
pub open spec fn batch_b(muls: Seq<(u64, u64)>) -> spec_fn(int, int) -> bool {
    |blk: int, s: int| circuit::b_value(factors(muls, blk).0, factors(muls, blk).1, s)
}

/// The packed vector of `n` blocks with the given bits.
pub open spec fn is_packed(v: Seq<F128>, n: int, f: spec_fn(int, int) -> bool) -> bool {
    &&& v.len() == 128 * n
    &&& forall|p: int|
        0 <= p < 16384 * n ==> #[trigger] block::packed_bit(v, p) == f(p / 16384, p % 16384)
}

/// Appends one block of words.
fn append_block(v: &mut Vec<F128>, buf: &[u64], Ghost(n): Ghost<int>, Ghost(f): Ghost<
    spec_fn(int, int) -> bool,
>)
    requires
        n >= 0,
        is_packed(old(v)@, n, f),
        buf@.len() == 256,
        forall|s: int| 0 <= s < K ==> #[trigger] packed::buf_bit(buf@, s) == f(n, s),
    ensures
        is_packed(final(v)@, n + 1, f),
{
    let ghost before = v@;
    let mut i: usize = 0;
    while i < 128
        invariant
            i <= 128,
            buf@.len() == 256,
            before.len() == 128 * n,
            v@.len() == before.len() + i,
            forall|k: int| 0 <= k < before.len() ==> #[trigger] v@[k] == before[k],
            forall|k: int|
                0 <= k < i ==> #[trigger] v@[before.len() + k] == (F128 {
                    lo: buf@[2 * k],
                    hi: buf@[2 * k + 1],
                }),
        decreases 128 - i,
    {
        v.push(F128 { lo: buf[2 * i], hi: buf[2 * i + 1] });
        proof {
            assert forall|k: int| 0 <= k < i + 1 implies #[trigger] v@[before.len() + k] == (F128 {
                lo: buf@[2 * k],
                hi: buf@[2 * k + 1],
            }) by {}
        }
        i = i + 1;
    }
    proof {
        assert forall|p: int| 0 <= p < 16384 * (n + 1) implies #[trigger] block::packed_bit(v@, p)
            == f(p / 16384, p % 16384) by {
            if p < 16384 * n {
                assert(v@[p / 128] == before[p / 128]);
                assert(block::packed_bit(before, p) == f(p / 16384, p % 16384));
            } else {
                let s = p - 16384 * n;
                let k = s / 128;
                assert(p / 16384 == n && p % 16384 == s);
                assert(p / 128 == 128 * n + k && p % 128 == s % 128);
                assert(v@[before.len() + k] == (F128 { lo: buf@[2 * k], hi: buf@[2 * k + 1] }));
                assert(packed::buf_bit(buf@, s) == f(n, s));
                if s % 128 < 64 {
                    assert(s / 64 == 2 * k && s % 64 == s % 128);
                } else {
                    assert(s / 64 == 2 * k + 1 && s % 64 == s % 128 - 64);
                }
            }
        }
    }
}

/// Puts the bits of block `blk` into the stripes.
fn append_stripe(stripe: &mut Vec<u8>, buf: &[u64], n: usize, blk: usize, Ghost(f): Ghost<
    spec_fn(int, int) -> bool,
>)
    requires
        blk < n,
        n + 7 <= usize::MAX,
        lincheck::stripes_hold(old(stripe)@, 16384, n as int, f, blk as int),
        buf@.len() == 256,
        forall|s: int| 0 <= s < K ==> #[trigger] packed::buf_bit(buf@, s) == f(blk as int, s),
    ensures
        lincheck::stripes_hold(final(stripe)@, 16384, n as int, f, blk + 1),
{
    let mut s: usize = 0;
    while s < K
        invariant
            s <= K,
            blk < n,
            n + 7 <= usize::MAX,
            lincheck::stripes_upto(stripe@, 16384, n as int, f, blk as int, s as int),
            buf@.len() == 256,
            forall|s: int| 0 <= s < K ==> #[trigger] packed::buf_bit(buf@, s) == f(blk as int, s),
        decreases K - s,
    {
        let on = (buf[s / 64] >> ((s % 64) as u64)) & 1 == 1;
        proof {
            assert(packed::buf_bit(buf@, s as int) == f(blk as int, s as int));
        }
        put_stripe_bit(stripe, K, n, blk, s, on, Ghost(f));
        s = s + 1;
    }
}

fn zero_words() -> (v: Vec<u64>)
    ensures
        v@ == Seq::new(256, |i: int| 0u64),
{
    let v: Vec<u64> = vec![0u64; 256];
    proof {
        assert(v@ =~= Seq::new(256, |i: int| 0u64));
    }
    v
}

/// Builds the packed `(z, A·z, B·z)` and the striped `z` of a batch, padded to
/// `2^n_blocks_log` blocks. The padding blocks hold `0·0`, so that the constant
/// wire is 1 in every block.
pub fn generate_witness_with_ab_packed_and_lincheck(
    muls: &[(u64, u64)],
    n_blocks_log: usize,
) -> (out: (Vec<F128>, Vec<F128>, Vec<F128>, Vec<u8>))
    requires
        muls@.len() <= pow2(n_blocks_log as nat),
        pow2((14 + n_blocks_log) as nat) <= usize::MAX,
    ensures
        is_packed(out.0@, pow2(n_blocks_log as nat) as int, batch_z(muls@)),
        is_packed(out.1@, pow2(n_blocks_log as nat) as int, batch_a(muls@)),
        is_packed(out.2@, pow2(n_blocks_log as nat) as int, batch_b(muls@)),
        lincheck::stripes_hold(
            out.3@,
            K as int,
            pow2(n_blocks_log as nat) as int,
            batch_z(muls@),
            pow2(n_blocks_log as nat) as int,
        ),
        ({
            let z = out.0@;
            let n = pow2(n_blocks_log as nat);
            &&& z.len() == 128 * n
            &&& out.1@.len() == 128 * n
            &&& out.2@.len() == 128 * n
            &&& forall|blk: int|
                0 <= blk < n ==> {
                    let (x, y) = if blk < muls@.len() {
                        muls@[blk]
                    } else {
                        (0u64, 0u64)
                    };
                    &&& (#[trigger] z[128 * blk]).lo == x
                    &&& z[128 * blk].hi == y
                    &&& z[128 * blk + 1].lo + 0x1_0000_0000_0000_0000 * z[128 * blk + 1].hi == x * y
                    &&& z[128 * blk + 2].lo == 1
                }
            &&& forall|p: int|
                0 <= p < 16384 * n ==> #[trigger] block::packed_bit(z, p) == (block::packed_bit(
                    out.1@,
                    p,
                ) && block::packed_bit(out.2@, p))
            &&& forall|blk: int, s: int|
                0 <= blk < n && 0 <= s < 16384 ==> #[trigger] lincheck::stripe_bit(
                    out.3@,
                    16384,
                    blk,
                    s,
                ) == block::packed_bit(z, 16384 * blk + s)
        }),
{
    proof {
        lemma_block_size();
        lemma_pow2_adds(14, n_blocks_log as nat);
        lemma_pow2_pos(n_blocks_log as nat);
        lemma_stripe_bound(pow2(n_blocks_log as nat) as int);
    }
    let n: usize = power_of_two(n_blocks_log);
    let mut z: Vec<F128> = Vec::new();
    let mut a: Vec<F128> = Vec::new();
    let mut b: Vec<F128> = Vec::new();
    let mut stripe = empty_stripes(K, n, Ghost(batch_z(muls@)));
    let mut blk: usize = 0;
    while blk < n
        invariant
            blk <= n,
            n == pow2(n_blocks_log as nat),
            n + 7 <= usize::MAX,
            muls@.len() <= n,
            is_packed(z@, blk as int, batch_z(muls@)),
            is_packed(a@, blk as int, batch_a(muls@)),
            is_packed(b@, blk as int, batch_b(muls@)),
            lincheck::stripes_hold(stripe@, K as int, n as int, batch_z(muls@), blk as int),
        decreases n - blk,
    {
        let (x, y): (u64, u64) = if blk < muls.len() {
            muls[blk]
        } else {
            (0, 0)
        };
        let mut zw = zero_words();
        let mut aw = zero_words();
        let mut bw = zero_words();
        build_block_zab(x, y, zw.as_mut_slice(), aw.as_mut_slice(), bw.as_mut_slice());
        proof {
            let (fz, fa, fb) = (batch_z(muls@), batch_a(muls@), batch_b(muls@));
            assert(factors(muls@, blk as int) == (x, y));
            assert forall|s: int| 0 <= s < K implies #[trigger] packed::buf_bit(zw@, s) == fz(
                blk as int,
                s,
            ) by {}
            assert forall|s: int| 0 <= s < K implies #[trigger] packed::buf_bit(aw@, s) == fa(
                blk as int,
                s,
            ) by {}
            assert forall|s: int| 0 <= s < K implies #[trigger] packed::buf_bit(bw@, s) == fb(
                blk as int,
                s,
            ) by {}
        }
        append_block(&mut z, zw.as_slice(), Ghost(blk as int), Ghost(batch_z(muls@)));
        append_block(&mut a, aw.as_slice(), Ghost(blk as int), Ghost(batch_a(muls@)));
        append_block(&mut b, bw.as_slice(), Ghost(blk as int), Ghost(batch_b(muls@)));
        append_stripe(&mut stripe, zw.as_slice(), n, blk, Ghost(batch_z(muls@)));
        blk = blk + 1;
    }
    proof {
        let count = pow2(n_blocks_log as nat) as int;
        assert forall|k: int| 0 <= k < count implies {
            let (x, y) = if k < muls@.len() {
                muls@[k]
            } else {
                (0u64, 0u64)
            };
            &&& (#[trigger] z@[128 * k]).lo == x
            &&& z@[128 * k].hi == y
            &&& z@[128 * k + 1].lo + 0x1_0000_0000_0000_0000 * z@[128 * k + 1].hi == x * y
            &&& z@[128 * k + 2].lo == 1
        } by {
            lemma_batch_words(z@, count, muls@, k);
        }
        assert forall|p: int| 0 <= p < 16384 * count implies #[trigger] block::packed_bit(z@, p)
            == (block::packed_bit(a@, p) && block::packed_bit(b@, p)) by {
            let (x, y) = factors(muls@, p / 16384);
            circuit::lemma_witness_rows(x, y, p % 16384);
            assert(block::packed_bit(a@, p) == batch_a(muls@)(p / 16384, p % 16384));
            assert(block::packed_bit(b@, p) == batch_b(muls@)(p / 16384, p % 16384));
        }
        assert forall|k: int, s: int|
            0 <= k < count && 0 <= s < 16384 implies #[trigger] lincheck::stripe_bit(
            stripe@,
            16384,
            k,
            s,
        ) == block::packed_bit(z@, 16384 * k + s) by {
            let p = 16384 * k + s;
            assert(p / 16384 == k && p % 16384 == s);
            assert(k < 8 * ((count + 7) / 8));
            assert(block::packed_bit(z@, p) == batch_z(muls@)(p / 16384, p % 16384));
        }
    }
    (z, a, b, stripe)
}

proof fn lemma_stripe_bound(n: int)
    requires
        n >= 1,
        16384 * n <= usize::MAX,
    ensures
        lincheck::stripe_len(16384, n) <= 16384 * n,
        n + 7 <= usize::MAX,
{
    assert((n + 7) / 8 <= n);
}

// ---------------------------------------------------------------------------
// Laws.
// ---------------------------------------------------------------------------

/// A row looks at the wires of its block only.
proof fn lemma_row_ext(
    w: spec_fn(int) -> bool,
    z: spec_fn(int) -> bool,
    row: Seq<usize>,
    n: int,
)
    requires
        r1cs::bounded(row, n),
        forall|s: int| 0 <= s < n ==> #[trigger] w(s) == z(s),
    ensures
        r1cs::row_parity(w, row) == r1cs::row_parity(z, row),
    decreases row.len(),
{
    if row.len() > 0 {
        let short = row.drop_last();
        assert(r1cs::bounded(short, n)) by {
            assert forall|i: int| 0 <= i < short.len() implies #[trigger] short[i] < n by {
                assert(row[i] < n);
            }
        }
        lemma_row_ext(w, z, short, n);
        let t = row[row.len() - 1];
        assert(t < n);
        assert(w(t as int) == z(t as int));
    }
}

/// The rows of the constraint system have the stated values at a batch witness.
pub proof fn lemma_batch_rows(r: BlockR1cs, n: nat, z: Seq<F128>, muls: Seq<(u64, u64)>, p: int)
    requires
        is_mul64(r, n),
        is_packed(z, pow2(n) as int, batch_z(muls)),
        0 <= p < 16384 * pow2(n),
    ensures
        r.a_at(z, p) == batch_a(muls)(p / 16384, p % 16384),
        r.b_at(z, p) == batch_b(muls)(p / 16384, p % 16384),
{
    lemma_block_size();
    let (blk, s) = (p / 16384, p % 16384);
    let (x, y) = factors(muls, blk);
    let base = blk * 16384;
    let w = block::block_wires(z, base);
    let v = circuit::witness(x, y);
    assert forall|t: int| 0 <= t < K implies #[trigger] w(t) == v(t) by {
        let q = base + t;
        assert(q / 16384 == blk && q % 16384 == t);
        assert(block::packed_bit(z, q) == batch_z(muls)(q / 16384, q % 16384));
    }
    let (ra, rb) = (r.a_0.rows@[s]@, r.b_0.rows@[s]@);
    assert(matrices::computes(ra, |z: spec_fn(int) -> bool| circuit::a_form(z, s)));
    assert(matrices::computes(rb, |z: spec_fn(int) -> bool| circuit::b_form(z, s)));
    lemma_row_ext(w, v, ra, K as int);
    lemma_row_ext(w, v, rb, K as int);
    circuit::lemma_witness_rows(x, y, s);
}

/// Completeness of the batch: the witness of every batch, with its padding, meets
/// all constraints.
pub proof fn lemma_batch_satisfies(r: BlockR1cs, n: nat, z: Seq<F128>, muls: Seq<(u64, u64)>)
    requires
        is_mul64(r, n),
        is_packed(z, pow2(n) as int, batch_z(muls)),
    ensures
        r.satisfied(z),
{
    lemma_block_size();
    lemma_pow2_adds(14, n);
    assert forall|p: int| 0 <= p < pow2(r.m as nat) implies #[trigger] block::packed_bit(z, p) == (
    r.a_at(z, p) && r.b_at(z, p)) by {
        lemma_batch_rows(r, n, z, muls, p);
        let (x, y) = factors(muls, p / 16384);
        circuit::lemma_witness_rows(x, y, p % 16384);
    }
    assert forall|blk: int| 0 <= blk < r.blocks() implies block::packed_bit(
        z,
        #[trigger] (blk * r.block()) + Z_CONST_POS,
    ) by {
        let p = blk * 16384 + 256;
        assert(p / 16384 == blk && p % 16384 == 256);
        assert(r.blocks() == pow2(n));
        assert(block::packed_bit(z, p) == batch_z(muls)(p / 16384, p % 16384));
    }
}

/// The packed `A·z` and `B·z` of a batch are what the matrices give on its `z`.
pub proof fn lemma_batch_images(
    r: BlockR1cs,
    n: nat,
    z: Seq<F128>,
    a: Seq<F128>,
    b: Seq<F128>,
    muls: Seq<(u64, u64)>,
)
    requires
        is_mul64(r, n),
        is_packed(z, pow2(n) as int, batch_z(muls)),
        is_packed(a, pow2(n) as int, batch_a(muls)),
        is_packed(b, pow2(n) as int, batch_b(muls)),
    ensures
        forall|p: int|
            0 <= p < pow2(r.m as nat) ==> #[trigger] block::packed_bit(a, p) == r.a_at(z, p),
        forall|p: int|
            0 <= p < pow2(r.m as nat) ==> #[trigger] block::packed_bit(b, p) == r.b_at(z, p),
{
    lemma_block_size();
    lemma_pow2_adds(14, n);
    assert forall|p: int| 0 <= p < pow2(r.m as nat) implies #[trigger] block::packed_bit(a, p)
        == r.a_at(z, p) by {
        lemma_batch_rows(r, n, z, muls, p);
    }
    assert forall|p: int| 0 <= p < pow2(r.m as nat) implies #[trigger] block::packed_bit(b, p)
        == r.b_at(z, p) by {
        lemma_batch_rows(r, n, z, muls, p);
    }
}

/// Every block of a satisfied batch meets the constraints of one block.
proof fn lemma_block_satisfied(r: BlockR1cs, n: nat, z: Seq<F128>, blk: int)
    requires
        is_mul64(r, n),
        r.satisfied(z),
        0 <= blk < pow2(n),
    ensures
        circuit::satisfied(block::block_wires(z, blk * 16384)),
        block::block_wires(z, blk * 16384)(Z_CONST_POS as int),
{
    lemma_block_size();
    lemma_pow2_adds(14, n);
    let base = blk * 16384;
    let w = block::block_wires(z, base);
    assert(r.blocks() == pow2(n) && r.block() == 16384);
    assert forall|s: int| 0 <= s < K implies #[trigger] w(s) == (circuit::a_form(w, s)
        && circuit::b_form(w, s)) by {
        let p = base + s;
        assert(p / 16384 == blk && p % 16384 == s);
        assert(block::packed_bit(z, p) == (r.a_at(z, p) && r.b_at(z, p)));
        let (ra, rb) = (r.a_0.rows@[s]@, r.b_0.rows@[s]@);
        assert(matrices::computes(ra, |z: spec_fn(int) -> bool| circuit::a_form(z, s)));
        assert(matrices::computes(rb, |z: spec_fn(int) -> bool| circuit::b_form(z, s)));
        assert(r1cs::row_parity(w, ra) == circuit::a_form(w, s));
        assert(r1cs::row_parity(w, rb) == circuit::b_form(w, s));
    }
    assert(block::packed_bit(z, (blk * r.block()) + Z_CONST_POS));
}

/// The first wires of a block are its first two elements.
proof fn lemma_block_words(z: Seq<F128>, blk: int, t: int)
    requires
        0 <= blk,
        0 <= t < 64,
    ensures
        block::block_wires(z, blk * 16384)(t) == bits::word_bit(z[128 * blk].lo, t),
        block::block_wires(z, blk * 16384)(64 + t) == bits::word_bit(z[128 * blk].hi, t),
        block::block_wires(z, blk * 16384)(128 + t) == bits::word_bit(z[128 * blk + 1].lo, t),
        block::block_wires(z, blk * 16384)(192 + t) == bits::word_bit(z[128 * blk + 1].hi, t),
{
    let base = blk * 16384;
    assert((base + t) / 128 == 128 * blk && (base + t) % 128 == t);
    assert((base + 64 + t) / 128 == 128 * blk && (base + 64 + t) % 128 == 64 + t);
    assert((base + 128 + t) / 128 == 128 * blk + 1 && (base + 128 + t) % 128 == t);
    assert((base + 192 + t) / 128 == 128 * blk + 1 && (base + 192 + t) % 128 == 64 + t);
}

/// Soundness of the batch: in any packed witness that meets all constraints, every
/// block holds two factors and their exact product, `p = x·y`.
pub proof fn lemma_satisfied_multiplies(r: BlockR1cs, n: nat, z: Seq<F128>, blk: int)
    requires
        is_mul64(r, n),
        z.len() == 128 * pow2(n),
        r.satisfied(z),
        0 <= blk < pow2(n),
    ensures
        z[128 * blk + 1].lo + 0x1_0000_0000_0000_0000 * z[128 * blk + 1].hi == z[128 * blk].lo
            * z[128 * blk].hi,
{
    lemma_block_satisfied(r, n, z, blk);
    lemma_block_product(
        block::block_wires(z, blk * 16384),
        z[128 * blk].lo,
        z[128 * blk].hi,
        z[128 * blk + 1].lo,
        z[128 * blk + 1].hi,
        z,
        blk,
    );
}

proof fn lemma_block_product(
    w: spec_fn(int) -> bool,
    x: u64,
    y: u64,
    lo: u64,
    hi: u64,
    z: Seq<F128>,
    blk: int,
)
    requires
        0 <= blk,
        w == block::block_wires(z, blk * 16384),
        (x, y) == (z[128 * blk].lo, z[128 * blk].hi),
        (lo, hi) == (z[128 * blk + 1].lo, z[128 * blk + 1].hi),
        circuit::satisfied(w),
        w(Z_CONST_POS as int),
    ensures
        lo + 0x1_0000_0000_0000_0000 * hi == x * y,
{
    assert forall|b: int| 0 <= b < 64 implies #[trigger] w(b) == bits::word_bit(x, b) by {
        lemma_block_words(z, blk, b);
    }
    assert forall|b: int| 64 <= b < 128 implies #[trigger] w(b) == bits::word_bit(y, b - 64) by {
        lemma_block_words(z, blk, b - 64);
    }
    circuit::lemma_satisfied_is_witness(w, x, y);
    let f = |b: int| w(128 + b);
    assert forall|b: int| 0 <= b < 128 implies #[trigger] f(b) == adder::product_bit(x, y, b) by {
        layout::lemma_slot(Wire::Prod(b));
        assert(w(128 + b) == circuit::witness_bit(x, y, 128 + b));
    }
    adder::lemma_product_value(x, y, f);
    assert forall|b: int| 0 <= b < 64 implies #[trigger] f(b) == bits::word_bit(lo, b) by {
        lemma_block_words(z, blk, b);
    }
    assert forall|b: int| 64 <= b < 128 implies #[trigger] f(b) == bits::word_bit(hi, b - 64) by {
        lemma_block_words(z, blk, b - 64);
    }
    adder::lemma_value_of_words(f, lo, hi);
}

/// The first words of a block of a batch: its factors, their product and the
/// constant.
proof fn lemma_batch_words(z: Seq<F128>, n: int, muls: Seq<(u64, u64)>, blk: int)
    requires
        is_packed(z, n, batch_z(muls)),
        0 <= blk < n,
    ensures
        ({
            let (x, y) = factors(muls, blk);
            &&& z[128 * blk].lo == x
            &&& z[128 * blk].hi == y
            &&& z[128 * blk + 1].lo + 0x1_0000_0000_0000_0000 * z[128 * blk + 1].hi == x * y
            &&& z[128 * blk + 2].lo == 1
        }),
{
    let (x, y) = factors(muls, blk);
    let (e0, e1, e2) = (z[128 * blk], z[128 * blk + 1], z[128 * blk + 2]);
    assert forall|t: int| 0 <= t < 64 implies #[trigger] bits::word_bit(e0.lo, t)
        == bits::word_bit(x, t) && bits::word_bit(e0.hi, t) == bits::word_bit(y, t)
        && bits::word_bit(e1.lo, t) == adder::product_bit(x, y, t) && bits::word_bit(e1.hi, t)
        == adder::product_bit(x, y, 64 + t) && bits::word_bit(e2.lo, t) == (t == 0) by {
        lemma_batch_word_bit(z, n, muls, blk, t);
    }
    bits::lemma_word_ext(e0.lo, x);
    assert forall|t: int| 0 <= t < 64 implies #[trigger] bits::word_bit(e0.hi, t)
        == bits::word_bit(y, t) by {
        assert(bits::word_bit(e0.lo, t) == bits::word_bit(x, t));
    }
    bits::lemma_word_ext(e0.hi, y);
    assert forall|t: int| 0 <= t < 64 implies #[trigger] bits::word_bit(e2.lo, t)
        == bits::word_bit(1, t) by {
        assert(bits::word_bit(e0.lo, t) == bits::word_bit(x, t));
        bits::lemma_word_bit(0, 0, t, 0);
        bits::lemma_one();
    }
    bits::lemma_word_ext(e2.lo, 1);
    let f = |b: int| adder::product_bit(x, y, b);
    adder::lemma_product_value(x, y, f);
    assert forall|t: int| 0 <= t < 64 implies #[trigger] f(t) == bits::word_bit(e1.lo, t) by {
        assert(bits::word_bit(e0.lo, t) == bits::word_bit(x, t));
    }
    assert forall|t: int| 64 <= t < 128 implies #[trigger] f(t) == bits::word_bit(
        e1.hi,
        t - 64,
    ) by {
        assert(bits::word_bit(e0.lo, t - 64) == bits::word_bit(x, t - 64));
    }
    adder::lemma_value_of_words(f, e1.lo, e1.hi);
}

proof fn lemma_batch_word_bit(z: Seq<F128>, n: int, muls: Seq<(u64, u64)>, blk: int, t: int)
    requires
        is_packed(z, n, batch_z(muls)),
        0 <= blk < n,
        0 <= t < 64,
    ensures
        ({
            let (x, y) = factors(muls, blk);
            &&& bits::word_bit(z[128 * blk].lo, t) == bits::word_bit(x, t)
            &&& bits::word_bit(z[128 * blk].hi, t) == bits::word_bit(y, t)
            &&& bits::word_bit(z[128 * blk + 1].lo, t) == adder::product_bit(x, y, t)
            &&& bits::word_bit(z[128 * blk + 1].hi, t) == adder::product_bit(x, y, 64 + t)
            &&& bits::word_bit(z[128 * blk + 2].lo, t) == (t == 0)
        }),
{
    let f = batch_z(muls);
    let base = 16384 * blk;
    lemma_block_words(z, blk, t);
    assert(blk * 16384 == base);
    assert forall|s: int| 0 <= s < 16384 implies #[trigger] block::packed_bit(z, base + s) == f(
        blk,
        s,
    ) by {
        let p = base + s;
        assert(p / 16384 == blk && p % 16384 == s);
    }
    let w = block::block_wires(z, blk * 16384);
    assert(w(t) == block::packed_bit(z, base + t));
    assert(w(64 + t) == block::packed_bit(z, base + (64 + t)));
    assert(w(128 + t) == block::packed_bit(z, base + (128 + t)));
    assert(w(192 + t) == block::packed_bit(z, base + (192 + t)));
    assert(block::packed_bit(z, base + (256 + t)) == f(blk, 256 + t));
    block::lemma_packed_places(z, 128 * blk + 2, t);
    assert(128 * (128 * blk + 2) + t == base + (256 + t));
    assert((base + 256 + t) / 128 == 128 * blk + 2 && (base + 256 + t) % 128 == t);
}

} // verus!
