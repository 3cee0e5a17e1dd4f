//! Block-diagonal constraint systems on packed witnesses.

use crate::field::bits;
use crate::field::gf2_128::F128;
use crate::pcs::ring_switch::eq;
use crate::r1cs;
use crate::r1cs::SparseBinaryMatrix;
use crate::zerocheck::univariate_skip;
use crate::zerocheck::univariate_skip::power_of_two;
use vstd::arithmetic::power2::{lemma2_to64, lemma_pow2_adds, lemma_pow2_pos, pow2};
use vstd::prelude::*;

verus! {

/// `2^(m − k_log)` copies of one block of `2^k_log` constraints
/// `(A_0·z) ∘ (B_0·z) = z`, with an optional wire that must be 1 in every block.
#[derive(Clone, Debug)]
pub struct BlockR1cs {
    /// The number of witness bits, as a power of two.
    pub m: usize,
    /// The block size, as a power of two.
    pub k_log: usize,
    /// The width of the univariate skip.
    pub k_skip: usize,
    /// The number of slots in use at the start of each block.
    pub useful_bits: usize,
    /// The left matrix of a block.
    pub a_0: SparseBinaryMatrix,
    /// The right matrix of a block.
    pub b_0: SparseBinaryMatrix,
    /// The wire that is pinned to 1.
    pub const_pin: Option<usize>,
}

/// Bit `p` of a packed witness: bit `p mod 128` of element `p / 128`.
pub open spec fn packed_bit(z: Seq<F128>, p: int) -> bool {
    let e = z[p / 128];
    if p % 128 < 64 {
        bits::word_bit(e.lo, p % 128)
    } else {
        bits::word_bit(e.hi, p % 128 - 64)
    }
}

/// The wires of the block that starts at bit `base`.
pub open spec fn block_wires(z: Seq<F128>, base: int) -> spec_fn(int) -> bool {
    |s: int| packed_bit(z, base + s)
}

impl BlockR1cs {
    /// The block size.
    pub open spec fn block(self) -> int {
        pow2(self.k_log as nat) as int
    }

    /// The number of blocks.
    pub open spec fn blocks(self) -> int {
        pow2((self.m - self.k_log) as nat) as int
    }

    /// The matrices have one row for each slot of a block and name its slots only.
    pub open spec fn wf(self) -> bool {
        &&& 7 <= self.k_log <= self.m
        &&& pow2(self.m as nat) <= usize::MAX
        &&& self.a_0.rows@.len() == self.block()
        &&& self.b_0.rows@.len() == self.block()
        &&& forall|s: int|
            0 <= s < self.block() ==> r1cs::bounded((#[trigger] self.a_0.rows@[s])@, self.block())
        &&& forall|s: int|
            0 <= s < self.block() ==> r1cs::bounded((#[trigger] self.b_0.rows@[s])@, self.block())
        &&& self.const_pin matches Some(p) ==> p < self.block()
    }

    /// Row `p` of the block-diagonal `A`, applied to a packed witness.
    pub open spec fn a_at(self, z: Seq<F128>, p: int) -> bool {
        row_at(self.a_0, self.block(), z, p)
    }

    /// Row `p` of the block-diagonal `B`, applied to a packed witness.
    pub open spec fn b_at(self, z: Seq<F128>, p: int) -> bool {
        row_at(self.b_0, self.block(), z, p)
    }

    /// All constraints are met, and the pinned wire is 1 in every block.
    pub open spec fn satisfied(self, z: Seq<F128>) -> bool {
        &&& forall|p: int|
            0 <= p < pow2(self.m as nat) ==> #[trigger] packed_bit(z, p) == (self.a_at(z, p)
                && self.b_at(z, p))
        &&& self.const_pin matches Some(pin) ==> forall|blk: int|
            0 <= blk < self.blocks() ==> packed_bit(z, #[trigger] (blk * self.block()) + pin)
    }
}

/// Row `p mod k` of a block's matrix, applied to the block of `p`.
pub open spec fn row_at(m: SparseBinaryMatrix, k: int, z: Seq<F128>, p: int) -> bool {
    r1cs::row_parity(block_wires(z, (p / k) * k), m.rows@[p % k]@)
}

/// Reads bit `p`.
fn read_bit(z: &[F128], p: usize) -> (b: bool)
    requires
        p / 128 < z@.len(),
    ensures
        b == packed_bit(z@, p as int),
{
    let e = z[p / 128];
    let t: u64 = (p % 128) as u64;
    if t < 64 {
        (e.lo >> t) & 1 == 1
    } else {
        (e.hi >> (t - 64)) & 1 == 1
    }
}

/// Applies a row to the block that starts at `base`.
fn eval_row(row: &Vec<usize>, z: &[F128], base: usize, k: usize) -> (b: bool)
    requires
        r1cs::bounded(row@, k as int),
        base + k <= 128 * z@.len(),
        base + k <= usize::MAX,
    ensures
        b == r1cs::row_parity(block_wires(z@, base as int), row@),
{
    let mut acc = false;
    let mut i: usize = 0;
    let ghost w = block_wires(z@, base as int);
    proof {
        assert(row@.take(0).len() == 0);
    }
    while i < row.len()
        invariant
            i <= row.len(),
            r1cs::bounded(row@, k as int),
            base + k <= 128 * z@.len(),
            base + k <= usize::MAX,
            w == block_wires(z@, base as int),
            acc == r1cs::row_parity(w, row@.take(i as int)),
        decreases row.len() - i,
    {
        let s: usize = row[i];
        assert(row@[i as int] < k);
        acc = acc != read_bit(z, base + s);
        proof {
            let t = row@.take(i + 1);
            assert(t.drop_last() =~= row@.take(i as int));
            assert(t.last() == s);
        }
        i = i + 1;
    }
    proof {
        assert(row@.take(i as int) =~= row@);
    }
    acc
}

/// The 64 row values from `p` on, as a word.
fn eval_word(m: &SparseBinaryMatrix, k: usize, z: &[F128], p: usize) -> (w: u64)
    requires
        k > 0,
        m.rows@.len() == k,
        forall|s: int| 0 <= s < k ==> r1cs::bounded((#[trigger] m.rows@[s])@, k as int),
        p + 64 <= 128 * z@.len(),
        128 * z@.len() <= usize::MAX,
        (128 * z@.len()) as int % (k as int) == 0,
    ensures
        forall|t: int|
            0 <= t < 64 ==> #[trigger] bits::word_bit(w, t) == row_at(*m, k as int, z@, p + t),
{
    let mut w: u64 = 0;
    let mut t: usize = 0;
    proof {
        assert forall|j: int| 0 <= j < 64 implies !#[trigger] bits::word_bit(w, j) by {
            bits::lemma_word_bit(0, 0, j, 0);
        }
    }
    while t < 64
        invariant
            t <= 64,
            k > 0,
            m.rows@.len() == k,
            forall|s: int| 0 <= s < k ==> r1cs::bounded((#[trigger] m.rows@[s])@, k as int),
            p + 64 <= 128 * z@.len(),
            128 * z@.len() <= usize::MAX,
            (128 * z@.len()) as int % (k as int) == 0,
            forall|j: int|
                0 <= j < 64 ==> #[trigger] bits::word_bit(w, j) == (j < t && row_at(
                    *m,
                    k as int,
                    z@,
                    p + j,
                )),
        decreases 64 - t,
    {
        let q: usize = p + t;
        proof {
            lemma_block_fits(q as int, k as int, 128 * z@.len() as int);
            assert(r1cs::bounded(m.rows@[q as int % k as int]@, k as int));
        }
        let b = eval_row(&m.rows[q % k], z, (q / k) * k, k);
        let ghost before = w;
        if b {
            w = w | (1u64 << (t as u64));
        }
        proof {
            assert forall|j: int| 0 <= j < 64 implies #[trigger] bits::word_bit(w, j) == (j < t + 1
                && row_at(*m, k as int, z@, p + j)) by {
                assert(bits::word_bit(before, j) == (j < t && row_at(*m, k as int, z@, p + j)));
                bits::lemma_set_bit(before, t as int, j);
            }
        }
        t = t + 1;
    }
    w
}

/// The block of bit `q` lies within `total` bits, a multiple of the block size.
proof fn lemma_block_fits(q: int, k: int, total: int)
    requires
        k > 0,
        0 <= q < total,
        total % k == 0,
    ensures
        0 <= (q / k) * k <= q,
        (q / k) * k + k <= total,
        0 <= q % k < k,
{
    let n = total / k;
    vstd::arithmetic::div_mod::lemma_fundamental_div_mod(total, k);
    eq::lemma_block_index(q, k, n);
    assert((q / k) * k + k <= k * n) by (nonlinear_arith)
        requires
            q / k < n,
            k > 0,
    ;
}

/// Applies a block's matrix to every block of a packed witness.
fn apply_packed(m: &SparseBinaryMatrix, k: usize, z: &[F128]) -> (out: Vec<F128>)
    requires
        k > 0,
        m.rows@.len() == k,
        forall|s: int| 0 <= s < k ==> r1cs::bounded((#[trigger] m.rows@[s])@, k as int),
        128 * z@.len() <= usize::MAX,
        (128 * z@.len()) as int % (k as int) == 0,
    ensures
        out@.len() == z@.len(),
        forall|p: int|
            0 <= p < 128 * z@.len() ==> #[trigger] packed_bit(out@, p) == row_at(
                *m,
                k as int,
                z@,
                p,
            ),
{
    let mut out: Vec<F128> = Vec::with_capacity(z.len());
    let mut i: usize = 0;
    while i < z.len()
        invariant
            i <= z.len(),
            k > 0,
            m.rows@.len() == k,
            forall|s: int| 0 <= s < k ==> r1cs::bounded((#[trigger] m.rows@[s])@, k as int),
            128 * z@.len() <= usize::MAX,
            (128 * z@.len()) as int % (k as int) == 0,
            out@.len() == i,
            forall|p: int|
                0 <= p < 128 * i ==> #[trigger] packed_bit(out@, p) == row_at(*m, k as int, z@, p),
        decreases z.len() - i,
    {
        let lo: u64 = eval_word(m, k, z, 128 * i);
        let hi: u64 = eval_word(m, k, z, 128 * i + 64);
        let ghost before = out@;
        out.push(F128 { lo, hi });
        proof {
            assert forall|p: int| 0 <= p < 128 * (i + 1) implies #[trigger] packed_bit(out@, p)
                == row_at(*m, k as int, z@, p) by {
                if p < 128 * i {
                    assert(packed_bit(before, p) == row_at(*m, k as int, z@, p));
                    assert(out@[p / 128] == before[p / 128]);
                } else {
                    let t = p - 128 * i;
                    assert(p / 128 == i && p % 128 == t);
                    if t < 64 {
                        assert(bits::word_bit(lo, t) == row_at(*m, k as int, z@, 128 * i + t));
                    } else {
                        assert(bits::word_bit(hi, t - 64) == row_at(
                            *m,
                            k as int,
                            z@,
                            128 * i + 64 + (t - 64),
                        ));
                    }
                }
            }
        }
        i = i + 1;
    }
    out
}

impl BlockR1cs {
    proof fn lemma_sizes(self)
        requires
            self.wf(),
        ensures
            pow2(self.m as nat) == self.block() * self.blocks(),
            pow2(self.m as nat) as int % self.block() == 0,
            pow2(self.m as nat) as int % 128 == 0,
            0 < self.block() <= pow2(self.m as nat),
            0 < self.blocks(),
    {
        let (k, n) = (self.k_log as nat, (self.m - self.k_log) as nat);
        lemma_pow2_adds(k, n);
        lemma_pow2_pos(k);
        lemma_pow2_pos(n);
        univariate_skip::lemma_pow2_monotone(k, self.m as nat);
        vstd::arithmetic::div_mod::lemma_mod_multiples_basic(self.blocks(), self.block());
        assert(self.blocks() * self.block() == self.block() * self.blocks()) by (nonlinear_arith);
        let r = (self.m - 7) as nat;
        lemma_pow2_adds(7, r);
        lemma2_to64();
        vstd::arithmetic::div_mod::lemma_mod_multiples_basic(pow2(r) as int, 128);
    }

    /// `A·z` for a packed witness.
    pub fn apply_a_packed(&self, z: &[F128]) -> (out: Vec<F128>)
        requires
            self.wf(),
            128 * z@.len() == pow2(self.m as nat),
        ensures
            out@.len() == z@.len(),
            forall|p: int|
                0 <= p < pow2(self.m as nat) ==> #[trigger] packed_bit(out@, p) == self.a_at(z@, p),
            forall|p: int|
                0 <= p < pow2(self.m as nat) ==> {
                    let k = pow2(self.k_log as nat) as int;
                    #[trigger] packed_bit(out@, p) == r1cs::row_parity(
                        |s: int| packed_bit(z@, (p / k) * k + s),
                        self.a_0.rows@[p % k]@,
                    )
                },
    {
        proof {
            self.lemma_sizes();
        }
        apply_packed(&self.a_0, power_of_two(self.k_log), z)
    }

    /// `B·z` for a packed witness.
    pub fn apply_b_packed(&self, z: &[F128]) -> (out: Vec<F128>)
        requires
            self.wf(),
            128 * z@.len() == pow2(self.m as nat),
        ensures
            out@.len() == z@.len(),
            forall|p: int|
                0 <= p < pow2(self.m as nat) ==> #[trigger] packed_bit(out@, p) == self.b_at(z@, p),
            forall|p: int|
                0 <= p < pow2(self.m as nat) ==> {
                    let k = pow2(self.k_log as nat) as int;
                    #[trigger] packed_bit(out@, p) == r1cs::row_parity(
                        |s: int| packed_bit(z@, (p / k) * k + s),
                        self.b_0.rows@[p % k]@,
                    )
                },
    {
        proof {
            self.lemma_sizes();
        }
        apply_packed(&self.b_0, power_of_two(self.k_log), z)
    }

    /// Tells whether a packed witness meets all constraints.
    pub fn satisfies_packed(&self, z: &[F128]) -> (ok: bool)
        requires
            self.wf(),
            128 * z@.len() == pow2(self.m as nat),
        ensures
            ok == self.satisfied(z@),
            ok <==> {
                let k = pow2(self.k_log as nat) as int;
                &&& forall|p: int|
                    0 <= p < pow2(self.m as nat) ==> #[trigger] packed_bit(z@, p) == (
                    r1cs::row_parity(
                        |s: int| packed_bit(z@, (p / k) * k + s),
                        self.a_0.rows@[p % k]@,
                    ) && r1cs::row_parity(
                        |s: int| packed_bit(z@, (p / k) * k + s),
                        self.b_0.rows@[p % k]@,
                    ))
                &&& self.const_pin matches Some(pin) ==> forall|blk: int|
                    0 <= blk < pow2((self.m - self.k_log) as nat) ==> packed_bit(
                        z@,
                        #[trigger] (blk * k) + pin,
                    )
            },
    {
        proof {
            self.lemma_sizes();
        }
        let a = self.apply_a_packed(z);
        let b = self.apply_b_packed(z);
        let total: usize = power_of_two(self.m);
        let mut p: usize = 0;
        while p < total
            invariant
                p <= total,
                total == pow2(self.m as nat),
                total == 128 * z@.len(),
                a@.len() == z@.len(),
                b@.len() == z@.len(),
                forall|p: int|
                    0 <= p < total ==> #[trigger] packed_bit(a@, p) == self.a_at(z@, p),
                forall|p: int|
                    0 <= p < total ==> #[trigger] packed_bit(b@, p) == self.b_at(z@, p),
                forall|q: int|
                    0 <= q < p ==> #[trigger] packed_bit(z@, q) == (self.a_at(z@, q) && self.b_at(
                        z@,
                        q,
                    )),
            decreases total - p,
        {
            let both = read_bit(a.as_slice(), p) && read_bit(b.as_slice(), p);
            if read_bit(z, p) != both {
                proof {
                    assert(packed_bit(a@, p as int) == self.a_at(z@, p as int));
                    assert(packed_bit(b@, p as int) == self.b_at(z@, p as int));
                    assert(!self.satisfied(z@));
                }
                return false;
            }
            proof {
                assert(packed_bit(a@, p as int) == self.a_at(z@, p as int));
                assert(packed_bit(b@, p as int) == self.b_at(z@, p as int));
            }
            p = p + 1;
        }
        match self.const_pin {
            None => true,
            Some(pin) => {
                let k: usize = power_of_two(self.k_log);
                proof {
                    univariate_skip::lemma_pow2_monotone(
                        (self.m - self.k_log) as nat,
                        self.m as nat,
                    );
                }
                let n: usize = power_of_two(self.m - self.k_log);
                let mut blk: usize = 0;
                while blk < n
                    invariant
                        blk <= n,
                        self.wf(),
                        k == self.block(),
                        n == self.blocks(),
                        pin < k,
                        self.const_pin == Some(pin),
                        total == 128 * z@.len(),
                        total == k * n,
                        forall|c: int|
                            0 <= c < blk ==> packed_bit(z@, #[trigger] (c * self.block()) + pin),
                    decreases n - blk,
                {
                    proof {
                        eq::lemma_index_of_block(blk as int, pin as int, k as int, n as int);
                        assert(blk * k >= 0) by (nonlinear_arith)
                            requires
                                blk >= 0,
                                k >= 0,
                        ;
                    }
                    if !read_bit(z, blk * k + pin) {
                        proof {
                            assert(!packed_bit(z@, (blk as int * self.block()) + pin));
                            assert(!self.satisfied(z@));
                        }
                        return false;
                    }
                    blk = blk + 1;
                }
                true
            },
        }
    }
}

/// Bit `128·i + t` of a packed witness is bit `t` of the low word of element `i`,
/// and the next 64 are those of the high word.
pub proof fn lemma_packed_places(z: Seq<F128>, i: int, t: int)
    requires
        0 <= t < 64,
    ensures
        packed_bit(z, 128 * i + t) == ((z[i].lo >> (t as u64)) & 1 == 1),
        packed_bit(z, 128 * i + 64 + t) == ((z[i].hi >> (t as u64)) & 1 == 1),
{
    assert((128 * i + t) / 128 == i && (128 * i + t) % 128 == t);
    assert((128 * i + 64 + t) / 128 == i && (128 * i + 64 + t) % 128 == 64 + t);
}

/// Which systems the methods take: all whose matrices have one row for each slot of
/// a block and name its slots only, with a block of at least 128 bits.
pub proof fn lemma_wf(r: BlockR1cs)
    ensures
        r.wf() <==> {
            let k = pow2(r.k_log as nat);
            &&& 7 <= r.k_log <= r.m
            &&& pow2(r.m as nat) <= usize::MAX
            &&& r.a_0.rows@.len() == k
            &&& r.b_0.rows@.len() == k
            &&& forall|s: int, i: int|
                0 <= s < k && 0 <= i < r.a_0.rows@[s]@.len() ==> #[trigger] r.a_0.rows@[s]@[i] < k
            &&& forall|s: int, i: int|
                0 <= s < k && 0 <= i < r.b_0.rows@[s]@.len() ==> #[trigger] r.b_0.rows@[s]@[i] < k
            &&& r.const_pin matches Some(p) ==> p < k
        },
{
    let k = pow2(r.k_log as nat);
    if r.wf() {
        assert forall|s: int, i: int|
            0 <= s < k && 0 <= i < r.a_0.rows@[s]@.len() implies #[trigger] r.a_0.rows@[s]@[i]
            < k by {
            assert(r1cs::bounded(r.a_0.rows@[s]@, r.block()));
        }
        assert forall|s: int, i: int|
            0 <= s < k && 0 <= i < r.b_0.rows@[s]@.len() implies #[trigger] r.b_0.rows@[s]@[i]
            < k by {
            assert(r1cs::bounded(r.b_0.rows@[s]@, r.block()));
        }
    }
}

} // verus!
