//! `fold_b128_elems`: `rs_eq_ind[i] = Σ_b bit_b(suffix[i]) · eq_r_dprime[b]`, for
//! `b ∈ 0..256`.

use crate::field::bits;
use crate::field::gf2_256::F256;
use crate::field::sums;
use crate::parallel::{par_map, SlotJob};
use crate::pcs::ring_switch::eq;
use crate::pcs::ring_switch::fold;
use crate::pcs::ring_switch::fold::{f256_limb, fold_bits_against};
use vstd::prelude::*;

verus! {

/// The number of bytes in an element, one lookup table for each.
const FOLD_N_BYTES: usize = 32;

/// The number of entries of one lookup table.
const FOLD_TABLE_SIZE: usize = 256;

/// Every entry of `tensor`, its bits against `weights`.
pub open spec fn elems_fold(tensor: Seq<F256>, weights: Seq<F256>) -> Seq<F256> {
    Seq::new(tensor.len(), |i: int| fold::fold_against(tensor[i], weights))
}

/// `Σ_{b < 8} bit_b(v) · weights[8·k + b]`: the byte `v` at place `k`.
pub open spec fn byte_sum(v: u64, k: int, weights: Seq<F256>) -> F256 {
    sums::sum(|b: int| bits::gate(bits::word_bit(v, b), weights[8 * k + b]), 8)
}

/// The lookup tables for all 32 bytes: entry `256·k + v` is the sum for the byte
/// `v` at place `k`.
pub open spec fn byte_table(weights: Seq<F256>) -> Seq<F256> {
    Seq::new(8192, |j: int| byte_sum((j % 256) as u64, j / 256, weights))
}

/// Byte `k` of the 32 little-endian bytes of an element.
pub open spec fn byte_of(x: F256, k: int) -> u64 {
    (x.word(k / 8) >> ((8 * (k % 8)) as u64)) & 0xff
}

/// `Σ_k tables[256·k + byte_k(elem)]`.
pub open spec fn slot_fold(elem: F256, tables: Seq<F256>) -> F256 {
    sums::sum(|k: int| tables[256 * k + byte_of(elem, k) as int], 32)
}

/// Every entry of `tensor` looked up in `tables`.
pub open spec fn table_fold(tensor: Seq<F256>, tables: Seq<F256>) -> Seq<F256> {
    Seq::new(tensor.len(), |i: int| slot_fold(tensor[i], tables))
}

proof fn lemma_byte_bits(w: u64, s: u64, b: u64)
    by (bit_vector)
    requires
        s <= 56,
        b < 8,
    ensures
        (((w >> s) & 0xff) >> b) & 1 == (w >> ((s + b) as u64)) & 1,
        (w >> s) & 0xff < 256u64,
{
}

/// Looking an element up in the byte tables folds its bits against the weights.
pub proof fn lemma_slot_fold(elem: F256, weights: Seq<F256>)
    ensures
        slot_fold(elem, byte_table(weights)) == fold::fold_against(elem, weights),
{
    let w = |k: int| weights[k];
    let t = byte_table(weights);
    let f = |j: int| bits::gate(elem.bit(j), w(j));
    sums::lemma_sum_blocks(f, 32, 8);
    let blocks = |k: int| sums::sum(|b: int| f(k * 8 + b), 8);
    let terms = |k: int| t[256 * k + byte_of(elem, k) as int];
    assert forall|k: int| 0 <= k < 32 implies #[trigger] terms(k) == blocks(k) by {
        let v = byte_of(elem, k);
        let word = elem.word(k / 8);
        let s = (8 * (k % 8)) as u64;
        lemma_byte_bits(word, s, 0);
        let j = 256 * k + v as int;
        assert(j / 256 == k && j % 256 == v);
        let g = |b: int| bits::gate(bits::word_bit(v, b), weights[8 * k + b]);
        let h = |b: int| f(k * 8 + b);
        assert forall|b: int| 0 <= b < 8 implies #[trigger] g(b) == h(b) by {
            lemma_byte_bits(word, s, b as u64);
            let i = 8 * k + b;
            assert(i / 64 == k / 8);
            assert(i % 64 == s + b);
        }
        sums::lemma_sum_ext(g, h, 8);
    }
    sums::lemma_sum_ext(terms, blocks, 32);
}

/// The table fold over the byte tables is the fold against the weights.
pub proof fn lemma_table_fold(tensor: Seq<F256>, weights: Seq<F256>)
    ensures
        table_fold(tensor, byte_table(weights)) == elems_fold(tensor, weights),
{
    assert forall|i: int| 0 <= i < tensor.len() implies table_fold(tensor, byte_table(weights))[i]
        == elems_fold(tensor, weights)[i] by {
        lemma_slot_fold(tensor[i], weights);
    }
    assert(table_fold(tensor, byte_table(weights)) =~= elems_fold(tensor, weights));
}

/// Slot `i` is the bits of `tensor[i]` against the weights.
struct BitScanJob<'a> {
    tensor: &'a [F256],
    weights: &'a [F256],
}

impl<'a> SlotJob<F256> for BitScanJob<'a> {
    closed spec fn ready(&self) -> bool {
        self.weights@.len() == 256
    }

    closed spec fn count(&self) -> nat {
        self.tensor@.len()
    }

    closed spec fn slot(&self, i: int) -> F256 {
        fold::fold_against(self.tensor@[i], self.weights@)
    }

    fn compute(&self, i: usize) -> (e: F256) {
        fold_bits_against(self.tensor[i], self.weights)
    }
}

/// The fold by a scan of the set bits.
pub fn fold_b128_elems_naive(suffix_tensor: &[F256], eq_r_dprime: &[F256]) -> (v: Vec<F256>)
    requires
        eq_r_dprime.len() == 256,
    ensures
        v@ == elems_fold(suffix_tensor@, eq_r_dprime@),
        v@.len() == suffix_tensor@.len(),
        forall|i: int|
            0 <= i < suffix_tensor@.len() ==> #[trigger] v@[i] == sums::sum(
                |b: int|
                    if suffix_tensor@[i].bit(b) {
                        eq_r_dprime@[b]
                    } else {
                        F256::zero()
                    },
                256,
            ),
{
    let job = BitScanJob { tensor: suffix_tensor, weights: eq_r_dprime };
    let v = par_map(&job, suffix_tensor.len());
    proof {
        assert forall|i: int| 0 <= i < suffix_tensor@.len() implies v@[i] == elems_fold(
            suffix_tensor@,
            eq_r_dprime@,
        )[i] by {
            assert(v@[i] == job.slot(i));
        }
        assert(v@ =~= elems_fold(suffix_tensor@, eq_r_dprime@));
        assert forall|i: int| 0 <= i < suffix_tensor@.len() implies #[trigger] v@[i] == sums::sum(
            |b: int|
                if suffix_tensor@[i].bit(b) {
                    eq_r_dprime@[b]
                } else {
                    F256::zero()
                },
            256,
        ) by {
            fold::lemma_fold_against_value(suffix_tensor@[i], eq_r_dprime@);
        }
    }
    v
}

/// Byte `k` of an element.
fn f256_byte(x: F256, k: usize) -> (b: usize)
    requires
        k < 32,
    ensures
        b == byte_of(x, k as int),
        b < 256,
{
    let word: u64 = f256_limb(x, k / 8);
    let s: u64 = (8 * (k % 8)) as u64;
    proof {
        lemma_byte_bits(word, s, 0);
    }
    ((word >> s) & 0xff) as usize
}

/// One entry of the tables: the set bits of `value` against eight weights.
fn byte_entry(value: usize, byte_idx: usize, eq_r_dprime: &[F256]) -> (r: F256)
    requires
        byte_idx < 32,
        eq_r_dprime.len() == 256,
    ensures
        r == byte_sum(value as u64, byte_idx as int, eq_r_dprime@),
{
    let bit_base: usize = byte_idx * 8;
    let v: u64 = value as u64;
    let mut acc = F256::zero();
    let mut b: usize = 0;
    let ghost f = |b: int|
        bits::gate(bits::word_bit(v, b), eq_r_dprime@[8 * byte_idx as int + b]);
    while b < 8
        invariant
            b <= 8,
            byte_idx < 32,
            bit_base == byte_idx * 8,
            eq_r_dprime.len() == 256,
            f == (|b: int|
                bits::gate(bits::word_bit(v, b), eq_r_dprime@[8 * byte_idx as int + b])),
            acc == sums::sum(f, b as nat),
        decreases 8 - b,
    {
        proof {
            acc.lemma_plus(F256::zero(), F256::zero());
        }
        if (v >> (b as u64)) & 1 == 1 {
            acc = acc + eq_r_dprime[bit_base + b];
        }
        b = b + 1;
    }
    acc
}

/// Builds the 32×256 byte tables: `table[256·k + v] = Σ_{bit b set in v}
/// eq_r_dprime[8·k + b]`.
pub fn build_fold_byte_table(eq_r_dprime: &[F256]) -> (tables: Vec<F256>)
    requires
        eq_r_dprime.len() == 256,
    ensures
        tables@ == byte_table(eq_r_dprime@),
        tables@.len() == 8192,
        forall|k: int, w: int|
            0 <= k < 32 && 0 <= w < 256 ==> #[trigger] tables@[256 * k + w] == sums::sum(
                |b: int|
                    if ((w as u64) >> (b as u64)) & 1 == 1 {
                        eq_r_dprime@[8 * k + b]
                    } else {
                        F256::zero()
                    },
                8,
            ),
{
    let mut tables: Vec<F256> = Vec::with_capacity(FOLD_N_BYTES * FOLD_TABLE_SIZE);
    let mut byte_idx: usize = 0;
    while byte_idx < FOLD_N_BYTES
        invariant
            byte_idx <= 32,
            eq_r_dprime.len() == 256,
            tables@ == byte_table(eq_r_dprime@).take(256 * byte_idx as int),
        decreases 32 - byte_idx,
    {
        let mut value: usize = 0;
        while value < FOLD_TABLE_SIZE
            invariant
                value <= 256,
                byte_idx < 32,
                eq_r_dprime.len() == 256,
                tables@ == byte_table(eq_r_dprime@).take(256 * byte_idx as int + value),
            decreases 256 - value,
        {
            let e = byte_entry(value, byte_idx, eq_r_dprime);
            tables.push(e);
            proof {
                let j = 256 * byte_idx as int + value;
                assert(j / 256 == byte_idx && j % 256 == value);
                assert(tables@ =~= byte_table(eq_r_dprime@).take(j + 1));
            }
            value = value + 1;
        }
        byte_idx = byte_idx + 1;
    }
    proof {
        assert(tables@ =~= byte_table(eq_r_dprime@));
        assert forall|k: int, w: int|
            0 <= k < 32 && 0 <= w < 256 implies #[trigger] tables@[256 * k + w] == sums::sum(
            |b: int|
                if ((w as u64) >> (b as u64)) & 1 == 1 {
                    eq_r_dprime@[8 * k + b]
                } else {
                    F256::zero()
                },
            8,
        ) by {
            let j = 256 * k + w;
            assert(j / 256 == k && j % 256 == w);
            sums::lemma_sum_ext(
                |b: int| bits::gate(bits::word_bit(w as u64, b), eq_r_dprime@[8 * k + b]),
                |b: int|
                    if ((w as u64) >> (b as u64)) & 1 == 1 {
                        eq_r_dprime@[8 * k + b]
                    } else {
                        F256::zero()
                    },
                8,
            );
        }
    }
    tables
}

/// One folded slot: `Σ_{k < 32} tables[256·k + byte_k(elem)]`.
pub fn fold_one_slot(elem: F256, tables: &[F256]) -> (r: F256)
    requires
        tables.len() == 8192,
    ensures
        r == slot_fold(elem, tables@),
        r == sums::sum(
            |k: int|
                tables@[256 * k + (((elem.word(k / 8) >> ((8 * (k % 8)) as u64)) & 0xff) as int)],
            32,
        ),
{
    let mut acc = F256::zero();
    let mut k: usize = 0;
    let ghost f = |k: int| tables@[256 * k + byte_of(elem, k) as int];
    while k < FOLD_N_BYTES
        invariant
            k <= 32,
            tables.len() == 8192,
            f == (|k: int| tables@[256 * k + byte_of(elem, k) as int]),
            acc == sums::sum(f, k as nat),
        decreases 32 - k,
    {
        let byte: usize = f256_byte(elem, k);
        acc = acc + tables[k * FOLD_TABLE_SIZE + byte];
        k = k + 1;
    }
    proof {
        sums::lemma_sum_ext(
            f,
            |k: int|
                tables@[256 * k + (((elem.word(k / 8) >> ((8 * (k % 8)) as u64)) & 0xff) as int)],
            32,
        );
    }
    acc
}

/// Slot `i` is `tensor[i]` looked up in the tables.
struct TableJob<'a> {
    tensor: &'a [F256],
    tables: &'a [F256],
}

impl<'a> SlotJob<F256> for TableJob<'a> {
    closed spec fn ready(&self) -> bool {
        self.tables@.len() == 8192
    }

    closed spec fn count(&self) -> nat {
        self.tensor@.len()
    }

    closed spec fn slot(&self, i: int) -> F256 {
        slot_fold(self.tensor@[i], self.tables@)
    }

    fn compute(&self, i: usize) -> (e: F256) {
        fold_one_slot(self.tensor[i], self.tables)
    }
}

/// The fold by byte tables: built once, then 32 lookups per position.
pub fn fold_b128_elems(suffix_tensor: &[F256], eq_r_dprime: &[F256]) -> (v: Vec<F256>)
    requires
        eq_r_dprime.len() == 256,
    ensures
        v@ == elems_fold(suffix_tensor@, eq_r_dprime@),
        v@.len() == suffix_tensor@.len(),
        forall|i: int|
            0 <= i < suffix_tensor@.len() ==> #[trigger] v@[i] == sums::sum(
                |b: int|
                    if suffix_tensor@[i].bit(b) {
                        eq_r_dprime@[b]
                    } else {
                        F256::zero()
                    },
                256,
            ),
{
    let tables = build_fold_byte_table(eq_r_dprime);
    let job = TableJob { tensor: suffix_tensor, tables: tables.as_slice() };
    let v = par_map(&job, suffix_tensor.len());
    proof {
        lemma_table_fold(suffix_tensor@, eq_r_dprime@);
        assert forall|i: int| 0 <= i < suffix_tensor@.len() implies v@[i] == table_fold(
            suffix_tensor@,
            tables@,
        )[i] by {
            assert(v@[i] == job.slot(i));
        }
        assert(v@ =~= table_fold(suffix_tensor@, tables@));
        assert forall|i: int| 0 <= i < suffix_tensor@.len() implies #[trigger] v@[i] == sums::sum(
            |b: int|
                if suffix_tensor@[i].bit(b) {
                    eq_r_dprime@[b]
                } else {
                    F256::zero()
                },
            256,
        ) by {
            fold::lemma_fold_against_value(suffix_tensor@[i], eq_r_dprime@);
        }
    }
    v
}

/// Slot `i` is `eq_lo[i mod B] · eq_hi[i / B]` looked up in the tables.
struct SplitTableJob<'a> {
    eq_lo: &'a [F256],
    eq_hi: &'a [F256],
    tables: &'a [F256],
}

impl<'a> SlotJob<F256> for SplitTableJob<'a> {
    closed spec fn ready(&self) -> bool {
        self.tables@.len() == 8192
    }

    closed spec fn count(&self) -> nat {
        self.eq_lo@.len() * self.eq_hi@.len()
    }

    closed spec fn slot(&self, i: int) -> F256 {
        slot_fold(eq::product_tensor(self.eq_lo@, self.eq_hi@)[i], self.tables@)
    }

    fn compute(&self, i: usize) -> (e: F256) {
        deferred_dense_value(self.eq_lo, self.eq_hi, self.tables, i)
    }
}

/// Slot `j` of the table fold of a factored tensor:
/// `fold_one_slot(eq_lo[j mod B] · eq_hi[j / B], table)`, `B = eq_lo.len()`.
pub fn deferred_dense_value(eq_lo: &[F256], eq_hi: &[F256], table: &[F256], j: usize) -> (r: F256)
    requires
        j < eq_lo.len() * eq_hi.len(),
        table.len() == 8192,
    ensures
        r == slot_fold(eq::product_tensor(eq_lo@, eq_hi@)[j as int], table@),
        r == slot_fold(
            eq_lo@[j as int % (eq_lo@.len() as int)].times(
                eq_hi@[j as int / (eq_lo@.len() as int)],
            ),
            table@,
        ),
{
    proof {
        if eq_lo.len() == 0 {
            assert(eq_lo.len() * eq_hi.len() == 0) by (nonlinear_arith)
                requires
                    eq_lo.len() == 0,
            ;
        }
        eq::lemma_block_index(j as int, eq_lo@.len() as int, eq_hi@.len() as int);
    }
    let b: usize = eq_lo.len();
    fold_one_slot(eq_lo[j % b] * eq_hi[j / b], table)
}

/// The table fold of a factored tensor.
pub fn fold_b128_from_table(eq_lo: &[F256], eq_hi: &[F256], tables: &[F256]) -> (v: Vec<F256>)
    requires
        eq_lo.len() * eq_hi.len() <= usize::MAX,
        tables.len() == 8192,
    ensures
        v@ == table_fold(eq::product_tensor(eq_lo@, eq_hi@), tables@),
        v@.len() == eq_lo@.len() * eq_hi@.len(),
        forall|j: int|
            0 <= j < v@.len() ==> #[trigger] v@[j] == slot_fold(
                eq_lo@[j % (eq_lo@.len() as int)].times(eq_hi@[j / (eq_lo@.len() as int)]),
                tables@,
            ),
{
    let job = SplitTableJob { eq_lo, eq_hi, tables };
    let v = par_map(&job, eq_lo.len() * eq_hi.len());
    proof {
        let t = eq::product_tensor(eq_lo@, eq_hi@);
        assert forall|i: int| 0 <= i < t.len() implies v@[i] == table_fold(t, tables@)[i] by {
            assert(v@[i] == job.slot(i));
        }
        assert(v@ =~= table_fold(t, tables@));
    }
    v
}

/// [`fold_b128_elems`] on a tensor given by its two factors; the output is in
/// the order of the tensor, `out[i_hi·B + i_lo]` with `B = eq_lo.len()`.
pub fn fold_b128_elems_split(eq_lo: &[F256], eq_hi: &[F256], eq_r_dprime: &[F256]) -> (v: Vec<F256>)
    requires
        eq_lo.len() * eq_hi.len() <= usize::MAX,
        eq_r_dprime.len() == 256,
    ensures
        v@ == elems_fold(eq::product_tensor(eq_lo@, eq_hi@), eq_r_dprime@),
{
    let tables = build_fold_byte_table(eq_r_dprime);
    proof {
        lemma_table_fold(eq::product_tensor(eq_lo@, eq_hi@), eq_r_dprime@);
    }
    fold_b128_from_table(eq_lo, eq_hi, tables.as_slice())
}

} // verus!
