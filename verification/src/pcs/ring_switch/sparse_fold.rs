//! The two folds on a compact suffix tensor.

use crate::field::bits;
use crate::field::gf2_256::F256;
use crate::field::sums;
use crate::parallel::{par_map, par_sum_rows, RowJob, SlotJob};
use crate::pcs::ring_switch::elems;
use crate::pcs::ring_switch::fold;
use crate::pcs::ring_switch::fold::{fold_bits_against, scatter_set_bits};
use crate::pcs::ring_switch::sparse;
use crate::pcs::ring_switch::sparse::SparseEqTensor;
use crate::zerocheck::univariate_skip;
use vstd::arithmetic::power2::pow2;
use vstd::prelude::*;

verus! {

/// `Σ_c bit_r(W[index(c)]) · live[c]` for every `r`.
pub open spec fn sparse_slice_fold(witness: Seq<F256>, eq: SparseEqTensor) -> Seq<F256> {
    Seq::new(
        256,
        |r: int|
            sums::sum(
                |c: int| bits::gate(witness[eq.index(c)].bit(r), eq.live_tensor@[c]),
                eq.live_tensor@.len(),
            ),
    )
}

/// The pairs of a compact tensor, each value folded against the weights.
pub open spec fn folded_pairs(eq: SparseEqTensor, weights: Seq<F256>) -> Seq<(usize, F256)> {
    Seq::new(
        eq.live_tensor@.len(),
        |c: int| (eq.index(c) as usize, fold::fold_against(eq.live_tensor@[c], weights)),
    )
}

/// `len` zeros.
pub open spec fn zeros(len: nat) -> Seq<F256> {
    Seq::new(len, |i: int| F256::zero())
}

/// A vector of `len` zeros with the entries written in, one after the other.
pub open spec fn written(len: nat, entries: Seq<(usize, F256)>) -> Seq<F256>
    decreases entries.len(),
{
    if entries.len() == 0 {
        zeros(len)
    } else {
        written(len, entries.drop_last()).update(entries.last().0 as int, entries.last().1)
    }
}

/// No index occurs twice.
pub open spec fn distinct(entries: Seq<(usize, F256)>) -> bool {
    forall|i: int, j: int|
        0 <= i < j < entries.len() ==> (#[trigger] entries[i]).0 != (#[trigger] entries[j]).0
}

/// Entries with distinct indices all stay, and all else is zero.
pub proof fn lemma_written(len: nat, entries: Seq<(usize, F256)>)
    requires
        distinct(entries),
        forall|i: int| 0 <= i < entries.len() ==> (#[trigger] entries[i]).0 < len,
    ensures
        written(len, entries).len() == len,
        forall|i: int|
            0 <= i < entries.len() ==> written(len, entries)[(#[trigger] entries[i]).0 as int]
                == entries[i].1,
        forall|j: int|
            0 <= j < len && (forall|i: int|
                0 <= i < entries.len() ==> (#[trigger] entries[i]).0 != j)
                ==> #[trigger] written(len, entries)[j] == F256::zero(),
    decreases entries.len(),
{
    if entries.len() > 0 {
        let short = entries.drop_last();
        let n = entries.len() - 1;
        assert forall|i: int, j: int| 0 <= i < j < short.len() implies (#[trigger] short[i]).0 != (
        #[trigger] short[j]).0 by {
            assert(entries[i].0 != entries[j].0);
        }
        assert forall|i: int| 0 <= i < short.len() implies (#[trigger] short[i]).0 < len by {
            assert(entries[i].0 < len);
        }
        lemma_written(len, short);
        assert forall|i: int| 0 <= i < entries.len() implies written(
            len,
            entries,
        )[(#[trigger] entries[i]).0 as int] == entries[i].1 by {
            if i < n {
                assert(entries[i].0 != entries[n].0);
                assert(short[i] == entries[i]);
            }
        }
        assert forall|j: int|
            0 <= j < len && (forall|i: int|
                0 <= i < entries.len() ==> (#[trigger] entries[i]).0
                    != j) implies #[trigger] written(len, entries)[j] == F256::zero() by {
            assert(entries[n].0 != j);
            assert forall|i: int| 0 <= i < short.len() implies (#[trigger] short[i]).0 != j by {
                assert(entries[i].0 != j);
            }
            assert(written(len, short)[j] == F256::zero());
        }
    }
}

/// Writes entries into a vector of zeros.
pub(crate) fn write_entries(len: usize, entries: &[(usize, F256)]) -> (out: Vec<F256>)
    requires
        forall|i: int| 0 <= i < entries@.len() ==> (#[trigger] entries@[i]).0 < len,
    ensures
        out@ == written(len as nat, entries@),
        out.len() == len,
{
    let mut out: Vec<F256> = vec![F256::zero(); len];
    let mut i: usize = 0;
    proof {
        assert(out@ =~= zeros(len as nat));
        assert(entries@.take(0).len() == 0);
    }
    while i < entries.len()
        invariant
            i <= entries.len(),
            out.len() == len,
            forall|i: int| 0 <= i < entries@.len() ==> (#[trigger] entries@[i]).0 < len,
            out@ == written(len as nat, entries@.take(i as int)),
        decreases entries.len() - i,
    {
        let e: (usize, F256) = entries[i];
        assert(entries@[i as int].0 < len);
        out.set(e.0, e.1);
        proof {
            let t = entries@.take(i + 1);
            assert(t.drop_last() =~= entries@.take(i as int));
            assert(t.last() == e);
        }
        i = i + 1;
    }
    proof {
        assert(entries@.take(i as int) =~= entries@);
    }
    out
}

// ---------------------------------------------------------------------------
// The row fold.
// ---------------------------------------------------------------------------

/// Compact index `c` adds `live[c]` at every set bit of `witness[index(c)]`.
struct SparseJob<'a> {
    witness: &'a [F256],
    eq: &'a SparseEqTensor,
}

impl<'a> RowJob for SparseJob<'a> {
    closed spec fn ready(&self) -> bool {
        &&& self.eq.placed()
        &&& forall|c: int|
            0 <= c < self.eq.live_tensor@.len() ==> #[trigger] self.eq.index(c)
                < self.witness@.len()
    }

    closed spec fn count(&self) -> nat {
        self.eq.live_tensor@.len()
    }

    closed spec fn entry(&self, i: int, r: int) -> F256 {
        bits::gate(self.witness@[self.eq.index(i)].bit(r), self.eq.live_tensor@[i])
    }

    fn absorb(&self, acc: Vec<F256>, i: usize) -> (v: Vec<F256>) {
        let idx: usize = self.eq.scatter_idx(i);
        let mut v = acc;
        scatter_set_bits(&mut v, self.witness[idx], self.eq.live_tensor[i]);
        v
    }
}

/// The row fold over the entries of a compact tensor only.
pub fn fold_1b_rows_sparse(packed_witness: &[F256], eq: &SparseEqTensor) -> (v: Vec<F256>)
    requires
        eq.placed(),
        forall|c: int|
            0 <= c < eq.live_tensor@.len() ==> #[trigger] eq.index(c) < packed_witness@.len(),
    ensures
        v@ == sparse_slice_fold(packed_witness@, *eq),
        v@.len() == 256,
        forall|r: int|
            0 <= r < 256 ==> #[trigger] v@[r] == sums::sum(
                |c: int|
                    if packed_witness@[eq.index(c)].bit(r) {
                        eq.live_tensor@[c]
                    } else {
                        F256::zero()
                    },
                eq.live_tensor@.len(),
            ),
{
    let job = SparseJob { witness: packed_witness, eq };
    let v = par_sum_rows(&job, eq.live_tensor.len());
    proof {
        let s = sparse_slice_fold(packed_witness@, *eq);
        assert forall|r: int| 0 <= r < 256 implies v@[r] == s[r] by {
            sums::lemma_sum_ext(
                |c: int| job.entry(c, r),
                |c: int| bits::gate(packed_witness@[eq.index(c)].bit(r), eq.live_tensor@[c]),
                eq.live_tensor@.len(),
            );
        }
        assert(v@ =~= s);
        assert forall|r: int| 0 <= r < 256 implies #[trigger] v@[r] == sums::sum(
            |c: int|
                if packed_witness@[eq.index(c)].bit(r) {
                    eq.live_tensor@[c]
                } else {
                    F256::zero()
                },
            eq.live_tensor@.len(),
        ) by {
            sums::lemma_sum_ext(
                |c: int| bits::gate(packed_witness@[eq.index(c)].bit(r), eq.live_tensor@[c]),
                |c: int|
                    if packed_witness@[eq.index(c)].bit(r) {
                        eq.live_tensor@[c]
                    } else {
                        F256::zero()
                    },
                eq.live_tensor@.len(),
            );
        }
    }
    v
}

/// For a compact tensor of `coords`, the indices lie in the tensor.
pub proof fn lemma_represents_bounds(eq: SparseEqTensor, coords: Seq<F256>)
    requires
        eq.represents(coords),
    ensures
        eq.live_tensor@.len() == pow2(eq.live_positions@.len()),
        forall|c: int|
            0 <= c < eq.live_tensor@.len() ==> 0 <= #[trigger] eq.index(c) < pow2(coords.len()),
{
    sparse::lemma_support(coords);
    assert(eq.positions().len() == eq.live_positions@.len());
}

/// The row fold on the compact form is the row fold on the whole tensor.
pub proof fn lemma_sparse_rows(witness: Seq<F256>, eq: SparseEqTensor, coords: Seq<F256>)
    requires
        eq.represents(coords),
        witness.len() == pow2(coords.len()),
    ensures
        sparse_slice_fold(witness, eq) == fold::slice_fold(
            witness,
            univariate_skip::eq_tensor(coords),
        ),
{
    let t = univariate_skip::eq_tensor(coords);
    let lc = sparse::live_coords(coords);
    let pos = sparse::live_among(coords, coords.len());
    let a = sparse_slice_fold(witness, eq);
    let b = fold::slice_fold(witness, t);
    let n = eq.live_tensor@.len();
    assert forall|r: int| 0 <= r < 256 implies a[r] == b[r] by {
        let f = |i: int| bits::gate(witness[i].bit(r), F256::one());
        sparse::lemma_sparse_sum(coords, f);
        let whole = |i: int| bits::gate(witness[i].bit(r), t[i]);
        let whole2 = |i: int| f(i).times(univariate_skip::eq_at(coords, i));
        assert forall|i: int| 0 <= i < witness.len() implies #[trigger] whole(i) == whole2(i) by {
            bits::lemma_gate(witness[i].bit(r), false, F256::one(), t[i]);
            t[i].lemma_times_units();
        }
        sums::lemma_sum_ext(whole, whole2, witness.len());
        let part = |c: int| bits::gate(witness[eq.index(c)].bit(r), eq.live_tensor@[c]);
        let part2 = |c: int|
            f(sparse::spread(pos, c, pos.len())).times(univariate_skip::eq_at(lc, c));
        assert forall|c: int| 0 <= c < n implies #[trigger] part(c) == part2(c) by {
            let e = eq.live_tensor@[c];
            bits::lemma_gate(witness[eq.index(c)].bit(r), false, F256::one(), e);
            e.lemma_times_units();
        }
        sums::lemma_sum_ext(part, part2, n);
    }
    assert(a =~= b);
}

// ---------------------------------------------------------------------------
// The element fold.
// ---------------------------------------------------------------------------

/// Slot `c` is `(index(c), live[c] folded against the weights)`.
struct PairJob<'a> {
    eq: &'a SparseEqTensor,
    weights: &'a [F256],
}

impl<'a> SlotJob<(usize, F256)> for PairJob<'a> {
    closed spec fn ready(&self) -> bool {
        self.eq.placed() && self.weights@.len() == 256
    }

    closed spec fn count(&self) -> nat {
        self.eq.live_tensor@.len()
    }

    closed spec fn slot(&self, i: int) -> (usize, F256) {
        folded_pairs(*self.eq, self.weights@)[i]
    }

    fn compute(&self, i: usize) -> (e: (usize, F256)) {
        (self.eq.scatter_idx(i), fold_bits_against(self.eq.live_tensor[i], self.weights))
    }
}

/// The element fold at the entries of a compact tensor, as `(index, value)`
/// pairs.
pub fn fold_b128_elems_sparse_pairs(eq: &SparseEqTensor, eq_r_dprime: &[F256]) -> (v: Vec<
    (usize, F256),
>)
    requires
        eq.placed(),
        eq_r_dprime.len() == 256,
    ensures
        v@ == folded_pairs(*eq, eq_r_dprime@),
        v@.len() == eq.live_tensor@.len(),
        forall|c: int|
            0 <= c < v@.len() ==> (#[trigger] v@[c]).0 == eq.index(c) as usize && v@[c].1
                == fold::fold_against(eq.live_tensor@[c], eq_r_dprime@),
{
    let job = PairJob { eq, weights: eq_r_dprime };
    let v = par_map(&job, eq.live_tensor.len());
    proof {
        assert forall|i: int| 0 <= i < v@.len() implies v@[i] == folded_pairs(
            *eq,
            eq_r_dprime@,
        )[i] by {
            assert(v@[i] == job.slot(i));
        }
        assert(v@ =~= folded_pairs(*eq, eq_r_dprime@));
    }
    v
}

/// The element fold at the entries of a compact tensor, written into a vector of
/// `len` zeros.
pub fn fold_b128_elems_sparse(len: usize, eq: &SparseEqTensor, eq_r_dprime: &[F256]) -> (v: Vec<
    F256,
>)
    requires
        eq.placed(),
        eq_r_dprime.len() == 256,
        forall|c: int| 0 <= c < eq.live_tensor@.len() ==> #[trigger] eq.index(c) < len,
    ensures
        v@ == written(len as nat, folded_pairs(*eq, eq_r_dprime@)),
        v.len() == len,
{
    let pairs = fold_b128_elems_sparse_pairs(eq, eq_r_dprime);
    proof {
        assert forall|i: int| 0 <= i < pairs@.len() implies (#[trigger] pairs@[i]).0 < len by {
            assert(eq.index(i) < len);
            sparse::lemma_spread_bound(eq.positions(), i, eq.live_positions@.len());
        }
    }
    write_entries(len, pairs.as_slice())
}

/// The pairs of a compact tensor stand at strictly ascending indices.
pub proof fn lemma_pairs_ascend(eq: SparseEqTensor, coords: Seq<F256>, weights: Seq<F256>)
    requires
        eq.represents(coords),
        pow2(coords.len()) <= usize::MAX,
    ensures
        distinct(folded_pairs(eq, weights)),
        forall|i: int, j: int|
            0 <= i < j < eq.live_tensor@.len() ==> (#[trigger] folded_pairs(eq, weights)[i]).0 < (
            #[trigger] folded_pairs(eq, weights)[j]).0,
        forall|i: int|
            0 <= i < eq.live_tensor@.len() ==> (#[trigger] folded_pairs(eq, weights)[i]).0 < pow2(
                coords.len(),
            ),
{
    lemma_represents_bounds(eq, coords);
    sparse::lemma_live(coords, coords.len());
    let pairs = folded_pairs(eq, weights);
    assert forall|i: int, j: int| 0 <= i < j < eq.live_tensor@.len() implies (
    #[trigger] pairs[i]).0 < (#[trigger] pairs[j]).0 by {
        sparse::lemma_spread_ascends(eq.positions(), i, j, eq.live_positions@.len());
        assert(0 <= eq.index(i) < pow2(coords.len()));
        assert(0 <= eq.index(j) < pow2(coords.len()));
    }
    assert forall|i: int| 0 <= i < eq.live_tensor@.len() implies (#[trigger] pairs[i]).0 < pow2(
        coords.len(),
    ) by {
        assert(0 <= eq.index(i) < pow2(coords.len()));
    }
}

/// The element fold on the compact form is the element fold on the whole tensor.
pub proof fn lemma_sparse_elems(eq: SparseEqTensor, coords: Seq<F256>, weights: Seq<F256>)
    requires
        eq.represents(coords),
        pow2(coords.len()) <= usize::MAX,
    ensures
        written(pow2(coords.len()), folded_pairs(eq, weights)) == elems::elems_fold(
            univariate_skip::eq_tensor(coords),
            weights,
        ),
{
    let len = pow2(coords.len());
    let pairs = folded_pairs(eq, weights);
    let t = univariate_skip::eq_tensor(coords);
    let w = written(len, pairs);
    lemma_pairs_ascend(eq, coords, weights);
    lemma_represents_bounds(eq, coords);
    lemma_written(len, pairs);
    sparse::lemma_support(coords);
    let pos = eq.positions();
    assert forall|i: int| 0 <= i < len implies w[i] == elems::elems_fold(t, weights)[i] by {
        if exists|c: int| 0 <= c < eq.live_tensor@.len() && i == #[trigger] eq.index(c) {
            let c = choose|c: int| 0 <= c < eq.live_tensor@.len() && i == #[trigger] eq.index(c);
            assert(pairs[c].0 == i);
            assert(w[pairs[c].0 as int] == pairs[c].1);
            assert(univariate_skip::eq_at(coords, sparse::spread(pos, c, pos.len()))
                == univariate_skip::eq_at(sparse::live_coords(coords), c));
        } else {
            assert forall|c: int| 0 <= c < pairs.len() implies (#[trigger] pairs[c]).0 != i by {
                assert(eq.index(c) != i);
                assert(0 <= eq.index(c) < len);
            }
            assert(w[i] == F256::zero());
            if univariate_skip::eq_at(coords, i) != F256::zero() {
                let c = choose|c: int|
                    0 <= c < pow2(pos.len()) && i == #[trigger] sparse::spread(pos, c, pos.len());
                assert(i == eq.index(c));
            }
            bits::lemma_bit_fold_plus(F256::zero(), F256::zero(), |k: int| weights[k]);
        }
    }
    assert(w =~= elems::elems_fold(t, weights));
}

/// Entries are written one after the other, into zeros; a later one replaces an
/// earlier one.
pub proof fn lemma_written_push(len: nat, entries: Seq<(usize, F256)>, e: (usize, F256))
    ensures
        written(len, Seq::empty()).len() == len,
        forall|j: int| 0 <= j < len ==> #[trigger] written(len, Seq::empty())[j] == F256::zero(),
        written(len, entries.push(e)) == written(len, entries).update(e.0 as int, e.1),
{
    assert(entries.push(e).drop_last() =~= entries);
}

} // verus!
