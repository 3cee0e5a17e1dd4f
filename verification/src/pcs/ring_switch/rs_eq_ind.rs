//! The transparent multilinear `rs_eq_ind` in the forms that the batched prover
//! hands on.

use crate::field::gf2_256::F256;
use crate::pcs::ring_switch::elems;
use crate::pcs::ring_switch::elems::deferred_dense_value;
use crate::pcs::ring_switch::eq;
use crate::pcs::ring_switch::sparse_fold;
use crate::pcs::ring_switch::sparse_fold::write_entries;
use vstd::prelude::*;

verus! {

/// A vector of field elements, materialized or not.
#[derive(Clone, Debug)]
pub enum RsEqInd {
    /// All entries.
    Dense(Vec<F256>),
    /// The factors of a suffix tensor and the byte tables of the weights: entry `j`
    /// is `deferred_dense_value(eq_lo, eq_hi, table, j)`.
    DeferredDense { eq_lo: Vec<F256>, eq_hi: Vec<F256>, table: Vec<F256> },
    /// The entries that can be nonzero.
    Sparse { len: usize, entries: Vec<(usize, F256)> },
}

/// `gamma · entries` added into `out`, one after the other.
pub open spec fn added(out: Seq<F256>, gamma: F256, entries: Seq<(usize, F256)>) -> Seq<F256>
    decreases entries.len(),
{
    if entries.len() == 0 {
        out
    } else {
        let before = added(out, gamma, entries.drop_last());
        let (idx, val) = entries.last();
        before.update(idx as int, before[idx as int].plus(gamma.times(val)))
    }
}

/// `out + gamma · v`.
pub open spec fn plus_scaled(out: Seq<F256>, gamma: F256, v: Seq<F256>) -> Seq<F256> {
    Seq::new(out.len(), |j: int| out[j].plus(gamma.times(v[j])))
}

impl RsEqInd {
    /// The tables have their size and every sparse index is in range.
    pub open spec fn wf(self) -> bool {
        match self {
            RsEqInd::Dense(v) => true,
            RsEqInd::DeferredDense { eq_lo, eq_hi, table } => {
                &&& table@.len() == 8192
                &&& eq_lo@.len() * eq_hi@.len() <= usize::MAX
            },
            RsEqInd::Sparse { len, entries } => forall|i: int|
                0 <= i < entries@.len() ==> (#[trigger] entries@[i]).0 < len,
        }
    }

    /// All entries.
    pub open spec fn dense(self) -> Seq<F256> {
        match self {
            RsEqInd::Dense(v) => v@,
            RsEqInd::DeferredDense { eq_lo, eq_hi, table } => elems::table_fold(
                eq::product_tensor(eq_lo@, eq_hi@),
                table@,
            ),
            RsEqInd::Sparse { len, entries } => sparse_fold::written(len as nat, entries@),
        }
    }

    /// The number of entries.
    pub open spec fn count(self) -> nat {
        match self {
            RsEqInd::Dense(v) => v@.len(),
            RsEqInd::DeferredDense { eq_lo, eq_hi, table } => eq_lo@.len() * eq_hi@.len(),
            RsEqInd::Sparse { len, entries } => len as nat,
        }
    }

    /// The dense view has as many entries as the form says.
    pub proof fn lemma_count(self)
        requires
            self.wf(),
        ensures
            self.dense().len() == self.count(),
    {
        if let RsEqInd::Sparse { len, entries } = self {
            lemma_written_len(len as nat, entries@);
        }
    }

    /// The number of entries.
    pub fn len(&self) -> (n: usize)
        requires
            self.count() <= usize::MAX,
        ensures
            n == self.count(),
            self matches RsEqInd::Dense(v) ==> n == v@.len(),
            self matches RsEqInd::DeferredDense { eq_lo, eq_hi, table } ==> n == eq_lo@.len()
                * eq_hi@.len(),
            self matches RsEqInd::Sparse { len, entries } ==> n == len,
    {
        match self {
            RsEqInd::Dense(v) => v.len(),
            RsEqInd::DeferredDense { eq_lo, eq_hi, table } => eq_lo.len() * eq_hi.len(),
            RsEqInd::Sparse { len, entries } => *len,
        }
    }

    /// Tells whether there are no entries.
    pub fn is_empty(&self) -> (r: bool)
        requires
            self.count() <= usize::MAX,
        ensures
            r == (self.count() == 0),
    {
        self.len() == 0
    }

    /// What [`add_scaled_into`](Self::add_scaled_into) leaves in `out`.
    pub open spec fn added_into(self, gamma: F256, out: Seq<F256>) -> Seq<F256> {
        match self {
            RsEqInd::Sparse { len, entries } => added(out, gamma, entries@),
            _ => plus_scaled(out, gamma, self.dense()),
        }
    }

    /// Adds `gamma · self[j]` to `out[j]` for all `j`.
    pub fn add_scaled_into(&self, gamma: F256, out: &mut [F256])
        requires
            self.wf(),
            old(out)@.len() == self.count(),
        ensures
            final(out)@ == self.added_into(gamma, old(out)@),
            final(out)@.len() == old(out)@.len(),
            !(self is Sparse) ==> forall|j: int|
                0 <= j < old(out)@.len() ==> #[trigger] final(out)@[j] == old(out)@[j].plus(
                    gamma.times(self.dense()[j]),
                ),
            self matches RsEqInd::Sparse { len, entries } ==> final(out)@ == added(
                old(out)@,
                gamma,
                entries@,
            ),
    {
        let ghost before = out@;
        match self {
            RsEqInd::Dense(v) => {
                let mut j: usize = 0;
                while j < v.len()
                    invariant
                        j <= v.len(),
                        out@.len() == v@.len(),
                        before.len() == v@.len(),
                        forall|k: int|
                            0 <= k < j ==> #[trigger] out@[k] == before[k].plus(
                                gamma.times(v@[k]),
                            ),
                        forall|k: int| j <= k < v@.len() ==> #[trigger] out@[k] == before[k],
                    decreases v.len() - j,
                {
                    out[j] = out[j] + gamma * v[j];
                    j = j + 1;
                }
                proof {
                    assert(out@ =~= plus_scaled(before, gamma, v@));
                }
            },
            RsEqInd::DeferredDense { eq_lo, eq_hi, table } => {
                let n: usize = eq_lo.len() * eq_hi.len();
                let ghost d = self.dense();
                let mut j: usize = 0;
                while j < n
                    invariant
                        j <= n,
                        n == eq_lo@.len() * eq_hi@.len(),
                        table@.len() == 8192,
                        d == elems::table_fold(eq::product_tensor(eq_lo@, eq_hi@), table@),
                        out@.len() == n,
                        before.len() == n,
                        forall|k: int|
                            0 <= k < j ==> #[trigger] out@[k] == before[k].plus(
                                gamma.times(d[k]),
                            ),
                        forall|k: int| j <= k < n ==> #[trigger] out@[k] == before[k],
                    decreases n - j,
                {
                    let e = deferred_dense_value(
                        eq_lo.as_slice(),
                        eq_hi.as_slice(),
                        table.as_slice(),
                        j,
                    );
                    out[j] = out[j] + gamma * e;
                    j = j + 1;
                }
                proof {
                    assert(out@ =~= plus_scaled(before, gamma, d));
                }
            },
            RsEqInd::Sparse { len, entries } => {
                proof {
                    lemma_written_len(*len as nat, entries@);
                    assert(entries@.take(0).len() == 0);
                }
                let mut i: usize = 0;
                while i < entries.len()
                    invariant
                        i <= entries.len(),
                        out@.len() == *len,
                        forall|i: int|
                            0 <= i < entries@.len() ==> (#[trigger] entries@[i]).0 < *len,
                        out@ == added(before, gamma, entries@.take(i as int)),
                    decreases entries.len() - i,
                {
                    let e: (usize, F256) = entries[i];
                    assert(entries@[i as int].0 < *len);
                    out[e.0] = out[e.0] + gamma * e.1;
                    proof {
                        let t = entries@.take(i + 1);
                        assert(t.drop_last() =~= entries@.take(i as int));
                        assert(t.last() == e);
                    }
                    i = i + 1;
                }
                proof {
                    assert(entries@.take(i as int) =~= entries@);
                }
            },
        }
    }

    /// All entries, materialized.
    pub fn to_dense(&self) -> (v: Vec<F256>)
        requires
            self.wf(),
        ensures
            v@ == self.dense(),
            self matches RsEqInd::Dense(d) ==> v@ == d@,
            self matches RsEqInd::DeferredDense { eq_lo, eq_hi, table } ==> {
                &&& v@.len() == eq_lo@.len() * eq_hi@.len()
                &&& forall|j: int|
                    0 <= j < v@.len() ==> #[trigger] v@[j] == elems::slot_fold(
                        eq_lo@[j % (eq_lo@.len() as int)].times(eq_hi@[j / (eq_lo@.len() as int)]),
                        table@,
                    )
            },
            self matches RsEqInd::Sparse { len, entries } ==> v@ == sparse_fold::written(
                len as nat,
                entries@,
            ),
    {
        match self {
            RsEqInd::Dense(v) => {
                let c: Vec<F256> = v.clone();
                proof {
                    assert(c@ =~= v@);
                }
                c
            },
            RsEqInd::DeferredDense { eq_lo, eq_hi, table } => {
                let n: usize = eq_lo.len() * eq_hi.len();
                let ghost d = self.dense();
                let mut out: Vec<F256> = Vec::with_capacity(n);
                let mut j: usize = 0;
                while j < n
                    invariant
                        j <= n,
                        n == eq_lo@.len() * eq_hi@.len(),
                        table@.len() == 8192,
                        d == elems::table_fold(eq::product_tensor(eq_lo@, eq_hi@), table@),
                        out@ == d.take(j as int),
                    decreases n - j,
                {
                    out.push(
                        deferred_dense_value(
                            eq_lo.as_slice(),
                            eq_hi.as_slice(),
                            table.as_slice(),
                            j,
                        ),
                    );
                    proof {
                        assert(out@ =~= d.take(j + 1));
                    }
                    j = j + 1;
                }
                proof {
                    assert(out@ =~= d);
                }
                out
            },
            RsEqInd::Sparse { len, entries } => write_entries(*len, entries.as_slice()),
        }
    }

    /// All entries, without a copy where they are materialized already.
    pub fn into_dense(self) -> (v: Vec<F256>)
        requires
            self.wf(),
        ensures
            v@ == self.dense(),
            self matches RsEqInd::Dense(d) ==> v@ == d@,
            self matches RsEqInd::DeferredDense { eq_lo, eq_hi, table } ==> {
                &&& v@.len() == eq_lo@.len() * eq_hi@.len()
                &&& forall|j: int|
                    0 <= j < v@.len() ==> #[trigger] v@[j] == elems::slot_fold(
                        eq_lo@[j % (eq_lo@.len() as int)].times(eq_hi@[j / (eq_lo@.len() as int)]),
                        table@,
                    )
            },
            self matches RsEqInd::Sparse { len, entries } ==> v@ == sparse_fold::written(
                len as nat,
                entries@,
            ),
    {
        match self {
            RsEqInd::Dense(v) => v,
            RsEqInd::DeferredDense { eq_lo, eq_hi, table } => RsEqInd::DeferredDense {
                eq_lo,
                eq_hi,
                table,
            }.to_dense(),
            RsEqInd::Sparse { len, entries } => write_entries(len, entries.as_slice()),
        }
    }
}

proof fn lemma_written_len(len: nat, entries: Seq<(usize, F256)>)
    requires
        forall|i: int| 0 <= i < entries.len() ==> (#[trigger] entries[i]).0 < len,
    ensures
        sparse_fold::written(len, entries).len() == len,
    decreases entries.len(),
{
    if entries.len() > 0 {
        let short = entries.drop_last();
        assert forall|i: int| 0 <= i < short.len() implies (#[trigger] short[i]).0 < len by {
            assert(entries[i].0 < len);
        }
        assert(entries[entries.len() - 1].0 < len);
        lemma_written_len(len, short);
    }
}

/// Adding sparse entries with distinct indices one by one adds the vector that
/// they stand for.
pub proof fn lemma_added(len: nat, out: Seq<F256>, gamma: F256, entries: Seq<(usize, F256)>)
    requires
        out.len() == len,
        sparse_fold::distinct(entries),
        forall|i: int| 0 <= i < entries.len() ==> (#[trigger] entries[i]).0 < len,
    ensures
        added(out, gamma, entries) == plus_scaled(out, gamma, sparse_fold::written(len, entries)),
    decreases entries.len(),
{
    let w = sparse_fold::written(len, entries);
    lemma_written_len(len, entries);
    gamma.lemma_times_units();
    if entries.len() == 0 {
        assert forall|j: int| 0 <= j < len implies out[j] == plus_scaled(out, gamma, w)[j] by {
            out[j].lemma_plus(F256::zero(), F256::zero());
        }
        assert(out =~= plus_scaled(out, gamma, w));
    } else {
        let short = entries.drop_last();
        let n = entries.len() - 1;
        let (idx, val) = entries.last();
        assert forall|i: int, j: int| 0 <= i < j < short.len() implies (#[trigger] short[i]).0 != (
        #[trigger] short[j]).0 by {
            assert(entries[i].0 != entries[j].0);
        }
        assert forall|i: int| 0 <= i < short.len() implies (#[trigger] short[i]).0 < len by {
            assert(entries[i].0 < len);
        }
        lemma_added(len, out, gamma, short);
        sparse_fold::lemma_written(len, short);
        lemma_written_len(len, short);
        assert(entries[n].0 < len);
        assert(sparse_fold::written(len, short)[idx as int] == F256::zero()) by {
            assert forall|i: int| 0 <= i < short.len() implies (#[trigger] short[i]).0 != idx by {
                assert(entries[i].0 != entries[n].0);
            }
        }
        out[idx as int].lemma_plus(F256::zero(), F256::zero());
        assert(added(out, gamma, entries) =~= plus_scaled(out, gamma, w));
    }
}

impl RsEqInd {
    /// `add_scaled_into` adds `gamma` times the dense view, where no sparse index
    /// occurs twice.
    pub proof fn lemma_add_scaled(self, gamma: F256, out: Seq<F256>)
        requires
            self.wf(),
            out.len() == self.count(),
            self matches RsEqInd::Sparse { len, entries } ==> sparse_fold::distinct(entries@),
        ensures
            self.added_into(gamma, out) == plus_scaled(out, gamma, self.dense()),
    {
        if let RsEqInd::Sparse { len, entries } = self {
            lemma_written_len(len as nat, entries@);
            lemma_added(len as nat, out, gamma, entries@);
        }
    }
}

/// Entries are added one after the other, each times `gamma` at its index.
pub proof fn lemma_added_push(
    out: Seq<F256>,
    gamma: F256,
    entries: Seq<(usize, F256)>,
    e: (usize, F256),
)
    ensures
        added(out, gamma, Seq::empty()) == out,
        added(out, gamma, entries.push(e)) == added(out, gamma, entries).update(
            e.0 as int,
            added(out, gamma, entries)[e.0 as int].plus(gamma.times(e.1)),
        ),
{
    assert(entries.push(e).drop_last() =~= entries);
}

/// Which values the methods take: every dense one, every deferred one with a full
/// table whose length fits, every sparse one with indices in range.
pub proof fn lemma_wf(r: RsEqInd)
    ensures
        r is Dense ==> r.wf(),
        r matches RsEqInd::DeferredDense { eq_lo, eq_hi, table } ==> (r.wf() <==> table@.len()
            == 8192 && eq_lo@.len() * eq_hi@.len() <= usize::MAX),
        r matches RsEqInd::Sparse { len, entries } ==> (r.wf() <==> forall|i: int|
            0 <= i < entries@.len() ==> (#[trigger] entries@[i]).0 < len),
{
}

} // verus!
