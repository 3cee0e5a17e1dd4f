//! Data-parallel loops over an index range, run on rayon's thread pool.
//!
//! A loop is described by a job: a value that says, and computes, what one index
//! contributes. Rayon decides how the range is cut up and how partial results
//! are put together; what comes out does not depend on it.

use crate::field::gf2_256::F256;
use crate::field::sums;
use crate::pcs::tensor_algebra;
use crate::pcs::tensor_algebra::zero_rows;
use rayon::iter::{IntoParallelIterator, ParallelIterator};
use vstd::prelude::*;

verus! {

/// A loop whose every index contributes one row of 256 elements to a sum.
pub trait RowJob {
    /// What the job's own fields must satisfy.
    spec fn ready(&self) -> bool;

    /// The number of indices.
    spec fn count(&self) -> nat;

    /// Entry `r` of the row that index `i` contributes.
    spec fn entry(&self, i: int, r: int) -> F256;

    /// Adds row `i` to the accumulator.
    fn absorb(&self, acc: Vec<F256>, i: usize) -> (r: Vec<F256>)
        requires
            self.ready(),
            acc.len() == 256,
            i < self.count(),
        ensures
            r.len() == 256,
            forall|k: int|
                0 <= k < 256 ==> #[trigger] r@[k] == acc@[k].plus(self.entry(i as int, k)),
    ;
}

/// A loop whose every index produces one slot of a vector.
pub trait SlotJob<T> {
    /// What the job's own fields must satisfy.
    spec fn ready(&self) -> bool;

    /// The number of slots.
    spec fn count(&self) -> nat;

    /// Slot `i`.
    spec fn slot(&self, i: int) -> T;

    /// Computes slot `i`.
    fn compute(&self, i: usize) -> (r: T)
        requires
            self.ready(),
            i < self.count(),
        ensures
            r == self.slot(i as int),
    ;
}

/// One way to cut a range up and to put the partial sums together: a run is
/// added up in order from zero, and two neighbouring ranges are joined by adding
/// their sums.
pub enum Plan {
    /// The indices `lo .. hi`, in order.
    Run { lo: nat, hi: nat },
    /// A range cut at `mid`.
    Join { left: Box<Plan>, mid: nat, right: Box<Plan> },
}

/// The rows `lo .. hi` added up in order, from zero.
pub open spec fn run_value(rows: spec_fn(int) -> Seq<F256>, lo: nat, hi: nat) -> Seq<F256>
    decreases hi,
{
    if hi <= lo {
        zero_row()
    } else {
        tensor_algebra::rows_plus(run_value(rows, lo, (hi - 1) as nat), rows(hi - 1))
    }
}

/// A row of 256 zeros.
pub open spec fn zero_row() -> Seq<F256> {
    Seq::new(256, |i: int| F256::zero())
}

impl Plan {
    /// The plan covers `lo .. hi`, every index once and in order.
    pub open spec fn covers(self, lo: nat, hi: nat) -> bool
        decreases self,
    {
        match self {
            Plan::Run { lo: a, hi: b } => a == lo && b == hi && lo <= hi,
            Plan::Join { left, mid, right } => left.covers(lo, mid) && right.covers(mid, hi),
        }
    }

    /// What the plan computes.
    pub open spec fn value(self, rows: spec_fn(int) -> Seq<F256>) -> Seq<F256>
        decreases self,
    {
        match self {
            Plan::Run { lo, hi } => run_value(rows, lo, hi),
            Plan::Join { left, mid, right } => tensor_algebra::rows_plus(
                left.value(rows),
                right.value(rows),
            ),
        }
    }
}

/// Some plan for `0 .. n` gives `v`.
pub open spec fn planned(v: Seq<F256>, rows: spec_fn(int) -> Seq<F256>, n: nat) -> bool {
    exists|p: Plan| #[trigger] p.covers(0, n) && v == p.value(rows)
}

/// The sum of the rows `0 .. n`.
pub open spec fn row_total(rows: spec_fn(int) -> Seq<F256>, n: nat) -> Seq<F256> {
    Seq::new(256, |r: int| sums::sum(|i: int| rows(i)[r], n))
}

/// The rows of a job, as a function of the index.
pub open spec fn rows_of<J: RowJob>(job: J) -> spec_fn(int) -> Seq<F256> {
    |i: int| Seq::new(256, |r: int| job.entry(i, r))
}

proof fn lemma_run(rows: spec_fn(int) -> Seq<F256>, lo: nat, hi: nat)
    requires
        lo <= hi,
        forall|i: int| 0 <= i < hi ==> (#[trigger] rows(i)).len() == 256,
    ensures
        run_value(rows, lo, hi).len() == 256,
        forall|r: int|
            0 <= r < 256 ==> sums::sum(|i: int| rows(i)[r], lo).plus(
                #[trigger] run_value(rows, lo, hi)[r],
            ) == sums::sum(|i: int| rows(i)[r], hi),
    decreases hi,
{
    if hi == lo {
        assert forall|r: int| 0 <= r < 256 implies sums::sum(|i: int| rows(i)[r], lo).plus(
            #[trigger] run_value(rows, lo, hi)[r],
        ) == sums::sum(|i: int| rows(i)[r], hi) by {
            sums::sum(|i: int| rows(i)[r], lo).lemma_plus(F256::zero(), F256::zero());
        }
    } else {
        let k = (hi - 1) as nat;
        lemma_run(rows, lo, k);
        assert(rows(k as int).len() == 256);
        assert forall|r: int| 0 <= r < 256 implies sums::sum(|i: int| rows(i)[r], lo).plus(
            #[trigger] run_value(rows, lo, hi)[r],
        ) == sums::sum(|i: int| rows(i)[r], hi) by {
            let f = |i: int| rows(i)[r];
            let v = run_value(rows, lo, k)[r];
            sums::sum(f, lo).lemma_plus(v, f(k as int));
            assert(sums::sum(f, hi) == sums::sum(f, k).plus(f(k as int)));
        }
    }
}

proof fn lemma_plan(p: Plan, rows: spec_fn(int) -> Seq<F256>, lo: nat, hi: nat)
    requires
        p.covers(lo, hi),
        forall|i: int| 0 <= i < hi ==> (#[trigger] rows(i)).len() == 256,
    ensures
        lo <= hi,
        p.value(rows).len() == 256,
        forall|r: int|
            0 <= r < 256 ==> sums::sum(|i: int| rows(i)[r], lo).plus(#[trigger] p.value(rows)[r])
                == sums::sum(|i: int| rows(i)[r], hi),
    decreases p,
{
    match p {
        Plan::Run { lo: a, hi: b } => {
            lemma_run(rows, lo, hi);
        },
        Plan::Join { left, mid, right } => {
            lemma_plan(*right, rows, mid, hi);
            lemma_plan(*left, rows, lo, mid);
            assert forall|r: int| 0 <= r < 256 implies sums::sum(|i: int| rows(i)[r], lo).plus(
                #[trigger] p.value(rows)[r],
            ) == sums::sum(|i: int| rows(i)[r], hi) by {
                let f = |i: int| rows(i)[r];
                sums::sum(f, lo).lemma_plus(left.value(rows)[r], right.value(rows)[r]);
            }
        },
    }
}

/// Every plan for `0 .. n` computes the sum of the rows.
pub proof fn lemma_plan_total(p: Plan, rows: spec_fn(int) -> Seq<F256>, n: nat)
    requires
        p.covers(0, n),
        forall|i: int| 0 <= i < n ==> (#[trigger] rows(i)).len() == 256,
    ensures
        p.value(rows) == row_total(rows, n),
{
    lemma_plan(p, rows, 0, n);
    assert forall|r: int| 0 <= r < 256 implies p.value(rows)[r] == row_total(rows, n)[r] by {
        p.value(rows)[r].lemma_plus(F256::zero(), F256::zero());
    }
    assert(p.value(rows) =~= row_total(rows, n));
}

/// Adds the right row to the left one.
fn merge_rows(a: Vec<F256>, b: Vec<F256>) -> (r: Vec<F256>)
    requires
        a.len() == 256,
        b.len() == 256,
    ensures
        r@ == tensor_algebra::rows_plus(a@, b@),
{
    let mut out: Vec<F256> = a;
    let ghost rows = a@;
    let mut i: usize = 0;
    while i < 256
        invariant
            i <= 256,
            out.len() == 256,
            b.len() == 256,
            rows.len() == 256,
            forall|k: int| 0 <= k < i ==> #[trigger] out@[k] == rows[k].plus(b@[k]),
            forall|k: int| i <= k < 256 ==> #[trigger] out@[k] == rows[k],
        decreases 256 - i,
    {
        let e = out[i] + b[i];
        out.set(i, e);
        i = i + 1;
    }
    proof {
        assert(out@ =~= tensor_algebra::rows_plus(rows, b@));
    }
    out
}

/// rayon's `fold` and `reduce` on the parallel iterator of a range: `fold` cuts
/// the range into runs and folds each in order from its identity, a row of
/// zeros; `reduce` joins what the runs gave, and the identity, by neighbouring
/// pairs. Which runs and which pairs is left open, so all that is claimed is that
/// some plan over the range gives the result.
#[verifier::external_body]
fn fold_reduce_rows<J: RowJob + Sync>(job: &J, n: usize) -> (r: Vec<F256>)
    requires
        job.ready(),
        n <= job.count(),
    ensures
        planned(r@, rows_of(*job), n as nat),
{
    (0..n)
        .into_par_iter()
        .fold(zero_rows, |acc, i| job.absorb(acc, i))
        .reduce(zero_rows, merge_rows)
}

/// Adds up the rows of all indices below `n`.
pub(crate) fn par_sum_rows<J: RowJob + Sync>(job: &J, n: usize) -> (v: Vec<F256>)
    requires
        job.ready(),
        n <= job.count(),
    ensures
        v.len() == 256,
        forall|r: int|
            0 <= r < 256 ==> #[trigger] v@[r] == sums::sum(|i: int| job.entry(i, r), n as nat),
{
    let v = fold_reduce_rows(job, n);
    proof {
        let rows = rows_of(*job);
        let p = choose|p: Plan| #[trigger] p.covers(0, n as nat) && v@ == p.value(rows);
        lemma_plan_total(p, rows, n as nat);
        assert forall|r: int| 0 <= r < 256 implies #[trigger] v@[r] == sums::sum(
            |i: int| job.entry(i, r),
            n as nat,
        ) by {
            sums::lemma_sum_ext(|i: int| rows(i)[r], |i: int| job.entry(i, r), n as nat);
        }
    }
    v
}

/// rayon's `map` and `collect` on the parallel iterator of a range: the vector
/// of the mapped indices, in the order of the range.
#[verifier::external_body]
pub(crate) fn par_map<T: Send, J: SlotJob<T> + Sync>(job: &J, n: usize) -> (v: Vec<T>)
    requires
        job.ready(),
        n <= job.count(),
    ensures
        v@.len() == n,
        forall|i: int| 0 <= i < n ==> #[trigger] v@[i] == job.slot(i),
{
    (0..n).into_par_iter().map(|i| job.compute(i)).collect()
}

} // verus!
