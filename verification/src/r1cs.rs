//! Rank-one constraint systems over GF(2).

use vstd::prelude::*;

pub mod block;

pub use block::BlockR1cs;

verus! {

/// A sparse matrix over GF(2): each row lists the columns of its ones.
#[derive(Clone, Debug, PartialEq, Eq)]
pub struct SparseBinaryMatrix {
    pub num_rows: usize,
    pub num_cols: usize,
    pub rows: Vec<Vec<usize>>,
}

/// `Σ_{s in row} z(s)` over GF(2).
pub open spec fn row_parity(z: spec_fn(int) -> bool, row: Seq<usize>) -> bool
    decreases row.len(),
{
    if row.len() == 0 {
        false
    } else {
        row_parity(z, row.drop_last()) != z(row.last() as int)
    }
}

/// Columns strictly ascending: each once, in order.
pub open spec fn ascending(row: Seq<usize>) -> bool {
    forall|i: int, j: int| 0 <= i < j < row.len() ==> #[trigger] row[i] < #[trigger] row[j]
}

/// All columns lie below `n`.
pub open spec fn bounded(row: Seq<usize>, n: int) -> bool {
    forall|i: int| 0 <= i < row.len() ==> #[trigger] row[i] < n
}

/// Inserting a column adds its value.
proof fn lemma_parity_insert(z: spec_fn(int) -> bool, row: Seq<usize>, p: int, t: usize)
    requires
        0 <= p <= row.len(),
    ensures
        row_parity(z, row.insert(p, t)) == (row_parity(z, row) != z(t as int)),
    decreases row.len() - p,
{
    let r = row.insert(p, t);
    if p == row.len() {
        assert(r.drop_last() =~= row);
    } else {
        let short = row.drop_last();
        assert(r.drop_last() =~= short.insert(p, t));
        assert(r.last() == row.last());
        lemma_parity_insert(z, short, p, t);
    }
}

/// The value of a row is that of its columns, whatever order they stand in: a row
/// with ascending columns is determined by its values.
pub proof fn lemma_parity_of_unit(row: Seq<usize>, t: int)
    requires
        ascending(row),
    ensures
        row_parity(|s: int| s == t, row) == (exists|i: int| 0 <= i < row.len() && row[i] == t),
    decreases row.len(),
{
    if row.len() > 0 {
        let short = row.drop_last();
        assert(ascending(short)) by {
            assert forall|i: int, j: int| 0 <= i < j < short.len() implies #[trigger] short[i]
                < #[trigger] short[j] by {
                assert(row[i] < row[j]);
            }
        }
        lemma_parity_of_unit(short, t);
        let n = row.len() - 1;
        if exists|i: int| 0 <= i < short.len() && short[i] == t {
            let i = choose|i: int| 0 <= i < short.len() && short[i] == t;
            assert(row[i] < row[n]);
            assert(row[i] == t);
        } else if row[n] == t {
        } else {
            assert forall|i: int| 0 <= i < row.len() implies row[i] != t by {
                if i < n {
                    assert(short[i] == row[i]);
                }
            }
        }
    }
}

/// Adds column `t` to a row over GF(2): puts it in where it is missing, takes it
/// out where it is there.
fn toggle(row: &mut Vec<usize>, t: usize, Ghost(n): Ghost<int>)
    requires
        ascending(old(row)@),
        bounded(old(row)@, n),
        t < n,
    ensures
        ascending(final(row)@),
        bounded(final(row)@, n),
        final(row)@.len() <= old(row)@.len() + 1,
        forall|z: spec_fn(int) -> bool| #[trigger]
            row_parity(z, final(row)@) == (row_parity(z, old(row)@) != z(t as int)),
{
    let ghost before = row@;
    let mut p: usize = 0;
    while p < row.len() && row[p] < t
        invariant
            p <= row.len(),
            row@ == before,
            forall|i: int| 0 <= i < p ==> #[trigger] row@[i] < t,
        decreases row.len() - p,
    {
        p = p + 1;
    }
    if p < row.len() && row[p] == t {
        let gone: usize = row.remove(p);
        proof {
            assert(before =~= row@.insert(p as int, t));
            assert forall|z: spec_fn(int) -> bool| #[trigger] row_parity(z, row@) == (row_parity(
                z,
                before,
            ) != z(t as int)) by {
                lemma_parity_insert(z, row@, p as int, t);
            }
            assert forall|i: int, j: int| 0 <= i < j < row@.len() implies #[trigger] row@[i]
                < #[trigger] row@[j] by {
                let k = if i < p {
                    i
                } else {
                    i + 1
                };
                let l = if j < p {
                    j
                } else {
                    j + 1
                };
                assert(before[k] < before[l]);
            }
            assert forall|i: int| 0 <= i < row@.len() implies #[trigger] row@[i] < n by {
                let k = if i < p {
                    i
                } else {
                    i + 1
                };
                assert(before[k] < n);
            }
        }
    } else {
        row.insert(p, t);
        proof {
            assert forall|z: spec_fn(int) -> bool| #[trigger] row_parity(z, row@) == (row_parity(
                z,
                before,
            ) != z(t as int)) by {
                lemma_parity_insert(z, before, p as int, t);
            }
            assert forall|i: int, j: int| 0 <= i < j < row@.len() implies #[trigger] row@[i]
                < #[trigger] row@[j] by {
                let k = if i < p {
                    i
                } else {
                    i - 1
                };
                let l = if j < p {
                    j
                } else {
                    j - 1
                };
                if i == p {
                    if p < before.len() {
                        assert(before[p as int] > t);
                        if l > p {
                            assert(before[p as int] < before[l]);
                        }
                    }
                } else if j == p {
                    assert(before[i] < t);
                } else {
                    assert(before[k] < before[l]);
                }
            }
            assert forall|i: int| 0 <= i < row@.len() implies #[trigger] row@[i] < n by {
                if i != p {
                    let k = if i < p {
                        i
                    } else {
                        i - 1
                    };
                    assert(before[k] < n);
                }
            }
        }
    }
}

/// The sum of two rows over GF(2): the columns that stand in exactly one of them.
pub(crate) fn xor_sup(a: &Vec<usize>, b: &Vec<usize>, Ghost(n): Ghost<int>) -> (r: Vec<usize>)
    requires
        ascending(a@),
        bounded(a@, n),
        bounded(b@, n),
    ensures
        ascending(r@),
        bounded(r@, n),
        r@.len() <= a@.len() + b@.len(),
        forall|z: spec_fn(int) -> bool| #[trigger]
            row_parity(z, r@) == (row_parity(z, a@) != row_parity(z, b@)),
{
    let mut r: Vec<usize> = Vec::new();
    let mut i: usize = 0;
    while i < a.len()
        invariant
            i <= a.len(),
            r@ == a@.take(i as int),
        decreases a.len() - i,
    {
        r.push(a[i]);
        proof {
            assert(r@ =~= a@.take(i + 1));
        }
        i = i + 1;
    }
    proof {
        assert(r@ =~= a@);
        assert(b@.take(0).len() == 0);
    }
    let mut j: usize = 0;
    while j < b.len()
        invariant
            j <= b.len(),
            ascending(r@),
            bounded(r@, n),
            bounded(b@, n),
            r@.len() <= a@.len() + j,
            forall|z: spec_fn(int) -> bool| #[trigger]
                row_parity(z, r@) == (row_parity(z, a@) != row_parity(z, b@.take(j as int))),
        decreases b.len() - j,
    {
        assert(b@[j as int] < n);
        toggle(&mut r, b[j], Ghost(n));
        proof {
            let t = b@.take(j + 1);
            assert(t.drop_last() =~= b@.take(j as int));
            assert(t.last() == b@[j as int]);
        }
        j = j + 1;
    }
    proof {
        assert(b@.take(j as int) =~= b@);
    }
    r
}

/// A row is a sum over GF(2), built up column by column.
pub proof fn lemma_parity_push(z: spec_fn(int) -> bool, row: Seq<usize>, t: usize)
    ensures
        !row_parity(z, Seq::empty()),
        row_parity(z, row.push(t)) == (row_parity(z, row) != z(t as int)),
{
    assert(row.push(t).drop_last() =~= row);
}

} // verus!
