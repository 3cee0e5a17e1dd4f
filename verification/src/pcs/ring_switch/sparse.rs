//! Suffix tensors with zero coordinates.
//!
//! A coordinate that is exactly zero makes half of the equality tensor zero. The
//! kernels here touch only the other entries: a compact tensor over the nonzero
//! ("live") coordinates, whose indices are spread out to the positions of those
//! coordinates.

use crate::field::gf2_256::F256;
use crate::field::sums;
use crate::zerocheck::univariate_skip;
use crate::zerocheck::univariate_skip::build_eq;
use vstd::arithmetic::power2::{lemma2_to64, lemma_pow2_pos, lemma_pow2_unfold, pow2};
use vstd::prelude::*;

verus! {

/// The equality tensor of a point with zero coordinates, in compact form: the
/// tensor of the live coordinates and where they stand.
#[derive(Clone, Debug)]
pub struct SparseEqTensor {
    /// The tensor of the live coordinates, of length `2^live_positions.len()`.
    pub live_tensor: Vec<F256>,
    /// The position of each live coordinate, ascending.
    pub live_positions: Vec<usize>,
}

/// The positions of the nonzero ones among the first `n` coordinates.
pub open spec fn live_among(coords: Seq<F256>, n: nat) -> Seq<int>
    decreases n,
{
    if n == 0 {
        Seq::empty()
    } else if coords[n - 1] == F256::zero() {
        live_among(coords, (n - 1) as nat)
    } else {
        live_among(coords, (n - 1) as nat).push(n - 1)
    }
}

/// The nonzero coordinates, in order.
pub open spec fn live_coords(coords: Seq<F256>) -> Seq<F256> {
    live_among(coords, coords.len()).map_values(|p: int| coords[p])
}

/// Deposits bit `j` of `c` at position `positions[j]`, for every `j < k`.
pub open spec fn spread(positions: Seq<int>, c: int, k: nat) -> int
    decreases k,
{
    if k == 0 {
        0
    } else {
        spread(positions, c, (k - 1) as nat) + (if univariate_skip::index_bit(c, (k - 1) as nat) {
            pow2(positions[k - 1] as nat) as int
        } else {
            0
        })
    }
}

/// Positions strictly ascending, from 0 on.
pub open spec fn ascending(positions: Seq<int>) -> bool {
    &&& forall|i: int| 0 <= i < positions.len() ==> 0 <= #[trigger] positions[i]
    &&& forall|i: int, j: int|
        0 <= i < j < positions.len() ==> #[trigger] positions[i] < #[trigger] positions[j]
}

impl SparseEqTensor {
    /// The positions as integers.
    pub open spec fn positions(self) -> Seq<int> {
        self.live_positions@.map_values(|p: usize| p as int)
    }

    /// The index at which compact entry `c` stands.
    pub open spec fn index(self, c: int) -> int {
        spread(self.positions(), c, self.live_positions@.len())
    }

    /// The positions ascend and fit into an index.
    pub open spec fn placed(self) -> bool {
        &&& ascending(self.positions())
        &&& forall|j: int|
            0 <= j < self.live_positions@.len() ==> 2 * pow2(
                (#[trigger] self.live_positions@[j]) as nat,
            ) <= usize::MAX + 1
    }

    /// The compact tensor has one entry for every choice of the live bits.
    pub open spec fn wf(self) -> bool {
        &&& self.placed()
        &&& self.live_tensor@.len() == pow2(self.live_positions@.len())
    }

    /// The compact form of the equality tensor of `coords`.
    pub open spec fn represents(self, coords: Seq<F256>) -> bool {
        &&& self.positions() == live_among(coords, coords.len())
        &&& self.live_tensor@ == univariate_skip::eq_tensor(live_coords(coords))
    }

    /// All `(index, value)` pairs, in compact order.
    pub open spec fn pairs(self) -> Seq<(usize, F256)> {
        Seq::new(
            self.live_tensor@.len(),
            |c: int| (self.index(c) as usize, self.live_tensor@[c]),
        )
    }
}

// ---------------------------------------------------------------------------
// Spread indices.
// ---------------------------------------------------------------------------

/// A spread index stays below the next position.
pub proof fn lemma_spread_bound(positions: Seq<int>, c: int, k: nat)
    requires
        ascending(positions),
        k <= positions.len(),
    ensures
        0 <= spread(positions, c, k),
        forall|p: nat|
            (k > 0 ==> positions[k - 1] < p) ==> spread(positions, c, k) < #[trigger] pow2(p),
    decreases k,
{
    if k == 0 {
        assert forall|p: nat| spread(positions, c, k) < #[trigger] pow2(p) by {
            lemma_pow2_pos(p);
        }
    } else {
        let top = positions[k - 1] as nat;
        lemma_spread_bound(positions, c, (k - 1) as nat);
        assert(spread(positions, c, (k - 1) as nat) < pow2(top));
        lemma_pow2_unfold(top + 1);
        assert forall|p: nat| positions[k - 1] < p implies spread(positions, c, k)
            < #[trigger] pow2(p) by {
            univariate_skip::lemma_pow2_monotone(top + 1, p);
        }
    }
}

proof fn lemma_spread_low(positions: Seq<int>, c: int, m: nat, k: nat)
    requires
        0 <= c < pow2(m),
        k <= m,
    ensures
        spread(positions, c + pow2(m), k) == spread(positions, c, k),
    decreases k,
{
    if k > 0 {
        lemma_spread_low(positions, c, m, (k - 1) as nat);
        univariate_skip::lemma_index_bits(c, m, (k - 1) as nat);
    }
}

/// One more live position: a further bit of `c` goes to that position, and the
/// lower ones stay where they are. Without positions the index is 0.
pub proof fn lemma_spread_double(positions: Seq<int>, c: int, k: nat)
    requires
        0 <= c < pow2(k),
    ensures
        spread(positions, c, 0) == 0,
        spread(positions, c, k + 1) == spread(positions, c, k),
        spread(positions, c + pow2(k), k + 1) == spread(positions, c, k) + pow2(
            positions[k as int] as nat,
        ),
{
    univariate_skip::lemma_top_bit(c, k);
    lemma_spread_low(positions, c, k, k);
}

/// Bits of `c` beyond the positions are ignored.
pub proof fn lemma_spread_ignores_high(positions: Seq<int>, c: int, hi: int, m: nat, k: nat)
    requires
        0 <= c < pow2(m),
        0 <= hi,
        k <= m,
    ensures
        spread(positions, hi * pow2(m) + c, k) == spread(positions, c, k),
    decreases k,
{
    if k > 0 {
        lemma_spread_ignores_high(positions, c, hi, m, (k - 1) as nat);
        univariate_skip::lemma_index_low(c, hi, m, (k - 1) as nat);
    }
}

/// Spreading keeps the order, so different compact entries stand at different
/// indices.
pub proof fn lemma_spread_ascends(positions: Seq<int>, a: int, b: int, k: nat)
    requires
        ascending(positions),
        k <= positions.len(),
        0 <= a < b < pow2(k),
    ensures
        spread(positions, a, k) < spread(positions, b, k),
    decreases k,
{
    if k == 0 {
        lemma2_to64();
    } else {
        let m = (k - 1) as nat;
        lemma_pow2_unfold(k);
        let h = pow2(m) as int;
        lemma_spread_bound(positions, a, m);
        lemma_spread_bound(positions, b - h, m);
        if b < h {
            lemma_spread_double(positions, a, m);
            lemma_spread_double(positions, b, m);
            lemma_spread_ascends(positions, a, b, m);
        } else if a >= h {
            lemma_spread_double(positions, a - h, m);
            lemma_spread_double(positions, b - h, m);
            lemma_spread_ascends(positions, a - h, b - h, m);
        } else {
            lemma_spread_double(positions, a, m);
            lemma_spread_double(positions, b - h, m);
            assert(spread(positions, a, m) < pow2(positions[m as int] as nat));
        }
    }
}

// ---------------------------------------------------------------------------
// The live coordinates.
// ---------------------------------------------------------------------------

/// The live positions ascend, lie below `n` and hold nonzero coordinates.
pub proof fn lemma_live(coords: Seq<F256>, n: nat)
    requires
        n <= coords.len(),
    ensures
        ascending(live_among(coords, n)),
        live_among(coords, n).len() <= n,
        forall|j: int|
            0 <= j < live_among(coords, n).len() ==> {
                &&& 0 <= #[trigger] live_among(coords, n)[j] < n
                &&& coords[live_among(coords, n)[j]] != F256::zero()
            },
    decreases n,
{
    if n > 0 {
        lemma_live(coords, (n - 1) as nat);
    }
}

/// Every nonzero coordinate is among the live ones.
pub proof fn lemma_live_all(coords: Seq<F256>, n: nat, p: int)
    requires
        0 <= p < n <= coords.len(),
        coords[p] != F256::zero(),
    ensures
        exists|j: int|
            0 <= j < live_among(coords, n).len() && #[trigger] live_among(coords, n)[j] == p,
    decreases n,
{
    let m = (n - 1) as nat;
    let short = live_among(coords, m);
    let all = live_among(coords, n);
    if p == m {
        assert(all[short.len() as int] == p);
    } else {
        lemma_live_all(coords, m, p);
        let j = choose|j: int| 0 <= j < short.len() && #[trigger] short[j] == p;
        assert(all[j] == p);
    }
}

proof fn lemma_live_prefix(coords: Seq<F256>, n: nat, m: nat)
    requires
        n <= m,
    ensures
        live_among(coords, n).len() <= live_among(coords, m).len(),
        live_among(coords, n) == live_among(coords, m).take(live_among(coords, n).len() as int),
    decreases m,
{
    if n == m {
        assert(live_among(coords, n) =~= live_among(coords, m).take(
            live_among(coords, n).len() as int,
        ));
    } else {
        lemma_live_prefix(coords, n, (m - 1) as nat);
        assert(live_among(coords, n) =~= live_among(coords, m).take(
            live_among(coords, n).len() as int,
        ));
    }
}

proof fn lemma_sparse_sum_to(coords: Seq<F256>, f: spec_fn(int) -> F256, n: nat)
    requires
        n <= coords.len(),
    ensures
        sums::sum(
            |i: int| f(i).times(univariate_skip::eq_product(coords, i, n)),
            pow2(n),
        ) == sums::sum(
            |c: int|
                f(
                    spread(live_among(coords, coords.len()), c, live_among(coords, n).len()),
                ).times(
                    univariate_skip::eq_product(
                        live_coords(coords),
                        c,
                        live_among(coords, n).len(),
                    ),
                ),
            pow2(live_among(coords, n).len()),
        ),
    decreases n,
{
    let pos = live_among(coords, coords.len());
    let lc = live_coords(coords);
    let k = live_among(coords, n).len();
    let left = |i: int| f(i).times(univariate_skip::eq_product(coords, i, n));
    let right = |c: int| f(spread(pos, c, k)).times(univariate_skip::eq_product(lc, c, k));
    if n == 0 {
        assert(live_among(coords, 0).len() == 0);
        lemma2_to64();
        sums::lemma_sum_ext(left, right, 1);
    } else {
        let m = (n - 1) as nat;
        let p = pow2(m);
        let r = coords[m as int];
        let low = |i: int| f(i).times(univariate_skip::eq_product(coords, i, m));
        lemma_pow2_unfold(n);
        sums::lemma_sum_split(left, p, p);
        let high = |i: int| left(p + i);
        if r == F256::zero() {
            lemma_sparse_sum_to(coords, f, m);
            assert forall|i: int| 0 <= i < p implies #[trigger] left(i) == low(i) by {
                univariate_skip::lemma_eq_double(coords, i, m);
                F256::one().lemma_plus(F256::zero(), F256::zero());
                univariate_skip::eq_product(coords, i, m).lemma_times_units();
            }
            assert forall|i: int| 0 <= i < p implies #[trigger] high(i) == F256::zero() by {
                univariate_skip::lemma_eq_double(coords, i, m);
                univariate_skip::eq_product(coords, i, m).lemma_times_units();
                f(p + i).lemma_times_units();
            }
            sums::lemma_sum_ext(left, low, p);
            sums::lemma_sum_zero(high, p);
            sums::sum(low, p).lemma_plus(F256::zero(), F256::zero());
        } else {
            let j = live_among(coords, m).len();
            let q = pow2(j);
            let w = F256::one().plus(r);
            // Fold the two halves of f into one.
            let g = |i: int| f(i).times(w).plus(f(p + i).times(r));
            let folded = |i: int| g(i).times(univariate_skip::eq_product(coords, i, m));
            lemma_sparse_sum_to(coords, g, m);
            assert forall|i: int| 0 <= i < p implies #[trigger] folded(i) == left(i).plus(
                high(i),
            ) by {
                univariate_skip::lemma_eq_double(coords, i, m);
                lemma_fold_halves(
                    f(i),
                    f(p + i),
                    w,
                    r,
                    univariate_skip::eq_product(coords, i, m),
                );
            }
            sums::lemma_sum_ext(folded, |i: int| left(i).plus(high(i)), p);
            sums::lemma_sum_plus(left, high, p);
            // The same on the live side.
            lemma_live_prefix(coords, n, coords.len());
            assert(live_among(coords, n)[j as int] == m);
            assert(pos[j as int] == m);
            assert(lc[j as int] == r);
            assert(k == j + 1);
            lemma_pow2_unfold(k);
            sums::lemma_sum_split(right, q, q);
            let top = |c: int| right(q + c);
            let live = |c: int| g(spread(pos, c, j)).times(univariate_skip::eq_product(lc, c, j));
            assert forall|c: int| 0 <= c < q implies #[trigger] live(c) == right(c).plus(
                top(c),
            ) by {
                univariate_skip::lemma_eq_double(lc, c, j);
                lemma_spread_double(pos, c, j);
                let i = spread(pos, c, j);
                lemma_fold_halves(
                    f(i),
                    f(p + i),
                    w,
                    r,
                    univariate_skip::eq_product(lc, c, j),
                );
                assert(spread(pos, q + c, k) == i + p);
                assert(q + c == c + q);
            }
            sums::lemma_sum_ext(live, |c: int| right(c).plus(top(c)), q);
            sums::lemma_sum_plus(right, top, q);
        }
    }
}

/// `(a·w + b·r)·e = a·(e·w) + b·(e·r)`.
proof fn lemma_fold_halves(a: F256, b: F256, w: F256, r: F256, e: F256)
    ensures
        a.times(w).plus(b.times(r)).times(e) == a.times(e.times(w)).plus(b.times(e.times(r))),
{
    e.lemma_times_distributes(a.times(w), b.times(r));
    a.lemma_times_associates(w, e);
    b.lemma_times_associates(r, e);
    w.lemma_times_commutes(e);
    r.lemma_times_commutes(e);
}

/// A sum against the equality tensor of `coords` is the sum against the tensor
/// of the live coordinates, taken at the spread indices.
pub proof fn lemma_sparse_sum(coords: Seq<F256>, f: spec_fn(int) -> F256)
    ensures
        sums::sum(
            |i: int| f(i).times(univariate_skip::eq_at(coords, i)),
            pow2(coords.len()),
        ) == sums::sum(
            |c: int|
                f(
                    spread(
                        live_among(coords, coords.len()),
                        c,
                        live_among(coords, coords.len()).len(),
                    ),
                ).times(univariate_skip::eq_at(live_coords(coords), c)),
            pow2(live_among(coords, coords.len()).len()),
        ),
{
    let n = coords.len();
    let pos = live_among(coords, n);
    let lc = live_coords(coords);
    lemma_sparse_sum_to(coords, f, n);
    sums::lemma_sum_ext(
        |i: int| f(i).times(univariate_skip::eq_product(coords, i, n)),
        |i: int| f(i).times(univariate_skip::eq_at(coords, i)),
        pow2(n),
    );
    sums::lemma_sum_ext(
        |c: int| f(spread(pos, c, pos.len())).times(univariate_skip::eq_product(lc, c, pos.len())),
        |c: int| f(spread(pos, c, pos.len())).times(univariate_skip::eq_at(lc, c)),
        pow2(pos.len()),
    );
}

// ---------------------------------------------------------------------------
// The support.
// ---------------------------------------------------------------------------

proof fn lemma_support_to(coords: Seq<F256>, n: nat)
    requires
        n <= coords.len(),
    ensures
        forall|c: int|
            0 <= c < pow2(live_among(coords, n).len()) ==> univariate_skip::eq_product(
                coords,
                #[trigger] spread(
                    live_among(coords, coords.len()),
                    c,
                    live_among(coords, n).len(),
                ),
                n,
            ) == univariate_skip::eq_product(live_coords(coords), c, live_among(coords, n).len()),
        forall|i: int|
            0 <= i < pow2(n) && #[trigger] univariate_skip::eq_product(coords, i, n) != F256::zero()
                ==> exists|c: int|
                0 <= c < pow2(live_among(coords, n).len()) && i == #[trigger] spread(
                    live_among(coords, coords.len()),
                    c,
                    live_among(coords, n).len(),
                ),
    decreases n,
{
    let pos = live_among(coords, coords.len());
    let lc = live_coords(coords);
    let k = live_among(coords, n).len();
    if n == 0 {
        lemma2_to64();
        assert(spread(pos, 0, 0) == 0);
    } else {
        let m = (n - 1) as nat;
        let p = pow2(m);
        let r = coords[m as int];
        let j = live_among(coords, m).len();
        let q = pow2(j);
        lemma_support_to(coords, m);
        lemma_pow2_unfold(n);
        lemma_live(coords, coords.len());
        lemma_live_prefix(coords, m, coords.len());
        lemma_live(coords, m);
        if r == F256::zero() {
            assert forall|c: int| 0 <= c < q implies univariate_skip::eq_product(
                coords,
                #[trigger] spread(pos, c, k),
                n,
            ) == univariate_skip::eq_product(lc, c, k) by {
                lemma_index_below(coords, m, c);
                let i = spread(pos, c, k);
                univariate_skip::lemma_eq_double(coords, i, m);
                F256::one().lemma_plus(F256::zero(), F256::zero());
                univariate_skip::eq_product(coords, i, m).lemma_times_units();
            }
            assert forall|i: int|
                0 <= i < pow2(n) && #[trigger] univariate_skip::eq_product(coords, i, n)
                    != F256::zero() implies exists|c: int|
                0 <= c < q && i == #[trigger] spread(pos, c, k) by {
                if i < p {
                    univariate_skip::lemma_eq_double(coords, i, m);
                    F256::one().lemma_plus(F256::zero(), F256::zero());
                    univariate_skip::eq_product(coords, i, m).lemma_times_units();
                } else {
                    univariate_skip::lemma_eq_double(coords, i - p, m);
                    univariate_skip::eq_product(coords, i - p, m).lemma_times_units();
                }
            }
        } else {
            lemma_live_prefix(coords, n, coords.len());
            assert(live_among(coords, n)[j as int] == m);
            assert(pos[j as int] == m && lc[j as int] == r && k == j + 1);
            lemma_pow2_unfold(k);
            assert forall|c: int| 0 <= c < pow2(k) implies univariate_skip::eq_product(
                coords,
                #[trigger] spread(pos, c, k),
                n,
            ) == univariate_skip::eq_product(lc, c, k) by {
                let b = if c < q {
                    c
                } else {
                    c - q
                };
                lemma_index_below(coords, m, b);
                lemma_spread_double(pos, b, j);
                univariate_skip::lemma_eq_double(coords, spread(pos, b, j), m);
                univariate_skip::lemma_eq_double(lc, b, j);
                assert(b + q == c || b == c);
            }
            assert forall|i: int|
                0 <= i < pow2(n) && #[trigger] univariate_skip::eq_product(coords, i, n)
                    != F256::zero() implies exists|c: int|
                0 <= c < pow2(k) && i == #[trigger] spread(pos, c, k) by {
                let b = if i < p {
                    i
                } else {
                    i - p
                };
                univariate_skip::lemma_eq_double(coords, b, m);
                F256::one().plus(r).lemma_times_units();
                r.lemma_times_units();
                assert(b + p == i || b == i);
                let e = univariate_skip::eq_product(coords, b, m);
                assert(e != F256::zero());
                let c = choose|c: int| 0 <= c < q && b == #[trigger] spread(pos, c, j);
                lemma_spread_double(pos, c, j);
                if i < p {
                    assert(i == spread(pos, c, k));
                } else {
                    assert(i == spread(pos, c + q, k));
                }
            }
        }
    }
}

/// The spread indices of the first `n` coordinates stay below `2^n`.
proof fn lemma_index_below(coords: Seq<F256>, n: nat, c: int)
    requires
        n <= coords.len(),
    ensures
        0 <= spread(live_among(coords, coords.len()), c, live_among(coords, n).len()) < pow2(n),
{
    let pos = live_among(coords, coords.len());
    let k = live_among(coords, n).len();
    lemma_live(coords, coords.len());
    lemma_live(coords, n);
    lemma_live_prefix(coords, n, coords.len());
    lemma_spread_bound(pos, c, k);
    if k > 0 {
        assert(live_among(coords, n)[k - 1] == pos[k - 1]);
    }
}

/// The equality tensor of `coords` at the spread index of `c` is entry `c` of the
/// live tensor, and it is zero at every other index.
pub proof fn lemma_support(coords: Seq<F256>)
    ensures
        ({
            let pos = live_among(coords, coords.len());
            let k = pos.len();
            &&& forall|c: int|
                0 <= c < pow2(k) ==> {
                    &&& 0 <= #[trigger] spread(pos, c, k) < pow2(coords.len())
                    &&& univariate_skip::eq_at(coords, spread(pos, c, k)) == univariate_skip::eq_at(
                        live_coords(coords),
                        c,
                    )
                }
            &&& forall|i: int|
                0 <= i < pow2(coords.len()) && #[trigger] univariate_skip::eq_at(coords, i)
                    != F256::zero() ==> exists|c: int|
                    0 <= c < pow2(k) && i == #[trigger] spread(pos, c, k)
        }),
{
    let pos = live_among(coords, coords.len());
    let k = pos.len();
    lemma_support_to(coords, coords.len());
    assert forall|c: int| 0 <= c < pow2(k) implies 0 <= #[trigger] spread(pos, c, k) < pow2(
        coords.len(),
    ) by {
        lemma_index_below(coords, coords.len(), c);
    }
}

proof fn lemma_eq_nonzero(r: Seq<F256>, i: int, n: nat)
    requires
        n <= r.len(),
        forall|j: int| 0 <= j < n ==> #[trigger] r[j] != F256::zero() && r[j] != F256::one(),
    ensures
        univariate_skip::eq_product(r, i, n) != F256::zero(),
    decreases n,
{
    if n > 0 {
        let m = (n - 1) as nat;
        lemma_eq_nonzero(r, i, m);
        let a = univariate_skip::eq_product(r, i, m);
        let b = univariate_skip::eq_factor(r[m as int], univariate_skip::index_bit(i, m));
        F256::one().lemma_plus(r[m as int], r[m as int]);
        if a.times(b) == F256::zero() {
            a.lemma_no_zero_divisors(b);
        }
    }
}

/// Where no coordinate is 1, every entry of the live tensor is nonzero: the
/// support is exactly the set of spread indices.
pub proof fn lemma_support_exact(coords: Seq<F256>, c: int)
    requires
        forall|j: int| 0 <= j < coords.len() ==> #[trigger] coords[j] != F256::one(),
        0 <= c < pow2(live_coords(coords).len()),
    ensures
        univariate_skip::eq_at(live_coords(coords), c) != F256::zero(),
{
    let lc = live_coords(coords);
    lemma_live(coords, coords.len());
    assert forall|j: int| 0 <= j < lc.len() implies #[trigger] lc[j] != F256::zero() && lc[j]
        != F256::one() by {
        let p = live_among(coords, coords.len())[j];
        assert(coords[p] != F256::one());
    }
    lemma_eq_nonzero(lc, c, lc.len());
}

// ---------------------------------------------------------------------------
// Building and reading.
// ---------------------------------------------------------------------------

impl SparseEqTensor {
    /// The index of compact entry `c`: its bits deposited at the positions of the
    /// live coordinates.
    pub fn scatter_idx(&self, c: usize) -> (full: usize)
        requires
            self.placed(),
        ensures
            full == self.index(c as int),
    {
        let mut full: usize = 0;
        let mut rest: usize = c;
        let mut j: usize = 0;
        let ghost pos = self.positions();
        proof {
            lemma2_to64();
            assert(c as int / 1 == c);
        }
        while j < self.live_positions.len()
            invariant
                j <= self.live_positions.len(),
                pos == self.positions(),
                self.placed(),
                full == spread(pos, c as int, j as nat),
                rest == c as int / (pow2(j as nat) as int),
            decreases self.live_positions.len() - j,
        {
            proof {
                assert(pos[j as int] == self.live_positions@[j as int]);
                let p = self.live_positions@[j as int] as nat;
                lemma_pow2_pos(p);
                lemma_spread_bound(pos, c as int, j as nat);
                assert(spread(pos, c as int, j as nat) < pow2(p)) by {
                    if j > 0 {
                        assert(pos[j - 1] < pos[j as int]);
                    }
                }
                lemma_pow2_pos(j as nat);
                lemma_pow2_unfold((j + 1) as nat);
                vstd::arithmetic::div_mod::lemma_div_denominator(
                    c as int,
                    pow2(j as nat) as int,
                    2,
                );
                assert(pow2(j as nat) * 2 == pow2((j + 1) as nat));
            }
            if rest % 2 == 1 {
                full = full + univariate_skip::power_of_two(self.live_positions[j]);
            }
            rest = rest / 2;
            j = j + 1;
        }
        full
    }

    /// All `(index, value)` pairs, in compact order.
    pub fn materialize(&self) -> (v: Vec<(usize, F256)>)
        requires
            self.placed(),
        ensures
            v@ == self.pairs(),
            v@.len() == self.live_tensor@.len(),
            forall|c: int|
                0 <= c < v@.len() ==> (#[trigger] v@[c]).0 == self.index(c) as usize && v@[c].1
                    == self.live_tensor@[c],
    {
        let mut v: Vec<(usize, F256)> = Vec::new();
        let mut c: usize = 0;
        while c < self.live_tensor.len()
            invariant
                c <= self.live_tensor.len(),
                self.placed(),
                v@ == self.pairs().take(c as int),
            decreases self.live_tensor.len() - c,
        {
            v.push((self.scatter_idx(c), self.live_tensor[c]));
            proof {
                assert(v@ =~= self.pairs().take(c + 1));
            }
            c = c + 1;
        }
        proof {
            assert(v@ =~= self.pairs());
        }
        v
    }

    /// The number of entries.
    pub fn len(&self) -> (n: usize)
        ensures
            n == self.live_tensor@.len(),
    {
        self.live_tensor.len()
    }

    /// Tells whether there are no entries.
    pub fn is_empty(&self) -> (r: bool)
        ensures
            r == (self.live_tensor@.len() == 0),
    {
        self.live_tensor.len() == 0
    }
}

/// Builds the compact form of the equality tensor of `coords`, in time and space
/// `2^live`. The indices of its entries fit into a `usize` where those of the whole
/// tensor do.
pub fn build_eq_sparse(coords: &[F256]) -> (r: SparseEqTensor)
    requires
        pow2(live_among(coords@, coords@.len()).len()) <= usize::MAX,
    ensures
        r.represents(coords@),
        r.live_tensor@.len() == pow2(r.live_positions@.len()),
        pow2(coords@.len()) <= usize::MAX ==> r.wf(),
        forall|j: int|
            0 <= j < r.live_positions@.len() ==> #[trigger] r.live_positions@[j] < coords@.len()
                && coords@[r.live_positions@[j] as int] != F256::zero(),
        forall|i: int, j: int|
            0 <= i < j < r.live_positions@.len() ==> #[trigger] r.live_positions@[i]
                < #[trigger] r.live_positions@[j],
        forall|p: int|
            0 <= p < coords@.len() && #[trigger] coords@[p] != F256::zero() ==> exists|j: int|
                0 <= j < r.live_positions@.len() && #[trigger] r.live_positions@[j] == p,
        r.live_tensor@ == univariate_skip::eq_tensor(
            r.live_positions@.map_values(|p: usize| coords@[p as int]),
        ),
{
    let mut live_positions: Vec<usize> = Vec::new();
    let mut live: Vec<F256> = Vec::new();
    let mut i: usize = 0;
    while i < coords.len()
        invariant
            i <= coords.len(),
            live_positions@.map_values(|p: usize| p as int) == live_among(coords@, i as nat),
            live@ == live_among(coords@, i as nat).map_values(|p: int| coords@[p]),
        decreases coords.len() - i,
    {
        let c = coords[i];
        let ghost before = live_positions@;
        let ghost live_before = live@;
        if !c.is_zero() {
            live_positions.push(i);
            live.push(c);
            proof {
                assert(live_positions@.map_values(|p: usize| p as int) =~= before.map_values(
                    |p: usize| p as int,
                ).push(i as int));
                assert(live@ =~= live_among(coords@, (i + 1) as nat).map_values(
                    |p: int| coords@[p],
                ));
            }
        }
        i = i + 1;
    }
    let ghost n = coords@.len();
    let ghost pos = live_among(coords@, n);
    proof {
        assert(live@ =~= live_coords(coords@));
        lemma_live(coords@, n);
    }
    let live_tensor = build_eq(live.as_slice());
    let r = SparseEqTensor { live_tensor, live_positions };
    proof {
        assert(r.positions().len() == r.live_positions@.len());
        assert forall|j: int|
            0 <= j < r.live_positions@.len() implies #[trigger] r.live_positions@[j]
            < coords@.len() && coords@[r.live_positions@[j] as int] != F256::zero() by {
            assert(pos[j] == r.positions()[j]);
        }
        assert forall|i: int, j: int|
            0 <= i < j < r.live_positions@.len() implies #[trigger] r.live_positions@[i]
            < #[trigger] r.live_positions@[j] by {
            assert(pos[i] == r.positions()[i] && pos[j] == r.positions()[j]);
        }
        assert forall|p: int|
            0 <= p < coords@.len() && #[trigger] coords@[p]
                != F256::zero() implies exists|j: int|
            0 <= j < r.live_positions@.len() && #[trigger] r.live_positions@[j] == p by {
            lemma_live_all(coords@, n, p);
            let j = choose|j: int| 0 <= j < pos.len() && #[trigger] pos[j] == p;
            assert(pos[j] == r.positions()[j]);
            assert(r.live_positions@[j] == p);
        }
        assert(live_coords(coords@) =~= r.live_positions@.map_values(
            |p: usize| coords@[p as int],
        )) by {
            assert forall|j: int| 0 <= j < pos.len() implies live_coords(coords@)[j]
                == coords@[r.live_positions@[j] as int] by {
                assert(pos[j] == r.positions()[j]);
            }
        }
        assert forall|j: int|
            0 <= j < r.live_positions@.len() && pow2(n) <= usize::MAX implies 2 * pow2(
            (#[trigger] r.live_positions@[j]) as nat,
        ) <= usize::MAX + 1 by {
            let p = r.live_positions@[j] as nat;
            assert(r.positions()[j] == p);
            lemma_pow2_unfold(p + 1);
            univariate_skip::lemma_pow2_monotone(p + 1, n);
        }
    }
    r
}

/// Which tensors the methods take: all whose positions ascend and fit into an index.
pub proof fn lemma_placed(e: SparseEqTensor)
    ensures
        e.placed() <==> {
            &&& forall|i: int, j: int|
                0 <= i < j < e.live_positions@.len() ==> #[trigger] e.live_positions@[i]
                    < #[trigger] e.live_positions@[j]
            &&& forall|j: int|
                0 <= j < e.live_positions@.len() ==> 2 * pow2(
                    (#[trigger] e.live_positions@[j]) as nat,
                ) <= usize::MAX + 1
        },
{
    let pos = e.positions();
    let raw = e.live_positions@;
    assert(pos.len() == raw.len());
    assert forall|i: int| 0 <= i < raw.len() implies pos[i] == raw[i] by {}
    if ascending(pos) {
        assert forall|i: int, j: int| 0 <= i < j < raw.len() implies #[trigger] raw[i]
            < #[trigger] raw[j] by {
            assert(pos[i] < pos[j]);
        }
    }
    if forall|i: int, j: int|
        0 <= i < j < raw.len() ==> #[trigger] raw[i] < #[trigger] raw[j] {
        assert forall|i: int, j: int| 0 <= i < j < pos.len() implies #[trigger] pos[i]
            < #[trigger] pos[j] by {
            assert(raw[i] < raw[j]);
        }
    }
}

} // verus!
