//! The equality tensor of a point.

use crate::field::gf2_256::F256;
use crate::field::sums;
use vstd::arithmetic::div_mod::{
    lemma_basic_div, lemma_div_denominator, lemma_fundamental_div_mod_converse,
    lemma_hoist_over_denominator,
};
use vstd::arithmetic::power2::{
    lemma2_to64, lemma_pow2_adds, lemma_pow2_pos, lemma_pow2_strictly_increases,
    lemma_pow2_unfold, pow2,
};
use vstd::prelude::*;

verus! {

/// Bit `j` of the index `i`.
pub open spec fn index_bit(i: int, j: nat) -> bool {
    (i / (pow2(j) as int)) % 2 == 1
}

/// `eq(r, b)`: `r` at `b = 1` and `1 + r` at `b = 0`.
pub open spec fn eq_factor(r: F256, b: bool) -> F256 {
    if b {
        r
    } else {
        F256::one().plus(r)
    }
}

/// `Π_{j < n} eq(r[j], bit_j(i))`.
pub open spec fn eq_product(r: Seq<F256>, i: int, n: nat) -> F256
    decreases n,
{
    if n == 0 {
        F256::one()
    } else {
        eq_product(r, i, (n - 1) as nat).times(eq_factor(r[n - 1], index_bit(i, (n - 1) as nat)))
    }
}

/// Entry `i` of the equality tensor of `r`.
pub open spec fn eq_at(r: Seq<F256>, i: int) -> F256 {
    eq_product(r, i, r.len())
}

/// The equality tensor of `r`: all `2^n` products.
pub open spec fn eq_tensor(r: Seq<F256>) -> Seq<F256> {
    Seq::new(pow2(r.len()), |i: int| eq_at(r, i))
}

/// Powers of two grow with the exponent.
pub proof fn lemma_pow2_monotone(a: nat, b: nat)
    requires
        a <= b,
    ensures
        pow2(a) <= pow2(b),
{
    if a < b {
        lemma_pow2_strictly_increases(a, b);
    }
}

/// The bits of an index with one more bit on top.
pub proof fn lemma_index_bits(i: int, k: nat, j: nat)
    requires
        0 <= i < pow2(k),
        j < k,
    ensures
        !index_bit(i, k),
        index_bit(i + pow2(k), k),
        index_bit(i + pow2(k), j) == index_bit(i, j),
{
    lemma_top_bit(i, k);
    lemma_pow2_pos(j);
    let d = (k - j) as nat;
    lemma_pow2_adds(d, j);
    lemma_pow2_unfold(d);
    lemma_hoist_over_denominator(i, pow2(d) as int, pow2(j));
    let q = i / (pow2(j) as int);
    assert(pow2(d) == 2 * pow2((d - 1) as nat));
}

/// The top bit of an index below `2^k`, without and with `2^k` added.
pub proof fn lemma_top_bit(i: int, k: nat)
    requires
        0 <= i < pow2(k),
    ensures
        !index_bit(i, k),
        index_bit(i + pow2(k), k),
{
    lemma_pow2_pos(k);
    lemma_basic_div(i, pow2(k) as int);
    lemma_hoist_over_denominator(i, 1, pow2(k));
}

/// Only the first `n` coordinates matter.
pub proof fn lemma_eq_prefix(r: Seq<F256>, s: Seq<F256>, i: int, n: nat)
    requires
        n <= r.len(),
        n <= s.len(),
        forall|j: int| 0 <= j < n ==> #[trigger] r[j] == s[j],
    ensures
        eq_product(r, i, n) == eq_product(s, i, n),
    decreases n,
{
    if n > 0 {
        lemma_eq_prefix(r, s, i, (n - 1) as nat);
        assert(r[n - 1] == s[n - 1]);
    }
}

proof fn lemma_eq_shifted(r: Seq<F256>, i: int, k: nat, n: nat)
    requires
        0 <= i < pow2(k),
        n <= k,
    ensures
        eq_product(r, i + pow2(k), n) == eq_product(r, i, n),
    decreases n,
{
    if n > 0 {
        lemma_eq_shifted(r, i, k, (n - 1) as nat);
        lemma_index_bits(i, k, (n - 1) as nat);
    }
}

/// One more coordinate doubles the tensor.
pub proof fn lemma_eq_double(r: Seq<F256>, i: int, k: nat)
    requires
        0 <= i < pow2(k),
    ensures
        eq_product(r, i, k + 1) == eq_product(r, i, k).times(F256::one().plus(r[k as int])),
        eq_product(r, i + pow2(k), k + 1) == eq_product(r, i, k).times(r[k as int]),
{
    lemma_top_bit(i, k);
    lemma_eq_shifted(r, i, k, k);
}

/// The tensor factors into a low and a high part: entry `hi·2^m + lo` is entry
/// `lo` of the tensor of `r[..m]` times entry `hi` of the tensor of `r[m..]`.
pub proof fn lemma_eq_split(r: Seq<F256>, m: nat, lo: int, hi: int)
    requires
        m <= r.len(),
        0 <= lo < pow2(m),
        0 <= hi < pow2((r.len() - m) as nat),
    ensures
        0 <= hi * pow2(m) + lo < pow2(r.len()),
        eq_at(r, hi * pow2(m) + lo) == eq_at(r.take(m as int), lo).times(
            eq_at(r.skip(m as int), hi),
        ),
{
    lemma_eq_split_to(r, m, (r.len() - m) as nat, lo, hi);
    lemma_eq_prefix(r, r.take(m as int), lo, m);
    lemma_pow2_adds(m, (r.len() - m) as nat);
    let (p, q) = (pow2(m) as int, pow2((r.len() - m) as nat) as int);
    assert(0 <= hi * p + lo < p * q) by (nonlinear_arith)
        requires
            0 <= lo < p,
            0 <= hi < q,
    ;
}

proof fn lemma_eq_split_to(r: Seq<F256>, m: nat, n: nat, lo: int, hi: int)
    requires
        m + n <= r.len(),
        0 <= lo < pow2(m),
        0 <= hi,
    ensures
        eq_product(r, hi * pow2(m) + lo, m + n) == eq_product(r, lo, m).times(
            eq_product(r.skip(m as int), hi, n),
        ),
    decreases n,
{
    let i = hi * pow2(m) + lo;
    if n == 0 {
        lemma_eq_low(r, m, m, lo, hi);
        eq_product(r, lo, m).lemma_times_units();
    } else {
        let k = (n - 1) as nat;
        lemma_eq_split_to(r, m, k, lo, hi);
        assert(r.skip(m as int)[k as int] == r[(m + k) as int]);
        // bit m + k of i is bit k of hi.
        lemma_pow2_pos(m);
        lemma_pow2_pos(k);
        lemma_pow2_adds(m, k);
        lemma_fundamental_div_mod_converse(i, pow2(m) as int, hi, lo);
        lemma_div_denominator(i, pow2(m) as int, pow2(k) as int);
        assert(index_bit(i, m + k) == index_bit(hi, k));
        let (a, b) = (eq_product(r, lo, m), eq_product(r.skip(m as int), hi, k));
        let f = eq_factor(r[(m + k) as int], index_bit(hi, k));
        a.lemma_times_associates(b, f);
        assert(eq_product(r, i, m + n) == eq_product(r, i, m + k).times(f));
    }
}

proof fn lemma_eq_low(r: Seq<F256>, m: nat, n: nat, lo: int, hi: int)
    requires
        n <= m,
        0 <= lo < pow2(m),
        0 <= hi,
    ensures
        eq_product(r, hi * pow2(m) + lo, n) == eq_product(r, lo, n),
    decreases n,
{
    if n > 0 {
        let j = (n - 1) as nat;
        lemma_eq_low(r, m, j, lo, hi);
        let d = (m - j) as nat;
        lemma_pow2_pos(j);
        lemma_pow2_adds(d, j);
        lemma_pow2_unfold(d);
        let (p, q, e) = (pow2(m) as int, pow2(j) as int, pow2((d - 1) as nat) as int);
        assert(hi * p + lo == lo + (2 * (hi * e)) * q) by (nonlinear_arith)
            requires
                p == (2 * e) * q,
        ;
        lemma_hoist_over_denominator(lo, 2 * (hi * e), pow2(j));
    }
}

/// The entries of an equality tensor add up to 1.
pub proof fn lemma_eq_total(r: Seq<F256>)
    ensures
        sums::sum(|i: int| eq_at(r, i), pow2(r.len())) == F256::one(),
{
    lemma_eq_total_to(r, r.len());
    sums::lemma_sum_ext(
        |i: int| eq_at(r, i),
        |i: int| eq_product(r, i, r.len()),
        pow2(r.len()),
    );
}

proof fn lemma_eq_total_to(r: Seq<F256>, n: nat)
    ensures
        sums::sum(|i: int| eq_product(r, i, n), pow2(n)) == F256::one(),
    decreases n,
{
    let f = |i: int| eq_product(r, i, n);
    if n == 0 {
        lemma2_to64();
        assert(sums::sum(f, 0) == F256::zero());
        assert(sums::sum(f, 1) == sums::sum(f, 0).plus(f(0)));
        F256::one().lemma_plus(F256::zero(), F256::zero());
    } else {
        let k = (n - 1) as nat;
        let p = pow2(k);
        let g = |i: int| eq_product(r, i, k);
        let c = r[k as int];
        lemma_eq_total_to(r, k);
        lemma_pow2_unfold(n);
        sums::lemma_sum_split(f, p, p);
        let hi = |i: int| f(p + i);
        let (w0, w1) = (F256::one().plus(c), c);
        let s0 = |i: int| g(i).times(w0);
        let s1 = |i: int| g(i).times(w1);
        assert forall|i: int| 0 <= i < p implies #[trigger] f(i) == s0(i) by {
            lemma_eq_double(r, i, k);
        }
        assert forall|i: int| 0 <= i < p implies #[trigger] hi(i) == s1(i) by {
            lemma_eq_double(r, i, k);
        }
        sums::lemma_sum_ext(f, s0, p);
        sums::lemma_sum_ext(hi, s1, p);
        sums::lemma_sum_scale(w0, g, p);
        sums::lemma_sum_scale(w1, g, p);
        w0.lemma_times_units();
        w1.lemma_times_units();
        F256::one().lemma_plus(c, c);
    }
}

/// The table after the first `k` coordinates.
pub open spec fn is_eq_prefix(t: Seq<F256>, r: Seq<F256>, k: nat) -> bool {
    &&& t.len() == pow2(k)
    &&& forall|i: int| 0 <= i < pow2(k) ==> #[trigger] t[i] == eq_product(r, i, k)
}

/// `next` is the table `t` doubled by the coordinate `r`.
pub open spec fn doubled(t: Seq<F256>, next: Seq<F256>, r: F256) -> bool {
    &&& next.len() == 2 * t.len()
    &&& forall|i: int|
        0 <= i < t.len() ==> {
            &&& #[trigger] next[i] == t[i].times(F256::one().plus(r))
            &&& next[t.len() + i] == t[i].times(r)
        }
}

/// Doubles a table in place by one coordinate.
pub(crate) fn double_in_place(t: &mut Vec<F256>, r_i: F256)
    requires
        2 * old(t).len() <= usize::MAX,
    ensures
        doubled(old(t)@, final(t)@, r_i),
{
    let half: usize = t.len();
    let one_minus_r = F256::one() + r_i;
    let ghost t0 = t@;
    let mut i: usize = 0;
    while i < half
        invariant
            i <= half,
            half == t0.len(),
            2 * half <= usize::MAX,
            t.len() == half + i,
            t0 == old(t)@,
            one_minus_r == F256::one().plus(r_i),
            forall|k: int|
                0 <= k < i ==> {
                    &&& #[trigger] t@[k] == t0[k].times(one_minus_r)
                    &&& t@[half + k] == t0[k].times(r_i)
                },
            forall|k: int| i <= k < half ==> #[trigger] t@[k] == t0[k],
        decreases half - i,
    {
        let before = t[i];
        let ghost prev = t@;
        t.push(before * r_i);
        t.set(i, before * one_minus_r);
        proof {
            assert forall|k: int| 0 <= k < i + 1 implies {
                &&& #[trigger] t@[k] == t0[k].times(one_minus_r)
                &&& t@[half + k] == t0[k].times(r_i)
            } by {
                if k < i {
                    assert(prev[k] == t0[k].times(one_minus_r));
                }
            }
        }
        i = i + 1;
    }
}

/// A doubled prefix table is the next prefix table.
pub(crate) proof fn lemma_doubled(t: Seq<F256>, next: Seq<F256>, r: Seq<F256>, k: nat)
    requires
        is_eq_prefix(t, r, k),
        doubled(t, next, r[k as int]),
    ensures
        is_eq_prefix(next, r, k + 1),
{
    lemma_pow2_unfold(k + 1);
    let p = pow2(k) as int;
    assert forall|i: int| 0 <= i < pow2(k + 1) implies #[trigger] next[i] == eq_product(
        r,
        i,
        k + 1,
    ) by {
        if i < p {
            lemma_eq_double(r, i, k);
            assert(next[i] == t[i].times(F256::one().plus(r[k as int])));
        } else {
            lemma_eq_double(r, i - p, k);
            assert(next[i - p] == t[i - p].times(F256::one().plus(r[k as int])));
            assert(t[i - p] == eq_product(r, i - p, k));
            assert(i - p + p == i);
        }
    }
}

/// `2^k`.
pub(crate) fn power_of_two(k: usize) -> (r: usize)
    requires
        pow2(k as nat) <= usize::MAX,
    ensures
        r == pow2(k as nat),
{
    let mut r: usize = 1;
    let mut i: usize = 0;
    proof {
        lemma2_to64();
    }
    while i < k
        invariant
            i <= k,
            r == pow2(i as nat),
            pow2(k as nat) <= usize::MAX,
        decreases k - i,
    {
        proof {
            lemma_pow2_unfold((i + 1) as nat);
            lemma_pow2_monotone((i + 1) as nat, k as nat);
        }
        r = r * 2;
        i = i + 1;
    }
    r
}

/// The equality tensor of `r`: entry `i` is `Π_j eq(r[j], bit_j(i))`.
pub fn build_eq(r: &[F256]) -> (t: Vec<F256>)
    requires
        pow2(r@.len()) <= usize::MAX,
    ensures
        t@ == eq_tensor(r@),
{
    let mut t: Vec<F256> = Vec::new();
    t.push(F256::one());
    proof {
        lemma2_to64();
    }
    let mut i: usize = 0;
    while i < r.len()
        invariant
            i <= r.len(),
            pow2(r@.len()) <= usize::MAX,
            is_eq_prefix(t@, r@, i as nat),
        decreases r.len() - i,
    {
        let ghost before = t@;
        proof {
            lemma_pow2_unfold((i + 1) as nat);
            lemma_pow2_monotone((i + 1) as nat, r@.len());
        }
        double_in_place(&mut t, r[i]);
        proof {
            lemma_doubled(before, t@, r@, i as nat);
        }
        i = i + 1;
    }
    proof {
        assert(t@ =~= eq_tensor(r@));
    }
    t
}

/// The tensor grows by one coordinate at a time: without coordinates it is `[1]`,
/// and a further coordinate `c` makes it twice as long, the lower half times `1 + c`
/// and the upper half times `c`.
pub proof fn lemma_eq_tensor_grows(r: Seq<F256>, c: F256)
    ensures
        eq_tensor(Seq::empty()) == seq![F256::one()],
        eq_tensor(r).len() == pow2(r.len()),
        eq_tensor(r.push(c)).len() == 2 * eq_tensor(r).len(),
        forall|i: int|
            0 <= i < pow2(r.len()) ==> {
                &&& #[trigger] eq_tensor(r)[i] == eq_at(r, i)
                &&& eq_tensor(r.push(c))[i] == eq_tensor(r)[i].times(F256::one().plus(c))
                &&& eq_tensor(r.push(c))[pow2(r.len()) + i] == eq_tensor(r)[i].times(c)
            },
{
    let n = r.len();
    let s = r.push(c);
    lemma2_to64();
    assert(eq_tensor(Seq::empty()) =~= seq![F256::one()]);
    lemma_pow2_unfold(n + 1);
    assert forall|i: int| 0 <= i < pow2(n) implies {
        &&& #[trigger] eq_tensor(r)[i] == eq_at(r, i)
        &&& eq_tensor(s)[i] == eq_tensor(r)[i].times(F256::one().plus(c))
        &&& eq_tensor(s)[pow2(n) + i] == eq_tensor(r)[i].times(c)
    } by {
        lemma_eq_double(s, i, n);
        lemma_eq_prefix(r, s, i, n);
        assert(pow2(n) + i == i + pow2(n));
    }
}

/// The low bits of an index do not depend on what stands above them.
pub proof fn lemma_index_low(lo: int, hi: int, m: nat, j: nat)
    requires
        0 <= lo < pow2(m),
        0 <= hi,
        j < m,
    ensures
        index_bit(hi * pow2(m) + lo, j) == index_bit(lo, j),
{
    let d = (m - j) as nat;
    lemma_pow2_pos(j);
    lemma_pow2_adds(d, j);
    lemma_pow2_unfold(d);
    let (p, q, e) = (pow2(m) as int, pow2(j) as int, pow2((d - 1) as nat) as int);
    assert(hi * p + lo == lo + (2 * (hi * e)) * q) by (nonlinear_arith)
        requires
            p == (2 * e) * q,
    ;
    lemma_hoist_over_denominator(lo, 2 * (hi * e), pow2(j));
}

} // verus!
