//! Carry-save addition of the partial products, bit by bit.
//!
//! The 64 rows of the schoolbook product are added up one after the other. The
//! running total is kept as two bit strings, sums and carries; each round is one
//! full adder per bit. A ripple-carry adder then adds the two.

use crate::field::bits;
use vstd::arithmetic::power2::{
    lemma2_to64, lemma2_to64_rest, lemma_pow2_adds, lemma_pow2_pos, lemma_pow2_unfold, pow2,
};
use vstd::prelude::*;

verus! {

/// The sum bit of a full adder.
pub open spec fn xor3(a: bool, b: bool, c: bool) -> bool {
    (a != b) != c
}

/// The carry bit of a full adder.
pub open spec fn majority(a: bool, b: bool, c: bool) -> bool {
    (a && b) || (a && c) || (b && c)
}

/// Bit `i` of row `j`: `x_{i−j} · y_j`.
pub open spec fn row_bit(x: u64, y: u64, j: int, i: int) -> bool {
    j <= i < j + 64 && bits::word_bit(x, i - j) && bits::word_bit(y, j)
}

/// Bit `i` of the sums after row `j`.
pub open spec fn sum_after(x: u64, y: u64, j: nat, i: int) -> bool
    decreases j,
{
    if j == 0 {
        row_bit(x, y, 0, i)
    } else {
        xor3(
            sum_after(x, y, (j - 1) as nat, i),
            carry_after(x, y, (j - 1) as nat, i),
            row_bit(x, y, j as int, i),
        )
    }
}

/// Bit `i` of the carries after row `j`.
pub open spec fn carry_after(x: u64, y: u64, j: nat, i: int) -> bool
    decreases j,
{
    if j == 0 || i <= 0 {
        false
    } else {
        majority(
            sum_after(x, y, (j - 1) as nat, i - 1),
            carry_after(x, y, (j - 1) as nat, i - 1),
            row_bit(x, y, j as int, i - 1),
        )
    }
}

/// The ripple carry into bit `i` when sums and carries are added.
pub open spec fn ripple(x: u64, y: u64, i: int) -> bool
    decreases i,
{
    if i <= 0 {
        false
    } else {
        majority(sum_after(x, y, 63, i - 1), carry_after(x, y, 63, i - 1), ripple(x, y, i - 1))
    }
}

/// Bit `i` of the result.
pub open spec fn result_bit(x: u64, y: u64, i: int) -> bool {
    xor3(sum_after(x, y, 63, i), carry_after(x, y, 63, i), ripple(x, y, i))
}

/// Bit `i` of a natural number.
pub open spec fn nat_bit(v: nat, i: int) -> bool {
    (v as int / (pow2(i as nat) as int)) % 2 == 1
}

/// Bit `i` of the product `x·y`.
pub open spec fn product_bit(x: u64, y: u64, i: int) -> bool {
    nat_bit((x * y) as nat, i)
}

/// `Σ_{i < n} 2^i·f(i)`.
pub open spec fn value(f: spec_fn(int) -> bool, n: nat) -> nat
    decreases n,
{
    if n == 0 {
        0
    } else {
        value(f, (n - 1) as nat) + (if f(n - 1) {
            pow2((n - 1) as nat)
        } else {
            0nat
        })
    }
}

// ---------------------------------------------------------------------------
// Binary numbers.
// ---------------------------------------------------------------------------

proof fn lemma_value_ext(f: spec_fn(int) -> bool, g: spec_fn(int) -> bool, n: nat)
    requires
        forall|i: int| 0 <= i < n ==> #[trigger] f(i) == g(i),
    ensures
        value(f, n) == value(g, n),
    decreases n,
{
    if n > 0 {
        lemma_value_ext(f, g, (n - 1) as nat);
        assert(f(n - 1) == g(n - 1));
    }
}

/// `n` bits stand for a number below `2^n`.
pub proof fn lemma_value_below(f: spec_fn(int) -> bool, n: nat)
    ensures
        value(f, n) < pow2(n),
    decreases n,
{
    if n == 0 {
        lemma2_to64();
    } else {
        lemma_value_below(f, (n - 1) as nat);
        lemma_pow2_unfold(n);
    }
}

/// `value(f, n) = value(f, i) + 2^i·(bit i and above)`, so the bits of the value
/// are `f`.
pub proof fn lemma_value_bits(f: spec_fn(int) -> bool, n: nat, i: int)
    requires
        0 <= i < n,
    ensures
        nat_bit(value(f, n), i) == f(i),
    decreases n,
{
    let k = i as nat;
    let p = pow2(k) as int;
    lemma_pow2_pos(k);
    if n == i + 1 {
        lemma_value_below(f, k);
        let low = value(f, k) as int;
        let v = value(f, n) as int;
        assert(v == low || v == p + low);
        if f(i) {
            vstd::arithmetic::div_mod::lemma_fundamental_div_mod_converse(v, p, 1, low);
        } else {
            vstd::arithmetic::div_mod::lemma_fundamental_div_mod_converse(v, p, 0, low);
        }
    } else {
        let m = (n - 1) as nat;
        lemma_value_bits(f, m, i);
        let low = value(f, m) as int;
        if f(m as int) {
            let d = (m - k) as nat;
            lemma_pow2_adds(d, k);
            lemma_pow2_unfold(d);
            let q = pow2((d - 1) as nat) as int;
            assert(pow2(m) == (2 * q) * p);
            vstd::arithmetic::div_mod::lemma_hoist_over_denominator(low, 2 * q, pow2(k));
            assert(value(f, n) == low + (2 * q) * p);
            assert((low / p + 2 * q) % 2 == (low / p) % 2);
        }
    }
}

/// A number below `2^n` is the value of its bits.
proof fn lemma_value_of_nat(v: nat, n: nat)
    ensures
        value(|i: int| nat_bit(v, i), n) == v % pow2(n),
    decreases n,
{
    let f = |i: int| nat_bit(v, i);
    lemma_pow2_pos(n);
    if n == 0 {
        lemma2_to64();
        assert(v % 1 == 0);
    } else {
        let m = (n - 1) as nat;
        lemma_value_of_nat(v, m);
        lemma_pow2_unfold(n);
        let p = pow2(m) as int;
        lemma_pow2_pos(m);
        let q = v as int / p;
        let r = v as int % p;
        vstd::arithmetic::div_mod::lemma_fundamental_div_mod(v as int, p);
        vstd::arithmetic::div_mod::lemma_mod_bound(v as int, p);
        vstd::arithmetic::div_mod::lemma_fundamental_div_mod(q, 2);
        let b = q % 2;
        assert(v as int == (2 * p) * (q / 2) + (b * p + r)) by (nonlinear_arith)
            requires
                v as int == p * q + r,
                q == 2 * (q / 2) + b,
        ;
        assert(0 <= b * p + r < 2 * p) by (nonlinear_arith)
            requires
                0 <= b <= 1,
                0 <= r < p,
        ;
        assert((q / 2) * (2 * p) == (2 * p) * (q / 2)) by (nonlinear_arith);
        vstd::arithmetic::div_mod::lemma_fundamental_div_mod_converse(
            v as int,
            2 * p,
            q / 2,
            b * p + r,
        );
        assert(b == 1 ==> b * p == p) by (nonlinear_arith);
        assert(b == 0 ==> b * p == 0) by (nonlinear_arith);
    }
}

proof fn lemma_shift_is_div(w: u64, i: u64)
    requires
        i < 64,
    ensures
        bits::word_bit(w, i as int) == nat_bit(w as nat, i as int),
{
    vstd::bits::lemma_u64_shr_is_div(w, i);
    let q = w >> i;
    assert((q & 1 == 1) == (q % 2 == 1)) by (bit_vector);
}

/// A word is the value of its bits.
pub proof fn lemma_value_of_word(w: u64)
    ensures
        value(|i: int| bits::word_bit(w, i), 64) == w,
{
    let f = |i: int| nat_bit(w as nat, i);
    let g = |i: int| bits::word_bit(w, i);
    lemma_value_of_nat(w as nat, 64);
    assert forall|i: int| 0 <= i < 64 implies #[trigger] g(i) == f(i) by {
        lemma_shift_is_div(w, i as u64);
    }
    lemma_value_ext(g, f, 64);
    lemma2_to64_rest();
    assert(w as int % 0x10000000000000000 == w as int);
}

proof fn lemma_value_split(f: spec_fn(int) -> bool, m: nat, n: nat)
    ensures
        value(f, m + n) == value(f, m) + pow2(m) * value(|i: int| f(m + i), n),
    decreases n,
{
    let g = |i: int| f(m + i);
    if n == 0 {
        assert(pow2(m) * 0 == 0);
    } else {
        let k = (n - 1) as nat;
        lemma_value_split(f, m, k);
        lemma_pow2_adds(m, k);
        let (a, b, c) = (pow2(m) as int, value(g, k) as int, pow2(k) as int);
        assert(a * (b + c) == a * b + a * c) by (nonlinear_arith);
        assert(value(f, m + n) == value(f, m + k) + (if f((m + k) as int) {
            pow2(m + k)
        } else {
            0nat
        }));
    }
}

/// Two words side by side.
pub proof fn lemma_value_of_words(f: spec_fn(int) -> bool, lo: u64, hi: u64)
    requires
        forall|i: int| 0 <= i < 64 ==> #[trigger] f(i) == bits::word_bit(lo, i),
        forall|i: int| 64 <= i < 128 ==> #[trigger] f(i) == bits::word_bit(hi, i - 64),
    ensures
        value(f, 128) == lo + 0x1_0000_0000_0000_0000 * hi,
{
    let (l, h) = (|i: int| bits::word_bit(lo, i), |i: int| bits::word_bit(hi, i));
    lemma_value_split(f, 64, 64);
    lemma_value_ext(f, l, 64);
    lemma_value_ext(|i: int| f(64nat + i), h, 64);
    lemma_value_of_word(lo);
    lemma_value_of_word(hi);
    lemma2_to64_rest();
}

// ---------------------------------------------------------------------------
// The adders.
// ---------------------------------------------------------------------------

/// The bit strings stay in their windows: after row `j` the sums end below bit
/// `j + 64`, and the carries lie in bits `j + 1` to `j + 64`.
pub proof fn lemma_windows(x: u64, y: u64, j: nat, i: int)
    requires
        j < 64,
    ensures
        i < 0 || i >= j + 64 ==> !sum_after(x, y, j, i),
        i <= j || i >= j + 65 ==> !carry_after(x, y, j, i),
    decreases j,
{
    if j > 0 {
        lemma_windows(x, y, (j - 1) as nat, i);
        lemma_windows(x, y, (j - 1) as nat, i - 1);
    }
}

/// One round of full adders adds one row.
proof fn lemma_round(x: u64, y: u64, j: nat, n: nat)
    requires
        j > 0,
    ensures
        value(|i: int| sum_after(x, y, j, i), n) + value(|i: int| carry_after(x, y, j, i), n + 1)
            == value(|i: int| sum_after(x, y, (j - 1) as nat, i), n) + value(
            |i: int| carry_after(x, y, (j - 1) as nat, i),
            n,
        ) + value(|i: int| row_bit(x, y, j as int, i), n),
    decreases n,
{
    let s1 = |i: int| sum_after(x, y, j, i);
    let c1 = |i: int| carry_after(x, y, j, i);
    let s0 = |i: int| sum_after(x, y, (j - 1) as nat, i);
    let c0 = |i: int| carry_after(x, y, (j - 1) as nat, i);
    let p = |i: int| row_bit(x, y, j as int, i);
    if n == 0 {
        assert(!c1(0));
        assert(value(c1, 1) == value(c1, 0));
    } else {
        let m = (n - 1) as nat;
        lemma_round(x, y, j, m);
        lemma_pow2_unfold(n);
        assert(value(c1, n + 1) == value(c1, n) + (if c1(n as int) {
            pow2(n)
        } else {
            0nat
        }));
        let (s, c, r) = (s0(m as int), c0(m as int), p(m as int));
        assert(s1(m as int) == xor3(s, c, r));
        assert(c1(n as int) == majority(s, c, r));
    }
}

/// The ripple adder adds sums and carries.
proof fn lemma_ripple(x: u64, y: u64, n: nat)
    ensures
        value(|i: int| result_bit(x, y, i), n) + (if ripple(x, y, n as int) {
            pow2(n)
        } else {
            0nat
        }) == value(|i: int| sum_after(x, y, 63, i), n) + value(
            |i: int| carry_after(x, y, 63, i),
            n,
        ),
    decreases n,
{
    if n > 0 {
        let m = (n - 1) as nat;
        lemma_ripple(x, y, m);
        lemma_pow2_unfold(n);
        let (s, c, r) = (
            sum_after(x, y, 63, m as int),
            carry_after(x, y, 63, m as int),
            ripple(x, y, m as int),
        );
        assert(result_bit(x, y, m as int) == xor3(s, c, r));
        assert(ripple(x, y, n as int) == majority(s, c, r));
    }
}

/// Row `j` is `x·y_j·2^j`.
proof fn lemma_row_value(x: u64, y: u64, j: nat, n: nat)
    requires
        j < 64,
    ensures
        value(|i: int| row_bit(x, y, j as int, i), j + n) == (if bits::word_bit(y, j as int) {
            pow2(j) * value(|i: int| i < 64 && bits::word_bit(x, i), n)
        } else {
            0nat
        }),
    decreases n,
{
    let p = |i: int| row_bit(x, y, j as int, i);
    let f = |i: int| i < 64 && bits::word_bit(x, i);
    if n == 0 {
        lemma_zero_value(p, j);
        assert(pow2(j) * 0 == 0);
    } else {
        let m = (n - 1) as nat;
        lemma_row_value(x, y, j, m);
        assert(value(p, j + n) == value(p, j + m) + (if p((j + m) as int) {
            pow2(j + m)
        } else {
            0nat
        }));
        lemma_pow2_adds(j, m);
        let (a, b, c) = (pow2(j) as int, value(f, m) as int, pow2(m) as int);
        assert(a * (b + c) == a * b + a * c) by (nonlinear_arith);
    }
}

proof fn lemma_zero_value(f: spec_fn(int) -> bool, n: nat)
    requires
        forall|i: int| 0 <= i < n ==> !#[trigger] f(i),
    ensures
        value(f, n) == 0,
    decreases n,
{
    if n > 0 {
        lemma_zero_value(f, (n - 1) as nat);
        assert(!f(n - 1));
    }
}

/// Bits above the last one set do not count.
proof fn lemma_value_tail(f: spec_fn(int) -> bool, m: nat, n: nat)
    requires
        m <= n,
        forall|i: int| m <= i < n ==> !#[trigger] f(i),
    ensures
        value(f, n) == value(f, m),
    decreases n,
{
    if n > m {
        lemma_value_tail(f, m, (n - 1) as nat);
        assert(!f(n - 1));
    }
}

/// After row `j`, sums and carries add up to `x` times the low `j + 1` bits of
/// `y`.
pub proof fn lemma_total(x: u64, y: u64, j: nat)
    requires
        j < 64,
    ensures
        value(|i: int| sum_after(x, y, j, i), 128) + value(|i: int| carry_after(x, y, j, i), 128)
            == x * value(|i: int| bits::word_bit(y, i), j + 1),
    decreases j,
{
    let s = |i: int| sum_after(x, y, j, i);
    let c = |i: int| carry_after(x, y, j, i);
    let p = |i: int| row_bit(x, y, j as int, i);
    let f = |i: int| i < 64 && bits::word_bit(x, i);
    let g = |i: int| bits::word_bit(x, i);
    let yb = |i: int| bits::word_bit(y, i);
    let n = (128 - j) as nat;
    lemma_row_value(x, y, j, n);
    lemma_value_tail(f, 64, n);
    lemma_value_ext(f, g, 64);
    lemma_value_of_word(x);
    assert(value(p, 128) == (if yb(j as int) {
        pow2(j) * x
    } else {
        0
    }));
    let low = value(yb, j) as int;
    let q = pow2(j) as int;
    assert(x * (low + q) == x * low + q * x) by (nonlinear_arith);
    if j == 0 {
        assert(value(yb, 0) == 0);
        lemma_zero_value(c, 128);
        lemma_value_ext(s, p, 128);
        assert(value(yb, 1) == value(yb, 0) + (if yb(0) {
            pow2(0)
        } else {
            0nat
        }));
        assert(x * 0 == 0);
    } else {
        lemma_total(x, y, (j - 1) as nat);
        lemma_round(x, y, j, 128);
        lemma_windows(x, y, j, 128);
        assert(value(c, 129) == value(c, 128) + (if c(128) {
            pow2(128)
        } else {
            0nat
        }));
        assert(value(yb, j + 1) == value(yb, j) + (if yb(j as int) {
            pow2(j)
        } else {
            0nat
        }));
    }
}

/// The adders compute the product: every result bit is the bit of `x·y`, and
/// nothing is carried out of bit 127.
pub proof fn lemma_product(x: u64, y: u64)
    ensures
        forall|i: int| 0 <= i < 128 ==> #[trigger] result_bit(x, y, i) == product_bit(x, y, i),
        !ripple(x, y, 128),
{
    let r = |i: int| result_bit(x, y, i);
    let yb = |i: int| bits::word_bit(y, i);
    lemma_total(x, y, 63);
    lemma_ripple(x, y, 128);
    lemma_value_of_word(y);
    let p = x * y;
    assert(x * value(yb, 64) == p);
    lemma2_to64_rest();
    lemma_pow2_adds(64, 64);
    assert(p < 0x10000000000000000int * 0x10000000000000000int) by (nonlinear_arith)
        requires
            p == x * y,
            0 <= x < 0x10000000000000000int,
            0 <= y < 0x10000000000000000int,
    ;
    assert(pow2(128) == 0x10000000000000000int * 0x10000000000000000int);
    assert(value(r, 128) == p);
    assert forall|i: int| 0 <= i < 128 implies #[trigger] result_bit(x, y, i) == product_bit(
        x,
        y,
        i,
    ) by {
        lemma_value_bits(r, 128, i);
    }
}

/// Bits that are those of `x·y` stand for `x·y`.
pub proof fn lemma_product_value(x: u64, y: u64, f: spec_fn(int) -> bool)
    requires
        forall|i: int| 0 <= i < 128 ==> #[trigger] f(i) == product_bit(x, y, i),
    ensures
        value(f, 128) == x * y,
{
    let p = (x * y) as nat;
    lemma_value_of_nat(p, 128);
    lemma_value_ext(f, |i: int| nat_bit(p, i), 128);
    lemma2_to64_rest();
    lemma_pow2_adds(64, 64);
    assert(p < 0x10000000000000000int * 0x10000000000000000int) by (nonlinear_arith)
        requires
            p == x * y,
            0 <= x < 0x10000000000000000int,
            0 <= y < 0x10000000000000000int,
    ;
    vstd::arithmetic::div_mod::lemma_small_mod(p, pow2(128));
}

/// A product bit below 64 is final after its row.
pub proof fn lemma_final_sum(x: u64, y: u64, i: nat, j: nat)
    requires
        i <= j < 64,
    ensures
        sum_after(x, y, j, i as int) == sum_after(x, y, i, i as int),
    decreases j,
{
    if j > i {
        lemma_final_sum(x, y, i, (j - 1) as nat);
        lemma_windows(x, y, (j - 1) as nat, i as int);
    }
}

proof fn lemma_no_low_ripple(x: u64, y: u64, i: int)
    requires
        i <= 64,
    ensures
        !ripple(x, y, i),
    decreases i,
{
    if i > 0 {
        lemma_no_low_ripple(x, y, i - 1);
        lemma_windows(x, y, 63, i - 1);
    }
}

/// Below bit 64 the product bits are the final sums; no ripple carry comes in.
pub proof fn lemma_low_product(x: u64, y: u64, i: nat)
    requires
        i < 64,
    ensures
        product_bit(x, y, i as int) == sum_after(x, y, i, i as int),
        !ripple(x, y, 64),
{
    lemma_product(x, y);
    lemma_no_low_ripple(x, y, i as int);
    lemma_no_low_ripple(x, y, 64);
    lemma_windows(x, y, 63, i as int);
    lemma_final_sum(x, y, i, 63);
    assert(result_bit(x, y, i as int) == product_bit(x, y, i as int));
}

/// The low bits of a number are those of its remainder.
pub proof fn lemma_low_bits(v: nat, n: nat, i: int)
    requires
        0 <= i < n,
    ensures
        nat_bit((v as int % (pow2(n) as int)) as nat, i) == nat_bit(v, i),
{
    let f = |k: int| nat_bit(v, k);
    lemma_value_of_nat(v, n);
    lemma_value_bits(f, n, i);
}

} // verus!
