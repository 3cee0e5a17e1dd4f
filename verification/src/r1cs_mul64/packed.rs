//! The witness of one block, in words.
//!
//! Each round of full adders is a handful of 128-bit operations, bit `i` of a word
//! being product bit `i`.

use crate::field::bits;
use crate::r1cs_mul64::adder;
use crate::r1cs_mul64::circuit;
use crate::r1cs_mul64::layout;
use crate::r1cs_mul64::layout::{
    Wire, K, MAJ_BASE, PP_BASE, RIP_BASE, SUM_BASE, WORD_BITS,
};
use vstd::prelude::*;

verus! {

/// Bit `s` of a buffer of words.
pub open spec fn buf_bit(buf: Seq<u64>, s: int) -> bool {
    bits::word_bit(buf[s / 64], s % 64)
}

/// Bit `i` of a 128-bit word.
pub open spec fn wide_bit(v: u128, i: int) -> bool {
    (v >> (i as u128)) & 1u128 == 1u128
}

// ---------------------------------------------------------------------------
// Bits of words.
// ---------------------------------------------------------------------------

proof fn lemma_or_parts(old_w: u64, val: u64, s: u64, t: u64)
    by (bit_vector)
    requires
        s < 64,
        t < 64,
    ensures
        ((old_w | val) >> t) & 1 == ((old_w >> t) & 1) | ((val >> t) & 1),
        t >= s ==> ((val << s) >> t) & 1 == (val >> ((t - s) as u64)) & 1,
        t < s ==> ((val << s) >> t) & 1 == 0u64,
        t < s ==> (((val >> 1u64) >> ((63 - s) as u64)) >> t) & 1 == (val >> ((t + 64 - s) as u64))
            & 1,
        t >= s ==> (((val >> 1u64) >> ((63 - s) as u64)) >> t) & 1 == 0u64,
        (old_w >> t) & 1 == 0u64 || (old_w >> t) & 1 == 1u64,
        (val >> t) & 1 == 0u64 || (val >> t) & 1 == 1u64,
        0u64 | 0u64 == 0u64,
        0u64 | 1u64 == 1u64,
        1u64 | 0u64 == 1u64,
        1u64 | 1u64 == 1u64,
{
}

proof fn lemma_word_or(a: u64, b: u64, t: int)
    requires
        0 <= t < 64,
    ensures
        bits::word_bit(a | b, t) == (bits::word_bit(a, t) || bits::word_bit(b, t)),
{
    lemma_or_parts(a, b, 0, t as u64);
}

/// What of `val` goes over into the next word when it is put at place `s`.
spec fn spill_of(val: u64, s: u64) -> u64 {
    (val >> 1u64) >> ((63 - s) as u64)
}

/// ORs `val` into `buf` at bit offset `off`, over a word boundary where it must.
fn or_u64_at_bit(buf: &mut [u64], off: usize, val: u64)
    requires
        off / 64 < old(buf)@.len(),
        spill_of(val, (off % 64) as u64) != 0 ==> off / 64 + 1 < old(buf)@.len(),
    ensures
        final(buf)@.len() == old(buf)@.len(),
        forall|s: int|
            0 <= s < 64 * old(buf)@.len() ==> #[trigger] buf_bit(final(buf)@, s) == (buf_bit(
                old(buf)@,
                s,
            ) || (off <= s < off + 64 && bits::word_bit(val, s - off))),
{
    let w: usize = off / 64;
    let s: u64 = (off % 64) as u64;
    let low: u64 = val << s;
    let spill: u64 = (val >> 1) >> (63 - s);
    let ghost before = buf@;
    buf[w] = buf[w] | low;
    if spill != 0 {
        buf[w + 1] = buf[w + 1] | spill;
    }
    proof {
        assert forall|p: int| 0 <= p < 64 * before.len() implies #[trigger] buf_bit(buf@, p) == (
        buf_bit(before, p) || (off <= p < off + 64 && bits::word_bit(val, p - off))) by {
            let t = p % 64;
            let k = p / 64;
            lemma_word_or(before[k], low, t);
            lemma_word_or(before[k], spill, t);
            lemma_or_parts(0, val, s, t as u64);
            bits::lemma_word_bit(0, 0, t, 0);
            if k == w {
                if t >= s {
                    assert(p - off == t - s);
                }
            } else if k == w + 1 {
                if t < s {
                    assert(p - off == t + 64 - s);
                }
            }
        }
    }
}

proof fn lemma_wide_window(v: u128, j: u128, t: u64)
    by (bit_vector)
    requires
        t < 64,
        j + t < 128,
    ensures
        ((((v >> j) as u64) >> t) & 1 == 1u64) == ((v >> ((j + t) as u128)) & 1u128 == 1u128),
{
}

/// Bit `t` of the 64-bit window at bit `j`.
proof fn lemma_window(v: u128, j: int, t: int)
    requires
        0 <= j,
        0 <= t < 64,
        j + t < 128,
    ensures
        bits::word_bit((v >> (j as u128)) as u64, t) == wide_bit(v, j + t),
{
    lemma_wide_window(v, j as u128, t as u64);
}

proof fn lemma_wide_ops(a: u128, b: u128, x: u64, j: u128, i: u128)
    by (bit_vector)
    requires
        i < 128,
        j < 64,
    ensures
        ((a ^ b) >> i) & 1 == ((a >> i) & 1) ^ ((b >> i) & 1),
        ((a & b) >> i) & 1 == ((a >> i) & 1) & ((b >> i) & 1),
        i > 0 ==> ((a << 1u128) >> i) & 1 == (a >> ((i - 1) as u128)) & 1,
        i == 0 ==> ((a << 1u128) >> i) & 1 == 0u128,
        j <= i && i < j + 64 ==> ((((x as u128) << j) >> i) & 1 == 1u128) == ((x >> ((i
            - j) as u64)) & 1 == 1u64),
        i < j || i >= j + 64 ==> (((x as u128) << j) >> i) & 1 == 0u128,
        (0u128 >> i) & 1 == 0u128,
        (a >> i) & 1 == 0u128 || (a >> i) & 1 == 1u128,
        (b >> i) & 1 == 0u128 || (b >> i) & 1 == 1u128,
        0u128 ^ 0u128 == 0u128,
        0u128 ^ 1u128 == 1u128,
        1u128 ^ 0u128 == 1u128,
        1u128 ^ 1u128 == 0u128,
        0u128 & 0u128 == 0u128,
        0u128 & 1u128 == 0u128,
        1u128 & 0u128 == 0u128,
        1u128 & 1u128 == 1u128,
{
}

proof fn lemma_wide(a: u128, b: u128, i: int)
    requires
        0 <= i < 128,
    ensures
        wide_bit(a ^ b, i) == (wide_bit(a, i) != wide_bit(b, i)),
        wide_bit(a & b, i) == (wide_bit(a, i) && wide_bit(b, i)),
        wide_bit(a << 1u128, i) == (i > 0 && wide_bit(a, i - 1)),
        !wide_bit(0, i),
{
    lemma_wide_ops(a, b, 0, 0, i as u128);
    lemma_wide_ops(b, a, 0, 0, i as u128);
    if i > 0 {
        lemma_wide_ops(a, b, 0, 0, (i - 1) as u128);
    }
}

proof fn lemma_wide_row(x: u64, y: u64, j: int, i: int, pw: u128)
    requires
        0 <= j < 64,
        0 <= i < 128,
        pw == (if bits::word_bit(y, j) {
            (x as u128) << (j as u128)
        } else {
            0
        }),
    ensures
        wide_bit(pw, i) == adder::row_bit(x, y, j, i),
{
    lemma_wide_ops(0, 0, x, j as u128, i as u128);
}

/// The bits of a 128-bit word are those of the number.
proof fn lemma_wide_is_nat(v: u128, i: int)
    requires
        0 <= i < 128,
    ensures
        wide_bit(v, i) == adder::nat_bit(v as nat, i),
{
    vstd::bits::lemma_u128_shr_is_div(v, i as u128);
    let q = v >> (i as u128);
    assert((q & 1 == 1) == (q % 2 == 1)) by (bit_vector);
}

proof fn lemma_full_words(t: u64)
    by (bit_vector)
    requires
        t < 64,
    ensures
        (0xffff_ffff_ffff_ffffu64 >> t) & 1 == 1u64,
        (0u64 >> t) & 1 == 0u64,
        (0x7fff_ffff_ffff_ffffu64 >> t) & 1 == (if t < 63 {
            1u64
        } else {
            0u64
        }),
        (1u64 >> t) & 1 == (if t == 0 {
            1u64
        } else {
            0u64
        }),
{
}

proof fn lemma_mask(v: u64, t: u64)
    by (bit_vector)
    requires
        t < 64,
    ensures
        ((v & 0x7fff_ffff_ffff_ffffu64) >> t) & 1 == (if t < 63 {
            (v >> t) & 1
        } else {
            0u64
        }),
{
}

// ---------------------------------------------------------------------------
// Filling a buffer.
// ---------------------------------------------------------------------------

/// The slots that are filled once all rounds below `j` are done.
spec fn filled(s: int, j: int) -> bool {
    ||| s < 320
    ||| 320 <= s < 320 + 64 * j
    ||| 4416 <= s < 4416 + 64 * (j - 1)
    ||| 8448 <= s < 8448 + 63 * (j - 1)
}

/// The buffer holds `f` at the filled slots and zero elsewhere.
spec fn holds(buf: Seq<u64>, f: spec_fn(int) -> bool, j: int) -> bool {
    &&& buf.len() == 256
    &&& forall|s: int|
        0 <= s < 16384 ==> #[trigger] buf_bit(buf, s) == (filled(s, j) && f(s))
}

/// Fills the words before the partial products and row 0.
fn write_head(
    buf: &mut [u64],
    w0: u64,
    w1: u64,
    w2: u64,
    w3: u64,
    w4: u64,
    w5: u64,
    Ghost(f): Ghost<spec_fn(int) -> bool>,
)
    requires
        old(buf)@ == Seq::new(256, |i: int| 0u64),
        forall|t: int| 0 <= t < 64 ==> #[trigger] bits::word_bit(w0, t) == f(t),
        forall|t: int| 0 <= t < 64 ==> #[trigger] bits::word_bit(w1, t) == f(64 + t),
        forall|t: int| 0 <= t < 64 ==> #[trigger] bits::word_bit(w2, t) == f(128 + t),
        forall|t: int| 0 <= t < 64 ==> #[trigger] bits::word_bit(w3, t) == f(192 + t),
        forall|t: int| 0 <= t < 64 ==> #[trigger] bits::word_bit(w4, t) == f(256 + t),
        forall|t: int| 0 <= t < 64 ==> #[trigger] bits::word_bit(w5, t) == f(320 + t),
    ensures
        holds(final(buf)@, f, 1),
{
    buf[0] = w0;
    buf[1] = w1;
    buf[2] = w2;
    buf[3] = w3;
    buf[4] = w4;
    buf[PP_BASE / 64] = w5;
    proof {
        assert forall|s: int| 0 <= s < 16384 implies #[trigger] buf_bit(buf@, s) == (filled(s, 1)
            && f(s)) by {
            let (k, t) = (s / 64, s % 64);
            bits::lemma_word_bit(0, 0, t, 0);
            if k == 0 {
                assert(bits::word_bit(w0, t) == f(t));
            } else if k == 1 {
                assert(bits::word_bit(w1, t) == f(64 + t));
            } else if k == 2 {
                assert(bits::word_bit(w2, t) == f(128 + t));
            } else if k == 3 {
                assert(bits::word_bit(w3, t) == f(192 + t));
            } else if k == 4 {
                assert(bits::word_bit(w4, t) == f(256 + t));
            } else if k == 5 {
                assert(bits::word_bit(w5, t) == f(320 + t));
            }
        }
    }
}

/// Fills what round `j` adds: a row of partial products, a row of carry wires and
/// 63 sums.
fn write_round(
    buf: &mut [u64],
    j: usize,
    pp: u64,
    maj: u64,
    sum: u64,
    Ghost(f): Ghost<spec_fn(int) -> bool>,
)
    requires
        1 <= j < 64,
        holds(old(buf)@, f, j as int),
        forall|t: int| 0 <= t < 64 ==> #[trigger] bits::word_bit(pp, t) == f(320 + 64 * j + t),
        forall|t: int|
            0 <= t < 64 ==> #[trigger] bits::word_bit(maj, t) == f(4416 + 64 * (j - 1) + t),
        forall|t: int|
            0 <= t < 64 ==> #[trigger] bits::word_bit(sum, t) == (t < 63 && f(
                8448 + 63 * (j - 1) + t,
            )),
    ensures
        holds(final(buf)@, f, j + 1),
{
    let ghost before = buf@;
    buf[PP_BASE / 64 + j] = pp;
    buf[MAJ_BASE / 64 + (j - 1)] = maj;
    let ghost mid = buf@;
    let off: usize = SUM_BASE + (WORD_BITS - 1) * (j - 1);
    or_u64_at_bit(buf, off, sum);
    proof {
        assert forall|s: int| 0 <= s < 16384 implies #[trigger] buf_bit(buf@, s) == (filled(
            s,
            j + 1,
        ) && f(s)) by {
            let (k, t) = (s / 64, s % 64);
            assert(buf_bit(before, s) == (filled(s, j as int) && f(s)));
            assert(buf_bit(buf@, s) == (buf_bit(mid, s) || (off <= s < off + 64 && bits::word_bit(
                sum,
                s - off,
            ))));
            if k == 5 + j {
                assert(bits::word_bit(pp, t) == f(320 + 64 * j + t));
                assert(s == 320 + 64 * j + t);
            } else if k == 69 + (j - 1) {
                assert(bits::word_bit(maj, t) == f(4416 + 64 * (j - 1) + t));
                assert(s == 4416 + 64 * (j - 1) + t);
            } else {
                assert(mid[k] == before[k]);
                if off <= s < off + 64 {
                    assert(bits::word_bit(sum, s - off) == (s - off < 63 && f(
                        8448 + 63 * (j - 1) + (s - off),
                    )));
                }
            }
        }
    }
}

/// Fills the ripple wires; the buffer is then complete.
fn write_ripple(buf: &mut [u64], rip: u64, Ghost(f): Ghost<spec_fn(int) -> bool>)
    requires
        holds(old(buf)@, f, 64),
        forall|t: int|
            0 <= t < 64 ==> #[trigger] bits::word_bit(rip, t) == (t < 63 && f(12417 + t)),
        forall|s: int| 12480 <= s < 16384 ==> !#[trigger] f(s),
    ensures
        final(buf)@.len() == 256,
        forall|s: int| 0 <= s < 16384 ==> #[trigger] buf_bit(final(buf)@, s) == f(s),
{
    let ghost before = buf@;
    or_u64_at_bit(buf, RIP_BASE, rip);
    proof {
        assert forall|s: int| 0 <= s < 16384 implies #[trigger] buf_bit(buf@, s) == f(s) by {
            assert(buf_bit(before, s) == (filled(s, 64) && f(s)));
            if 12417 <= s < 12417 + 64 {
                assert(bits::word_bit(rip, s - 12417) == (s - 12417 < 63 && f(
                    12417 + (s - 12417),
                )));
            }
        }
    }
}

// ---------------------------------------------------------------------------
// The rounds.
// ---------------------------------------------------------------------------

/// The words hold the sums and carries after row `j`.
spec fn state_holds(x: u64, y: u64, s: u128, c: u128, j: int) -> bool {
    forall|i: int|
        0 <= i < 128 ==> #[trigger] wide_bit(s, i) == adder::sum_after(x, y, j as nat, i)
            && wide_bit(c, i) == adder::carry_after(x, y, j as nat, i)
}

/// The words of round `j`, bit by bit.
proof fn lemma_round_words(x: u64, y: u64, s: u128, c: u128, pw: u128, j: int, i: int)
    requires
        1 <= j < 64,
        0 <= i < 128,
        state_holds(x, y, s, c, j - 1),
        pw == (if bits::word_bit(y, j) {
            (x as u128) << (j as u128)
        } else {
            0
        }),
    ensures
        wide_bit(s ^ c, i) == (adder::sum_after(x, y, (j - 1) as nat, i) != adder::carry_after(
            x,
            y,
            (j - 1) as nat,
            i,
        )),
        wide_bit(s ^ pw, i) == (adder::sum_after(x, y, (j - 1) as nat, i) != adder::row_bit(
            x,
            y,
            j,
            i,
        )),
        wide_bit((s ^ c) & (s ^ pw), i) == (wide_bit(s ^ c, i) && wide_bit(s ^ pw, i)),
        wide_bit((s ^ c) ^ pw, i) == adder::sum_after(x, y, j as nat, i),
        wide_bit((((s ^ c) & (s ^ pw)) ^ s) << 1u128, i) == adder::carry_after(x, y, j as nat, i),
{
    assert(wide_bit(s, i) == adder::sum_after(x, y, (j - 1) as nat, i));
    lemma_wide_row(x, y, j, i, pw);
    lemma_wide(s, c, i);
    lemma_wide(s, pw, i);
    lemma_wide(s ^ c, pw, i);
    lemma_wide(s ^ c, s ^ pw, i);
    let m = (s ^ c) & (s ^ pw);
    lemma_wide(m ^ s, 0, i);
    if i > 0 {
        assert(wide_bit(s, i - 1) == adder::sum_after(x, y, (j - 1) as nat, i - 1));
        lemma_wide_row(x, y, j, i - 1, pw);
        lemma_wide(s, c, i - 1);
        lemma_wide(s, pw, i - 1);
        lemma_wide(s ^ c, s ^ pw, i - 1);
        lemma_wide(m, s, i - 1);
    }
}

proof fn lemma_pp_slot(x: u64, y: u64, j: int, t: int)
    requires
        0 <= j < 64,
        0 <= t < 64,
    ensures
        circuit::witness_bit(x, y, 320 + 64 * j + t) == (bits::word_bit(x, t) && bits::word_bit(
            y,
            j,
        )),
        circuit::a_value(x, y, 320 + 64 * j + t) == bits::word_bit(x, t),
        circuit::b_value(x, y, 320 + 64 * j + t) == bits::word_bit(y, j),
{
    layout::lemma_slot(Wire::Pp(j, j + t));
}

proof fn lemma_maj_slot(x: u64, y: u64, j: int, t: int)
    requires
        1 <= j < 64,
        0 <= t < 64,
    ensures
        ({
            let s = 4416 + 64 * (j - 1) + t;
            let sum = adder::sum_after(x, y, (j - 1) as nat, j + t);
            &&& circuit::a_value(x, y, s) == (sum != adder::carry_after(
                x,
                y,
                (j - 1) as nat,
                j + t,
            ))
            &&& circuit::b_value(x, y, s) == (sum != adder::row_bit(x, y, j, j + t))
            &&& circuit::witness_bit(x, y, s) == (circuit::a_value(x, y, s) && circuit::b_value(
                x,
                y,
                s,
            ))
        }),
{
    layout::lemma_slot(Wire::Maj(j, j + t));
}

proof fn lemma_sum_slot(x: u64, y: u64, j: int, t: int)
    requires
        1 <= j < 64,
        0 <= t < 63,
    ensures
        ({
            let s = 8448 + 63 * (j - 1) + t;
            &&& circuit::witness_bit(x, y, s) == adder::sum_after(x, y, j as nat, j + 1 + t)
            &&& circuit::a_value(x, y, s) == adder::sum_after(x, y, j as nat, j + 1 + t)
            &&& circuit::b_value(x, y, s)
        }),
{
    layout::lemma_slot(Wire::Sum(j, j + 1 + t));
}

proof fn lemma_rip_slot(x: u64, y: u64, t: int)
    requires
        0 <= t < 63,
    ensures
        ({
            let s = 12417 + t;
            let sum = adder::sum_after(x, y, 63, 64 + t);
            &&& circuit::a_value(x, y, s) == (sum != adder::carry_after(x, y, 63, 64 + t))
            &&& circuit::b_value(x, y, s) == (sum != adder::ripple(x, y, 64 + t))
            &&& circuit::witness_bit(x, y, s) == (circuit::a_value(x, y, s) && circuit::b_value(
                x,
                y,
                s,
            ))
        }),
{
    layout::lemma_slot(Wire::Rip(64 + t));
}

/// The values of `z`, `A_0·z` and `B_0·z`, as functions of the slot.
spec fn zf(x: u64, y: u64) -> spec_fn(int) -> bool {
    |s: int| circuit::witness_bit(x, y, s)
}

spec fn af(x: u64, y: u64) -> spec_fn(int) -> bool {
    |s: int| circuit::a_value(x, y, s)
}

spec fn bf(x: u64, y: u64) -> spec_fn(int) -> bool {
    |s: int| circuit::b_value(x, y, s)
}

/// Bit `t` of a word that is `x` or zero, or all ones or zero.
proof fn lemma_selected(x: u64, on: bool, t: int)
    requires
        0 <= t < 64,
    ensures
        bits::word_bit(
            if on {
                x
            } else {
                0
            },
            t,
        ) == (on && bits::word_bit(x, t)),
        bits::word_bit(
            if on {
                u64::MAX
            } else {
                0
            },
            t,
        ) == on,
{
    lemma_full_words(t as u64);
}

/// The words of the head: inputs, product, constant and row 0.
fn fill_head(x: u64, y: u64, z: &mut [u64], a: &mut [u64], b: &mut [u64]) -> (s: u128)
    requires
        old(z)@ == Seq::new(256, |i: int| 0u64),
        old(a)@ == Seq::new(256, |i: int| 0u64),
        old(b)@ == Seq::new(256, |i: int| 0u64),
    ensures
        holds(final(z)@, zf(x, y), 1),
        holds(final(a)@, af(x, y), 1),
        holds(final(b)@, bf(x, y), 1),
        state_holds(x, y, s, 0, 0),
{
    proof {
        assert(x * y <= u64::MAX * u64::MAX) by (nonlinear_arith)
            requires
                0 <= x <= u64::MAX,
                0 <= y <= u64::MAX,
        ;
    }
    let p: u128 = (x as u128) * (y as u128);
    let lo: u64 = p as u64;
    let hi: u64 = (p >> 64) as u64;
    let y0 = y & 1 == 1;
    let row: u64 = if y0 {
        x
    } else {
        0
    };
    let select: u64 = if y0 {
        u64::MAX
    } else {
        0
    };
    proof {
        assert(y >> 0u64 == y) by (bit_vector);
        assert(y0 == bits::word_bit(y, 0));
        assert(p >> 0u128 == p) by (bit_vector);
        let (fz, fa, fb) = (zf(x, y), af(x, y), bf(x, y));
        assert forall|t: int| 0 <= t < 64 implies #[trigger] bits::word_bit(x, t) == fz(t)
            && fa(t) == fz(t) && fb(t) by {}
        assert forall|t: int| 0 <= t < 64 implies #[trigger] bits::word_bit(y, t) == fz(64 + t)
            && fa(64 + t) == fz(64 + t) && fb(64 + t) by {}
        assert forall|t: int| 0 <= t < 64 implies #[trigger] bits::word_bit(lo, t) == fz(128 + t)
            && fa(128 + t) == fz(128 + t) && fb(128 + t) by {
            lemma_window(p, 0, t);
            lemma_wide_is_nat(p, t);
        }
        assert forall|t: int| 0 <= t < 64 implies #[trigger] bits::word_bit(hi, t) == fz(192 + t)
            && fa(192 + t) == fz(192 + t) && fb(192 + t) by {
            lemma_window(p, 64, t);
            lemma_wide_is_nat(p, 64 + t);
        }
        assert forall|t: int| 0 <= t < 64 implies #[trigger] bits::word_bit(1, t) == fz(256 + t)
            && fa(256 + t) == fz(256 + t) && fb(256 + t) == fz(256 + t) by {
            lemma_full_words(t as u64);
        }
        assert forall|t: int| 0 <= t < 64 implies #[trigger] bits::word_bit(row, t) == fz(
            320 + t,
        ) by {
            lemma_pp_slot(x, y, 0, t);
            lemma_selected(x, y0, t);
        }
        assert forall|t: int| 0 <= t < 64 implies #[trigger] bits::word_bit(x, t) == fa(
            320 + t,
        ) by {
            lemma_pp_slot(x, y, 0, t);
        }
        assert forall|t: int| 0 <= t < 64 implies #[trigger] bits::word_bit(select, t) == fb(
            320 + t,
        ) by {
            lemma_pp_slot(x, y, 0, t);
            lemma_selected(x, y0, t);
        }
        assert forall|t: int| 0 <= t < 64 implies #[trigger] bits::word_bit(u64::MAX, t) by {
            lemma_full_words(t as u64);
        }
    }
    write_head(z, x, y, lo, hi, 1, row, Ghost(zf(x, y)));
    write_head(a, x, y, lo, hi, 1, x, Ghost(af(x, y)));
    proof {
        let fb = bf(x, y);
        assert forall|t: int| 0 <= t < 64 implies #[trigger] bits::word_bit(u64::MAX, t) == fb(t)
            by {
            assert(bits::word_bit(x, t) == bits::word_bit(x, t));
        }
        assert forall|t: int| 0 <= t < 64 implies #[trigger] bits::word_bit(u64::MAX, t) == fb(
            64 + t,
        ) by {
            assert(bits::word_bit(y, t) == bits::word_bit(y, t));
        }
        assert forall|t: int| 0 <= t < 64 implies #[trigger] bits::word_bit(u64::MAX, t) == fb(
            128 + t,
        ) by {
            assert(bits::word_bit(lo, t) == bits::word_bit(lo, t));
        }
        assert forall|t: int| 0 <= t < 64 implies #[trigger] bits::word_bit(u64::MAX, t) == fb(
            192 + t,
        ) by {
            assert(bits::word_bit(hi, t) == bits::word_bit(hi, t));
        }
    }
    write_head(b, u64::MAX, u64::MAX, u64::MAX, u64::MAX, 1, select, Ghost(bf(x, y)));
    let s: u128 = row as u128;
    proof {
        assert forall|i: int| 0 <= i < 128 implies #[trigger] wide_bit(s, i) == adder::sum_after(
            x,
            y,
            0,
            i,
        ) && wide_bit(0, i) == adder::carry_after(x, y, 0, i) by {
            let v = x as u128;
            assert(v << 0u128 == v) by (bit_vector);
            lemma_wide_row(x, y, 0, i, s);
            lemma_wide(0, 0, i);
        }
    }
    s
}

/// One round: fills its rows of all three buffers and returns the next sums and
/// carries.
fn fill_round(
    x: u64,
    y: u64,
    j: usize,
    s: u128,
    c: u128,
    z: &mut [u64],
    a: &mut [u64],
    b: &mut [u64],
) -> (next: (u128, u128))
    requires
        1 <= j < 64,
        state_holds(x, y, s, c, j - 1),
        holds(old(z)@, zf(x, y), j as int),
        holds(old(a)@, af(x, y), j as int),
        holds(old(b)@, bf(x, y), j as int),
    ensures
        state_holds(x, y, next.0, next.1, j as int),
        holds(final(z)@, zf(x, y), j + 1),
        holds(final(a)@, af(x, y), j + 1),
        holds(final(b)@, bf(x, y), j + 1),
{
    let yj = (y >> (j as u64)) & 1 == 1;
    let row: u64 = if yj {
        x
    } else {
        0
    };
    let select: u64 = if yj {
        u64::MAX
    } else {
        0
    };
    let pw: u128 = if yj {
        (x as u128) << (j as u128)
    } else {
        0
    };
    let axor: u128 = s ^ c;
    let bxor: u128 = s ^ pw;
    let majw: u128 = axor & bxor;
    let sumw: u128 = axor ^ pw;
    let at: u128 = j as u128;
    let mz: u64 = (majw >> at) as u64;
    let ma: u64 = (axor >> at) as u64;
    let mb: u64 = (bxor >> at) as u64;
    let sval: u64 = ((sumw >> (at + 1)) as u64) & 0x7fff_ffff_ffff_ffff;
    let next_c: u128 = (majw ^ s) << 1;
    proof {
        let (fz, fa, fb) = (zf(x, y), af(x, y), bf(x, y));
        assert forall|t: int| 0 <= t < 64 implies #[trigger] bits::word_bit(row, t) == fz(
            320 + 64 * j + t,
        ) by {
            lemma_pp_slot(x, y, j as int, t);
            lemma_selected(x, yj, t);
        }
        assert forall|t: int| 0 <= t < 64 implies #[trigger] bits::word_bit(x, t) == fa(
            320 + 64 * j + t,
        ) by {
            lemma_pp_slot(x, y, j as int, t);
        }
        assert forall|t: int| 0 <= t < 64 implies #[trigger] bits::word_bit(select, t) == fb(
            320 + 64 * j + t,
        ) by {
            lemma_pp_slot(x, y, j as int, t);
            lemma_selected(x, yj, t);
        }
        assert forall|t: int| 0 <= t < 64 implies #[trigger] bits::word_bit(mz, t) == fz(
            4416 + 64 * (j - 1) + t,
        ) by {
            lemma_maj_slot(x, y, j as int, t);
            lemma_round_words(x, y, s, c, pw, j as int, j + t);
            lemma_window(majw, j as int, t);
        }
        assert forall|t: int| 0 <= t < 64 implies #[trigger] bits::word_bit(ma, t) == fa(
            4416 + 64 * (j - 1) + t,
        ) by {
            lemma_maj_slot(x, y, j as int, t);
            lemma_round_words(x, y, s, c, pw, j as int, j + t);
            lemma_window(axor, j as int, t);
        }
        assert forall|t: int| 0 <= t < 64 implies #[trigger] bits::word_bit(mb, t) == fb(
            4416 + 64 * (j - 1) + t,
        ) by {
            lemma_maj_slot(x, y, j as int, t);
            lemma_round_words(x, y, s, c, pw, j as int, j + t);
            lemma_window(bxor, j as int, t);
        }
        assert forall|t: int| 0 <= t < 64 implies #[trigger] bits::word_bit(sval, t) == (t < 63
            && fz(8448 + 63 * (j - 1) + t)) && (t < 63 ==> fa(8448 + 63 * (j - 1) + t) == fz(
            8448 + 63 * (j - 1) + t,
        )) by {
            lemma_mask((sumw >> ((j + 1) as u128)) as u64, t as u64);
            if t < 63 {
                lemma_sum_slot(x, y, j as int, t);
                lemma_round_words(x, y, s, c, pw, j as int, j + 1 + t);
                lemma_window(sumw, j + 1, t);
            }
        }
        assert forall|t: int| 0 <= t < 64 implies #[trigger] bits::word_bit(
            0x7fff_ffff_ffff_ffff,
            t,
        ) == (t < 63 && fb(8448 + 63 * (j - 1) + t)) by {
            lemma_full_words(t as u64);
            if t < 63 {
                lemma_sum_slot(x, y, j as int, t);
            }
        }
        assert forall|i: int| 0 <= i < 128 implies #[trigger] wide_bit(sumw, i)
            == adder::sum_after(x, y, j as nat, i) && wide_bit(next_c, i) == adder::carry_after(
            x,
            y,
            j as nat,
            i,
        ) by {
            lemma_round_words(x, y, s, c, pw, j as int, i);
        }
    }
    write_round(z, j, row, mz, sval, Ghost(zf(x, y)));
    write_round(a, j, x, ma, sval, Ghost(af(x, y)));
    write_round(b, j, select, mb, 0x7fff_ffff_ffff_ffff, Ghost(bf(x, y)));
    (sumw, next_c)
}

proof fn lemma_put_bit(w: u64, m: u64, t: u64, k: u64)
    by (bit_vector)
    requires
        t < 64,
        k < 64,
        m <= 1,
        (w >> t) & 1 == 0u64,
    ensures
        ((w | (m << t)) >> k) & 1 == (if k == t {
            m
        } else {
            (w >> k) & 1
        }),
{
}

/// Puts bit `t` into a word whose bits from `t` on are zero.
fn put_bit(w: u64, t: usize, on: bool) -> (r: u64)
    requires
        t < 63,
        forall|k: int| t <= k < 64 ==> !#[trigger] bits::word_bit(w, k),
    ensures
        forall|k: int|
            0 <= k < 64 ==> #[trigger] bits::word_bit(r, k) == (if k == t {
                on
            } else {
                bits::word_bit(w, k)
            }),
{
    let m: u64 = if on {
        1
    } else {
        0
    };
    proof {
        assert(!bits::word_bit(w, t as int));
        let v = t as u64;
        assert((w >> v) & 1 == 0 || (w >> v) & 1 == 1) by (bit_vector);
        assert forall|k: int| 0 <= k < 64 implies #[trigger] bits::word_bit(
            w | (m << (t as u64)),
            k,
        ) == (if k == t {
            on
        } else {
            bits::word_bit(w, k)
        }) by {
            lemma_put_bit(w, m, t as u64, k as u64);
        }
    }
    w | (m << (t as u64))
}

/// The ripple wires, bit by bit, in all three buffers.
fn ripple_words(x: u64, y: u64, s: u128, c: u128) -> (m: (u64, u64, u64))
    requires
        state_holds(x, y, s, c, 63),
    ensures
        forall|t: int|
            0 <= t < 64 ==> #[trigger] bits::word_bit(m.0, t) == (t < 63 && zf(x, y)(12417 + t)),
        forall|t: int|
            0 <= t < 64 ==> #[trigger] bits::word_bit(m.1, t) == (t < 63 && af(x, y)(12417 + t)),
        forall|t: int|
            0 <= t < 64 ==> #[trigger] bits::word_bit(m.2, t) == (t < 63 && bf(x, y)(12417 + t)),
{
    let mut mz: u64 = 0;
    let mut ma: u64 = 0;
    let mut mb: u64 = 0;
    let mut cr = false;
    let mut t: usize = 0;
    proof {
        adder::lemma_low_product(x, y, 0);
        assert forall|k: int| 0 <= k < 64 implies !#[trigger] bits::word_bit(0, k) by {
            bits::lemma_word_bit(0, 0, k, 0);
        }
    }
    while t < 63
        invariant
            t <= 63,
            state_holds(x, y, s, c, 63),
            cr == adder::ripple(x, y, 64 + t),
            forall|k: int|
                0 <= k < 64 ==> #[trigger] bits::word_bit(mz, k) == (k < t && zf(x, y)(12417 + k)),
            forall|k: int|
                0 <= k < 64 ==> #[trigger] bits::word_bit(ma, k) == (k < t && af(x, y)(12417 + k)),
            forall|k: int|
                0 <= k < 64 ==> #[trigger] bits::word_bit(mb, k) == (k < t && bf(x, y)(12417 + k)),
        decreases 63 - t,
    {
        let i: u128 = (t + WORD_BITS) as u128;
        let sv = (s >> i) & 1 == 1;
        let cv = (c >> i) & 1 == 1;
        let az = sv != cv;
        let bz = sv != cr;
        let m = az && bz;
        proof {
            assert(wide_bit(s, 64 + t) == adder::sum_after(x, y, 63, 64 + t));
            lemma_rip_slot(x, y, t as int);
        }
        mz = put_bit(mz, t, m);
        ma = put_bit(ma, t, az);
        mb = put_bit(mb, t, bz);
        cr = m != sv;
        t = t + 1;
    }
    (mz, ma, mb)
}

/// Fills one block: three zeroed buffers of `K / 64` words get the witness `z` of
/// `x·y` and its images `A_0·z` and `B_0·z`.
pub fn build_block_zab(x: u64, y: u64, z: &mut [u64], a: &mut [u64], b: &mut [u64])
    requires
        old(z)@ == Seq::new(256, |i: int| 0u64),
        old(a)@ == Seq::new(256, |i: int| 0u64),
        old(b)@ == Seq::new(256, |i: int| 0u64),
    ensures
        final(z)@.len() == 256,
        final(a)@.len() == 256,
        final(b)@.len() == 256,
        forall|s: int|
            0 <= s < K ==> #[trigger] buf_bit(final(z)@, s) == circuit::witness_bit(x, y, s),
        forall|s: int| 0 <= s < K ==> #[trigger] buf_bit(final(a)@, s) == circuit::a_value(x, y, s),
        forall|s: int| 0 <= s < K ==> #[trigger] buf_bit(final(b)@, s) == circuit::b_value(x, y, s),
{
    let mut s: u128 = fill_head(x, y, z, a, b);
    let mut c: u128 = 0;
    let mut j: usize = 1;
    while j < WORD_BITS
        invariant
            1 <= j <= 64,
            state_holds(x, y, s, c, j - 1),
            holds(z@, zf(x, y), j as int),
            holds(a@, af(x, y), j as int),
            holds(b@, bf(x, y), j as int),
        decreases 64 - j,
    {
        let (next_s, next_c) = fill_round(x, y, j, s, c, z, a, b);
        s = next_s;
        c = next_c;
        j = j + 1;
    }
    let (mz, ma, mb) = ripple_words(x, y, s, c);
    write_ripple(z, mz, Ghost(zf(x, y)));
    write_ripple(a, ma, Ghost(af(x, y)));
    write_ripple(b, mb, Ghost(bf(x, y)));
    proof {
        assert forall|s: int| 0 <= s < K implies #[trigger] buf_bit(z@, s) == circuit::witness_bit(
            x,
            y,
            s,
        ) by {
            assert(buf_bit(z@, s) == zf(x, y)(s));
        }
        assert forall|s: int| 0 <= s < K implies #[trigger] buf_bit(a@, s) == circuit::a_value(
            x,
            y,
            s,
        ) by {
            assert(buf_bit(a@, s) == af(x, y)(s));
        }
        assert forall|s: int| 0 <= s < K implies #[trigger] buf_bit(b@, s) == circuit::b_value(
            x,
            y,
            s,
        ) by {
            assert(buf_bit(b@, s) == bf(x, y)(s));
        }
    }
}

/// Bit `64·w + t` of a buffer is bit `t` of its word `w`.
pub proof fn lemma_buf_bit(buf: Seq<u64>, w: int, t: int)
    requires
        0 <= t < 64,
    ensures
        buf_bit(buf, 64 * w + t) == ((buf[w] >> (t as u64)) & 1 == 1),
{
    assert((64 * w + t) / 64 == w && (64 * w + t) % 64 == t);
}

} // verus!
