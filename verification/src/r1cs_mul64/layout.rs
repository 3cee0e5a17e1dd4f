//! Where each wire of a block stands.
//!
//! ```text
//! z[0..64)         x           free input bits
//! z[64..128)       y           free input bits
//! z[128..256)      prod        product bits, p = x·y
//! z[256]           the constant wire, 1
//! z[257..320)      gap, forced 0
//! z[320..4416)     pp          partial products, 64 aligned 64-bit rows
//! z[4416..8448)    maj         carry AND wires, 63 aligned 64-bit rows
//! z[8448..12417)   sum         non-final sums, 63 rows of 63 bits
//! z[12417..12480)  rip         ripple-carry AND wires, bits 64..127
//! z[12480..16384)  padding, forced 0
//! ```

use vstd::prelude::*;

verus! {

/// The inner dimension as a power of two.
pub const K_LOG: usize = 14;

/// Rows per block, `2^K_LOG`.
pub const K: usize = 16384;

/// The width of the univariate skip.
pub const K_SKIP: usize = 6;

/// Bits of a factor.
pub const WORD_BITS: usize = 64;

/// Bits of the product.
pub const PROD_BITS: usize = 128;

/// Where `x` starts.
pub const X_BASE: usize = 0;

/// Where `y` starts.
pub const Y_BASE: usize = 64;

/// Where the product starts.
pub const PROD_BASE: usize = 128;

/// The constant wire.
pub const Z_CONST_POS: usize = 256;

/// Where the partial products start; word-aligned, after a gap.
pub const PP_BASE: usize = 320;

/// 64 rows of 64 partial products.
pub const PP_COUNT: usize = 4096;

/// Where the carry wires start.
pub const MAJ_BASE: usize = 4416;

/// 63 rounds of 64 carry wires.
pub const MAJ_COUNT: usize = 4032;

/// Where the sums start.
pub const SUM_BASE: usize = 8448;

/// 63 rounds of 63 non-final sums.
pub const SUM_COUNT: usize = 3969;

/// Where the ripple carries start.
pub const RIP_BASE: usize = 12417;

/// Ripple-carry wires of product bits 64..127.
pub const RIP_COUNT: usize = 63;

/// All slots in use lie below.
pub const USEFUL_BITS: usize = 12480;

/// The wires of a block.
pub enum Wire {
    /// Bit `b` of `x`.
    X(int),
    /// Bit `b` of `y`.
    Y(int),
    /// Bit `b` of the product.
    Prod(int),
    /// The constant 1.
    One,
    /// The partial product of row `j` at product bit `i`.
    Pp(int, int),
    /// The carry wire of round `j` at product bit `i`.
    Maj(int, int),
    /// The sum of round `j` at product bit `i`.
    Sum(int, int),
    /// The ripple-carry wire at product bit `i`.
    Rip(int),
    /// No wire: forced to zero.
    Free,
}

impl Wire {
    /// The wires that a block has.
    pub open spec fn valid(self) -> bool {
        match self {
            Wire::X(b) => 0 <= b < 64,
            Wire::Y(b) => 0 <= b < 64,
            Wire::Prod(b) => 0 <= b < 128,
            Wire::One => true,
            Wire::Pp(j, i) => 0 <= j < 64 && j <= i < j + 64,
            Wire::Maj(j, i) => 1 <= j < 64 && j <= i < j + 64,
            Wire::Sum(j, i) => 1 <= j < 64 && j < i < j + 64,
            Wire::Rip(i) => 64 <= i < 127,
            Wire::Free => false,
        }
    }

    /// The slot of a wire.
    pub open spec fn slot(self) -> int {
        match self {
            Wire::X(b) => b,
            Wire::Y(b) => 64 + b,
            Wire::Prod(b) => 128 + b,
            Wire::One => 256,
            Wire::Pp(j, i) => 320 + 64 * j + (i - j),
            Wire::Maj(j, i) => 4416 + 64 * (j - 1) + (i - j),
            Wire::Sum(j, i) => 8448 + 63 * (j - 1) + (i - j - 1),
            Wire::Rip(i) => 12417 + (i - 64),
            Wire::Free => 257,
        }
    }
}

/// The wire at a slot.
pub open spec fn wire_at(s: int) -> Wire {
    if 0 <= s < 64 {
        Wire::X(s)
    } else if 64 <= s < 128 {
        Wire::Y(s - 64)
    } else if 128 <= s < 256 {
        Wire::Prod(s - 128)
    } else if s == 256 {
        Wire::One
    } else if 320 <= s < 4416 {
        Wire::Pp((s - 320) / 64, (s - 320) / 64 + (s - 320) % 64)
    } else if 4416 <= s < 8448 {
        Wire::Maj((s - 4416) / 64 + 1, (s - 4416) / 64 + 1 + (s - 4416) % 64)
    } else if 8448 <= s < 12417 {
        Wire::Sum((s - 8448) / 63 + 1, (s - 8448) / 63 + 2 + (s - 8448) % 63)
    } else if 12417 <= s < 12480 {
        Wire::Rip(s - 12417 + 64)
    } else {
        Wire::Free
    }
}

/// Every wire has a slot of its own, below `USEFUL_BITS`.
pub proof fn lemma_slot(w: Wire)
    requires
        w.valid(),
    ensures
        0 <= w.slot() < USEFUL_BITS,
        wire_at(w.slot()) == w,
{
    match w {
        Wire::Pp(j, i) => {
            assert((64 * j + (i - j)) / 64 == j && (64 * j + (i - j)) % 64 == i - j);
        },
        Wire::Maj(j, i) => {
            assert((64 * (j - 1) + (i - j)) / 64 == j - 1 && (64 * (j - 1) + (i - j)) % 64 == i
                - j);
        },
        Wire::Sum(j, i) => {
            assert((63 * (j - 1) + (i - j - 1)) / 63 == j - 1 && (63 * (j - 1) + (i - j - 1)) % 63
                == i - j - 1);
        },
        _ => {},
    }
}

/// Every slot below `USEFUL_BITS` holds a wire, but for the gap.
pub proof fn lemma_slots_are_used(s: int)
    requires
        0 <= s < K,
    ensures
        wire_at(s).valid() == (s < USEFUL_BITS && !(Z_CONST_POS < s < PP_BASE)),
        wire_at(s).valid() ==> wire_at(s).slot() == s,
        !wire_at(s).valid() ==> wire_at(s) is Free,
{
    if 320 <= s < 4416 {
        let t = s - 320;
        assert(t == 64 * (t / 64) + t % 64);
    } else if 4416 <= s < 8448 {
        let t = s - 4416;
        assert(t == 64 * (t / 64) + t % 64);
    } else if 8448 <= s < 12417 {
        let t = s - 8448;
        assert(t == 63 * (t / 63) + t % 63);
    }
}

/// No two wires share a slot.
pub proof fn lemma_layout_is_injective(v: Wire, w: Wire)
    requires
        v.valid(),
        w.valid(),
        v.slot() == w.slot(),
    ensures
        v == w,
{
    lemma_slot(v);
    lemma_slot(w);
}

/// The slot of bit `b` of `x`.
pub fn x_bit(b: usize) -> (s: usize)
    ensures
        s == Wire::X(b as int).slot(),
        s == b,
{
    X_BASE + b
}

/// The slot of bit `b` of `y`.
pub fn y_bit(b: usize) -> (s: usize)
    requires
        Wire::Y(b as int).slot() <= usize::MAX,
    ensures
        s == Wire::Y(b as int).slot(),
        s == 64 + b,
{
    Y_BASE + b
}

/// The slot of bit `b` of the product.
pub fn prod_bit(b: usize) -> (s: usize)
    requires
        Wire::Prod(b as int).slot() <= usize::MAX,
    ensures
        s == Wire::Prod(b as int).slot(),
        s == 128 + b,
{
    PROD_BASE + b
}

/// The slot of the partial product `x_{i−j} · y_j` (product bit `i`, row `j`,
/// `j ≤ i < j + 64`). Row `j` is the aligned word at `PP_BASE + 64j`.
pub fn pp_bit(j: usize, i: usize) -> (s: usize)
    requires
        j <= i,
        Wire::Pp(j as int, i as int).slot() <= usize::MAX,
    ensures
        s == Wire::Pp(j as int, i as int).slot(),
        s == 320 + 64 * j + (i - j),
{
    PP_BASE + WORD_BITS * j + (i - j)
}

/// The slot of the carry wire of round `j` at product bit `i` (`1 ≤ j < 64`,
/// `j ≤ i < j + 64`). Round `j` is the aligned word at `MAJ_BASE + 64(j−1)`.
pub fn maj_bit(j: usize, i: usize) -> (s: usize)
    requires
        1 <= j <= i,
        Wire::Maj(j as int, i as int).slot() <= usize::MAX,
    ensures
        s == Wire::Maj(j as int, i as int).slot(),
        s == 4416 + 64 * (j - 1) + (i - j),
{
    MAJ_BASE + WORD_BITS * (j - 1) + (i - j)
}

/// The slot of the non-final sum of round `j` at product bit `i`
/// (`j < i < j + 64`; the sum at `i = j` is final and stands at [`prod_bit`]).
pub fn sum_bit(j: usize, i: usize) -> (s: usize)
    requires
        1 <= j < i,
        Wire::Sum(j as int, i as int).slot() <= usize::MAX,
    ensures
        s == Wire::Sum(j as int, i as int).slot(),
        s == 8448 + 63 * (j - 1) + (i - j - 1),
{
    SUM_BASE + (WORD_BITS - 1) * (j - 1) + (i - j - 1)
}

/// The slot of the ripple-carry wire at product bit `i`, `64 ≤ i < 127`.
pub fn rip_bit(i: usize) -> (s: usize)
    requires
        64 <= i,
        Wire::Rip(i as int).slot() <= usize::MAX,
    ensures
        s == Wire::Rip(i as int).slot(),
        s == 12417 + (i - 64),
{
    RIP_BASE + (i - WORD_BITS)
}

} // verus!
