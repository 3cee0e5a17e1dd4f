//! The multiplication `u64 × u64 → u128` as constraints over GF(2): one exact
//! 128-bit product `p = x·y` per block, many blocks side by side.
//!
//! A block multiplies by the school method: 4,096 partial products, 63 rounds of
//! carry-save addition, and a ripple-carry adder over the upper half. No row of
//! the matrices has more than five columns. [`layout`] says where the wires stand,
//! [`adder`] what the adders compute, [`circuit`] what the constraints are.

pub mod adder;
pub mod batch;
pub mod circuit;
pub mod layout;
pub mod matrices;
pub mod packed;
pub mod setup;
pub mod witness;

pub use batch::{build_block_r1cs, generate_witness_with_ab_packed_and_lincheck};
pub use layout::{
    maj_bit, pp_bit, prod_bit, rip_bit, sum_bit, x_bit, y_bit, K, K_LOG, K_SKIP, MAJ_BASE,
    MAJ_COUNT, PP_BASE, PP_COUNT, PROD_BASE, PROD_BITS, RIP_BASE, RIP_COUNT, SUM_BASE, SUM_COUNT,
    USEFUL_BITS, WORD_BITS, X_BASE, Y_BASE, Z_CONST_POS,
};
pub use matrices::build_matrices;
pub use packed::build_block_zab;
pub use setup::{min_n_blocks_log, Mul64Setup};
pub use witness::{build_block_witness, read_prod};
