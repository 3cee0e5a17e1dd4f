//! The ring-switching reduction (DP24 style, adapted to the `φ_8` basis).
//!
//! It turns the zerocheck's claim `ẑ_skip(z_skip, x_outer) = v` into a sumcheck
//! claim over the packed multilinear, with a transparent multilinear `rs_eq_ind`.
//!
//! ## Layout, for an `m`-bit witness packed 256 bits to an element
//!
//! - prefix bits 0..6 are weighted by `ν_φ8(·)(z_skip)`, the 64 Lagrange weights;
//! - prefix bits 6 and 7 by `eq(x_outer[0], ·)` and `eq(x_outer[1], ·)`;
//! - the suffix coordinates are `x_outer[2..]`, `m − 8` of them.
//!
//! The packed witness has `2^(m−8)` elements indexed by the suffix; `s_hat_v` has
//! 256 entries indexed by the prefix. The `φ_8` basis is no novelty basis, so the
//! 64 Lagrange weights do not factor into a tensor: the claim check takes them
//! directly, and all else is independent of the prefix.
//!
//! The prover materializes `rs_eq_ind` ([`prove`], [`prove_batched`]); the verifier
//! need not ([`verify_succinct`], [`eval_rs_eq`]).

pub mod batched;
pub mod claim;
pub mod elems;
pub mod eq;
pub mod eval;
pub mod fold;
pub mod reduction;
pub mod rows;
pub mod rs_eq_ind;
pub mod sparse;
pub mod sparse_fold;
pub mod z_vec;

pub use batched::{
    prove_batched, prove_batched_padded, prove_batched_padded_with_precomputed,
    RingSwitchBatchOutput,
};
pub use claim::{build_claim_weights, claim_check, inner_product, tensor_algebra_transpose};
pub use elems::{fold_b128_elems, fold_b128_elems_naive, fold_b128_elems_split};
pub use eq::{build_eq_split, split_n_lo};
pub use eval::{
    eval_rs_eq, eval_rs_eq_finish_from_prefix, eval_rs_eq_finish_from_prefix_binary_q,
    eval_rs_eq_prefix,
};
pub use reduction::{
    prove, verify, verify_succinct, RingSwitchOutput, RingSwitchProof, RingSwitchVerifierOutput,
    VerifyError,
};
pub use rows::{
    fold_1b_rows_1way_mfr, fold_1b_rows_1way_mfr_16wide_k4, fold_1b_rows_1way_mfr_16wide_padded,
    fold_1b_rows_1way_mfr_8wide_k4, fold_1b_rows_2way_mfr, fold_1b_rows_2way_mfr_8wide,
    fold_1b_rows_2way_mfr_8wide_padded, fold_1b_rows_2way_mfr_padded, fold_1b_rows_multi,
    fold_1b_rows_multi_padded, fold_1b_rows_naive, fold_1b_rows_split, fold_1b_rows_split_2way,
};
pub use rs_eq_ind::RsEqInd;
pub use sparse::{build_eq_sparse, SparseEqTensor};
pub use sparse_fold::{fold_1b_rows_sparse, fold_b128_elems_sparse, fold_b128_elems_sparse_pairs};
pub use z_vec::s_hat_v_from_z_vec;
