//! Binary field arithmetic.
//!
//! - [`F128`] is GF(2^128) in GHASH form, modulo `x^128 + x^7 + x^2 + x + 1`.
//! - [`F256`] is GF(2^256), the quadratic extension `F128[u]/(u² + u + β)`.
//!
//! [`residue`] and [`frobenius`] hold the theory of the residues that the fields
//! are built on, [`bits`] and [`sums`] that of the elements of [`F256`] as bit
//! vectors and of finite sums of them, and [`phi8`] the embedding of GF(2^8).

pub mod bits;
pub mod frobenius;
pub mod gf2_128;
pub mod gf2_256;
pub mod phi8;
pub mod residue;
pub mod sums;

pub use gf2_128::{mul_by_x, F128};
pub use gf2_256::F256;
