//! Binary-field building blocks of a succinct argument system: GF(2^256), the
//! tensor algebra over it, the ring-switching reduction of a packed polynomial
//! commitment, and a constraint system for 64-bit multiplication.

pub mod challenger;
pub mod field;
pub mod lincheck;
mod parallel;
pub mod pcs;
pub mod r1cs;
pub mod r1cs_mul64;
pub mod zerocheck;
