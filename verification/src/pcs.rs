//! The polynomial-commitment side: parameters, packing, the tensor algebra and the
//! ring-switching reduction.

use vstd::prelude::*;

pub mod pack;
pub mod ring_switch;
pub mod tensor_algebra;

verus! {

/// The named parameter sets of the commitment, each with the rate of its code.
#[derive(Clone, Copy, Debug, PartialEq, Eq, Structural)]
pub enum LigeritoProfile {
    Fast { log_inv_rate: usize },
    Slim { log_inv_rate: usize },
    Secure { log_inv_rate: usize },
}

impl LigeritoProfile {
    /// The inverse of the code rate, as a power of two.
    pub open spec fn rate(self) -> usize {
        match self {
            LigeritoProfile::Fast { log_inv_rate } => log_inv_rate,
            LigeritoProfile::Slim { log_inv_rate } => log_inv_rate,
            LigeritoProfile::Secure { log_inv_rate } => log_inv_rate,
        }
    }

    /// The inverse of the code rate, as a power of two.
    pub fn log_inv_rate(self) -> (r: usize)
        ensures
            r == self.rate(),
            self matches LigeritoProfile::Fast { log_inv_rate } ==> r == log_inv_rate,
            self matches LigeritoProfile::Slim { log_inv_rate } ==> r == log_inv_rate,
            self matches LigeritoProfile::Secure { log_inv_rate } ==> r == log_inv_rate,
    {
        match self {
            LigeritoProfile::Fast { log_inv_rate } => log_inv_rate,
            LigeritoProfile::Slim { log_inv_rate } => log_inv_rate,
            LigeritoProfile::Secure { log_inv_rate } => log_inv_rate,
        }
    }
}

/// What the commitment is set up with.
#[derive(Clone, Copy, Debug, PartialEq, Eq, Structural)]
pub struct PcsParams {
    /// The number of witness bits, as a power of two.
    pub m: usize,
    /// The inverse of the code rate, as a power of two.
    pub log_inv_rate: usize,
    /// The number of columns that are committed together, as a power of two.
    pub log_batch_size: usize,
    /// The parameter set.
    pub profile: LigeritoProfile,
}

} // verus!
