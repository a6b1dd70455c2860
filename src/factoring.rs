//! Factorization algorithms for integers.

pub use crate::brent_cycle::{find_cycle, CycleConditionChecker, MapFunction};
pub use crate::pollard_rho::PollardRho;
pub use crate::trial_division::TrialDivision;
