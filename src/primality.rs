//! Primality checking algorithms for integers.

pub use crate::lucas_primality::{LucasPrimality, LucasPrimalityResult};
pub use crate::miller_rabin::MillerRabin;
pub use crate::miller_rabin::Result as MillerRabinCompositeResult;
