//! Integer factorization, primality checking and primality certification for `u64` and
//! `u128`.
//!
//! Factors are found by trial division with a 6-wheel ([`trial_division`]) and by Pollard's
//! rho over Brent's cycle search ([`pollard_rho`], [`brent_cycle`]). On 64-bit numbers
//! primality is decided by Miller–Rabin over a deterministic base set
//! ([`optimized_factoring`]); above `2^64` a prime is accepted only with a Lucas
//! certificate ([`wide`]). Certificates ([`certificate`]) stay valid under every function
//! that fills them: each element passes the Lucas test over primes that are themselves
//! certified and whose powers make up `n - 1`.
//!
//! The modular square roots ([`residue`]), the Jacobi symbol ([`lucas_pseudoprime`]) and the
//! bit vectors over GF(2) ([`bitvector`]) serve the quadratic sieve.

pub mod arith;
pub mod bitvector;
pub mod brent_cycle;
pub mod certificate;
pub mod event;
pub mod factor_list;
pub mod factoring;
pub mod lucas_primality;
pub mod lucas_pseudoprime;
pub mod miller_rabin;
pub mod optimized_factoring;
pub mod pollard_rho;
pub mod primality;
pub mod residue;
pub mod trial_division;
pub mod util;
pub mod wide;

pub use certificate::{LucasCertificate, LucasCertificateElement, LucasCertificateTrait};
pub use event::{EmptyFactoringEventSubscriptor, FactoringEventSubscriptor};
pub use optimized_factoring::{CertifiedFactorization, Factoring, Primality, PrimalityCertainty};
pub use util::NumUtil;
