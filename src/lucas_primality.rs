//! The Lucas primality witness for a single base, given the prime factors of `n - 1`.
use crate::arith::{pow_mod, pow_mod_u128, pow_mod_u64};
use vstd::prelude::*;

verus! {

/// Result of the Lucas primality test [`LucasPrimality`].
#[derive(Debug, Clone, Copy, PartialEq, Eq, Structural)]
pub enum LucasPrimalityResult {
    /// The number is prime.
    Prime,
    /// The number is composite.
    Composite,
    /// The test was indecisive for this base.
    Unknown,
}

/// Some listed prime `p` has `b^((n - 1) / p) ≡ 1 (mod n)`.
pub open spec fn some_order_divisor(n: int, factors: Seq<int>, b: int) -> bool {
    exists|i: int|
        0 <= i < factors.len() && #[trigger] pow_mod(b, ((n - 1) / factors[i]) as nat, n) == 1
}

/// What the test returns for `n`, the primes `factors` of `n - 1`, and base `b`:
/// `Composite` when `b^(n - 1) ≢ 1 (mod n)`, otherwise `Unknown` when some listed prime `p`
/// has `b^((n - 1) / p) ≡ 1 (mod n)`, otherwise `Prime`.
pub open spec fn lucas_spec(n: int, factors: Seq<int>, b: int) -> LucasPrimalityResult {
    if pow_mod(b, (n - 1) as nat, n) != 1 {
        LucasPrimalityResult::Composite
    } else if some_order_divisor(n, factors, b) {
        LucasPrimalityResult::Unknown
    } else {
        LucasPrimalityResult::Prime
    }
}

/// The factors as integers.
pub open spec fn ints64(s: Seq<u64>) -> Seq<int> {
    s.map_values(|x: u64| x as int)
}

/// The factors as integers.
pub open spec fn ints128(s: Seq<u128>) -> Seq<int> {
    s.map_values(|x: u128| x as int)
}

/// Test a number for primality using the Lucas primality test.
pub trait LucasPrimality: Sized {
    /// Inputs on which the test is defined: `self >= 1` and no listed factor is zero.
    spec fn lucas_admissible(self, factors: Seq<Self>) -> bool;

    /// Checks `self` for primality with one base.
    ///
    /// `n_minus_1_unique_prime_factors` are the distinct primes dividing `self - 1`. Even for
    /// a prime `self` not every base gives `Prime`; several may need to be tried.
    fn lucas_primality_test(
        self,
        n_minus_1_unique_prime_factors: &[Self],
        base: Self,
    ) -> LucasPrimalityResult
        requires
            self.lucas_admissible(n_minus_1_unique_prime_factors@),
    ;
}

impl LucasPrimality for u64 {
    open spec fn lucas_admissible(self, factors: Seq<u64>) -> bool {
        self >= 1 && forall|i: int| 0 <= i < factors.len() ==> #[trigger] factors[i] > 0
    }

    fn lucas_primality_test(self, n_minus_1_unique_prime_factors: &[u64], base: u64) -> (r:
        LucasPrimalityResult)
        ensures
            r == lucas_spec(self as int, ints64(n_minus_1_unique_prime_factors@), base as int),
    {
        let factors = n_minus_1_unique_prime_factors;
        let ghost fs = ints64(factors@);
        let n_minus_one = self - 1;
        if pow_mod_u64(base, n_minus_one, self) != 1 {
            return LucasPrimalityResult::Composite;
        }
        let mut i: usize = 0;
        while i < factors.len()
            invariant
                self >= 1,
                n_minus_one == self - 1,
                fs == ints64(factors@),
                factors@ == n_minus_1_unique_prime_factors@,
                forall|k: int| 0 <= k < factors@.len() ==> #[trigger] factors@[k] > 0,
                i <= factors.len(),
                pow_mod(base as int, (self - 1) as nat, self as int) == 1,
                forall|j: int|
                    0 <= j < i ==> #[trigger] pow_mod(base as int, ((self - 1) / fs[j]) as nat, self as int)
                        != 1,
            decreases factors.len() - i,
        {
            let f = factors[i];
            if pow_mod_u64(base, n_minus_one / f, self) == 1 {
                assert(fs[i as int] == f as int);
                assert(pow_mod(base as int, ((self - 1) / fs[i as int]) as nat, self as int) == 1);
                return LucasPrimalityResult::Unknown;
            }
            assert(fs[i as int] == f as int);
            i = i + 1;
        }
        LucasPrimalityResult::Prime
    }
}

impl LucasPrimality for u128 {
    open spec fn lucas_admissible(self, factors: Seq<u128>) -> bool {
        self >= 1 && forall|i: int| 0 <= i < factors.len() ==> #[trigger] factors[i] > 0
    }

    fn lucas_primality_test(self, n_minus_1_unique_prime_factors: &[u128], base: u128) -> (r:
        LucasPrimalityResult)
        ensures
            r == lucas_spec(self as int, ints128(n_minus_1_unique_prime_factors@), base as int),
    {
        let factors = n_minus_1_unique_prime_factors;
        let ghost fs = ints128(factors@);
        let n_minus_one = self - 1;
        if pow_mod_u128(base, n_minus_one, self) != 1 {
            return LucasPrimalityResult::Composite;
        }
        let mut i: usize = 0;
        while i < factors.len()
            invariant
                self >= 1,
                n_minus_one == self - 1,
                fs == ints128(factors@),
                factors@ == n_minus_1_unique_prime_factors@,
                forall|k: int| 0 <= k < factors@.len() ==> #[trigger] factors@[k] > 0,
                i <= factors.len(),
                pow_mod(base as int, (self - 1) as nat, self as int) == 1,
                forall|j: int|
                    0 <= j < i ==> #[trigger] pow_mod(base as int, ((self - 1) / fs[j]) as nat, self as int)
                        != 1,
            decreases factors.len() - i,
        {
            let f = factors[i];
            if pow_mod_u128(base, n_minus_one / f, self) == 1 {
                assert(fs[i as int] == f as int);
                assert(pow_mod(base as int, ((self - 1) / fs[i as int]) as nat, self as int) == 1);
                return LucasPrimalityResult::Unknown;
            }
            assert(fs[i as int] == f as int);
            i = i + 1;
        }
        LucasPrimalityResult::Prime
    }
}

} // verus!
