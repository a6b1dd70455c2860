//! The Miller–Rabin compositeness test for a single base.
use crate::arith::{mul_mod_u128, mul_mod_u64, pow_mod, pow_mod_u128, pow_mod_u64};
use vstd::arithmetic::power::{lemma_pow_multiplies, lemma_square_is_pow2, pow};
use vstd::arithmetic::power2::{lemma_pow2_adds, pow2};
use vstd::prelude::*;

verus! {

/// Result of the Miller–Rabin compositeness check.
///
/// A single test can only certify compositeness: `MaybePrime` does not guarantee primality.
#[derive(Debug, Clone, Copy, PartialEq, Eq, Structural)]
pub enum Result {
    /// The number is composite.
    Composite,
    /// The number was not shown to be composite, and may be prime.
    MaybePrime,
}

/// `m = d * 2^s` with `d` odd, for `m > 0`: the pair `(d, s)`.
pub open spec fn odd_part(m: nat) -> (nat, nat)
    decreases m,
{
    if m == 0 || m % 2 == 1 {
        (m, 0)
    } else {
        let (d, s) = odd_part(m / 2);
        (d, s + 1)
    }
}

/// `n` is a strong probable prime to base `b`: with `n - 1 = d * 2^s` and `d` odd,
/// `b ≡ 0`, or `b^d ≡ 1`, or `b^(d 2^i) ≡ -1 (mod n)` for some `i < s`.
/// 2 passes; other even numbers and numbers below 2 do not.
pub open spec fn strong_probable_prime(n: int, b: int) -> bool {
    if n < 2 {
        false
    } else if n == 2 {
        true
    } else if n % 2 == 0 {
        false
    } else {
        let (d, s) = odd_part((n - 1) as nat);
        b % n == 0 || pow_mod(b, d, n) == 1 || reaches_minus_one(b, d, s, n)
    }
}

/// Some `b^(d 2^i)` with `i < s` is `-1` modulo `n`.
pub open spec fn reaches_minus_one(b: int, d: nat, s: nat, n: int) -> bool {
    exists|i: nat| i < s && #[trigger] pow_mod(b, d * pow2(i), n) == n - 1
}

proof fn lemma_reaches_minus_one(b: int, d: nat, s: nat, n: int, i: nat)
    requires
        i < s,
        pow_mod(b, d * pow2(i), n) == n - 1,
    ensures
        reaches_minus_one(b, d, s, n),
{
}

/// What the test returns for `n` and base `b`.
pub open spec fn miller_rabin_spec(n: int, b: int) -> Result {
    if strong_probable_prime(n, b) {
        Result::MaybePrime
    } else {
        Result::Composite
    }
}

proof fn lemma_square_step(b: int, e: nat, n: int)
    requires
        n > 0,
    ensures
        pow_mod(b, e * 2, n) == ((pow_mod(b, e, n) * pow_mod(b, e, n)) % n),
{
    lemma_pow_multiplies(b, e, 2);
    lemma_square_is_pow2(pow(b, e));
    vstd::arithmetic::div_mod::lemma_mul_mod_noop(pow(b, e), pow(b, e), n);
}

proof fn lemma_odd_part_step(m: nat)
    requires
        m > 0,
        m % 2 == 0,
    ensures
        odd_part(m).0 == odd_part(m / 2).0,
        odd_part(m).1 == odd_part(m / 2).1 + 1,
{
}

/// Implements the Miller–Rabin compositeness test.
pub trait MillerRabin: Sized {
    /// May return `MaybePrime` for composite numbers ('strong probable primes').
    ///
    /// When returning `Composite`, `self` is not prime.
    fn miller_rabin(self, base: Self) -> Result;
}

impl MillerRabin for u64 {
    fn miller_rabin(self, base: u64) -> (r: Result)
        ensures
            r == miller_rabin_spec(self as int, base as int),
    {
        let n = self;
        if n < 2 {
            return Result::Composite;
        }
        if n == 2 {
            return Result::MaybePrime;
        }
        if n % 2 == 0 {
            return Result::Composite;
        }
        let n_minus_one = n - 1;
        let mut d = n_minus_one;
        let mut s: u32 = 0;
        proof {
            vstd::arithmetic::power2::lemma2_to64();
        }
        while d % 2 == 0
            invariant
                d > 0,
                s <= 64,
                odd_part(n_minus_one as nat).0 == odd_part(d as nat).0,
                odd_part(n_minus_one as nat).1 == odd_part(d as nat).1 + s,
                d as int * pow2(s as nat) == n_minus_one as int,
            decreases d,
        {
            proof {
                lemma_odd_part_step(d as nat);
                lemma_pow2_adds(s as nat, 1);
                vstd::arithmetic::power2::lemma2_to64();
                assert(d as int * pow2(s as nat) == (d / 2) as int * pow2((s + 1) as nat)) by (nonlinear_arith)
                    requires
                        d % 2 == 0,
                        pow2((s + 1) as nat) == pow2(s as nat) * 2,
                ;
                assert(d as int * pow2(s as nat) >= 2 * pow2(s as nat)) by (nonlinear_arith)
                    requires
                        d >= 2,
                ;
                if s >= 63 {
                    if s > 63 {
                        vstd::arithmetic::power2::lemma_pow2_strictly_increases(63, s as nat);
                    }
                    vstd::arithmetic::power2::lemma2_to64_rest();
                }
            }
            d = d / 2;
            s = s + 1;
        }
        assert(odd_part(d as nat) == (d as nat, 0nat));
        let ghost dd = odd_part(n_minus_one as nat).0;
        let ghost ss = odd_part(n_minus_one as nat).1;
        if base % n == 0 {
            return Result::MaybePrime;
        }
        let mut x = pow_mod_u64(base, d, n);
        if x == 1 || x == n_minus_one {
            proof {
                if x == n_minus_one && x != 1 {
                    vstd::arithmetic::power2::lemma2_to64();
                    assert(dd * pow2(0) == dd);
                    lemma_reaches_minus_one(base as int, dd, ss, n as int, 0);
                }
            }
            return Result::MaybePrime;
        }
        let mut i: u32 = 1;
        proof {
            vstd::arithmetic::power2::lemma2_to64();
            assert(dd * pow2(0) == dd);
            assert forall|j: nat| j < 1 implies #[trigger] pow_mod(base as int, dd * pow2(j), n as int) != n - 1 by {
                assert(j == 0);
            }
        }
        while i < s
            invariant
                1 <= i <= s || s == 0,
                s == ss,
                d == dd,
                dd == odd_part(n_minus_one as nat).0,
                ss == odd_part(n_minus_one as nat).1,
                n == self,
                n >= 3,
                n % 2 == 1,
                n_minus_one == n - 1,
                x == pow_mod(base as int, dd * pow2((i - 1) as nat), n as int),
                pow_mod(base as int, dd, n as int) != 1,
                base % n != 0,
                forall|j: nat| j < i ==> #[trigger] pow_mod(base as int, dd * pow2(j), n as int) != n - 1,
            decreases s - i,
        {
            proof {
                lemma_square_step(base as int, dd * pow2((i - 1) as nat), n as int);
                lemma_pow2_adds((i - 1) as nat, 1);
                vstd::arithmetic::power2::lemma2_to64();
                assert(dd * pow2((i - 1) as nat) * 2 == dd * pow2(i as nat)) by (nonlinear_arith)
                    requires
                        pow2(i as nat) == pow2((i - 1) as nat) * 2,
                ;
            }
            x = mul_mod_u64(x, x, n);
            if x == n_minus_one {
                proof {
                    lemma_reaches_minus_one(base as int, dd, ss, n as int, i as nat);
                }
                return Result::MaybePrime;
            }
            i = i + 1;
        }
        proof {
            assert forall|j: nat| j < ss implies #[trigger] pow_mod(base as int, dd * pow2(j), n as int) != n - 1 by {
                if s == 0 {
                } else {
                    assert(j < i);
                }
            }
        }
        Result::Composite
    }
}


impl MillerRabin for u128 {
    fn miller_rabin(self, base: u128) -> (r: Result)
        ensures
            r == miller_rabin_spec(self as int, base as int),
    {
        let n = self;
        if n < 2 {
            return Result::Composite;
        }
        if n == 2 {
            return Result::MaybePrime;
        }
        if n % 2 == 0 {
            return Result::Composite;
        }
        let n_minus_one = n - 1;
        let mut d = n_minus_one;
        let mut s: u32 = 0;
        proof {
            vstd::arithmetic::power2::lemma2_to64();
        }
        while d % 2 == 0
            invariant
                d > 0,
                s <= 128,
                odd_part(n_minus_one as nat).0 == odd_part(d as nat).0,
                odd_part(n_minus_one as nat).1 == odd_part(d as nat).1 + s,
                d as int * pow2(s as nat) == n_minus_one as int,
            decreases d,
        {
            proof {
                lemma_odd_part_step(d as nat);
                lemma_pow2_adds(s as nat, 1);
                vstd::arithmetic::power2::lemma2_to64();
                assert(d as int * pow2(s as nat) == (d / 2) as int * pow2((s + 1) as nat)) by (nonlinear_arith)
                    requires
                        d % 2 == 0,
                        pow2((s + 1) as nat) == pow2(s as nat) * 2,
                ;
                assert(d as int * pow2(s as nat) >= 2 * pow2(s as nat)) by (nonlinear_arith)
                    requires
                        d >= 2,
                ;
                if s >= 127 {
                    if s > 127 {
                        vstd::arithmetic::power2::lemma_pow2_strictly_increases(127, s as nat);
                    }
                    vstd::arithmetic::power2::lemma2_to64_rest();
                    lemma_pow2_adds(64, 63);
                }
            }
            d = d / 2;
            s = s + 1;
        }
        assert(odd_part(d as nat) == (d as nat, 0nat));
        let ghost dd = odd_part(n_minus_one as nat).0;
        let ghost ss = odd_part(n_minus_one as nat).1;
        if base % n == 0 {
            return Result::MaybePrime;
        }
        let mut x = pow_mod_u128(base, d, n);
        if x == 1 || x == n_minus_one {
            proof {
                if x == n_minus_one && x != 1 {
                    vstd::arithmetic::power2::lemma2_to64();
                    assert(dd * pow2(0) == dd);
                    lemma_reaches_minus_one(base as int, dd, ss, n as int, 0);
                }
            }
            return Result::MaybePrime;
        }
        let mut i: u32 = 1;
        proof {
            vstd::arithmetic::power2::lemma2_to64();
            assert(dd * pow2(0) == dd);
            assert forall|j: nat| j < 1 implies #[trigger] pow_mod(base as int, dd * pow2(j), n as int) != n - 1 by {
                assert(j == 0);
            }
        }
        while i < s
            invariant
                1 <= i <= s || s == 0,
                s == ss,
                d == dd,
                dd == odd_part(n_minus_one as nat).0,
                ss == odd_part(n_minus_one as nat).1,
                n == self,
                n >= 3,
                n % 2 == 1,
                n_minus_one == n - 1,
                x == pow_mod(base as int, dd * pow2((i - 1) as nat), n as int),
                pow_mod(base as int, dd, n as int) != 1,
                base % n != 0,
                forall|j: nat| j < i ==> #[trigger] pow_mod(base as int, dd * pow2(j), n as int) != n - 1,
            decreases s - i,
        {
            proof {
                lemma_square_step(base as int, dd * pow2((i - 1) as nat), n as int);
                lemma_pow2_adds((i - 1) as nat, 1);
                vstd::arithmetic::power2::lemma2_to64();
                assert(dd * pow2((i - 1) as nat) * 2 == dd * pow2(i as nat)) by (nonlinear_arith)
                    requires
                        pow2(i as nat) == pow2((i - 1) as nat) * 2,
                ;
            }
            x = mul_mod_u128(x, x, n);
            if x == n_minus_one {
                proof {
                    lemma_reaches_minus_one(base as int, dd, ss, n as int, i as nat);
                }
                return Result::MaybePrime;
            }
            i = i + 1;
        }
        proof {
            assert forall|j: nat| j < ss implies #[trigger] pow_mod(base as int, dd * pow2(j), n as int) != n - 1 by {
                if s == 0 {
                } else {
                    assert(j < i);
                }
            }
        }
        Result::Composite
    }
}

} // verus!
