//! The Jacobi symbol, for the Lucas probable-prime test.
use crate::util::{gcd, lemma_gcd_halve, lemma_gcd_symmetric};
use vstd::prelude::*;

verus! {

/// Outcome of [`jacobi`].
#[derive(Clone, Copy, Debug, PartialEq, Eq, Structural)]
pub enum JacobiResult {
    /// The symbol's sign flag ended up set.
    QuadraticResidue,
    /// The symbol's sign flag ended up clear.
    NonQuadraticResidue,
    /// `n` and `k` share a factor.
    Factor,
}

/// The Jacobi symbol of `k` over the odd `n`, by reciprocity: factors 2 are removed from `k`
/// (flipping the sign when `n ≡ 3, 5 (mod 8)` and their count is odd), then `n` and `k` swap
/// (flipping the sign when both are `≡ 3 (mod 4)`) and `k` is reduced modulo `n`.
pub fn jacobi(n: u64, k: u64) -> (r: JacobiResult)
    requires
        n > 0,
    ensures
        n % 2 == 1 ==> ((r == JacobiResult::Factor) == (gcd(n as nat, k as nat) != 1)),
{
    let ghost n0 = n;
    let ghost k0 = k;
    let mut n = n;
    let mut k = k % n;
    proof {
        lemma_gcd_symmetric(n as nat, k0 as nat);
        assert(gcd(k0 as nat, n as nat) == gcd(n as nat, (k0 % n) as nat));
    }
    let mut quadratic_residue = false;
    while k != 0
        invariant
            n > 0,
            k < n,
            n0 % 2 == 1 ==> n % 2 == 1 && gcd(n as nat, k as nat) == gcd(n0 as nat, k0 as nat),
        decreases n,
    {
        let mut zero_count: u32 = 0;
        while k % 2 == 0
            invariant
                k > 0,
                k < n,
                zero_count < 64,
                n0 % 2 == 1 ==> n % 2 == 1 && gcd(n as nat, k as nat) == gcd(n0 as nat, k0 as nat),
            decreases k,
        {
            proof {
                if n0 % 2 == 1 {
                    lemma_gcd_halve(n as nat, k as nat);
                }
            }
            k = k / 2;
            if zero_count < 63 {
                zero_count = zero_count + 1;
            }
        }
        if zero_count & 1 == 1 && (n & 0b111 == 3 || n & 0b111 == 5) {
            quadratic_residue = !quadratic_residue;
        }
        let t = k;
        k = n;
        n = t;
        if n & 0b11 == 3 && k & 0b11 == 3 {
            quadratic_residue = !quadratic_residue;
        }
        proof {
            lemma_gcd_symmetric(k as nat, n as nat);
            assert(gcd(n as nat, k as nat) == gcd(k as nat, (n % k) as nat) || k == 0);
        }
        let ghost before = k;
        k = k % n;
        proof {
            lemma_gcd_symmetric(before as nat, n as nat);
            assert(gcd(before as nat, n as nat) == gcd(n as nat, (before % n) as nat));
        }
    }
    if n == 1 {
        if quadratic_residue {
            JacobiResult::QuadraticResidue
        } else {
            JacobiResult::NonQuadraticResidue
        }
    } else {
        JacobiResult::Factor
    }
}

} // verus!
