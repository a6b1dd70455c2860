//! The factorization driver: trial division, then Pollard's rho on what is left, with every
//! prime confirmed by Miller–Rabin and, on request, certified by a Lucas certificate.
use crate::arith::{divides, is_prime_spec, pow_mod, product64, sorted64};
use crate::certificate::{
    cert_has64, cert_sorted64, cert_valid64, element_valid64, smooth64, LucasCertificate, LucasCertificateElement,
    LucasCertificateTrait,
};
use crate::event::{EmptyFactoringEventSubscriptor, FactoringEventSubscriptor};
use crate::factor_list::{
    dedup_sorted64, insert_sorted64, lemma_product64_divides, lemma_product64_insert,
    lemma_product64_positive, lemma_weight64_nonneg, weight64,
};
use crate::lucas_primality::{ints64, lucas_spec, LucasPrimality, LucasPrimalityResult};
use crate::miller_rabin::{strong_probable_prime, MillerRabin, Result as MillerRabinCompositeResult};
use crate::pollard_rho::PollardRho;
use crate::trial_division::{all_prime64, trial_result64, TrialDivision};
use crate::util::lemma_divisor_le;
use vstd::prelude::*;

verus! {

/// Largest factor tried by trial division before Pollard's rho takes over.
pub const TRIAL_THRESHOLD: u64 = 4095;

/// Pollard's rho attempts (with successive increments) on one composite before it is split
/// by trial division instead.
pub const RHO_ATTEMPTS: u64 = 32;

/// Grade of certainty for a primality check.
#[derive(Debug, Clone, Copy, PartialEq, Eq, Structural)]
pub enum PrimalityCertainty {
    /// Deterministic check, without a certificate.
    Guaranteed,
    /// Same as `Guaranteed`, and also fills the certificate passed along.
    Certified,
}

/// Outcome of one certified primality check.
#[derive(Debug, Clone, Copy, PartialEq, Eq, Structural)]
pub enum CheckOutcome {
    /// Prime; certified when a certificate was asked for.
    Prime,
    /// Composite: some deterministic base witnesses it.
    NotPrime,
    /// Passes every deterministic base, but no Lucas witness was found.
    Uncertified,
}

/// The `i`-th base of the deterministic Miller–Rabin set for 64-bit numbers.
pub open spec fn deterministic_base(i: int) -> int {
    if i == 0 {
        2
    } else if i == 1 {
        325
    } else if i == 2 {
        9375
    } else if i == 3 {
        28178
    } else if i == 4 {
        450775
    } else if i == 5 {
        9780504
    } else {
        1795265022
    }
}

/// `n` is a strong probable prime to each base of the deterministic set.
pub open spec fn passes_deterministic_bases(n: int) -> bool {
    forall|i: int| 0 <= i < 7 ==> strong_probable_prime(n, #[trigger] deterministic_base(i))
}

/// `b` has order `m - 1` modulo `m`: `b^(m-1) ≡ 1`, and `b^((m-1)/d) ≢ 1` for every divisor
/// `d > 1` of `m - 1`.
pub open spec fn full_order_base(m: int, b: int) -> bool {
    &&& pow_mod(b, (m - 1) as nat, m) == 1
    &&& forall|d: int| 1 < d && #[trigger] divides(d, m - 1) ==> pow_mod(b, ((m - 1) / d) as nat, m) != 1
}

/// The congruences a Lucas certificate of `m` rests on: Fermat's `b^(m-1) ≡ 1 (mod m)` for
/// every base `b` in `[2, m)`, and a base of order `m - 1` below `m`.
pub open spec fn lucas_facts(m: int) -> bool {
    &&& forall|b: int| 2 <= b < m ==> #[trigger] pow_mod(b, (m - 1) as nat, m) == 1
    &&& exists|b: int| 2 <= b < m && #[trigger] full_order_base(m, b)
}

/// The number theory that certification up to `n` rests on, which this library uses as a
/// hypothesis and does not prove: every prime in `[2, n]` passes the deterministic bases
/// (Miller–Rabin never rejects a prime), and every `m` in `[3, n]` that passes them satisfies
/// [`lucas_facts`] (Fermat's little theorem and the existence of a primitive root, for a
/// prime `m`).
pub open spec fn certification_facts64(n: int) -> bool {
    &&& forall|m: int| 2 <= m <= n && #[trigger] is_prime_spec(m) ==> passes_deterministic_bases(m)
    &&& forall|m: int| 3 <= m <= n && #[trigger] passes_deterministic_bases(m) ==> lucas_facts(m)
}

/// A factor the driver accepts as prime: proved prime, or passing every deterministic base.
pub open spec fn accepted_prime64(p: int) -> bool {
    p >= 2 && (is_prime_spec(p) || passes_deterministic_bases(p))
}

/// Every element of the list is an accepted prime.
pub open spec fn all_accepted64(s: Seq<u64>) -> bool {
    forall|i: int| 0 <= i < s.len() ==> accepted_prime64(#[trigger] s[i] as int)
}

/// Everything certified in `a` is certified in `b`.
pub open spec fn cert_grows64(
    a: Seq<LucasCertificateElement<u64>>,
    b: Seq<LucasCertificateElement<u64>>,
) -> bool {
    forall|p: u64| cert_has64(a, p) ==> #[trigger] cert_has64(b, p)
}

/// What `b` certifies beyond `a` is at most `m`.
pub open spec fn cert_new_bounded64(
    a: Seq<LucasCertificateElement<u64>>,
    b: Seq<LucasCertificateElement<u64>>,
    m: int,
) -> bool {
    forall|p: u64| #[trigger] cert_has64(b, p) ==> cert_has64(a, p) || p <= m
}

/// What `b` certifies beyond `a` is at most some element of `l`.
pub open spec fn cert_new_within64(
    a: Seq<LucasCertificateElement<u64>>,
    b: Seq<LucasCertificateElement<u64>>,
    l: Seq<u64>,
) -> bool {
    forall|p: u64|
        #[trigger] cert_has64(b, p) ==> cert_has64(a, p) || exists|i: int|
            0 <= i < l.len() && p <= #[trigger] l[i]
}

/// Every element of `l` is certified in `c`.
pub open spec fn all_certified64(c: Seq<LucasCertificateElement<u64>>, l: Seq<u64>) -> bool {
    forall|i: int| 0 <= i < l.len() ==> cert_has64(c, #[trigger] l[i])
}

fn deterministic_base_at(i: usize) -> (b: u64)
    requires
        i < 7,
    ensures
        b == deterministic_base(i as int),
{
    if i == 0 {
        2
    } else if i == 1 {
        325
    } else if i == 2 {
        9375
    } else if i == 3 {
        28178
    } else if i == 4 {
        450775
    } else if i == 5 {
        9780504
    } else {
        1795265022
    }
}

/// Deterministic primality of a 64-bit number: Miller–Rabin over the bases
/// `2, 325, 9375, 28178, 450775, 9780504, 1795265022`.
pub fn is_prime64(n: u64) -> (r: bool)
    ensures
        r == passes_deterministic_bases(n as int),
{
    let mut i: usize = 0;
    while i < 7
        invariant
            i <= 7,
            forall|j: int| 0 <= j < i ==> strong_probable_prime(n as int, #[trigger] deterministic_base(j)),
        decreases 7 - i,
    {
        let b = deterministic_base_at(i);
        if n.miller_rabin(b) == MillerRabinCompositeResult::Composite {
            assert(!strong_probable_prime(n as int, deterministic_base(i as int)));
            return false;
        }
        i = i + 1;
    }
    true
}

/// Checks `n` for primality; in `Certified` mode also adds its Lucas certificate (and those
/// of the primes below it that the certificate relies on).
pub fn certified_prime_check64(
    n: u64,
    certainty: PrimalityCertainty,
    cert: &mut LucasCertificate<u64>,
) -> (o: CheckOutcome)
    requires
        n >= 1,
        cert_valid64(old(cert).elements@),
    ensures
        cert_valid64(final(cert).elements@),
        cert_grows64(old(cert).elements@, final(cert).elements@),
        cert_new_bounded64(old(cert).elements@, final(cert).elements@, n as int),
        (o == CheckOutcome::NotPrime) == !passes_deterministic_bases(n as int),
        o == CheckOutcome::NotPrime ==> final(cert).elements@ == old(cert).elements@,
        certainty == PrimalityCertainty::Guaranteed ==> final(cert).elements@ == old(cert).elements@ && o != CheckOutcome::Uncertified,
        certainty == PrimalityCertainty::Certified && o == CheckOutcome::Prime ==> cert_has64(
            final(cert).elements@,
            n,
        ),
        certification_facts64(n as int) && passes_deterministic_bases(n as int) ==> o
            == CheckOutcome::Prime,
    decreases 4 * n,
{
    if !is_prime64(n) {
        return CheckOutcome::NotPrime;
    }
    if certainty == PrimalityCertainty::Guaranteed {
        return CheckOutcome::Prime;
    }
    if cert.contains(&n) {
        return CheckOutcome::Prime;
    }
    assert(n >= 2) by {
        assert(strong_probable_prime(n as int, deterministic_base(0)));
    }
    if n == 2 {
        let e = LucasCertificateElement { n: 2, base: 1, unique_prime_divisors: vec![1] };
        proof {
            assert(e.unique_prime_divisors@ =~= seq![1u64]);
        }
        cert.push(e);
        return CheckOutcome::Prime;
    }
    let mut events = EmptyFactoringEventSubscriptor {};
    let (factors, all_certified) = certified_factor64(
        n - 1,
        PrimalityCertainty::Certified,
        cert,
        &mut events,
    );
    if !all_certified {
        return CheckOutcome::Uncertified;
    }
    let ghost facts = certification_facts64(n as int);
    let ghost witness: int = if facts {
        choose|b: int| 2 <= b < n && #[trigger] full_order_base(n as int, b)
    } else {
        0
    };
    proof {
        if facts {
            assert(passes_deterministic_bases(n as int));
            assert(lucas_facts(n as int));
        }
    }
    let primes = dedup_sorted64(&factors);
    proof {
        assert forall|j: int| 0 <= j < primes@.len() implies #[trigger] primes@[j] >= 2 && divides(
            primes@[j] as int,
            n - 1,
        ) && cert_has64(cert.elements@, primes@[j]) by {
            assert(primes@.contains(primes@[j]));
            assert(factors@.contains(primes@[j]));
            let k = choose|k: int| 0 <= k < factors@.len() && #[trigger] factors@[k] == primes@[j];
            assert(accepted_prime64(factors@[k] as int));
            assert forall|m: int| 0 <= m < factors@.len() implies #[trigger] factors@[m] >= 1 by {
                assert(accepted_prime64(factors@[m] as int));
            }
            lemma_product64_divides(factors@, k);
        }
        assert(smooth64(n - 1, primes@)) by {
            assert forall|i: int| 0 <= i < factors@.len() implies primes@.contains(#[trigger] factors@[i]) by {
                assert(factors@.contains(factors@[i]));
            }
        }
    }
    let mut base: u64 = 2;
    while base < n
        invariant
            n >= 3,
            certainty == PrimalityCertainty::Certified,
            cert_valid64(cert.elements@),
            forall|j: int| 0 <= j < primes@.len() ==> #[trigger] primes@[j] >= 2 && divides(
                primes@[j] as int,
                n - 1,
            ) && cert_has64(cert.elements@, primes@[j]),
            smooth64(n - 1, primes@),
            crate::factor_list::strictly_sorted64(primes@),
            cert_grows64(old(cert).elements@, cert.elements@),
            cert_new_bounded64(old(cert).elements@, cert.elements@, n as int),
            passes_deterministic_bases(n as int),
            2 <= base,
            facts ==> lucas_facts(n as int) && 2 <= witness < n && full_order_base(n as int, witness)
                && base <= witness,
        decreases n - base,
    {
        let result = n.lucas_primality_test(primes.as_slice(), base);
        proof {
            if facts {
                assert(pow_mod(base as int, (n - 1) as nat, n as int) == 1);
                if base == witness && result == LucasPrimalityResult::Unknown {
                    let fs = ints64(primes@);
                    let i = choose|i: int|
                        0 <= i < fs.len() && #[trigger] pow_mod(base as int, ((n - 1) / fs[i]) as nat, n as int) == 1;
                    assert(fs[i] == primes@[i] as int);
                    assert(divides(primes@[i] as int, n - 1));
                }
            }
        }
        if result == LucasPrimalityResult::Prime {
            let e = LucasCertificateElement { n, base, unique_prime_divisors: primes };
            cert.push(e);
            return CheckOutcome::Prime;
        } else if result == LucasPrimalityResult::Composite {
            return CheckOutcome::Uncertified;
        }
        base = base + 1;
    }
    CheckOutcome::Uncertified
}

/// Factors `n`, returning its accepted prime factors in non-decreasing order, and whether
/// every one of them (and every prime the certificate relies on) was certified.
#[verifier::rlimit(80)]
pub fn certified_factor64<E: FactoringEventSubscriptor<u64>>(
    n: u64,
    certainty: PrimalityCertainty,
    cert: &mut LucasCertificate<u64>,
    events: &mut E,
) -> (r: (Vec<u64>, bool))
    requires
        n >= 1,
        cert_valid64(old(cert).elements@),
    ensures
        product64(r.0@) == n,
        sorted64(r.0@),
        all_accepted64(r.0@),
        cert_valid64(final(cert).elements@),
        cert_grows64(old(cert).elements@, final(cert).elements@),
        cert_new_bounded64(old(cert).elements@, final(cert).elements@, n as int),
        certainty == PrimalityCertainty::Guaranteed ==> final(cert).elements@ == old(cert).elements@,
        certainty == PrimalityCertainty::Certified && r.1 ==> all_certified64(
            final(cert).elements@,
            r.0@,
        ) && cert_new_within64(old(cert).elements@, final(cert).elements@, r.0@),
        certainty == PrimalityCertainty::Certified && certification_facts64(n as int) ==> r.1,
    decreases 4 * n + 2,
{
    let (mut pre_processed, exhaustive) = n.trial_division(&TRIAL_THRESHOLD);
    proof {
        assert(trial_result64(n as int, TRIAL_THRESHOLD as int, pre_processed@, exhaustive));
    }
    let ghost pre = pre_processed@;
    let mut all_certified = true;
    let certified_count: usize = if exhaustive {
        pre_processed.len()
    } else {
        pre_processed.len() - 1
    };
    proof {
        assert forall|m: int| 0 <= m < pre.len() implies #[trigger] pre[m] >= 1 && pre[m] <= n by {
            if exhaustive || m < pre.len() - 1 {
                if !exhaustive {
                    assert(pre.drop_last()[m] == pre[m]);
                }
            }
            assert forall|q: int| 0 <= q < pre.len() implies #[trigger] pre[q] >= 1 by {
                if exhaustive || q < pre.len() - 1 {
                    if !exhaustive {
                        assert(pre.drop_last()[q] == pre[q]);
                    }
                }
            }
            lemma_product64_divides(pre, m);
            lemma_divisor_le(pre[m] as int, n as int);
        }
        assert forall|m: int| 0 <= m < certified_count implies accepted_prime64(#[trigger] pre[m] as int) by {
            if !exhaustive {
                assert(pre.drop_last()[m] == pre[m]);
            }
        }
    }
    if certainty == PrimalityCertainty::Certified {
        let mut i: usize = 0;
        while i < certified_count
            invariant
                certainty == PrimalityCertainty::Certified,
                pre == pre_processed@,
                certified_count <= pre.len(),
                i <= certified_count,
                forall|m: int| 0 <= m < pre.len() ==> #[trigger] pre[m] >= 1 && pre[m] <= n,
                forall|m: int| 0 <= m < certified_count ==> accepted_prime64(#[trigger] pre[m] as int),
                sorted64(pre),
                cert_valid64(cert.elements@),
                cert_grows64(old(cert).elements@, cert.elements@),
                cert_new_bounded64(old(cert).elements@, cert.elements@, n as int),
                certified_count > 0 ==> cert_new_bounded64(
                    old(cert).elements@,
                    cert.elements@,
                    pre[certified_count - 1] as int,
                ),
                certified_count == 0 ==> cert.elements@ == old(cert).elements@,
                all_certified ==> forall|m: int| 0 <= m < i ==> cert_has64(cert.elements@, #[trigger] pre[m]),
                certification_facts64(n as int) ==> all_certified,
            decreases certified_count - i,
        {
            let p = pre_processed[i];
            proof {
                if certification_facts64(n as int) {
                    assert(accepted_prime64(pre[i as int] as int));
                    assert(certification_facts64(p as int));
                    if is_prime_spec(p as int) {
                        assert(passes_deterministic_bases(p as int));
                    }
                }
            }
            let o = certified_prime_check64(p, PrimalityCertainty::Certified, cert);
            if o != CheckOutcome::Prime {
                all_certified = false;
            }
            proof {
                assert(p <= pre[certified_count - 1]);
            }
            i = i + 1;
        }
    }
    let ghost mid = cert.elements@;
    proof {
        // what the small primes brought into the certificate is bounded by the largest of them
        assert forall|p: u64| #[trigger] cert_has64(mid, p) implies cert_has64(old(cert).elements@, p) || (
        certified_count > 0 && p <= pre[certified_count - 1]) by {}
    }
    if exhaustive {
        proof {
            assert(all_accepted64(pre));
            if certainty == PrimalityCertainty::Certified && all_certified {
                assert forall|p: u64| #[trigger] cert_has64(cert.elements@, p) implies cert_has64(
                    old(cert).elements@,
                    p,
                ) || exists|i: int| 0 <= i < pre.len() && p <= #[trigger] pre[i] by {
                    if !cert_has64(old(cert).elements@, p) {
                        assert(p <= pre[certified_count - 1]);
                    }
                }
            }
        }
        return (pre_processed, all_certified);
    }
    let last = pre_processed[pre_processed.len() - 1];
    let o = certified_prime_check64(last, certainty, cert);
    if o != CheckOutcome::NotPrime {
        if o == CheckOutcome::Uncertified {
            all_certified = false;
        }
        proof {
            assert(all_accepted64(pre)) by {
                assert forall|m: int| 0 <= m < pre.len() implies accepted_prime64(#[trigger] pre[m] as int) by {
                    if m < pre.len() - 1 {
                        assert(pre.drop_last()[m] == pre[m]);
                    }
                }
            }
            if certainty == PrimalityCertainty::Certified && all_certified {
                assert forall|m: int| 0 <= m < pre.len() implies cert_has64(cert.elements@, #[trigger] pre[m]) by {
                    if m < pre.len() - 1 {
                        assert(cert_has64(mid, pre[m]));
                    }
                }
                assert forall|p: u64| #[trigger] cert_has64(cert.elements@, p) implies cert_has64(
                    old(cert).elements@,
                    p,
                ) || exists|i: int| 0 <= i < pre.len() && p <= #[trigger] pre[i] by {
                    if !cert_has64(old(cert).elements@, p) {
                        if cert_has64(mid, p) {
                            assert(p <= pre[certified_count - 1]);
                        } else {
                            assert(p <= pre[pre.len() - 1]);
                        }
                    }
                }
            }
        }
        return (pre_processed, all_certified);
    }
    let composite_factor = pre_processed.pop().unwrap();
    let mut prime_factors = pre_processed;
    proof {
        assert(prime_factors@ == pre.drop_last());
        assert(product64(pre) == product64(pre.drop_last()) * composite_factor);
        assert(composite_factor >= 2) by {
            assert(pre.last() > TRIAL_THRESHOLD);
        }
        assert forall|m: int| 0 <= m < prime_factors@.len() implies accepted_prime64(#[trigger] prime_factors@[m] as int) by {
            assert(pre.drop_last()[m] == pre[m]);
        }
        assert(sorted64(prime_factors@));
    }
    if prime_factors.len() > 0 {
        let composites = vec![composite_factor];
        let unknown: Vec<u64> = Vec::new();
        events.factorized(&n, prime_factors.as_slice(), composites.as_slice(), unknown.as_slice());
    }
    let ghost pf0 = prime_factors@;
    proof {
        if certainty == PrimalityCertainty::Certified && all_certified {
            assert forall|m: int| 0 <= m < pf0.len() implies cert_has64(cert.elements@, #[trigger] pf0[m]) by {
                assert(pf0[m] == pre[m]);
            }
        }
    }
    let loop_certified = pollard_loop64(composite_factor, &mut prime_factors, events, certainty, cert);
    proof {
        let pf = prime_factors@;
        if certainty == PrimalityCertainty::Certified && all_certified && loop_certified {
            assert forall|p: u64| #[trigger] cert_has64(cert.elements@, p) implies cert_has64(
                old(cert).elements@,
                p,
            ) || exists|i: int| 0 <= i < pf.len() && p <= #[trigger] pf[i] by {
                if !cert_has64(old(cert).elements@, p) && cert_has64(mid, p) {
                    let k = certified_count - 1;
                    assert(pf0[k] == pre[k]);
                    assert(pf0.contains(pf0[k]));
                    assert(pf.contains(pf0[k]));
                    let j = choose|j: int| 0 <= j < pf.len() && pf[j] == pf0[k];
                    assert(p <= pf[j]);
                }
            }
        }
    }
    (prime_factors, all_certified && loop_certified)
}

proof fn lemma_certified_insert64(
    b1: Seq<LucasCertificateElement<u64>>,
    b2: Seq<LucasCertificateElement<u64>>,
    s: Seq<u64>,
    i: int,
    x: u64,
)
    requires
        0 <= i <= s.len(),
        all_certified64(b1, s),
        cert_grows64(b1, b2),
        cert_has64(b2, x),
    ensures
        all_certified64(b2, s.insert(i, x)),
{
    let t = s.insert(i, x);
    assert forall|k: int| 0 <= k < t.len() implies cert_has64(b2, #[trigger] t[k]) by {
        if k < i {
            assert(t[k] == s[k]);
            assert(cert_has64(b1, s[k]));
        } else if k > i {
            assert(t[k] == s[k - 1]);
            assert(cert_has64(b1, s[k - 1]));
        }
    }
}

proof fn lemma_within_insert64(
    a: Seq<LucasCertificateElement<u64>>,
    b1: Seq<LucasCertificateElement<u64>>,
    b2: Seq<LucasCertificateElement<u64>>,
    s: Seq<u64>,
    i: int,
    x: u64,
)
    requires
        0 <= i <= s.len(),
        cert_new_within64(a, b1, s),
        forall|p: u64| #[trigger] cert_has64(b2, p) ==> cert_has64(b1, p) || p <= x,
    ensures
        cert_new_within64(a, b2, s.insert(i, x)),
{
    let t = s.insert(i, x);
    assert forall|p: u64| #[trigger] cert_has64(b2, p) implies cert_has64(a, p) || exists|k: int|
        0 <= k < t.len() && p <= #[trigger] t[k] by {
        if cert_has64(b1, p) {
            if !cert_has64(a, p) {
                let j = choose|j: int| 0 <= j < s.len() && p <= #[trigger] s[j];
                if j < i {
                    assert(t[j] == s[j]);
                } else {
                    assert(t[j + 1] == s[j]);
                }
            }
        } else {
            assert(t[i] == x);
        }
    }
}

proof fn lemma_contains_insert64(s: Seq<u64>, i: int, x: u64)
    requires
        0 <= i <= s.len(),
    ensures
        forall|y: u64| s.contains(y) ==> #[trigger] s.insert(i, x).contains(y),
        s.insert(i, x).contains(x),
{
    let t = s.insert(i, x);
    assert(t[i] == x);
    assert forall|y: u64| s.contains(y) implies #[trigger] t.contains(y) by {
        let k = choose|k: int| 0 <= k < s.len() && s[k] == y;
        if k < i {
            assert(t[k] == y);
        } else {
            assert(t[k + 1] == y);
        }
    }
}

proof fn lemma_accepted_insert64(s: Seq<u64>, i: int, x: u64)
    requires
        0 <= i <= s.len(),
        all_accepted64(s),
        accepted_prime64(x as int),
    ensures
        all_accepted64(s.insert(i, x)),
{
    let t = s.insert(i, x);
    assert forall|k: int| 0 <= k < t.len() implies accepted_prime64(#[trigger] t[k] as int) by {
        if k < i {
            assert(t[k] == s[k]);
        } else if k > i {
            assert(t[k] == s[k - 1]);
        }
    }
}

/// Records the accepted prime `p` in the sorted list of prime factors.
fn add_prime64<E: FactoringEventSubscriptor<u64>>(
    p: u64,
    prime_factors: &mut Vec<u64>,
    events: &mut E,
) -> (ghost_index: Ghost<int>)
    requires
        accepted_prime64(p as int),
        sorted64(old(prime_factors)@),
        all_accepted64(old(prime_factors)@),
    ensures
        0 <= ghost_index@ <= old(prime_factors)@.len(),
        final(prime_factors)@ == old(prime_factors)@.insert(ghost_index@, p),
        sorted64(final(prime_factors)@),
        all_accepted64(final(prime_factors)@),
        product64(final(prime_factors)@) == product64(old(prime_factors)@) * p,
        forall|y: u64| old(prime_factors)@.contains(y) ==> #[trigger] final(prime_factors)@.contains(y),
        final(prime_factors)@.contains(p),
{
    events.is_prime(&p);
    let ghost s = prime_factors@;
    insert_sorted64(prime_factors, p);
    let ghost i = choose|i: int| 0 <= i <= s.len() && prime_factors@ == s.insert(i, p);
    proof {
        lemma_accepted_insert64(s, i, p);
        lemma_contains_insert64(s, i, p);
    }
    Ghost(i)
}

/// Checks `x`: a prime goes to `prime_factors`, a composite onto `composite_factors`.
/// Returns false when `x` passed every deterministic base but could not be certified.
fn categorize64<E: FactoringEventSubscriptor<u64>>(
    x: u64,
    events: &mut E,
    certainty: PrimalityCertainty,
    cert: &mut LucasCertificate<u64>,
    composite_factors: &mut Vec<u64>,
    prime_factors: &mut Vec<u64>,
    c0: Ghost<Seq<LucasCertificateElement<u64>>>,
) -> (ok: bool)
    requires
        x >= 2,
        sorted64(old(prime_factors)@),
        all_accepted64(old(prime_factors)@),
        cert_valid64(old(cert).elements@),
    ensures
        product64(final(prime_factors)@) * product64(final(composite_factors)@) == product64(
            old(prime_factors)@,
        ) * product64(old(composite_factors)@) * x,
        !passes_deterministic_bases(x as int) ==> final(composite_factors)@ == old(composite_factors)@.push(x)
            && final(prime_factors)@ == old(prime_factors)@,
        passes_deterministic_bases(x as int) ==> final(composite_factors)@ == old(composite_factors)@
            && final(prime_factors)@.len() == old(prime_factors)@.len() + 1
            && final(prime_factors)@.contains(x),
        sorted64(final(prime_factors)@),
        all_accepted64(final(prime_factors)@),
        cert_valid64(final(cert).elements@),
        cert_grows64(old(cert).elements@, final(cert).elements@),
        cert_new_bounded64(old(cert).elements@, final(cert).elements@, x as int),
        certainty == PrimalityCertainty::Guaranteed ==> final(cert).elements@ == old(cert).elements@,
        certainty == PrimalityCertainty::Certified && ok && all_certified64(
            old(cert).elements@,
            old(prime_factors)@,
        ) ==> all_certified64(final(cert).elements@, final(prime_factors)@),
        certainty == PrimalityCertainty::Certified && ok && cert_new_within64(
            c0@,
            old(cert).elements@,
            old(prime_factors)@,
        ) ==> cert_new_within64(c0@, final(cert).elements@, final(prime_factors)@),
        forall|y: u64| old(prime_factors)@.contains(y) ==> #[trigger] final(prime_factors)@.contains(y),
        certainty == PrimalityCertainty::Certified && certification_facts64(x as int) ==> ok,
    decreases 4 * x + 1,
{
    let ghost b1 = cert.elements@;
    let ghost s = prime_factors@;
    let ghost cf = composite_factors@;
    let o = certified_prime_check64(x, certainty, cert);
    if o == CheckOutcome::NotPrime {
        events.is_composite(&x);
        composite_factors.push(x);
        proof {
            crate::arith::lemma_product64_push(cf, x);
            assert(product64(s) * (product64(cf) * x) == product64(s) * product64(cf) * x)
                by (nonlinear_arith);
        }
        return true;
    }
    let gi = add_prime64(x, prime_factors, events);
    proof {
        let i = gi@;
        assert(product64(s) * x * product64(cf) == product64(s) * product64(cf) * x)
            by (nonlinear_arith);
        if certainty == PrimalityCertainty::Certified && o == CheckOutcome::Prime {
            if all_certified64(b1, s) {
                lemma_certified_insert64(b1, cert.elements@, s, i, x);
            }
            if cert_new_within64(c0@, b1, s) {
                lemma_within_insert64(c0@, b1, cert.elements@, s, i, x);
            }
        }
    }
    o == CheckOutcome::Prime
}

/// `[x]` when `x` fails the deterministic bases, else empty: what goes back onto the
/// composite stack.
pub open spec fn composites_of64(x: u64) -> Seq<u64> {
    if passes_deterministic_bases(x as int) {
        seq![]
    } else {
        seq![x]
    }
}

/// How many of the numbers pass the deterministic bases.
pub open spec fn passing_count64(a: u64, b: u64) -> int {
    (if passes_deterministic_bases(a as int) { 1int } else { 0int }) + (if passes_deterministic_bases(
        b as int,
    ) { 1int } else { 0int })
}

/// Handles the split of `current` (the top of `composite_factors`) into `f` and
/// `current / f`: each goes to `prime_factors` when it passes the deterministic bases, and
/// back onto `composite_factors` otherwise, `f` first.
fn handle_factor64<E: FactoringEventSubscriptor<u64>>(
    current: u64,
    f: u64,
    events: &mut E,
    certainty: PrimalityCertainty,
    cert: &mut LucasCertificate<u64>,
    composite_factors: &mut Vec<u64>,
    prime_factors: &mut Vec<u64>,
    bound: Ghost<u64>,
    c0: Ghost<Seq<LucasCertificateElement<u64>>>,
) -> (ok: bool)
    requires
        old(composite_factors)@.len() > 0,
        old(composite_factors)@.last() == current,
        1 < f < current,
        current % f == 0,
        current <= bound@,
        forall|m: int|
            0 <= m < old(composite_factors)@.len() ==> 2 <= #[trigger] old(composite_factors)@[m]
                <= bound@,
        sorted64(old(prime_factors)@),
        all_accepted64(old(prime_factors)@),
        cert_valid64(old(cert).elements@),
    ensures
        product64(final(prime_factors)@) * product64(final(composite_factors)@) == product64(
            old(prime_factors)@,
        ) * product64(old(composite_factors)@),
        weight64(final(composite_factors)@) < weight64(old(composite_factors)@),
        forall|m: int|
            0 <= m < final(composite_factors)@.len() ==> 2 <= #[trigger] final(composite_factors)@[m] <= bound@,
        sorted64(final(prime_factors)@),
        all_accepted64(final(prime_factors)@),
        cert_valid64(final(cert).elements@),
        cert_grows64(old(cert).elements@, final(cert).elements@),
        cert_new_bounded64(old(cert).elements@, final(cert).elements@, current as int),
        certainty == PrimalityCertainty::Guaranteed ==> final(cert).elements@ == old(cert).elements@,
        certainty == PrimalityCertainty::Certified && ok && all_certified64(
            old(cert).elements@,
            old(prime_factors)@,
        ) ==> all_certified64(final(cert).elements@, final(prime_factors)@),
        certainty == PrimalityCertainty::Certified && ok && cert_new_within64(
            c0@,
            old(cert).elements@,
            old(prime_factors)@,
        ) ==> cert_new_within64(c0@, final(cert).elements@, final(prime_factors)@),
        forall|y: u64| old(prime_factors)@.contains(y) ==> #[trigger] final(prime_factors)@.contains(y),
        final(composite_factors)@ == old(composite_factors)@.drop_last() + composites_of64(f)
            + composites_of64(current / f),
        final(prime_factors)@.len() == old(prime_factors)@.len() + passing_count64(f, current / f),
        passes_deterministic_bases(f as int) ==> final(prime_factors)@.contains(f),
        passes_deterministic_bases((current / f) as int) ==> final(prime_factors)@.contains(current / f),
        certainty == PrimalityCertainty::Certified && certification_facts64(current as int) ==> ok,
    decreases 4 * current,
{
    let ghost stack = composite_factors@;
    let ghost p0 = prime_factors@;
    composite_factors.pop();
    let ghost rest = composite_factors@;
    proof {
        assert(rest == stack.drop_last());
    }
    let other = current / f;
    proof {
        vstd::arithmetic::div_mod::lemma_fundamental_div_mod(current as int, f as int);
        assert(current == f * other);
        assert(2 <= other < current) by (nonlinear_arith)
            requires
                current == f * other,
                1 < f < current,
        ;
        assert(f < current);
    }
    let unknown = vec![f, other];
    let nothing: Vec<u64> = Vec::new();
    events.factorized(&current, nothing.as_slice(), nothing.as_slice(), unknown.as_slice());
    let ghost b0 = cert.elements@;
    let ok1 = categorize64(f, events, certainty, cert, composite_factors, prime_factors, c0);
    let ghost p2 = prime_factors@;
    let ghost k2 = composite_factors@;
    let ok2 = categorize64(other, events, certainty, cert, composite_factors, prime_factors, c0);
    proof {
        let k3 = composite_factors@;
        let pp = product64(p0);
        let kk = product64(rest);
        assert(product64(prime_factors@) * product64(k3) == pp * kk * f * other);
        assert(pp * kk * f * other == pp * (kk * current)) by (nonlinear_arith)
            requires
                current == f * other,
        ;
        assert(weight64(stack) == weight64(rest) + current - 1);
        assert(weight64(k2) <= weight64(rest) + f - 1) by {
            if k2 != rest {
                assert(k2.drop_last() =~= rest);
            }
        }
        assert(weight64(k3) <= weight64(k2) + other - 1) by {
            if k3 != k2 {
                assert(k3.drop_last() =~= k2);
            }
        }
        assert(f + other <= current) by (nonlinear_arith)
            requires
                current == f * other,
                f >= 2,
                other >= 2,
        ;
        assert forall|m: int| 0 <= m < k3.len() implies 2 <= #[trigger] k3[m] <= bound@ by {
            if m < rest.len() {
                assert(k3[m] == rest[m]);
                assert(rest[m] == stack[m]);
            } else if m < k2.len() {
                assert(k3[m] == k2[m]);
            }
        }
        if certainty == PrimalityCertainty::Certified {
            assert(cert_grows64(b0, cert.elements@));
        }
    }
    proof {
        let k3 = composite_factors@;
        if passes_deterministic_bases(f as int) {
            assert(k2 == rest);
        } else {
            assert(k2 == rest.push(f));
        }
        assert(k3 =~= rest + composites_of64(f) + composites_of64(other));
        if passes_deterministic_bases(f as int) {
            assert(p2.contains(f));
            let t = choose|t: int| 0 <= t < p2.len() && p2[t] == f;
            assert(prime_factors@.contains(p2[t]));
        }
    }
    ok1 && ok2
}

/// Splits `composite` with Pollard's rho until only accepted primes are left, adding them to
/// `prime_factors`; returns whether every one of them was certified.
///
/// Each attempt that fails moves on to the next increment; a composite that resists
/// `RHO_ATTEMPTS` attempts is split by trial division instead. A composite produced by a
/// split is attacked with the increment then current (coreutils' `factor` moves to the
/// next one).
fn pollard_loop64<E: FactoringEventSubscriptor<u64>>(
    composite: u64,
    prime_factors: &mut Vec<u64>,
    events: &mut E,
    certainty: PrimalityCertainty,
    cert: &mut LucasCertificate<u64>,
) -> (all_certified: bool)
    requires
        composite >= 2,
        sorted64(old(prime_factors)@),
        all_accepted64(old(prime_factors)@),
        cert_valid64(old(cert).elements@),
    ensures
        product64(final(prime_factors)@) == product64(old(prime_factors)@) * composite,
        sorted64(final(prime_factors)@),
        all_accepted64(final(prime_factors)@),
        cert_valid64(final(cert).elements@),
        cert_grows64(old(cert).elements@, final(cert).elements@),
        cert_new_bounded64(old(cert).elements@, final(cert).elements@, composite as int),
        certainty == PrimalityCertainty::Guaranteed ==> final(cert).elements@ == old(cert).elements@,
        certainty == PrimalityCertainty::Certified && all_certified && all_certified64(
            old(cert).elements@,
            old(prime_factors)@,
        ) ==> all_certified64(final(cert).elements@, final(prime_factors)@),
        certainty == PrimalityCertainty::Certified && all_certified && cert_new_within64(
            old(cert).elements@,
            old(cert).elements@,
            old(prime_factors)@,
        ) ==> cert_new_within64(old(cert).elements@, final(cert).elements@, final(prime_factors)@),
        forall|y: u64| old(prime_factors)@.contains(y) ==> #[trigger] final(prime_factors)@.contains(y),
        certainty == PrimalityCertainty::Certified && certification_facts64(composite as int) ==> all_certified,
    decreases 4 * composite + 1,
{
    let ghost pf0 = prime_factors@;
    let ghost c0 = cert.elements@;
    let mut increment: u64 = 1;
    let mut attempts: u64 = 0;
    let mut all_certified = true;
    let mut composite_factors: Vec<u64> = vec![composite];
    proof {
        assert(composite_factors@.len() == 1);
        assert(composite_factors@.drop_last().len() == 0);
        assert(product64(composite_factors@.drop_last()) == 1);
        assert(product64(composite_factors@) == composite);
    }
    while composite_factors.len() > 0
        invariant
            composite >= 2,
            product64(prime_factors@) * product64(composite_factors@) == product64(pf0) * composite,
            forall|m: int|
                0 <= m < composite_factors@.len() ==> 2 <= #[trigger] composite_factors@[m]
                    <= composite,
            sorted64(prime_factors@),
            all_accepted64(prime_factors@),
            cert_valid64(cert.elements@),
            cert_grows64(c0, cert.elements@),
            cert_new_bounded64(c0, cert.elements@, composite as int),
            certainty == PrimalityCertainty::Guaranteed ==> cert.elements@ == c0,
            certainty == PrimalityCertainty::Certified && all_certified && all_certified64(c0, pf0)
                ==> all_certified64(cert.elements@, prime_factors@),
            certainty == PrimalityCertainty::Certified && all_certified && cert_new_within64(
                c0,
                c0,
                pf0,
            ) ==> cert_new_within64(c0, cert.elements@, prime_factors@),
            attempts <= RHO_ATTEMPTS,
            forall|y: u64| pf0.contains(y) ==> #[trigger] prime_factors@.contains(y),
            certainty == PrimalityCertainty::Certified && certification_facts64(composite as int) ==> all_certified,
        decreases weight64(composite_factors@), RHO_ATTEMPTS - attempts,
    {
        let current = composite_factors[composite_factors.len() - 1];
        let ghost stack = composite_factors@;
        let ghost before_p = prime_factors@;
        if attempts >= RHO_ATTEMPTS {
            composite_factors.pop();
            let ghost rest = composite_factors@;
            proof {
                assert(rest == stack.drop_last());
                assert(current == stack[stack.len() - 1]);
                assert(current >= 2);
                assert(weight64(stack) == weight64(rest) + current - 1);
            }
            let primes = current.exhaustive_trial_division();
            proof {
                assert forall|m: int| 0 <= m < primes@.len() implies #[trigger] primes@[m] <= composite by {
                    assert forall|q: int| 0 <= q < primes@.len() implies #[trigger] primes@[q] >= 1 by {
                        assert(is_prime_spec(primes@[q] as int));
                    }
                    lemma_product64_divides(primes@, m);
                    lemma_divisor_le(primes@[m] as int, current as int);
                }
                assert(primes@.subrange(0, 0) =~= Seq::<u64>::empty());
                assert(product64(before_p) * 1 == product64(before_p));
            }
            let mut i: usize = 0;
            while i < primes.len()
                invariant
                    i <= primes@.len(),
                    product64(primes@) == current,
                    all_prime64(primes@),
                    forall|m: int| 0 <= m < primes@.len() ==> #[trigger] primes@[m] <= composite,
                    product64(prime_factors@) == product64(before_p) * product64(
                        primes@.subrange(0, i as int),
                    ),
                    sorted64(prime_factors@),
                    all_accepted64(prime_factors@),
                    cert_valid64(cert.elements@),
                    cert_grows64(c0, cert.elements@),
                    cert_new_bounded64(c0, cert.elements@, composite as int),
                    certainty == PrimalityCertainty::Guaranteed ==> cert.elements@ == c0,
                    certainty == PrimalityCertainty::Certified && all_certified && all_certified64(
                        c0,
                        pf0,
                    ) ==> all_certified64(cert.elements@, prime_factors@),
                    certainty == PrimalityCertainty::Certified && all_certified
                        && cert_new_within64(c0, c0, pf0) ==> cert_new_within64(
                        c0,
                        cert.elements@,
                        prime_factors@,
                    ),
                    forall|y: u64| pf0.contains(y) ==> #[trigger] prime_factors@.contains(y),
                    certainty == PrimalityCertainty::Certified && certification_facts64(composite as int) ==> all_certified,
                    current <= composite,
                decreases primes@.len() - i,
            {
                let p = primes[i];
                proof {
                    assert(is_prime_spec(p as int));
                    if certification_facts64(composite as int) {
                        assert(certification_facts64(p as int));
                        assert(passes_deterministic_bases(p as int));
                    }
                }
                let ghost s = prime_factors@;
                let ghost b1 = cert.elements@;
                let o = certified_prime_check64(p, certainty, cert);
                if o != CheckOutcome::Prime {
                    all_certified = false;
                }
                let gi = add_prime64(p, prime_factors, events);
                proof {
                    assert(primes@.subrange(0, i + 1) =~= primes@.subrange(0, i as int).push(p));
                    crate::arith::lemma_product64_push(primes@.subrange(0, i as int), p);
                    assert(product64(before_p) * product64(primes@.subrange(0, i as int)) * p
                        == product64(before_p) * (product64(primes@.subrange(0, i as int)) * p))
                        by (nonlinear_arith);
                    if certainty == PrimalityCertainty::Certified && all_certified {
                        if all_certified64(c0, pf0) {
                            lemma_certified_insert64(b1, cert.elements@, s, gi@, p);
                        }
                        if cert_new_within64(c0, c0, pf0) {
                            lemma_within_insert64(c0, b1, cert.elements@, s, gi@, p);
                        }
                    }
                }
                i = i + 1;
            }
            proof {
                assert(primes@.subrange(0, primes@.len() as int) =~= primes@);
                let pp = product64(before_p);
                let kk = product64(rest);
                assert(pp * current * kk == pp * (kk * current)) by (nonlinear_arith);
            }
            attempts = 0;
            proof {
                lemma_weight64_nonneg(composite_factors@);
            }
        } else {
            match current.pollard_rho(&2, &increment) {
                Some(f) => {
                    let ok = handle_factor64(
                        current,
                        f,
                        events,
                        certainty,
                        cert,
                        &mut composite_factors,
                        prime_factors,
                        Ghost(composite),
                        Ghost(c0),
                    );
                    all_certified = all_certified && ok;
                    attempts = 0;
                    proof {
                        lemma_weight64_nonneg(composite_factors@);
                    }
                    assert forall|y: u64| pf0.contains(y) implies #[trigger] prime_factors@.contains(y) by {
                        assert(before_p.contains(y));
                    }
                },
                None => {
                    increment = if increment == u64::MAX {
                        1
                    } else {
                        increment + 1
                    };
                    attempts = attempts + 1;
                    proof {
                        lemma_weight64_nonneg(composite_factors@);
                    }
                },
            }
        }
    }
    proof {
        assert(product64(composite_factors@) == 1);
    }
    all_certified
}

/// A prime has no factorization into accepted primes other than itself: for prime `n`, the
/// list `factor(n)` returns is `[n]`.
pub proof fn lemma_prime_factors_to_itself64(n: u64, factors: Seq<u64>)
    requires
        is_prime_spec(n as int),
        product64(factors) == n,
        all_accepted64(factors),
    ensures
        factors == seq![n],
{
    assert forall|j: int| 0 <= j < factors.len() implies #[trigger] factors[j] >= 1 by {
        assert(accepted_prime64(factors[j] as int));
    }
    if factors.len() == 0 {
        assert(product64(factors) == 1);
    }
    let k = factors.len() - 1;
    let last = factors[k];
    assert(accepted_prime64(last as int));
    lemma_product64_divides(factors, k);
    lemma_divisor_le(last as int, n as int);
    if last < n {
        assert(divides(last as int, n as int));
    }
    let rest = factors.drop_last();
    assert(product64(factors) == product64(rest) * last);
    assert(product64(rest) == 1) by (nonlinear_arith)
        requires
            product64(rest) * last == last,
            last >= 2,
    ;
    if rest.len() > 0 {
        assert forall|j: int| 0 <= j < rest.len() implies #[trigger] rest[j] >= 1 by {
            assert(rest[j] == factors[j]);
        }
        lemma_product64_positive(rest.drop_last());
        assert forall|j: int| 0 <= j < rest.drop_last().len() implies #[trigger] rest.drop_last()[j] >= 1 by {
            assert(rest.drop_last()[j] == factors[j]);
        }
        lemma_product64_positive(rest.drop_last());
        assert(accepted_prime64(rest.last() as int)) by {
            assert(rest.last() == factors[rest.len() - 1]);
        }
        assert(product64(rest) == product64(rest.drop_last()) * rest.last());
        assert(product64(rest.drop_last()) * rest.last() >= 2) by (nonlinear_arith)
            requires
                product64(rest.drop_last()) >= 1,
                rest.last() >= 2,
        ;
    }
    assert(factors =~= seq![n]);
}

/// The published result that the deterministic bases decide primality up to `n`: no
/// composite in `[2, n]` passes all of them. This library uses it as a hypothesis and does
/// not prove it.
pub open spec fn bases_decide64(n: int) -> bool {
    forall|m: int| 2 <= m <= n && #[trigger] passes_deterministic_bases(m) ==> is_prime_spec(m)
}

/// Where the deterministic bases decide primality, every factor of `n` that the driver
/// accepts is prime.
pub proof fn lemma_factors_prime64(n: u64, factors: Seq<u64>)
    requires
        product64(factors) == n,
        all_accepted64(factors),
        bases_decide64(n as int),
    ensures
        forall|i: int| 0 <= i < factors.len() ==> is_prime_spec(#[trigger] factors[i] as int),
{
    assert forall|j: int| 0 <= j < factors.len() implies #[trigger] factors[j] >= 1 by {
        assert(accepted_prime64(factors[j] as int));
    }
    lemma_product64_positive(factors);
    assert forall|i: int| 0 <= i < factors.len() implies is_prime_spec(#[trigger] factors[i] as int) by {
        assert(accepted_prime64(factors[i] as int));
        lemma_product64_divides(factors, i);
        lemma_divisor_le(factors[i] as int, n as int);
    }
}

/// `is_prime(n)` holds exactly when the factorization of `n` is `[n]`, where the deterministic
/// bases decide primality and primes pass them.
pub proof fn lemma_is_prime_iff_single_factor64(n: u64, factors: Seq<u64>)
    requires
        n >= 2,
        product64(factors) == n,
        all_accepted64(factors),
        bases_decide64(n as int),
        certification_facts64(n as int),
    ensures
        passes_deterministic_bases(n as int) <==> factors == seq![n],
{
    if passes_deterministic_bases(n as int) {
        lemma_prime_factors_to_itself64(n, factors);
    }
    if factors == seq![n] {
        assert(accepted_prime64(factors[0] as int));
    }
}

/// Checking and certifying primality.
pub trait Primality: Sized {
    /// Checks primality deterministically.
    fn is_prime(self) -> bool;

    /// Generates a Lucas certificate of the number's primality; `None` for a composite.
    fn generate_lucas_certificate(self) -> Option<LucasCertificate<Self>>;
}

/// Factoring a number into its prime factors.
pub trait Factoring: Sized {
    /// Numbers that can be factored: the positive ones.
    spec fn factorable(self) -> bool;

    /// Factors the number, notifying the observer `events` as soon as factors are found.
    fn factor_events<T: FactoringEventSubscriptor<Self>>(self, events: T) -> Vec<Self>
        requires
            self.factorable(),
    ;

    /// Factors the number.
    fn factor(self) -> Vec<Self>
        requires
            self.factorable(),
    ;
}

/// Factoring while filling a Lucas certificate.
pub trait CertifiedFactorization: Sized {
    /// The number is positive and the certificate passed in is valid.
    spec fn certifiable_with(self, certificate: LucasCertificate<Self>) -> bool;

    /// Same as [`Factoring::factor_events`]; with `Certified` the certificate is filled to
    /// certify the primality of the factors found.
    fn certified_factor<T: FactoringEventSubscriptor<Self>>(
        self,
        certainty: PrimalityCertainty,
        certificate: &mut LucasCertificate<Self>,
        events: T,
    ) -> Vec<Self>
        requires
            self.certifiable_with(*old(certificate)),
    ;

    /// Checks primality; with `Certified` also adds the number's certificate.
    fn certified_prime_check(
        self,
        certainty: PrimalityCertainty,
        certificate: &mut LucasCertificate<Self>,
    ) -> bool
        requires
            self.certifiable_with(*old(certificate)),
    ;
}

/// When a fresh certificate has been filled by a factorization in which every certification
/// succeeded, each factor is certified in it and its largest element is the largest factor.
pub proof fn lemma_certified_factor_max64(
    before: Seq<LucasCertificateElement<u64>>,
    after: Seq<LucasCertificateElement<u64>>,
    factors: Seq<u64>,
)
    requires
        before.len() == 0,
        factors.len() > 0,
        sorted64(factors),
        cert_sorted64(after),
        all_certified64(after, factors),
        cert_new_within64(before, after, factors),
    ensures
        forall|i: int| 0 <= i < factors.len() ==> cert_has64(after, #[trigger] factors[i]),
        after.len() > 0,
        after.last().n == factors.last(),
{
    let top = factors[factors.len() - 1];
    assert(cert_has64(after, top));
    let k = choose|k: int| 0 <= k < after.len() && #[trigger] after[k].n == top;
    let last = after[after.len() - 1];
    assert(cert_has64(after, last.n));
    let j = choose|j: int| 0 <= j < factors.len() && last.n <= #[trigger] factors[j];
    assert(factors[j] <= top);
    if k < after.len() - 1 {
        assert(after[k].n < last.n);
    }
}

impl Primality for u64 {
    fn is_prime(self) -> (r: bool)
        ensures
            r == passes_deterministic_bases(self as int),
    {
        is_prime64(self)
    }

    fn generate_lucas_certificate(self) -> (r: Option<LucasCertificate<u64>>)
        ensures
            r matches Some(c) ==> cert_valid64(c.elements@) && c.elements@.len() > 0
                && c.elements@.last().n == self && passes_deterministic_bases(self as int),
            certification_facts64(self as int) && is_prime_spec(self as int) ==> r is Some,
            !passes_deterministic_bases(self as int) ==> r is None,
    {
        let mut certificate: LucasCertificate<u64> = LucasCertificate::default();
        if self == 0 {
            proof {
                assert(!strong_probable_prime(0, deterministic_base(0)));
            }
            return None;
        }
        let ghost empty = certificate.elements@;
        let o = certified_prime_check64(self, PrimalityCertainty::Certified, &mut certificate);
        if o == CheckOutcome::Prime {
            proof {
                let s = certificate.elements@;
                let k = choose|k: int| 0 <= k < s.len() && #[trigger] s[k].n == self;
                let last = s[s.len() - 1];
                assert(cert_has64(s, last.n));
                assert(!cert_has64(empty, last.n));
                if k < s.len() - 1 {
                    assert(s[k].n < last.n);
                }
            }
            Some(certificate)
        } else {
            None
        }
    }
}

impl Factoring for u64 {
    open spec fn factorable(self) -> bool {
        self >= 1
    }

    fn factor_events<T: FactoringEventSubscriptor<u64>>(self, events: T) -> (r: Vec<u64>)
        ensures
            product64(r@) == self,
            sorted64(r@),
            all_accepted64(r@),
    {
        let mut events = events;
        let mut certificate: LucasCertificate<u64> = LucasCertificate::default();
        let (factors, _) = certified_factor64(
            self,
            PrimalityCertainty::Guaranteed,
            &mut certificate,
            &mut events,
        );
        factors
    }

    fn factor(self) -> (r: Vec<u64>)
        ensures
            product64(r@) == self,
            sorted64(r@),
            all_accepted64(r@),
    {
        self.factor_events(EmptyFactoringEventSubscriptor {})
    }
}

impl CertifiedFactorization for u64 {
    open spec fn certifiable_with(self, certificate: LucasCertificate<u64>) -> bool {
        self >= 1 && cert_valid64(certificate.elements@)
    }

    fn certified_factor<T: FactoringEventSubscriptor<u64>>(
        self,
        certainty: PrimalityCertainty,
        certificate: &mut LucasCertificate<u64>,
        events: T,
    ) -> (r: Vec<u64>)
        ensures
            product64(r@) == self,
            sorted64(r@),
            all_accepted64(r@),
            cert_valid64(final(certificate).elements@),
            cert_grows64(old(certificate).elements@, final(certificate).elements@),
            cert_new_bounded64(old(certificate).elements@, final(certificate).elements@, self as int),
            certainty == PrimalityCertainty::Guaranteed ==> final(certificate).elements@ == old(certificate).elements@,
            certainty == PrimalityCertainty::Certified && certification_facts64(self as int)
                ==> all_certified64(final(certificate).elements@, r@) && cert_new_within64(
                old(certificate).elements@,
                final(certificate).elements@,
                r@,
            ),
            certainty == PrimalityCertainty::Certified && certification_facts64(self as int)
                && old(certificate).elements@.len() == 0 && r@.len() > 0 ==> final(certificate).elements@.len() > 0 && final(certificate).elements@.last().n == r@.last(),
    {
        let mut events = events;
        let ghost before = certificate.elements@;
        let (factors, _) = certified_factor64(self, certainty, certificate, &mut events);
        proof {
            if certainty == PrimalityCertainty::Certified && certification_facts64(self as int)
                && before.len() == 0 && factors@.len() > 0 {
                lemma_certified_factor_max64(before, certificate.elements@, factors@);
            }
        }
        factors
    }

    fn certified_prime_check(
        self,
        certainty: PrimalityCertainty,
        certificate: &mut LucasCertificate<u64>,
    ) -> (r: bool)
        ensures
            r ==> passes_deterministic_bases(self as int),
            certainty == PrimalityCertainty::Guaranteed ==> r == passes_deterministic_bases(
                self as int,
            ) && final(certificate).elements@ == old(certificate).elements@,
            certainty == PrimalityCertainty::Certified && r ==> cert_has64(
                final(certificate).elements@,
                self,
            ),
            cert_valid64(final(certificate).elements@),
            cert_grows64(old(certificate).elements@, final(certificate).elements@),
            cert_new_bounded64(old(certificate).elements@, final(certificate).elements@, self as int),
            certification_facts64(self as int) && is_prime_spec(self as int) ==> r,
            !r ==> final(certificate).elements@ == old(certificate).elements@,
    {
        if certainty == PrimalityCertainty::Guaranteed {
            return certified_prime_check64(self, certainty, certificate) == CheckOutcome::Prime;
        }
        let mut work = crate::certificate::copy_certificate64(certificate);
        let o = certified_prime_check64(self, certainty, &mut work);
        if o == CheckOutcome::Prime {
            *certificate = work;
            true
        } else {
            false
        }
    }
}

} // verus!
