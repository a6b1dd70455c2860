//! The factorization driver for 128-bit numbers. Numbers that fit in 64 bits are handed to
//! the 64-bit driver, and the certificate it fills is lifted into the 128-bit one. Above
//! `2^64` no deterministic base set is known, so a prime is accepted only with a Lucas
//! certificate.
use crate::arith::{divides, is_prime_spec, product128, product64, sorted128, sorted64};
use crate::certificate::{cert_has64, cert_valid64, element_valid64};
use crate::certificate::{
    cert_has128, cert_sorted128, cert_valid128, element_valid128, smooth128, LucasCertificate,
    LucasCertificateElement, LucasCertificateTrait,
};
use crate::event::{
    EmptyFactoringEventSubscriptor, FactoringEventSubscriptor, WrappingFactoringEventSubscriptor,
};
use crate::factor_list::{
    dedup_sorted128, insert_sorted128, lemma_product128_divides, lemma_product128_insert,
    lemma_weight128_nonneg, weight128,
};
use crate::lucas_primality::{ints128, lucas_spec, LucasPrimality, LucasPrimalityResult};
use crate::miller_rabin::{MillerRabin, Result as MillerRabinCompositeResult};
use crate::optimized_factoring::{
    all_accepted64, certification_facts64, certified_factor64, certified_prime_check64, is_prime64,
    passes_deterministic_bases, CertifiedFactorization,
    CheckOutcome, Factoring, Primality, PrimalityCertainty,
};
use crate::pollard_rho::PollardRho;
use crate::trial_division::{all_prime128, trial_result128, TrialDivision};
use crate::util::lemma_divisor_le;
use vstd::prelude::*;

verus! {

/// Largest factor tried by trial division before Pollard's rho takes over.
pub const WIDE_TRIAL_THRESHOLD: u128 = 4095;

/// Pollard's rho attempts on one composite before it is split by trial division instead.
pub const WIDE_RHO_ATTEMPTS: u128 = 32;

/// Largest base of the first round of Miller–Rabin and Lucas tests.
pub const FIRST_ROUND_BASE: u128 = 20;

/// `p` is certified by some valid Lucas certificate.
pub open spec fn lucas_certified128(p: int) -> bool {
    exists|c: Seq<LucasCertificateElement<u128>>| cert_valid128(c) && #[trigger] cert_has_int128(c, p)
}

/// Some element certifies the integer `p`.
pub open spec fn cert_has_int128(c: Seq<LucasCertificateElement<u128>>, p: int) -> bool {
    0 <= p <= u128::MAX && cert_has128(c, p as u128)
}

/// A factor the driver accepts as prime: proved prime, passing every deterministic base
/// below `2^64`, or certified by a valid Lucas certificate.
pub open spec fn accepted_prime128(p: int) -> bool {
    p >= 2 && (is_prime_spec(p) || (p <= u64::MAX && passes_deterministic_bases(p))
        || lucas_certified128(p))
}

/// Every element of the list is an accepted prime.
pub open spec fn all_accepted128(s: Seq<u128>) -> bool {
    forall|i: int| 0 <= i < s.len() ==> accepted_prime128(#[trigger] s[i] as int)
}

/// Everything certified in `a` is certified in `b`.
pub open spec fn cert_grows128(
    a: Seq<LucasCertificateElement<u128>>,
    b: Seq<LucasCertificateElement<u128>>,
) -> bool {
    forall|p: u128| cert_has128(a, p) ==> #[trigger] cert_has128(b, p)
}

/// What `b` certifies beyond `a` is at most `m`.
pub open spec fn cert_new_bounded128(
    a: Seq<LucasCertificateElement<u128>>,
    b: Seq<LucasCertificateElement<u128>>,
    m: int,
) -> bool {
    forall|p: u128| #[trigger] cert_has128(b, p) ==> cert_has128(a, p) || p <= m
}

/// What `b` certifies beyond `a` is at most some element of `l`.
pub open spec fn cert_new_within128(
    a: Seq<LucasCertificateElement<u128>>,
    b: Seq<LucasCertificateElement<u128>>,
    l: Seq<u128>,
) -> bool {
    forall|p: u128|
        #[trigger] cert_has128(b, p) ==> cert_has128(a, p) || exists|i: int|
            0 <= i < l.len() && p <= #[trigger] l[i]
}

/// Every element of `l` is certified in `c`.
pub open spec fn all_certified128(c: Seq<LucasCertificateElement<u128>>, l: Seq<u128>) -> bool {
    forall|i: int| 0 <= i < l.len() ==> cert_has128(c, #[trigger] l[i])
}

proof fn lemma_contains_insert128(s: Seq<u128>, i: int, x: u128)
    requires
        0 <= i <= s.len(),
    ensures
        forall|y: u128| s.contains(y) ==> #[trigger] s.insert(i, x).contains(y),
        s.insert(i, x).contains(x),
{
    let t = s.insert(i, x);
    assert(t[i] == x);
    assert forall|y: u128| s.contains(y) implies #[trigger] t.contains(y) by {
        let k = choose|k: int| 0 <= k < s.len() && s[k] == y;
        if k < i {
            assert(t[k] == y);
        } else {
            assert(t[k + 1] == y);
        }
    }
}

proof fn lemma_accepted_insert128(s: Seq<u128>, i: int, x: u128)
    requires
        0 <= i <= s.len(),
        all_accepted128(s),
        accepted_prime128(x as int),
    ensures
        all_accepted128(s.insert(i, x)),
{
    let t = s.insert(i, x);
    assert forall|k: int| 0 <= k < t.len() implies accepted_prime128(#[trigger] t[k] as int) by {
        if k < i {
            assert(t[k] == s[k]);
        } else if k > i {
            assert(t[k] == s[k - 1]);
        }
    }
}

/// Records the accepted prime `p` in the sorted list of prime factors.
fn add_prime128<E: FactoringEventSubscriptor<u128>>(
    p: u128,
    prime_factors: &mut Vec<u128>,
    events: &mut E,
) -> (ghost_index: Ghost<int>)
    requires
        accepted_prime128(p as int),
        sorted128(old(prime_factors)@),
        all_accepted128(old(prime_factors)@),
    ensures
        0 <= ghost_index@ <= old(prime_factors)@.len(),
        final(prime_factors)@ == old(prime_factors)@.insert(ghost_index@, p),
        sorted128(final(prime_factors)@),
        all_accepted128(final(prime_factors)@),
        product128(final(prime_factors)@) == product128(old(prime_factors)@) * p,
        forall|y: u128| old(prime_factors)@.contains(y) ==> #[trigger] final(prime_factors)@.contains(y),
        final(prime_factors)@.contains(p),
{
    events.is_prime(&p);
    let ghost s = prime_factors@;
    insert_sorted128(prime_factors, p);
    let ghost i = choose|i: int| 0 <= i <= s.len() && prime_factors@ == s.insert(i, p);
    proof {
        lemma_accepted_insert128(s, i, p);
        lemma_contains_insert128(s, i, p);
    }
    Ghost(i)
}

/// Checks `x`: an accepted prime goes to `prime_factors`, anything else onto
/// `composite_factors`. Returns false when the check grew the certificate without certifying
/// `x`.
fn categorize128<E: FactoringEventSubscriptor<u128>>(
    x: u128,
    events: &mut E,
    certainty: PrimalityCertainty,
    cert: &mut LucasCertificate<u128>,
    composite_factors: &mut Vec<u128>,
    prime_factors: &mut Vec<u128>,
    c0: Ghost<Seq<LucasCertificateElement<u128>>>,
) -> (ok: bool)
    requires
        x >= 2,
        sorted128(old(prime_factors)@),
        all_accepted128(old(prime_factors)@),
        cert_valid128(old(cert).elements@),
    ensures
        product128(final(prime_factors)@) * product128(final(composite_factors)@) == product128(
            old(prime_factors)@,
        ) * product128(old(composite_factors)@) * x,
        final(composite_factors)@ == old(composite_factors)@ || final(composite_factors)@ == old(composite_factors)@.push(x),
        sorted128(final(prime_factors)@),
        all_accepted128(final(prime_factors)@),
        cert_valid128(final(cert).elements@),
        cert_grows128(old(cert).elements@, final(cert).elements@),
        cert_new_bounded128(old(cert).elements@, final(cert).elements@, x as int),
        certainty == PrimalityCertainty::Guaranteed ==> final(cert).elements@ == old(cert).elements@,
        certainty == PrimalityCertainty::Certified && ok && all_certified128(
            old(cert).elements@,
            old(prime_factors)@,
        ) ==> all_certified128(final(cert).elements@, final(prime_factors)@),
        certainty == PrimalityCertainty::Certified && ok && cert_new_within128(
            c0@,
            old(cert).elements@,
            old(prime_factors)@,
        ) ==> cert_new_within128(c0@, final(cert).elements@, final(prime_factors)@),
        forall|y: u128| old(prime_factors)@.contains(y) ==> #[trigger] final(prime_factors)@.contains(y),
    decreases 4 * x + 2,
{
    let ghost b1 = cert.elements@;
    let ghost s = prime_factors@;
    let ghost cf = composite_factors@;
    let o = certified_prime_check128(x, certainty, cert);
    if o != CheckOutcome::Prime {
        events.is_composite(&x);
        composite_factors.push(x);
        proof {
            crate::arith::lemma_product128_push(cf, x);
            assert(product128(s) * (product128(cf) * x) == product128(s) * product128(cf) * x)
                by (nonlinear_arith);
        }
        return o == CheckOutcome::NotPrime;
    }
    let gi = add_prime128(x, prime_factors, events);
    proof {
        let i = gi@;
        assert(product128(s) * x * product128(cf) == product128(s) * product128(cf) * x)
            by (nonlinear_arith);
        if certainty == PrimalityCertainty::Certified && o == CheckOutcome::Prime {
            if all_certified128(b1, s) {
                lemma_certified_insert128(b1, cert.elements@, s, i, x);
            }
            if cert_new_within128(c0@, b1, s) {
                lemma_within_insert128(c0@, b1, cert.elements@, s, i, x);
            }
        }
    }
    o == CheckOutcome::Prime
}

/// Handles the split of `current` (the top of `composite_factors`) into `f` and
/// `current / f`.
fn handle_factor128<E: FactoringEventSubscriptor<u128>>(
    current: u128,
    f: u128,
    events: &mut E,
    certainty: PrimalityCertainty,
    cert: &mut LucasCertificate<u128>,
    composite_factors: &mut Vec<u128>,
    prime_factors: &mut Vec<u128>,
    bound: Ghost<u128>,
    c0: Ghost<Seq<LucasCertificateElement<u128>>>,
) -> (ok: bool)
    requires
        old(composite_factors)@.len() > 0,
        old(composite_factors)@.last() == current,
        1 < f < current,
        current % f == 0,
        current <= bound@,
        forall|m: int|
            0 <= m < old(composite_factors)@.len() ==> 2 <= #[trigger] old(composite_factors)@[m]
                <= bound@,
        sorted128(old(prime_factors)@),
        all_accepted128(old(prime_factors)@),
        cert_valid128(old(cert).elements@),
    ensures
        product128(final(prime_factors)@) * product128(final(composite_factors)@) == product128(
            old(prime_factors)@,
        ) * product128(old(composite_factors)@),
        weight128(final(composite_factors)@) < weight128(old(composite_factors)@),
        forall|m: int|
            0 <= m < final(composite_factors)@.len() ==> 2 <= #[trigger] final(composite_factors)@[m] <= bound@,
        sorted128(final(prime_factors)@),
        all_accepted128(final(prime_factors)@),
        cert_valid128(final(cert).elements@),
        cert_grows128(old(cert).elements@, final(cert).elements@),
        cert_new_bounded128(old(cert).elements@, final(cert).elements@, current as int),
        certainty == PrimalityCertainty::Guaranteed ==> final(cert).elements@ == old(cert).elements@,
        certainty == PrimalityCertainty::Certified && ok && all_certified128(
            old(cert).elements@,
            old(prime_factors)@,
        ) ==> all_certified128(final(cert).elements@, final(prime_factors)@),
        certainty == PrimalityCertainty::Certified && ok && cert_new_within128(
            c0@,
            old(cert).elements@,
            old(prime_factors)@,
        ) ==> cert_new_within128(c0@, final(cert).elements@, final(prime_factors)@),
        forall|y: u128| old(prime_factors)@.contains(y) ==> #[trigger] final(prime_factors)@.contains(y),
    decreases 4 * current + 1,
{
    let ghost stack = composite_factors@;
    let ghost p0 = prime_factors@;
    composite_factors.pop();
    let ghost rest = composite_factors@;
    proof {
        assert(rest == stack.drop_last());
    }
    let other = current / f;
    proof {
        vstd::arithmetic::div_mod::lemma_fundamental_div_mod(current as int, f as int);
        assert(current == f * other);
        assert(2 <= other < current) by (nonlinear_arith)
            requires
                current == f * other,
                1 < f < current,
        ;
        assert(f < current);
    }
    let unknown = vec![f, other];
    let nothing: Vec<u128> = Vec::new();
    events.factorized(&current, nothing.as_slice(), nothing.as_slice(), unknown.as_slice());
    let ghost b0 = cert.elements@;
    let ok1 = categorize128(f, events, certainty, cert, composite_factors, prime_factors, c0);
    let ghost k2 = composite_factors@;
    let ok2 = categorize128(other, events, certainty, cert, composite_factors, prime_factors, c0);
    proof {
        let k3 = composite_factors@;
        let pp = product128(p0);
        let kk = product128(rest);
        assert(product128(prime_factors@) * product128(k3) == pp * kk * f * other);
        assert(pp * kk * f * other == pp * (kk * current)) by (nonlinear_arith)
            requires
                current == f * other,
        ;
        assert(weight128(stack) == weight128(rest) + current - 1);
        assert(weight128(k2) <= weight128(rest) + f - 1) by {
            if k2 != rest {
                assert(k2.drop_last() =~= rest);
            }
        }
        assert(weight128(k3) <= weight128(k2) + other - 1) by {
            if k3 != k2 {
                assert(k3.drop_last() =~= k2);
            }
        }
        assert(f + other <= current) by (nonlinear_arith)
            requires
                current == f * other,
                f >= 2,
                other >= 2,
        ;
        assert forall|m: int| 0 <= m < k3.len() implies 2 <= #[trigger] k3[m] <= bound@ by {
            if m < rest.len() {
                assert(k3[m] == rest[m]);
                assert(rest[m] == stack[m]);
            } else if m < k2.len() {
                assert(k3[m] == k2[m]);
            }
        }
        if certainty == PrimalityCertainty::Certified {
            assert(cert_grows128(b0, cert.elements@));
        }
    }
    ok1 && ok2
}

/// Splits `composite` with Pollard's rho until only accepted primes are left, adding them to
/// `prime_factors`; returns whether every one of them was certified.
///
/// Each attempt that fails moves on to the next increment; a composite that resists
/// `WIDE_RHO_ATTEMPTS` attempts is split by trial division instead. A composite produced by a
/// split is attacked with the increment then current (coreutils' `factor` moves to the
/// next one).
fn pollard_loop128<E: FactoringEventSubscriptor<u128>>(
    composite: u128,
    prime_factors: &mut Vec<u128>,
    events: &mut E,
    certainty: PrimalityCertainty,
    cert: &mut LucasCertificate<u128>,
) -> (all_certified: bool)
    requires
        composite >= 2,
        sorted128(old(prime_factors)@),
        all_accepted128(old(prime_factors)@),
        cert_valid128(old(cert).elements@),
    ensures
        product128(final(prime_factors)@) == product128(old(prime_factors)@) * composite,
        sorted128(final(prime_factors)@),
        all_accepted128(final(prime_factors)@),
        cert_valid128(final(cert).elements@),
        cert_grows128(old(cert).elements@, final(cert).elements@),
        cert_new_bounded128(old(cert).elements@, final(cert).elements@, composite as int),
        certainty == PrimalityCertainty::Guaranteed ==> final(cert).elements@ == old(cert).elements@,
        certainty == PrimalityCertainty::Certified && all_certified && all_certified128(
            old(cert).elements@,
            old(prime_factors)@,
        ) ==> all_certified128(final(cert).elements@, final(prime_factors)@),
        certainty == PrimalityCertainty::Certified && all_certified && cert_new_within128(
            old(cert).elements@,
            old(cert).elements@,
            old(prime_factors)@,
        ) ==> cert_new_within128(old(cert).elements@, final(cert).elements@, final(prime_factors)@),
        forall|y: u128| old(prime_factors)@.contains(y) ==> #[trigger] final(prime_factors)@.contains(y),
    decreases 4 * composite + 2,
{
    let ghost pf0 = prime_factors@;
    let ghost c0 = cert.elements@;
    let mut increment: u128 = 1;
    let mut attempts: u128 = 0;
    let mut all_certified = true;
    let mut composite_factors: Vec<u128> = vec![composite];
    proof {
        assert(composite_factors@.len() == 1);
        assert(composite_factors@.drop_last().len() == 0);
        assert(product128(composite_factors@.drop_last()) == 1);
        assert(product128(composite_factors@) == composite);
    }
    while composite_factors.len() > 0
        invariant
            composite >= 2,
            product128(prime_factors@) * product128(composite_factors@) == product128(pf0) * composite,
            forall|m: int|
                0 <= m < composite_factors@.len() ==> 2 <= #[trigger] composite_factors@[m]
                    <= composite,
            sorted128(prime_factors@),
            all_accepted128(prime_factors@),
            cert_valid128(cert.elements@),
            cert_grows128(c0, cert.elements@),
            cert_new_bounded128(c0, cert.elements@, composite as int),
            certainty == PrimalityCertainty::Guaranteed ==> cert.elements@ == c0,
            certainty == PrimalityCertainty::Certified && all_certified && all_certified128(c0, pf0)
                ==> all_certified128(cert.elements@, prime_factors@),
            certainty == PrimalityCertainty::Certified && all_certified && cert_new_within128(
                c0,
                c0,
                pf0,
            ) ==> cert_new_within128(c0, cert.elements@, prime_factors@),
            attempts <= WIDE_RHO_ATTEMPTS,
            forall|y: u128| pf0.contains(y) ==> #[trigger] prime_factors@.contains(y),
        decreases weight128(composite_factors@), WIDE_RHO_ATTEMPTS - attempts,
    {
        let current = composite_factors[composite_factors.len() - 1];
        let ghost stack = composite_factors@;
        let ghost before_p = prime_factors@;
        if attempts >= WIDE_RHO_ATTEMPTS {
            composite_factors.pop();
            let ghost rest = composite_factors@;
            proof {
                assert(rest == stack.drop_last());
                assert(current == stack[stack.len() - 1]);
                assert(current >= 2);
                assert(weight128(stack) == weight128(rest) + current - 1);
            }
            let primes = current.exhaustive_trial_division();
            proof {
                assert forall|m: int| 0 <= m < primes@.len() implies #[trigger] primes@[m] <= composite by {
                    assert forall|q: int| 0 <= q < primes@.len() implies #[trigger] primes@[q] >= 1 by {
                        assert(is_prime_spec(primes@[q] as int));
                    }
                    lemma_product128_divides(primes@, m);
                    lemma_divisor_le(primes@[m] as int, current as int);
                }
                assert(primes@.subrange(0, 0) =~= Seq::<u128>::empty());
                assert(product128(before_p) * 1 == product128(before_p));
            }
            let mut i: usize = 0;
            while i < primes.len()
                invariant
                    i <= primes@.len(),
                    product128(primes@) == current,
                    all_prime128(primes@),
                    forall|m: int| 0 <= m < primes@.len() ==> #[trigger] primes@[m] <= composite,
                    product128(prime_factors@) == product128(before_p) * product128(
                        primes@.subrange(0, i as int),
                    ),
                    sorted128(prime_factors@),
                    all_accepted128(prime_factors@),
                    cert_valid128(cert.elements@),
                    cert_grows128(c0, cert.elements@),
                    cert_new_bounded128(c0, cert.elements@, composite as int),
                    certainty == PrimalityCertainty::Guaranteed ==> cert.elements@ == c0,
                    certainty == PrimalityCertainty::Certified && all_certified && all_certified128(
                        c0,
                        pf0,
                    ) ==> all_certified128(cert.elements@, prime_factors@),
                    certainty == PrimalityCertainty::Certified && all_certified
                        && cert_new_within128(c0, c0, pf0) ==> cert_new_within128(
                        c0,
                        cert.elements@,
                        prime_factors@,
                    ),
                    forall|y: u128| pf0.contains(y) ==> #[trigger] prime_factors@.contains(y),
                decreases primes@.len() - i,
            {
                let p = primes[i];
                proof {
                    assert(is_prime_spec(p as int));
                }
                let ghost s = prime_factors@;
                let ghost b1 = cert.elements@;
                let o = certified_prime_check128(p, certainty, cert);
                if o != CheckOutcome::Prime {
                    all_certified = false;
                }
                let gi = add_prime128(p, prime_factors, events);
                proof {
                    assert(primes@.subrange(0, i + 1) =~= primes@.subrange(0, i as int).push(p));
                    crate::arith::lemma_product128_push(primes@.subrange(0, i as int), p);
                    assert(product128(before_p) * product128(primes@.subrange(0, i as int)) * p
                        == product128(before_p) * (product128(primes@.subrange(0, i as int)) * p))
                        by (nonlinear_arith);
                    if certainty == PrimalityCertainty::Certified && all_certified {
                        if all_certified128(c0, pf0) {
                            lemma_certified_insert128(b1, cert.elements@, s, gi@, p);
                        }
                        if cert_new_within128(c0, c0, pf0) {
                            lemma_within_insert128(c0, b1, cert.elements@, s, gi@, p);
                        }
                    }
                }
                i = i + 1;
            }
            proof {
                assert(primes@.subrange(0, primes@.len() as int) =~= primes@);
                let pp = product128(before_p);
                let kk = product128(rest);
                assert(pp * current * kk == pp * (kk * current)) by (nonlinear_arith);
            }
            attempts = 0;
            proof {
                lemma_weight128_nonneg(composite_factors@);
            }
        } else {
            match current.pollard_rho(&2, &increment) {
                Some(f) => {
                    let ok = handle_factor128(
                        current,
                        f,
                        events,
                        certainty,
                        cert,
                        &mut composite_factors,
                        prime_factors,
                        Ghost(composite),
                        Ghost(c0),
                    );
                    all_certified = all_certified && ok;
                    attempts = 0;
                    proof {
                        lemma_weight128_nonneg(composite_factors@);
                    }
                    assert forall|y: u128| pf0.contains(y) implies #[trigger] prime_factors@.contains(y) by {
                        assert(before_p.contains(y));
                    }
                },
                None => {
                    increment = if increment == u128::MAX {
                        1
                    } else {
                        increment + 1
                    };
                    attempts = attempts + 1;
                    proof {
                        lemma_weight128_nonneg(composite_factors@);
                    }
                },
            }
        }
    }
    proof {
        assert(product128(composite_factors@) == 1);
    }
    all_certified
}
/// Factors `n`, returning its accepted prime factors in non-decreasing order, and whether
/// every certification on the way succeeded. A number that fits in 64 bits is factored by
/// the 64-bit driver, whose certificate is lifted into `cert`.
pub fn certified_factor128<E: FactoringEventSubscriptor<u128>>(
    n: u128,
    certainty: PrimalityCertainty,
    cert: &mut LucasCertificate<u128>,
    events: &mut E,
) -> (r: (Vec<u128>, bool))
    requires
        n >= 1,
        cert_valid128(old(cert).elements@),
    ensures
        product128(r.0@) == n,
        sorted128(r.0@),
        all_accepted128(r.0@),
        cert_valid128(final(cert).elements@),
        cert_grows128(old(cert).elements@, final(cert).elements@),
        cert_new_bounded128(old(cert).elements@, final(cert).elements@, n as int),
        certainty == PrimalityCertainty::Guaranteed ==> final(cert).elements@ == old(cert).elements@,
        certainty == PrimalityCertainty::Certified && r.1 ==> all_certified128(
            final(cert).elements@,
            r.0@,
        ) && cert_new_within128(old(cert).elements@, final(cert).elements@, r.0@),
        certainty == PrimalityCertainty::Certified && n <= u64::MAX && certification_facts64(n as int) ==> r.1,
    decreases 4 * n + 3,
{
    if certainty == PrimalityCertainty::Guaranteed && n <= 0xffff_ffff_ffff_ffff {
        let mut narrow_events = WrappingFactoringEventSubscriptor::new(events);
        let mut narrow_certificate: LucasCertificate<u64> = LucasCertificate::default();
        let (narrow, _) = certified_factor64(
            n as u64,
            PrimalityCertainty::Guaranteed,
            &mut narrow_certificate,
            &mut narrow_events,
        );
        let wide = widen_factors(&narrow);
        proof {
            lemma_widened(narrow@, wide@);
        }
        return (wide, true);
    }
    if n <= 0xffff_ffff_ffff_ffff {
        let mut narrow_events = WrappingFactoringEventSubscriptor::new(events);
        let mut narrow_certificate: LucasCertificate<u64> = LucasCertificate::default();
        let ghost empty = narrow_certificate.elements@;
        let (narrow, all_certified) = certified_factor64(
            n as u64,
            PrimalityCertainty::Certified,
            &mut narrow_certificate,
            &mut narrow_events,
        );
        lift_certificate(&narrow_certificate, cert);
        let wide = widen_factors(&narrow);
        proof {
            lemma_widened(narrow@, wide@);
            let ns = narrow_certificate.elements@;
            assert forall|p: u128| #[trigger] cert_has128(cert.elements@, p) implies cert_has128(
                old(cert).elements@,
                p,
            ) || p <= n by {
                if !cert_has128(old(cert).elements@, p) {
                    assert(cert_has64(ns, p as u64));
                    assert(!cert_has64(empty, p as u64));
                }
            }
            if all_certified {
                assert forall|i: int| 0 <= i < wide@.len() implies cert_has128(
                    cert.elements@,
                    #[trigger] wide@[i],
                ) by {
                    assert(cert_has64(ns, narrow@[i]));
                }
                assert forall|p: u128| #[trigger] cert_has128(cert.elements@, p) implies cert_has128(
                    old(cert).elements@,
                    p,
                ) || exists|i: int| 0 <= i < wide@.len() && p <= #[trigger] wide@[i] by {
                    if !cert_has128(old(cert).elements@, p) {
                        assert(cert_has64(ns, p as u64));
                        assert(!cert_has64(empty, p as u64));
                        let i = choose|i: int| 0 <= i < narrow@.len() && (p as u64) <= #[trigger] narrow@[i];
                        assert(wide@[i] == narrow@[i] as u128);
                    }
                }
            }
        }
        return (wide, all_certified);
    }
    let (mut pre_processed, exhaustive) = n.trial_division(&WIDE_TRIAL_THRESHOLD);
    proof {
        assert(trial_result128(n as int, WIDE_TRIAL_THRESHOLD as int, pre_processed@, exhaustive));
    }
    let ghost pre = pre_processed@;
    let mut all_certified = true;
    let certified_count: usize = if exhaustive {
        pre_processed.len()
    } else {
        pre_processed.len() - 1
    };
    proof {
        assert forall|m: int| 0 <= m < pre.len() implies #[trigger] pre[m] >= 1 && pre[m] <= n by {
            if exhaustive || m < pre.len() - 1 {
                if !exhaustive {
                    assert(pre.drop_last()[m] == pre[m]);
                }
            }
            assert forall|q: int| 0 <= q < pre.len() implies #[trigger] pre[q] >= 1 by {
                if exhaustive || q < pre.len() - 1 {
                    if !exhaustive {
                        assert(pre.drop_last()[q] == pre[q]);
                    }
                }
            }
            lemma_product128_divides(pre, m);
            lemma_divisor_le(pre[m] as int, n as int);
        }
        assert forall|m: int| 0 <= m < certified_count implies accepted_prime128(#[trigger] pre[m] as int) by {
            if !exhaustive {
                assert(pre.drop_last()[m] == pre[m]);
            }
        }
    }
    if certainty == PrimalityCertainty::Certified {
        let mut i: usize = 0;
        while i < certified_count
            invariant
                certainty == PrimalityCertainty::Certified,
                pre == pre_processed@,
                certified_count <= pre.len(),
                i <= certified_count,
                forall|m: int| 0 <= m < pre.len() ==> #[trigger] pre[m] >= 1 && pre[m] <= n,
                forall|m: int| 0 <= m < certified_count ==> accepted_prime128(#[trigger] pre[m] as int),
                sorted128(pre),
                cert_valid128(cert.elements@),
                cert_grows128(old(cert).elements@, cert.elements@),
                cert_new_bounded128(old(cert).elements@, cert.elements@, n as int),
                certified_count > 0 ==> cert_new_bounded128(
                    old(cert).elements@,
                    cert.elements@,
                    pre[certified_count - 1] as int,
                ),
                certified_count == 0 ==> cert.elements@ == old(cert).elements@,
                all_certified ==> forall|m: int| 0 <= m < i ==> cert_has128(cert.elements@, #[trigger] pre[m]),
            decreases certified_count - i,
        {
            let p = pre_processed[i];
            let o = certified_prime_check128(p, PrimalityCertainty::Certified, cert);
            if o != CheckOutcome::Prime {
                all_certified = false;
            }
            proof {
                assert(p <= pre[certified_count - 1]);
            }
            i = i + 1;
        }
    }
    let ghost mid = cert.elements@;
    proof {
        // what the small primes brought into the certificate is bounded by the largest of them
        assert forall|p: u128| #[trigger] cert_has128(mid, p) implies cert_has128(old(cert).elements@, p) || (
        certified_count > 0 && p <= pre[certified_count - 1]) by {}
    }
    if exhaustive {
        proof {
            assert(all_accepted128(pre));
            if certainty == PrimalityCertainty::Certified && all_certified {
                assert forall|p: u128| #[trigger] cert_has128(cert.elements@, p) implies cert_has128(
                    old(cert).elements@,
                    p,
                ) || exists|i: int| 0 <= i < pre.len() && p <= #[trigger] pre[i] by {
                    if !cert_has128(old(cert).elements@, p) {
                        assert(p <= pre[certified_count - 1]);
                    }
                }
            }
        }
        return (pre_processed, all_certified);
    }
    let last = pre_processed[pre_processed.len() - 1];
    let o = certified_prime_check128(last, certainty, cert);
    if o == CheckOutcome::Uncertified {
        all_certified = false;
    }
    if o == CheckOutcome::Prime {
        proof {
            assert(all_accepted128(pre)) by {
                assert forall|m: int| 0 <= m < pre.len() implies accepted_prime128(#[trigger] pre[m] as int) by {
                    if m < pre.len() - 1 {
                        assert(pre.drop_last()[m] == pre[m]);
                    }
                }
            }
            if certainty == PrimalityCertainty::Certified && all_certified {
                assert forall|m: int| 0 <= m < pre.len() implies cert_has128(cert.elements@, #[trigger] pre[m]) by {
                    if m < pre.len() - 1 {
                        assert(cert_has128(mid, pre[m]));
                    }
                }
                assert forall|p: u128| #[trigger] cert_has128(cert.elements@, p) implies cert_has128(
                    old(cert).elements@,
                    p,
                ) || exists|i: int| 0 <= i < pre.len() && p <= #[trigger] pre[i] by {
                    if !cert_has128(old(cert).elements@, p) {
                        if cert_has128(mid, p) {
                            assert(p <= pre[certified_count - 1]);
                        } else {
                            assert(p <= pre[pre.len() - 1]);
                        }
                    }
                }
            }
        }
        return (pre_processed, all_certified);
    }
    let composite_factor = pre_processed.pop().unwrap();
    let mut prime_factors = pre_processed;
    proof {
        assert(prime_factors@ == pre.drop_last());
        assert(product128(pre) == product128(pre.drop_last()) * composite_factor);
        assert(composite_factor >= 2) by {
            assert(pre.last() > WIDE_TRIAL_THRESHOLD);
        }
        assert forall|m: int| 0 <= m < prime_factors@.len() implies accepted_prime128(#[trigger] prime_factors@[m] as int) by {
            assert(pre.drop_last()[m] == pre[m]);
        }
        assert(sorted128(prime_factors@));
    }
    if prime_factors.len() > 0 {
        let composites = vec![composite_factor];
        let unknown: Vec<u128> = Vec::new();
        events.factorized(&n, prime_factors.as_slice(), composites.as_slice(), unknown.as_slice());
    }
    let ghost pf0 = prime_factors@;
    proof {
        if certainty == PrimalityCertainty::Certified && all_certified {
            assert forall|m: int| 0 <= m < pf0.len() implies cert_has128(cert.elements@, #[trigger] pf0[m]) by {
                assert(pf0[m] == pre[m]);
            }
        }
    }
    let loop_certified = pollard_loop128(composite_factor, &mut prime_factors, events, certainty, cert);
    proof {
        let pf = prime_factors@;
        if certainty == PrimalityCertainty::Certified && all_certified && loop_certified {
            assert forall|p: u128| #[trigger] cert_has128(cert.elements@, p) implies cert_has128(
                old(cert).elements@,
                p,
            ) || exists|i: int| 0 <= i < pf.len() && p <= #[trigger] pf[i] by {
                if !cert_has128(old(cert).elements@, p) && cert_has128(mid, p) {
                    let k = certified_count - 1;
                    assert(pf0[k] == pre[k]);
                    assert(pf0.contains(pf0[k]));
                    assert(pf.contains(pf0[k]));
                    let j = choose|j: int| 0 <= j < pf.len() && pf[j] == pf0[k];
                    assert(p <= pf[j]);
                }
            }
        }
    }
    (prime_factors, all_certified && loop_certified)
}

proof fn lemma_certified_insert128(
    b1: Seq<LucasCertificateElement<u128>>,
    b2: Seq<LucasCertificateElement<u128>>,
    s: Seq<u128>,
    i: int,
    x: u128,
)
    requires
        0 <= i <= s.len(),
        all_certified128(b1, s),
        cert_grows128(b1, b2),
        cert_has128(b2, x),
    ensures
        all_certified128(b2, s.insert(i, x)),
{
    let t = s.insert(i, x);
    assert forall|k: int| 0 <= k < t.len() implies cert_has128(b2, #[trigger] t[k]) by {
        if k < i {
            assert(t[k] == s[k]);
            assert(cert_has128(b1, s[k]));
        } else if k > i {
            assert(t[k] == s[k - 1]);
            assert(cert_has128(b1, s[k - 1]));
        }
    }
}

proof fn lemma_within_insert128(
    a: Seq<LucasCertificateElement<u128>>,
    b1: Seq<LucasCertificateElement<u128>>,
    b2: Seq<LucasCertificateElement<u128>>,
    s: Seq<u128>,
    i: int,
    x: u128,
)
    requires
        0 <= i <= s.len(),
        cert_new_within128(a, b1, s),
        forall|p: u128| #[trigger] cert_has128(b2, p) ==> cert_has128(b1, p) || p <= x,
    ensures
        cert_new_within128(a, b2, s.insert(i, x)),
{
    let t = s.insert(i, x);
    assert forall|p: u128| #[trigger] cert_has128(b2, p) implies cert_has128(a, p) || exists|k: int|
        0 <= k < t.len() && p <= #[trigger] t[k] by {
        if cert_has128(b1, p) {
            if !cert_has128(a, p) {
                let j = choose|j: int| 0 <= j < s.len() && p <= #[trigger] s[j];
                if j < i {
                    assert(t[j] == s[j]);
                } else {
                    assert(t[j + 1] == s[j]);
                }
            }
        } else {
            assert(t[i] == x);
        }
    }
}


/// Certifies `n >= 3` with a Lucas witness, adding its element (and those of
/// the primes of `n - 1`) to the certificate.
fn lucas_certify128(n: u128, cert: &mut LucasCertificate<u128>) -> (o: CheckOutcome)
    requires
        n >= 3,
        cert_valid128(old(cert).elements@),
    ensures
        cert_valid128(final(cert).elements@),
        cert_grows128(old(cert).elements@, final(cert).elements@),
        cert_new_bounded128(old(cert).elements@, final(cert).elements@, n as int),
        o == CheckOutcome::Prime ==> cert_has128(final(cert).elements@, n) && accepted_prime128(
            n as int,
        ),
        o != CheckOutcome::NotPrime,
    decreases 4 * n,
{
    if cert.contains(&n) {
        proof {
            assert(cert_has_int128(cert.elements@, n as int));
        }
        return CheckOutcome::Prime;
    }
    let mut events = EmptyFactoringEventSubscriptor {};
    let (factors, all_certified) = certified_factor128(
        n - 1,
        PrimalityCertainty::Certified,
        cert,
        &mut events,
    );
    if !all_certified {
        return CheckOutcome::Uncertified;
    }
    let primes = dedup_sorted128(&factors);
    proof {
        assert forall|j: int| 0 <= j < primes@.len() implies #[trigger] primes@[j] >= 2 && divides(
            primes@[j] as int,
            n - 1,
        ) && cert_has128(cert.elements@, primes@[j]) by {
            assert(primes@.contains(primes@[j]));
            assert(factors@.contains(primes@[j]));
            let k = choose|k: int| 0 <= k < factors@.len() && #[trigger] factors@[k] == primes@[j];
            assert(accepted_prime128(factors@[k] as int));
            assert forall|m: int| 0 <= m < factors@.len() implies #[trigger] factors@[m] >= 1 by {
                assert(accepted_prime128(factors@[m] as int));
            }
            lemma_product128_divides(factors@, k);
        }
        assert(smooth128(n - 1, primes@)) by {
            assert forall|i: int| 0 <= i < factors@.len() implies primes@.contains(#[trigger] factors@[i]) by {
                assert(factors@.contains(factors@[i]));
            }
        }
    }
    let mut base: u128 = 2;
    while base < n
        invariant
            n >= 3,
            cert_valid128(cert.elements@),
            forall|j: int| 0 <= j < primes@.len() ==> #[trigger] primes@[j] >= 2 && divides(
                primes@[j] as int,
                n - 1,
            ) && cert_has128(cert.elements@, primes@[j]),
            smooth128(n - 1, primes@),
            crate::factor_list::strictly_sorted128(primes@),
            cert_grows128(old(cert).elements@, cert.elements@),
            cert_new_bounded128(old(cert).elements@, cert.elements@, n as int),
        decreases n - base,
    {
        if base > FIRST_ROUND_BASE && n.miller_rabin(base) == MillerRabinCompositeResult::Composite {
            return CheckOutcome::Uncertified;
        }
        let result = n.lucas_primality_test(primes.as_slice(), base);
        if result == LucasPrimalityResult::Prime {
            let e = LucasCertificateElement { n, base, unique_prime_divisors: primes };
            cert.push(e);
            proof {
                assert(cert_has_int128(cert.elements@, n as int));
            }
            return CheckOutcome::Prime;
        } else if result == LucasPrimalityResult::Composite {
            return CheckOutcome::Uncertified;
        }
        base = base + 1;
    }
    CheckOutcome::Uncertified
}

/// Checks `n` for primality. A 64-bit number goes to the 64-bit check; above that,
/// Miller–Rabin with bases 2 to 20 filters composites, and a Lucas certificate (kept in
/// `cert` with `Certified`, in a scratch certificate otherwise) decides.
pub fn certified_prime_check128(
    n: u128,
    certainty: PrimalityCertainty,
    cert: &mut LucasCertificate<u128>,
) -> (o: CheckOutcome)
    requires
        n >= 1,
        cert_valid128(old(cert).elements@),
    ensures
        cert_valid128(final(cert).elements@),
        cert_grows128(old(cert).elements@, final(cert).elements@),
        cert_new_bounded128(old(cert).elements@, final(cert).elements@, n as int),
        o == CheckOutcome::Prime ==> accepted_prime128(n as int),
        o == CheckOutcome::NotPrime ==> final(cert).elements@ == old(cert).elements@,
        certainty == PrimalityCertainty::Guaranteed ==> final(cert).elements@ == old(
            cert,
        ).elements@,
        certainty == PrimalityCertainty::Guaranteed && n <= u64::MAX ==> (o == CheckOutcome::Prime)
            == passes_deterministic_bases(n as int),
        certainty == PrimalityCertainty::Certified && o == CheckOutcome::Prime ==> cert_has128(
            final(cert).elements@,
            n,
        ),
        n <= u64::MAX && certification_facts64(n as int) && passes_deterministic_bases(n as int) ==> o
            == CheckOutcome::Prime,
    decreases 4 * n + 1,
{
    if certainty == PrimalityCertainty::Guaranteed && n <= 0xffff_ffff_ffff_ffff {
        if is_prime64(n as u64) {
            proof {
                assert(crate::optimized_factoring::deterministic_base(0) == 2);
                assert(crate::miller_rabin::strong_probable_prime(n as int, 2));
            }
            return CheckOutcome::Prime;
        }
        return CheckOutcome::NotPrime;
    }
    if n <= 0xffff_ffff_ffff_ffff {
        let mut narrow_certificate: LucasCertificate<u64> = LucasCertificate::default();
        let ghost empty = narrow_certificate.elements@;
        let o = certified_prime_check64(n as u64, PrimalityCertainty::Certified, &mut narrow_certificate);
        lift_certificate(&narrow_certificate, cert);
        proof {
            let ns = narrow_certificate.elements@;
            assert forall|p: u128| #[trigger] cert_has128(cert.elements@, p) implies cert_has128(
                old(cert).elements@,
                p,
            ) || p <= n by {
                if !cert_has128(old(cert).elements@, p) {
                    assert(cert_has64(ns, p as u64));
                    assert(!cert_has64(empty, p as u64));
                }
            }
            if o == CheckOutcome::Prime {
                assert(cert_has64(ns, n as u64));
                assert(crate::miller_rabin::strong_probable_prime(n as int, crate::optimized_factoring::deterministic_base(0)));
            }
        }
        return o;
    }
    if n % 2 == 0 {
        if n != 2 {
            return CheckOutcome::NotPrime;
        }
        if certainty == PrimalityCertainty::Certified {
            let e = LucasCertificateElement { n: 2, base: 1, unique_prime_divisors: vec![1] };
            proof {
                assert(e.unique_prime_divisors@ =~= seq![1u128]);
            }
            cert.push(e);
        }
        return CheckOutcome::Prime;
    }
    if n == 1 {
        return CheckOutcome::NotPrime;
    }
    let mut b: u128 = 2;
    while b <= FIRST_ROUND_BASE
        invariant
            n >= 3,
            cert.elements@ == old(cert).elements@,
            cert_valid128(cert.elements@),
            n > 0xffff_ffff_ffff_ffff,
        decreases FIRST_ROUND_BASE + 1 - b,
    {
        if n.miller_rabin(b) == MillerRabinCompositeResult::Composite {
            return CheckOutcome::NotPrime;
        }
        b = b + 1;
    }
    if certainty == PrimalityCertainty::Certified {
        lucas_certify128(n, cert)
    } else {
        let mut scratch: LucasCertificate<u128> = LucasCertificate::default();
        proof {
            assert(cert_valid128(scratch.elements@));
        }
        lucas_certify128(n, &mut scratch)
    }
}

/// The element with its numbers widened to `u128`.
pub fn change_element(e: &LucasCertificateElement<u64>) -> (r: LucasCertificateElement<u128>)
    ensures
        r.n == e.n as u128,
        r.base == e.base as u128,
        r.unique_prime_divisors@.len() == e.unique_prime_divisors@.len(),
        forall|i: int|
            0 <= i < e.unique_prime_divisors@.len() ==> #[trigger] r.unique_prime_divisors@[i]
                == e.unique_prime_divisors@[i] as u128,
{
    let divisors = widen_factors(&e.unique_prime_divisors);
    LucasCertificateElement { n: e.n as u128, base: e.base as u128, unique_prime_divisors: divisors }
}

/// A valid 64-bit element stays valid when widened, within any 128-bit certificate that holds
/// its listed primes.
proof fn lemma_widened_element_valid(
    s64: Seq<LucasCertificateElement<u64>>,
    e: LucasCertificateElement<u64>,
    s128: Seq<LucasCertificateElement<u128>>,
    w: LucasCertificateElement<u128>,
)
    requires
        element_valid64(s64, e),
        w.n == e.n as u128,
        w.base == e.base as u128,
        w.unique_prime_divisors@.len() == e.unique_prime_divisors@.len(),
        forall|i: int|
            0 <= i < e.unique_prime_divisors@.len() ==> #[trigger] w.unique_prime_divisors@[i]
                == e.unique_prime_divisors@[i] as u128,
        e.n != 2 ==> forall|j: int|
            0 <= j < e.unique_prime_divisors@.len() ==> cert_has128(
                s128,
                #[trigger] w.unique_prime_divisors@[j],
            ),
    ensures
        element_valid128(s128, w),
{
    let d64 = e.unique_prime_divisors@;
    let d128 = w.unique_prime_divisors@;
    if e.n == 2 {
        assert(d128 =~= seq![1u128]);
    } else {
        assert(ints128(d128) =~= crate::lucas_primality::ints64(d64));
        assert forall|i: int, j: int| 0 <= i < j < d128.len() implies d128[i] < d128[j] by {
            assert(d64[i] < d64[j]);
        }
        assert forall|j: int| 0 <= j < d128.len() implies #[trigger] d128[j] >= 2 && divides(
            d128[j] as int,
            w.n - 1,
        ) && cert_has128(s128, d128[j]) by {
            assert(d64[j] >= 2);
        }
        let f = choose|f: Seq<u64>|
            product64(f) == e.n - 1 && forall|i: int| 0 <= i < f.len() ==> d64.contains(#[trigger] f[i]);
        let g = f.map_values(|x: u64| x as u128);
        lemma_widened(f, g);
        assert forall|i: int| 0 <= i < g.len() implies d128.contains(#[trigger] g[i]) by {
            assert(d64.contains(f[i]));
            let k = choose|k: int| 0 <= k < d64.len() && d64[k] == f[i];
            assert(d128[k] == g[i]);
        }
    }
}

/// Adds the elements of a valid 64-bit certificate, widened, to `cert`.
pub fn lift_certificate(narrow: &LucasCertificate<u64>, cert: &mut LucasCertificate<u128>)
    requires
        cert_valid64(narrow.elements@),
        cert_valid128(old(cert).elements@),
    ensures
        cert_valid128(final(cert).elements@),
        cert_grows128(old(cert).elements@, final(cert).elements@),
        forall|p: u64| #[trigger] cert_has64(narrow.elements@, p) ==> cert_has128(final(cert).elements@, p as u128),
        forall|p: u128|
            #[trigger] cert_has128(final(cert).elements@, p) ==> cert_has128(old(cert).elements@, p)
                || (p <= u64::MAX && cert_has64(narrow.elements@, p as u64)),
        narrow.elements@.len() == 0 ==> final(cert).elements@ == old(cert).elements@,
{
    let ghost ns = narrow.elements@;
    let mut k: usize = 0;
    while k < narrow.elements.len()
        invariant
            ns == narrow.elements@,
            cert_valid64(ns),
            k <= ns.len(),
            cert_valid128(cert.elements@),
            cert_grows128(old(cert).elements@, cert.elements@),
            forall|j: int| 0 <= j < k ==> cert_has128(cert.elements@, #[trigger] ns[j].n as u128),
            forall|p: u128|
                #[trigger] cert_has128(cert.elements@, p) ==> cert_has128(old(cert).elements@, p) || (
                p <= u64::MAX && cert_has64(ns, p as u64)),
            k == 0 ==> cert.elements@ == old(cert).elements@,
        decreases ns.len() - k,
    {
        let e = &narrow.elements[k];
        let w = change_element(e);
        proof {
            assert(element_valid64(ns, ns[k as int]));
            if e.n != 2 {
                assert forall|j: int| 0 <= j < e.unique_prime_divisors@.len() implies cert_has128(
                    cert.elements@,
                    #[trigger] w.unique_prime_divisors@[j],
                ) by {
                    let d = e.unique_prime_divisors@[j];
                    assert(cert_has64(ns, d));
                    let i = choose|i: int| 0 <= i < ns.len() && #[trigger] ns[i].n == d;
                    assert(divides(d as int, e.n - 1));
                    crate::util::lemma_divisor_le(d as int, e.n - 1);
                    if i >= k {
                        if i > k {
                            assert(ns[k as int].n < ns[i].n);
                        }
                    }
                    assert(i < k);
                    assert(cert_has128(cert.elements@, ns[i].n as u128));
                }
            }
            lemma_widened_element_valid(ns, *e, cert.elements@, w);
        }
        let ghost before = cert.elements@;
        cert.push(w);
        proof {
            assert forall|j: int| 0 <= j < k + 1 implies cert_has128(cert.elements@, #[trigger] ns[j].n as u128) by {
                if j < k {
                    assert(cert_has128(before, ns[j].n as u128));
                }
            }
            assert forall|p: u128| #[trigger] cert_has128(cert.elements@, p) implies cert_has128(
                old(cert).elements@,
                p,
            ) || (p <= u64::MAX && cert_has64(ns, p as u64)) by {
                if !cert_has128(before, p) {
                    assert(p == ns[k as int].n as u128);
                    assert(cert_has64(ns, ns[k as int].n));
                }
            }
        }
        k = k + 1;
    }
}

/// The values widened to `u128`.
fn widen_factors(v: &Vec<u64>) -> (r: Vec<u128>)
    ensures
        r@.len() == v@.len(),
        forall|i: int| 0 <= i < v@.len() ==> #[trigger] r@[i] == v@[i] as u128,
{
    let mut r: Vec<u128> = Vec::new();
    let mut i: usize = 0;
    while i < v.len()
        invariant
            i <= v@.len(),
            r@.len() == i,
            forall|k: int| 0 <= k < i ==> #[trigger] r@[k] == v@[k] as u128,
        decreases v@.len() - i,
    {
        r.push(v[i] as u128);
        i = i + 1;
    }
    r
}

proof fn lemma_widened(s: Seq<u64>, t: Seq<u128>)
    requires
        t.len() == s.len(),
        forall|i: int| 0 <= i < s.len() ==> #[trigger] t[i] == s[i] as u128,
    ensures
        product128(t) == product64(s),
        sorted64(s) ==> sorted128(t),
        all_accepted64(s) ==> all_accepted128(t),
    decreases s.len(),
{
    if s.len() > 0 {
        lemma_widened(s.drop_last(), t.drop_last());
        assert(t.last() == s.last() as u128);
    }
    if all_accepted64(s) {
        assert forall|i: int| 0 <= i < t.len() implies accepted_prime128(#[trigger] t[i] as int) by {
            assert(crate::optimized_factoring::accepted_prime64(s[i] as int));
        }
    }
}

impl Primality for u128 {
    fn is_prime(self) -> (r: bool)
        ensures
            r ==> accepted_prime128(self as int),
            self <= u64::MAX && certification_facts64(self as int) && is_prime_spec(self as int) ==> r,
            self <= u64::MAX ==> r == passes_deterministic_bases(self as int),
    {
        if self <= 0xffff_ffff_ffff_ffff {
            let r = is_prime64(self as u64);
            proof {
                if r {
                    assert(crate::miller_rabin::strong_probable_prime(self as int, crate::optimized_factoring::deterministic_base(0)));
                }
            }
            return r;
        }
        let mut scratch: LucasCertificate<u128> = LucasCertificate::default();
        proof {
            assert(cert_valid128(scratch.elements@));
        }
        certified_prime_check128(self, PrimalityCertainty::Guaranteed, &mut scratch)
            == CheckOutcome::Prime
    }

    fn generate_lucas_certificate(self) -> (r: Option<LucasCertificate<u128>>)
        ensures
            r matches Some(c) ==> cert_valid128(c.elements@) && c.elements@.len() > 0
                && c.elements@.last().n == self && accepted_prime128(self as int),
            self <= u64::MAX && certification_facts64(self as int) && is_prime_spec(self as int) ==> r is Some,
    {
        let mut certificate: LucasCertificate<u128> = LucasCertificate::default();
        if self == 0 {
            return None;
        }
        let ghost empty = certificate.elements@;
        let o = certified_prime_check128(self, PrimalityCertainty::Certified, &mut certificate);
        if o == CheckOutcome::Prime {
            proof {
                let s = certificate.elements@;
                let k = choose|k: int| 0 <= k < s.len() && #[trigger] s[k].n == self;
                let last = s[s.len() - 1];
                assert(cert_has128(s, last.n));
                assert(!cert_has128(empty, last.n));
                if k < s.len() - 1 {
                    assert(s[k].n < last.n);
                }
            }
            Some(certificate)
        } else {
            None
        }
    }
}

impl Factoring for u128 {
    open spec fn factorable(self) -> bool {
        self >= 1
    }

    /// A number that fits in 64 bits is factored by the 64-bit driver.
    fn factor_events<T: FactoringEventSubscriptor<u128>>(self, events: T) -> (r: Vec<u128>)
        ensures
            product128(r@) == self,
            sorted128(r@),
            all_accepted128(r@),
    {
        if self <= 0xffff_ffff_ffff_ffff {
            let mut narrow_events = WrappingFactoringEventSubscriptor::new(events);
            let mut narrow_certificate: LucasCertificate<u64> = LucasCertificate::default();
            let (narrow, _) = certified_factor64(
                self as u64,
                PrimalityCertainty::Guaranteed,
                &mut narrow_certificate,
                &mut narrow_events,
            );
            let wide = widen_factors(&narrow);
            proof {
                lemma_widened(narrow@, wide@);
            }
            return wide;
        }
        let mut events = events;
        let mut certificate: LucasCertificate<u128> = LucasCertificate::default();
        let (factors, _) = certified_factor128(
            self,
            PrimalityCertainty::Guaranteed,
            &mut certificate,
            &mut events,
        );
        factors
    }

    fn factor(self) -> (r: Vec<u128>)
        ensures
            product128(r@) == self,
            sorted128(r@),
            all_accepted128(r@),
    {
        self.factor_events(EmptyFactoringEventSubscriptor {})
    }
}

impl CertifiedFactorization for u128 {
    open spec fn certifiable_with(self, certificate: LucasCertificate<u128>) -> bool {
        self >= 1 && cert_valid128(certificate.elements@)
    }

    fn certified_factor<T: FactoringEventSubscriptor<u128>>(
        self,
        certainty: PrimalityCertainty,
        certificate: &mut LucasCertificate<u128>,
        events: T,
    ) -> (r: Vec<u128>)
        ensures
            product128(r@) == self,
            sorted128(r@),
            all_accepted128(r@),
            cert_valid128(final(certificate).elements@),
            cert_grows128(old(certificate).elements@, final(certificate).elements@),
            cert_new_bounded128(old(certificate).elements@, final(certificate).elements@, self as int),
            certainty == PrimalityCertainty::Guaranteed ==> final(certificate).elements@ == old(
                certificate,
            ).elements@,
            certainty == PrimalityCertainty::Certified && self <= u64::MAX && certification_facts64(
                self as int,
            ) ==> all_certified128(final(certificate).elements@, r@) && cert_new_within128(
                old(certificate).elements@,
                final(certificate).elements@,
                r@,
            ),
            certainty == PrimalityCertainty::Certified && self <= u64::MAX && certification_facts64(
                self as int,
            ) && old(certificate).elements@.len() == 0 && r@.len() > 0 ==> final(certificate).elements@.len() > 0
                && final(certificate).elements@.last().n == r@.last(),
    {
        let mut events = events;
        let ghost before = certificate.elements@;
        let (factors, _) = certified_factor128(self, certainty, certificate, &mut events);
        proof {
            if certainty == PrimalityCertainty::Certified && self <= u64::MAX && certification_facts64(
                self as int,
            ) && before.len() == 0 && factors@.len() > 0 {
                lemma_certified_factor_max128(before, certificate.elements@, factors@);
            }
        }
        factors
    }

    fn certified_prime_check(
        self,
        certainty: PrimalityCertainty,
        certificate: &mut LucasCertificate<u128>,
    ) -> (r: bool)
        ensures
            r ==> accepted_prime128(self as int),
            certainty == PrimalityCertainty::Guaranteed && self <= u64::MAX ==> r
                == passes_deterministic_bases(self as int),
            certainty == PrimalityCertainty::Certified && r ==> cert_has128(
                final(certificate).elements@,
                self,
            ),
            cert_valid128(final(certificate).elements@),
            cert_grows128(old(certificate).elements@, final(certificate).elements@),
            cert_new_bounded128(old(certificate).elements@, final(certificate).elements@, self as int),
            self <= u64::MAX && certification_facts64(self as int) && is_prime_spec(self as int) ==> r,
            !r ==> final(certificate).elements@ == old(certificate).elements@,
            certainty == PrimalityCertainty::Guaranteed ==> final(certificate).elements@ == old(
                certificate,
            ).elements@,
    {
        if certainty == PrimalityCertainty::Guaranteed {
            return certified_prime_check128(self, certainty, certificate) == CheckOutcome::Prime;
        }
        let mut work = crate::certificate::copy_certificate128(certificate);
        let o = certified_prime_check128(self, certainty, &mut work);
        if o == CheckOutcome::Prime {
            *certificate = work;
            true
        } else {
            false
        }
    }
}

/// When a fresh certificate has been filled by a factorization in which every certification
/// succeeded, each factor is certified in it and its largest element is the largest factor.
pub proof fn lemma_certified_factor_max128(
    before: Seq<LucasCertificateElement<u128>>,
    after: Seq<LucasCertificateElement<u128>>,
    factors: Seq<u128>,
)
    requires
        before.len() == 0,
        factors.len() > 0,
        sorted128(factors),
        cert_sorted128(after),
        all_certified128(after, factors),
        cert_new_within128(before, after, factors),
    ensures
        forall|i: int| 0 <= i < factors.len() ==> cert_has128(after, #[trigger] factors[i]),
        after.len() > 0,
        after.last().n == factors.last(),
{
    let top = factors[factors.len() - 1];
    assert(cert_has128(after, top));
    let k = choose|k: int| 0 <= k < after.len() && #[trigger] after[k].n == top;
    let last = after[after.len() - 1];
    assert(cert_has128(after, last.n));
    let j = choose|j: int| 0 <= j < factors.len() && last.n <= #[trigger] factors[j];
    assert(factors[j] <= top);
    if k < after.len() - 1 {
        assert(after[k].n < last.n);
    }
}

} // verus!
