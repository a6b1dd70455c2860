use facto::arith::pow_mod_u128;
use facto::{
    CertifiedFactorization, EmptyFactoringEventSubscriptor, Factoring, LucasCertificate,
    LucasCertificateElement, LucasCertificateTrait, Primality, PrimalityCertainty,
};

fn check_certificate_u128(c: &LucasCertificate<u128>) {
    for (i, e) in c.elements.iter().enumerate() {
        if i > 0 {
            assert!(c.elements[i - 1].n < e.n);
        }
        if e.n == 2 {
            assert_eq!(e.base, 1);
            assert_eq!(e.unique_prime_divisors, vec![1]);
            continue;
        }
        let mut mn = e.n - 1;
        assert_eq!(pow_mod_u128(e.base, e.n - 1, e.n), 1);
        for &p in &e.unique_prime_divisors {
            assert!(p > 1);
            assert!(
                c.elements.binary_search_by(|x| x.n.cmp(&p)).is_ok(),
                "Certificate does not certify factor {}",
                p
            );
            assert_eq!(mn % p, 0);
            while mn % p == 0 {
                mn /= p;
            }
            assert_ne!(pow_mod_u128(e.base, (e.n - 1) / p, e.n), 1);
        }
        assert_eq!(mn, 1);
    }
}

fn check_certificate_u64(c: &LucasCertificate<u64>) {
    let wide = LucasCertificate {
        elements: c
            .elements
            .iter()
            .map(|e| LucasCertificateElement {
                n: u128::from(e.n),
                base: u128::from(e.base),
                unique_prime_divisors: e.unique_prime_divisors.iter().map(|&x| u128::from(x)).collect(),
            })
            .collect(),
    };
    check_certificate_u128(&wide);
}

#[test]
fn optimized_factoring_bla() {
    println!("{:?}", 101u128.generate_lucas_certificate());
}

#[test]
fn mod_bla() {
    println!("{:?}", 101u128.generate_lucas_certificate());
}

#[test]
fn optimized_factoring_primality() {
    assert!(407_521_u64.is_prime());
    assert!(2u128.is_prime());
    assert!(7u128.is_prime());
}

#[test]
fn mod_primality() {
    assert!(407_521_u64.is_prime());
    assert!(2u128.is_prime());
    assert!(7u128.is_prime());
}

#[test]
fn lucas_certificate_of_101() {
    assert!(101u64.is_prime());
    let c = 101u64.generate_lucas_certificate().unwrap();
    let top = c.get_max().unwrap();
    assert_eq!(top.n, 101);
    assert_eq!(top.unique_prime_divisors, vec![2, 5]);
    check_certificate_u64(&c);
    let c = 101u128.generate_lucas_certificate().unwrap();
    assert_eq!(c.get_max().unwrap().n, 101);
    assert_eq!(c.get(&5).unwrap().n, 5);
    assert!(c.get(&7).is_none());
    check_certificate_u128(&c);
    assert!(100u64.generate_lucas_certificate().is_none());
    assert!(0u64.generate_lucas_certificate().is_none());
}

#[test]
fn certified_prime_check_fills_certificate() {
    let mut c = LucasCertificate::default();
    assert!(101u64.certified_prime_check(PrimalityCertainty::Certified, &mut c));
    assert_eq!(c.get_max(), 101u64.generate_lucas_certificate().unwrap().get_max());
    assert!(c.contains(&2));
    assert!(c.contains(&5));
    assert!(!c.contains(&3));
    assert!(!91u64.certified_prime_check(PrimalityCertainty::Certified, &mut c));
    let mut g = LucasCertificate::<u64>::default();
    assert!(101u64.certified_prime_check(PrimalityCertainty::Guaranteed, &mut g));
    assert!(g.elements.is_empty());
}

#[test]
fn certified_factor_certifies_every_factor() {
    let mut c = LucasCertificate::default();
    let f = 10_987_081u128.certified_factor(
        PrimalityCertainty::Certified,
        &mut c,
        EmptyFactoringEventSubscriptor {},
    );
    assert_eq!(f, vec![7, 107, 14669]);
    assert!(c.elements.binary_search_by_key(&7, |x| x.n).is_ok());
    assert!(c.elements.binary_search_by_key(&107, |x| x.n).is_ok());
    assert!(c.elements.binary_search_by_key(&14669, |x| x.n).is_ok());
    assert_eq!(c.get_max().unwrap().n, 14669);
    check_certificate_u128(&c);

    for n in [2u64, 60, 65, 1_000_000_007 * 998_244_353, u64::MAX, 4_294_967_279 * 4_294_967_291] {
        let mut c = LucasCertificate::default();
        let f = n.certified_factor(
            PrimalityCertainty::Certified,
            &mut c,
            EmptyFactoringEventSubscriptor {},
        );
        assert_eq!(f.iter().product::<u64>(), n);
        for p in &f {
            assert!(c.contains(p), "factor {} of {} not certified", p, n);
        }
        assert_eq!(c.get_max().unwrap().n, *f.last().unwrap());
        check_certificate_u64(&c);
    }
}

#[test]
fn certificate_push_is_idempotent_and_sorted() {
    let mut c = LucasCertificate::<u64>::default();
    c.push(LucasCertificateElement { n: 5, base: 2, unique_prime_divisors: vec![2] });
    c.push(LucasCertificateElement { n: 2, base: 1, unique_prime_divisors: vec![1] });
    c.push(LucasCertificateElement { n: 5, base: 3, unique_prime_divisors: vec![2] });
    assert_eq!(c.elements.len(), 2);
    assert_eq!(c.elements[0].n, 2);
    assert_eq!(c.elements[1].base, 2);
    assert!(c.contains(&5));
    assert!(!c.contains(&3));
}

#[test]
fn factor_u128_values() {
    assert_eq!(60u128.factor(), vec![2, 2, 3, 5]);
    let p: u128 = 18_446_744_073_709_551_629;
    assert!(p.is_prime());
    assert!(!(p * 3).is_prime());
    assert_eq!((p * 12).factor(), vec![2, 2, 3, p]);
    assert_eq!(
        (u128::from(u64::MAX) * 7).factor(),
        vec![3, 5, 7, 17, 257, 641, 65537, 6_700_417]
    );
    let c = p.generate_lucas_certificate().unwrap();
    assert_eq!(c.get_max().unwrap().n, p);
    check_certificate_u128(&c);
}
