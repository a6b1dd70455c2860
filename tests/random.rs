use facto::arith::pow_mod_u128;
use facto::{
    CertifiedFactorization, EmptyFactoringEventSubscriptor, LucasCertificate, PrimalityCertainty,
};

/// splitmix64, seeded from the clock.
struct Rng(u64);

impl Rng {
    fn new() -> Self {
        let seed = std::time::SystemTime::now()
            .duration_since(std::time::SystemTime::UNIX_EPOCH)
            .unwrap()
            .as_micros() as u64;
        Rng(seed)
    }
    fn next(&mut self) -> u64 {
        self.0 = self.0.wrapping_add(0x9E37_79B9_7F4A_7C15);
        let mut z = self.0;
        z = (z ^ (z >> 30)).wrapping_mul(0xBF58_476D_1CE4_E5B9);
        z = (z ^ (z >> 27)).wrapping_mul(0x94D0_49BB_1331_11EB);
        z ^ (z >> 31)
    }
    fn below(&mut self, bound: u128) -> u128 {
        let x = (u128::from(self.next()) << 64) | u128::from(self.next());
        x % bound
    }
}

fn check_certificate(c: &LucasCertificate<u128>) {
    for e in &c.elements {
        if e.n == 2 {
            continue;
        }
        let mut mn = e.n - 1;
        assert_eq!(pow_mod_u128(e.base, e.n - 1, e.n), 1);
        for &ef in &e.unique_prime_divisors {
            assert!(ef > 1);
            assert!(
                c.elements.binary_search_by(|x| x.n.cmp(&ef)).is_ok(),
                "Certificate does not certify factor {}",
                ef
            );
            assert_eq!(mn % ef, 0, "{} % {}", mn, ef);
            while mn % ef == 0 {
                mn /= ef;
            }
            assert_ne!(pow_mod_u128(e.base, (e.n - 1) / ef, e.n), 1);
        }
        assert_eq!(mn, 1);
    }
}

fn widen(c: &LucasCertificate<u64>) -> LucasCertificate<u128> {
    LucasCertificate {
        elements: c
            .elements
            .iter()
            .map(|e| facto::LucasCertificateElement {
                n: u128::from(e.n),
                base: u128::from(e.base),
                unique_prime_divisors: e.unique_prime_divisors.iter().map(|&x| u128::from(x)).collect(),
            })
            .collect(),
    }
}

#[test]
fn random_test_u64() {
    let mut rng = Rng::new();
    for _ in 0..1000 {
        let n = rng.next().max(1);
        let mut c = LucasCertificate::default();
        let v = n.certified_factor(
            PrimalityCertainty::Certified,
            &mut c,
            EmptyFactoringEventSubscriptor {},
        );
        let mut re = 1u64;
        for f in v {
            re *= f;
            assert!(
                c.elements.binary_search_by(|x| x.n.cmp(&f)).is_ok(),
                "Factor {} of {} is not certified",
                f,
                n
            );
        }
        assert_eq!(n, re);
        check_certificate(&widen(&c));
    }
}

#[test]
fn random_test_u128_smooth() {
    let mut rng = Rng::new();
    let threshold: u128 = 1 << 40;
    for _ in 0..15 {
        let mut r = 1u128;
        for _ in 0..3 {
            r *= rng.below(threshold) + threshold;
        }
        let mut c = LucasCertificate::default();
        let v = r.certified_factor(
            PrimalityCertainty::Certified,
            &mut c,
            EmptyFactoringEventSubscriptor {},
        );
        let mut re = 1u128;
        for f in v {
            re *= f;
            assert!(
                c.elements.binary_search_by(|x| x.n.cmp(&f)).is_ok(),
                "Factor {} of {} is not certified",
                f,
                r
            );
        }
        assert_eq!(r, re);
        check_certificate(&c);
    }
}
