use facto::factoring::{PollardRho, TrialDivision};
use facto::{
    CertifiedFactorization, EmptyFactoringEventSubscriptor, Factoring, LucasCertificate, Primality,
    PrimalityCertainty,
};

#[test]
fn test_factor() {
    assert_eq!(
        (4_294_967_279u64 * 4_294_967_291).factor(),
        &[4_294_967_279, 4_294_967_291]
    );
}

#[test]
fn factor_small_values() {
    assert_eq!(60u64.factor(), vec![2, 2, 3, 5]);
    assert_eq!(65u64.factor(), vec![5, 13]);
    assert_eq!(1u64.factor(), Vec::<u64>::new());
    assert_eq!(2u64.factor(), vec![2]);
    assert_eq!(
        u64::MAX.factor(),
        vec![3, 5, 17, 257, 641, 65537, 6_700_417]
    );
    assert_eq!(
        18_446_744_073_709_551_557u64.factor(),
        vec![18_446_744_073_709_551_557]
    );
}

#[test]
fn factor_invariants() {
    for n in 1u64..3000 {
        let f = n.factor();
        assert_eq!(f.iter().product::<u64>(), n);
        assert!(f.windows(2).all(|w| w[0] <= w[1]));
        assert!(f.iter().all(|p| p.is_prime()));
        assert_eq!(n.is_prime(), f == vec![n]);
    }
    let big = [
        1_000_000_007u64 * 998_244_353,
        (1u64 << 61) - 1,
        600_851_475_143,
        4_611_686_014_132_420_609,
    ];
    for n in big {
        let f = n.factor();
        assert_eq!(f.iter().product::<u64>(), n);
        assert!(f.windows(2).all(|w| w[0] <= w[1]));
        assert!(f.iter().all(|p| p.is_prime()));
    }
}

#[test]
fn test_trial_division() {
    assert_eq!(
        u64::MAX.trial_division(&6_700_417).0,
        &[3u64, 5, 17, 257, 641, 65537, 6_700_417]
    );
    assert_eq!(
        2_147_483_647_u32.exhaustive_trial_division(),
        &[2_147_483_647_u32]
    );
}

#[test]
fn trial_division_bounds() {
    let (f, exhaustive) = (1_000_003u64 * 1_000_033).trial_division(&100);
    assert!(!exhaustive);
    assert_eq!(f, vec![1_000_003u64 * 1_000_033]);
    let (f, exhaustive) = (2u64 * 3 * 5 * 7 * 11 * 13).trial_division(&100);
    assert!(exhaustive);
    assert_eq!(f, vec![2, 3, 5, 7, 11, 13]);
    let (f, exhaustive) = (49u128 * 1_000_000_007).trial_division(&10);
    assert!(!exhaustive);
    assert_eq!(f, vec![7, 7, 1_000_000_007]);
    assert_eq!(1u64.trial_division(&10), (vec![], true));
    assert_eq!(360u32.trial_division(&10), (vec![2, 2, 2, 3, 3, 5], true));
    assert_eq!(u32::MAX.exhaustive_trial_division(), vec![3, 5, 17, 257, 65537]);
}

#[test]
fn pollard_rho_finds_divisor() {
    let n = 1_000_000_007u64 * 998_244_353;
    let d = n.pollard_rho(&2, &1).unwrap();
    assert!(d > 1 && d < n && n % d == 0);
    let n = 10_403u128;
    let d = n.pollard_rho(&2, &1).unwrap();
    assert!(d == 101 || d == 103);
}

#[test]
fn certified_factor_guaranteed_leaves_certificate() {
    let n = 12u64 * 1_000_000_007 * 998_244_353;
    let mut c = LucasCertificate::default();
    assert_eq!(
        n.certified_factor(PrimalityCertainty::Guaranteed, &mut c, EmptyFactoringEventSubscriptor {}),
        vec![2, 2, 3, 998_244_353, 1_000_000_007]
    );
    assert!(c.elements.is_empty());
    let f = n.factor_events(EmptyFactoringEventSubscriptor {});
    assert_eq!(f, vec![2, 2, 3, 998_244_353, 1_000_000_007]);
}

struct Recorder {
    primes: Vec<u64>,
    composites: Vec<u64>,
    splits: usize,
}

impl facto::FactoringEventSubscriptor<u64> for Recorder {
    fn factorized(&mut self, _n: &u64, _primes: &[u64], _composites: &[u64], _unknown: &[u64]) {
        self.splits += 1;
    }
    fn is_prime(&mut self, n: &u64) {
        self.primes.push(*n);
    }
    fn is_composite(&mut self, n: &u64) {
        self.composites.push(*n);
    }
}

#[test]
fn factor_events_report_progress() {
    let mut r = Recorder { primes: vec![], composites: vec![], splits: 0 };
    let n = 12u64 * 1_000_000_007 * 998_244_353;
    assert_eq!(
        n.factor_events(&mut r),
        vec![2, 2, 3, 998_244_353, 1_000_000_007]
    );
    assert!(r.splits >= 2);
    let mut found = r.primes.clone();
    found.sort_unstable();
    assert_eq!(found, vec![998_244_353, 1_000_000_007]);
    assert!(r.composites.is_empty());
}
