use facto::primality::{
    LucasPrimality, LucasPrimalityResult, MillerRabin, MillerRabinCompositeResult,
};
use facto::Primality;

#[test]
fn test_miller_rabin() {
    assert_eq!(
        173u64.miller_rabin(2),
        MillerRabinCompositeResult::MaybePrime
    );
    assert_eq!(
        (53u64 * 17).miller_rabin(2),
        MillerRabinCompositeResult::Composite
    );
    assert_eq!(
        173u128.miller_rabin(2),
        MillerRabinCompositeResult::MaybePrime
    );
    assert_eq!(
        (53u128 * 17).miller_rabin(2),
        MillerRabinCompositeResult::Composite
    );
}

#[test]
fn miller_rabin_edges() {
    assert_eq!(9u64.miller_rabin(2), MillerRabinCompositeResult::Composite);
    assert_eq!(101u128.miller_rabin(2), MillerRabinCompositeResult::MaybePrime);
    assert_eq!(2u64.miller_rabin(5), MillerRabinCompositeResult::MaybePrime);
    assert_eq!(10u64.miller_rabin(3), MillerRabinCompositeResult::Composite);
    assert_eq!(1u64.miller_rabin(2), MillerRabinCompositeResult::Composite);
    assert_eq!(0u64.miller_rabin(2), MillerRabinCompositeResult::Composite);
    // base divisible by n
    assert_eq!(7u64.miller_rabin(14), MillerRabinCompositeResult::MaybePrime);
    // 2047 = 23 * 89 is a strong pseudoprime to base 2, and base 3 exposes it
    assert_eq!(2047u64.miller_rabin(2), MillerRabinCompositeResult::MaybePrime);
    assert_eq!(2047u64.miller_rabin(3), MillerRabinCompositeResult::Composite);
    // a prime above 2^64
    let p: u128 = 18_446_744_073_709_551_629;
    assert_eq!(p.miller_rabin(2), MillerRabinCompositeResult::MaybePrime);
    assert_eq!((p * 3).miller_rabin(2), MillerRabinCompositeResult::Composite);
}

/// # Panics
/// Should never happen, happens when primality can not be proved or disproved
pub fn exhaustive_lucas_primality_test<T>(
    n: &T,
    n_minus_1_unique_prime_factors: &[T],
) -> Option<T>
where
    T: LucasPrimality + num_traits::PrimInt + num_traits::NumAssignOps,
{
    let mut base = T::one() + T::one();
    while &base < n {
        match n.lucas_primality_test(n_minus_1_unique_prime_factors, base) {
            LucasPrimalityResult::Prime => return Some(base),
            LucasPrimalityResult::Composite => return None,
            LucasPrimalityResult::Unknown => {}
        }
        base += T::one();
    }
    panic!()
}

#[test]
fn test_lucas() {
    assert_eq!(
        71u64.lucas_primality_test(&[2, 5, 7], 17),
        LucasPrimalityResult::Unknown
    );
    assert_eq!(
        71u64.lucas_primality_test(&[2, 5, 7], 11),
        LucasPrimalityResult::Prime
    );
    assert!(exhaustive_lucas_primality_test(&442_069_u64, &[2, 3, 11, 17, 197]).is_some());
    assert!(exhaustive_lucas_primality_test(
        &782_689_174_619_698_081_u64,
        &[2, 3, 5, 7, 53, 122_347, 11_974_561]
    )
    .is_some());
    assert!(exhaustive_lucas_primality_test(&442_069_u128, &[2, 3, 11, 17, 197]).is_some());
    assert!(exhaustive_lucas_primality_test(
        &782_689_174_619_698_081_u128,
        &[2, 3, 5, 7, 53, 122_347, 11_974_561]
    )
    .is_some());
}

#[test]
fn lucas_more_values() {
    assert_eq!(
        71u128.lucas_primality_test(&[2, 5, 7], 11),
        LucasPrimalityResult::Prime
    );
    // 91 = 7 * 13 fails Fermat's test to base 2
    assert_eq!(
        91u64.lucas_primality_test(&[2, 3, 5], 2),
        LucasPrimalityResult::Composite
    );
}

#[test]
fn is_prime_u64_values() {
    assert!(407_521_u64.is_prime());
    assert!(13u64.is_prime());
    assert!(!14u64.is_prime());
    assert!(2u64.is_prime());
    assert!(!1u64.is_prime());
    assert!(!0u64.is_prime());
    assert!(101u64.is_prime());
    assert!(18_446_744_073_709_551_557u64.is_prime());
    assert!(!u64::MAX.is_prime());
    assert!(!(4_294_967_279u64 * 4_294_967_291).is_prime());
}
