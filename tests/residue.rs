use facto::residue::{
    binary_power_mod_sqrt, eulers_criterion, is_prime_mod_res, is_prime_power_mod_res,
    odd_prime_power_mod_sqrt, prime_mod_sqrt, tonelli_shanks, BinaryModulo, OddPrime,
};

#[test]
fn test_prime_power() {
    for i in [0, 1, 4, 7] {
        assert!(is_prime_power_mod_res(i, 3, 2), "{i} should be res of 9");
    }
    for i in [2, 3, 5, 6, 8] {
        assert!(
            !is_prime_power_mod_res(i, 3, 2),
            "{i} should not be res of 9"
        );
    }
}

#[test]
fn all_binary_roots() {
    for modulus_exp in 0..17 {
        let modulus: u128 = 1 << modulus_exp;
        let mut total_root_count = 0u128;
        for i in 0..modulus {
            if is_prime_power_mod_res(i, 2, modulus.trailing_zeros()) {
                for root in binary_power_mod_sqrt(i, modulus.trailing_zeros()) {
                    assert_eq!(
                        root.wrapping_mul(root) % modulus,
                        i,
                        "{root}**2 != {i} mod {modulus}"
                    );
                    total_root_count += 1;
                }
            }
        }
        assert_eq!(total_root_count, modulus);
    }
}

fn check_quad_res() {
    let test_primes = [101u128, 7057, 6037, 7919];
    for p in test_primes {
        let mut naive_quad_res: Vec<_> = (1..p).map(|n| ((n * n) % p, n)).collect();
        naive_quad_res.sort_unstable();
        naive_quad_res.dedup();
        for n in 2..p {
            let quad_res = naive_quad_res.binary_search_by_key(&n, |x| x.0);
            let naive_truth = quad_res.is_ok();
            let tested_truth = eulers_criterion(n, p);
            assert_eq!(
                naive_truth, tested_truth,
                "{n} should be quadres mod {p}: {naive_truth}",
            );

            if let Ok(q) = quad_res {
                let (square, root) = naive_quad_res[q];
                let r = tonelli_shanks(square, p);
                assert!(
                    r == root || p - r == root,
                    "sqrt({square}) mod {p} should be {root}, turned out to be {r} and {neg_r}",
                    neg_r = p - r
                );
            }
        }
    }
}

#[test]
fn residue_test_quad_res() {
    check_quad_res();
}

#[test]
fn quadratic_sieve_test_quad_res() {
    check_quad_res();
}

#[test]
fn tonelli_shanks_values() {
    // 7057 = 1 + 2^4 * 441, so the general path is taken
    let r = tonelli_shanks(2, 7057);
    assert_eq!(r * r % 7057, 2);
    // 7919 = 3 (mod 4): the root is square^((p + 1) / 4)
    let r = prime_mod_sqrt(4, 7919);
    assert!(r == 2 || r == 7917);
    assert_eq!(tonelli_shanks(5, 2), 1);
    assert_eq!(tonelli_shanks(5, 1), 0);
    assert_eq!(tonelli_shanks(0, 13), 0);
    assert!(is_prime_mod_res(10, 13));
    assert!(!is_prime_mod_res(5, 13));
}

#[test]
fn binary_roots_values() {
    assert_eq!(binary_power_mod_sqrt(1, 3), vec![1, 3, 5, 7]);
    assert_eq!(binary_power_mod_sqrt(0, 0), vec![0]);
    assert_eq!(binary_power_mod_sqrt(9, 4), vec![3, 5, 11, 13]);
    assert!(!is_prime_power_mod_res(2, 2, 3));
    assert!(is_prime_power_mod_res(16 * 17, 2, 8));
    assert!(!is_prime_power_mod_res(8 * 17, 2, 8));
    let mut b = BinaryModulo::new(17);
    assert_eq!(b.next(), Some(vec![1]));
    assert_eq!(b.next(), Some(vec![1, 3]));
    assert_eq!(b.next(), Some(vec![1, 3, 5, 7]));
}

#[test]
fn hensel_lifting_values() {
    // 2^2 = 4 (mod 7); lifting keeps a root modulo 7 at every power
    let mut o = OddPrime::new(4, 7);
    let first = o.next().unwrap();
    assert!(first == 2 || first == 5);
    let mut modulus = 7u128;
    for _ in 0..5 {
        let r = o.next().unwrap();
        modulus *= 7;
        assert_eq!(r * r % 7, 4);
        assert_eq!(r * r % modulus, 4);
    }
    let r = odd_prime_power_mod_sqrt(2, 7, 6);
    assert_eq!(r * r % 117_649, 2);
    let r = odd_prime_power_mod_sqrt(2, 7, 3);
    assert_eq!(r * r % 7, 2);
    assert_eq!(odd_prime_power_mod_sqrt(2, 7, 0), 0);
}
