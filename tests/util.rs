use facto::NumUtil;

#[test]
fn test_int_sqrt() {
    assert_eq!(4u64.integer_square_root(), 2);
    assert_eq!(15u64.integer_square_root(), 3);
    assert_eq!(16u64.integer_square_root(), 4);
    assert_eq!((1653u64 * 1653 - 1).integer_square_root(), 1652);
    assert_eq!((1653u64 * 1653).integer_square_root(), 1653);
    assert_eq!(u64::MAX.integer_square_root(), u64::from(u32::MAX));
}

#[test]
fn test_gcd() {
    let mut v = 2u64;
    let mut u = 15_096_997_u64;
    for _ in 0u64..10000 {
        u = u.wrapping_mul(u).wrapping_add(8713);
        v = v.wrapping_mul(v).wrapping_add(4_891_895);

        let g = u64::gcd(u, v);
        assert_eq!(u % g, 0);
        assert_eq!(v % g, 0);
        assert_eq!(u64::gcd(u / g, v / g), 1);
    }
}

#[test]
fn isqrt_edges() {
    assert_eq!(0u64.integer_square_root(), 0);
    assert_eq!(1u64.integer_square_root(), 1);
    assert_eq!(2u64.integer_square_root(), 1);
    assert_eq!(3u64.integer_square_root(), 1);
    assert_eq!(u128::MAX.integer_square_root(), u128::from(u64::MAX));
    assert_eq!(1_000_000_000_000u128.integer_square_root(), 1_000_000);
    for n in 0u64..2000 {
        let r = n.integer_square_root();
        assert!(r * r <= n && n < (r + 1) * (r + 1));
    }
}

#[test]
fn gcd_values() {
    assert_eq!(u64::gcd(12, 18), 6);
    assert_eq!(u64::gcd(0, 7), 7);
    assert_eq!(u64::gcd(7, 0), 7);
    assert_eq!(u64::gcd(0, 0), 0);
    assert_eq!(u64::gcd(4, 8), 4);
    assert_eq!(u128::gcd(1u128 << 100, 3u128 << 90), 1u128 << 90);
    assert_eq!(u32::gcd(48, 180), 12);
    assert_eq!(u32::MAX.integer_square_root(), 65535);
    let (u, v) = (360u64, 84u64);
    let g = u64::gcd(u, v);
    assert_eq!(g, 12);
    assert_eq!(u64::gcd(u / g, v / g), 1);
}
