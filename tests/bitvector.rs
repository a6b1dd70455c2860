use facto::bitvector::BitVector;

#[test]
fn bitvector_set_get_flip() {
    let mut v = BitVector::new(300);
    assert_eq!(v.elements.len(), 3);
    assert!(v.is_zero());
    assert_eq!(v.trailing_zeros(), 384);
    v.set(200, true);
    assert!(v.get(200));
    assert!(!v.get(199));
    assert!(!v.is_zero());
    assert_eq!(v.trailing_zeros(), 200);
    v.flip(5);
    assert!(v.get(5));
    assert_eq!(v.trailing_zeros(), 5);
    v.flip(5);
    assert!(!v.get(5));
    v.set(200, false);
    assert!(v.is_zero());
    assert_eq!(BitVector::bit_helper(130), (4, 1));
    assert_eq!(BitVector::new(128).elements.len(), 1);
    assert_eq!(BitVector::new(0).elements.len(), 0);
}

#[test]
fn bitvector_add_is_xor() {
    let mut a = BitVector::new(256);
    let mut b = BitVector::new(256);
    a.set(3, true);
    a.set(130, true);
    b.set(3, true);
    b.set(7, true);
    a.add(&b);
    assert!(!a.get(3));
    assert!(a.get(7));
    assert!(a.get(130));
    assert_eq!(a.trailing_zeros(), 7);
    a.add(&a.clone());
    assert!(a.is_zero());
}
