use life_collatz::rng::SimpleRng;

#[test]
fn test_rng_is_deterministic() {
    let mut a = SimpleRng::new(1);
    let mut b = SimpleRng::new(1);
    let first = a.next();
    assert_eq!(first, 1u64.wrapping_mul(1103515245).wrapping_add(12345));
    assert_eq!(first, 1103527590);
    assert_eq!(b.next(), first);
    assert_eq!(a.next(), b.next());
}

#[test]
fn test_rng_differs_across_seeds() {
    let mut a = SimpleRng::new(2);
    let mut b = SimpleRng::new(3);
    assert_ne!(a.next(), b.next());
}
