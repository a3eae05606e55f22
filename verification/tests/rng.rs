use raxos::rng::Rng;

#[test]
fn deterministic_for_seed() {
    let mut a = Rng::new(42);
    let mut b = Rng::new(42);
    for _ in 0..100 {
        assert_eq!(a.next_u64(), b.next_u64());
    }
    let mut c = Rng::new(43);
    assert_ne!(Rng::new(42).next_u64(), c.next_u64());
}

#[test]
fn range_stays_in_bounds() {
    let mut rng = Rng::new(7);
    for _ in 0..1000 {
        let x = rng.range_inclusive(1, u32::MAX as u64 - 1);
        assert!((1..=u32::MAX as u64 - 1).contains(&x));
    }
    assert_eq!(rng.range_inclusive(5, 5), 5);
}

#[test]
fn spreads_over_range() {
    // Sanity: draws from [1, H-1] should not collide for small samples.
    let mut rng = Rng::new(1);
    let mut seen = std::collections::BTreeSet::new();
    for _ in 0..64 {
        seen.insert(rng.range_inclusive(1, u32::MAX as u64 - 1));
    }
    assert!(seen.len() >= 63);
}
