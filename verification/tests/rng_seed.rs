use nescio::rng::Rng;

#[test]
fn deterministic_and_part_sensitive() {
    let a: Vec<u64> = {
        let mut r = Rng::from_parts(&["e1", "42"]);
        (0..4).map(|_| r.next_u64()).collect()
    };
    let b: Vec<u64> = {
        let mut r = Rng::from_parts(&["e1", "42"]);
        (0..4).map(|_| r.next_u64()).collect()
    };
    assert_eq!(a, b);
    let mut c = Rng::from_parts(&["e14", "2"]);
    assert_ne!(a[0], c.next_u64());
}

#[test]
fn draws_are_fnv_seeded_splitmix() {
    let mut r = Rng::from_parts(&["e1", "42"]);
    assert_eq!(r.next_u64(), 10191858371562882774);
    assert_eq!(r.next_u64(), 7550831406131806657);
    let mut empty = Rng::from_parts(&[]);
    assert_eq!(empty.next_u64(), 14087677454934409008);
    assert_eq!(empty.next_u64(), 1156539639830188822);
}

#[test]
fn part_boundaries_matter() {
    let mut ab_c = Rng::from_parts(&["ab", "c"]);
    let mut a_bc = Rng::from_parts(&["a", "bc"]);
    assert_eq!(ab_c.next_u64(), 3429670967035293676);
    assert_eq!(a_bc.next_u64(), 14364735163151853761);
}

#[test]
fn draws_do_not_repeat() {
    let mut r = Rng::from_parts(&["no", "repeats"]);
    let mut seen = std::collections::HashSet::new();
    for _ in 0..10_000 {
        assert!(seen.insert(r.next_u64()));
    }
}
