use dakv_skiplist::random::{Random, RandomGenerator};

#[test]
fn test_cmp() {
    let mut s = Random::new(0xdead_beef);
    assert_eq!(s.next(), 1624403320);
    assert!(s.one_in(386994929));
    assert_eq!(s.uniform(1643288587 + 1), 1643288587);
    assert_eq!(s.next(), 2111581289);
    assert_eq!(s.skewed(1993), 17525);
}

#[test]
fn test_degenerate_seeds() {
    // both fixed points of the generator are replaced at construction
    let mut zero = Random::new(0);
    let mut top = Random::new(2_147_483_647);
    let mut one = Random::new(1);
    assert_eq!(zero.next(), one.next());
    let mut one2 = Random::new(1);
    assert_eq!(top.next(), one2.next());
}

#[test]
fn test_uniform_bounds() {
    let mut s = Random::new(301);
    for _ in 0..1000 {
        assert!(s.uniform(7) < 7);
    }
}
