use roman_domination::RandomSource;

#[test]
fn below_stays_below_bound() {
    let mut rng = RandomSource::from_seed(1);
    for bound in 1..50usize {
        assert!(rng.below(bound) < bound);
    }
    assert_eq!(rng.below(1), 0);
}

#[test]
fn distinct_below_draws_distinct_values() {
    let mut rng = RandomSource::from_seed(2);
    for _ in 0..20 {
        let v = rng.distinct_below(10, 4);
        assert_eq!(v.len(), 4);
        for i in 0..v.len() {
            assert!(v[i] < 10);
            for j in 0..i {
                assert_ne!(v[i], v[j]);
            }
        }
    }
    let mut all = rng.distinct_below(5, 5);
    all.sort();
    assert_eq!(all, vec![0, 1, 2, 3, 4]);
    assert!(rng.distinct_below(3, 0).is_empty());
}

#[test]
fn chance_extremes_are_certain() {
    let mut rng = RandomSource::from_seed(3);
    for _ in 0..100 {
        assert!(!rng.chance_per_million(0));
        assert!(rng.chance_per_million(1_000_000));
        assert!(rng.chance_per_million(5_000_000));
    }
}

#[test]
fn chance_half_gives_both_outcomes() {
    let mut rng = RandomSource::from_seed(4);
    let hits = (0..1000).filter(|_| rng.chance_per_million(500_000)).count();
    assert!(hits > 300 && hits < 700);
}

#[test]
fn same_seed_same_draws() {
    let mut a = RandomSource::from_seed(99);
    let mut b = RandomSource::from_seed(99);
    for _ in 0..20 {
        assert_eq!(a.below(1000), b.below(1000));
    }
    let mut e = RandomSource::from_entropy();
    assert!(e.below(7) < 7);
}
