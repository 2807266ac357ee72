use rand::rngs::SmallRng;
use rand::SeedableRng;
use sudoku_solver::lotto::Lotto;

#[test]
fn new_pot_holds_one_through_size() {
    let lotto = Lotto::new(10);
    assert_eq!(lotto.pot, (1..=10).collect::<Vec<u32>>());
    let empty = Lotto::new(0);
    assert!(empty.pot.is_empty());
}

#[test]
fn take_draws_distinct_numbers_from_pot() {
    let mut rng = SmallRng::seed_from_u64(7);
    let mut lotto = Lotto::new(49);
    let draw = lotto.take(6, &mut rng);
    assert_eq!(draw.len(), 6);
    for (i, n) in draw.iter().enumerate() {
        assert!((1..=49).contains(n));
        for m in &draw[i + 1..] {
            assert_ne!(n, m);
        }
    }
    // the pot still holds every number exactly once
    let mut sorted = lotto.pot.clone();
    sorted.sort_unstable();
    assert_eq!(sorted, (1..=49).collect::<Vec<u32>>());
}

#[test]
fn take_more_than_pot_returns_whole_pot() {
    let mut rng = SmallRng::seed_from_u64(1);
    let mut lotto = Lotto::new(5);
    let draw = lotto.take(20, &mut rng);
    assert_eq!(draw.len(), 5);
    let mut sorted = draw.clone();
    sorted.sort_unstable();
    assert_eq!(sorted, vec![1, 2, 3, 4, 5]);
}
