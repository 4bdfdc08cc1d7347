use rand::rngs::StdRng;
use rand::SeedableRng;
use tetris_ai::rusty::game::{garbage_line, GameRNGGenerator};
use tetris_ai::rusty::trainer::{apply_swaps, draw_swaps, shuffle};

#[test]
fn shuffle_keeps_every_item() {
    let items_in_order: Vec<i32> = (0..10).collect();
    for seed in 0..20 {
        let mut rng = StdRng::seed_from_u64(seed);
        let mut items = items_in_order.clone();
        shuffle(&mut items, &mut rng);
        let mut sorted = items.clone();
        sorted.sort();
        assert_eq!(sorted, items_in_order);
    }
}

#[test]
fn shuffle_moves_items() {
    let items_in_order: Vec<i32> = (0..10).collect();
    let mut rng = StdRng::seed_from_u64(0);
    let mut items = items_in_order.clone();
    shuffle(&mut items, &mut rng);
    assert_ne!(items, items_in_order);
}

#[test]
fn shuffle_of_short_lists() {
    let mut rng = StdRng::seed_from_u64(3);
    let mut empty: Vec<u8> = Vec::new();
    shuffle(&mut empty, &mut rng);
    assert!(empty.is_empty());
    let mut one = vec![7u8];
    shuffle(&mut one, &mut rng);
    assert_eq!(one, vec![7u8]);
}

#[test]
fn shuffle_keeps_repeated_items() {
    let mut rng = StdRng::seed_from_u64(11);
    let mut items = vec![2, 2, 5, 5, 5, 9];
    shuffle(&mut items, &mut rng);
    items.sort();
    assert_eq!(items, vec![2, 2, 5, 5, 5, 9]);
}

#[test]
fn swaps_follow_the_draws() {
    let mut items: Vec<i32> = (0..7).collect();
    apply_swaps(&mut items, &vec![0, 0, 0, 0, 0, 0, 0]);
    assert_eq!(items, vec![1, 2, 3, 4, 5, 6, 0]);
    let mut items: Vec<i32> = (0..7).collect();
    apply_swaps(&mut items, &vec![0, 1, 2, 3, 4, 5, 6]);
    assert_eq!(items, (0..7).collect::<Vec<i32>>());
    let mut items = vec!['a', 'b', 'c'];
    apply_swaps(&mut items, &vec![0, 0, 1]);
    // Position 2 takes position 1, then position 1 takes position 0.
    assert_eq!(items, vec!['c', 'a', 'b']);
}

#[test]
fn draws_stay_within_their_positions() {
    let mut rng = StdRng::seed_from_u64(9);
    let ks = draw_swaps(12, &mut rng);
    assert_eq!(ks.len(), 12);
    assert_eq!(ks[0], 0);
    for (p, k) in ks.iter().enumerate() {
        assert!(*k <= p);
    }
    assert!(draw_swaps(0, &mut rng).is_empty());
}

#[test]
fn shuffle_is_the_swaps_of_its_draws() {
    let mut a = StdRng::seed_from_u64(5);
    let mut b = StdRng::seed_from_u64(5);
    let mut items: Vec<i32> = (0..10).collect();
    shuffle(&mut items, &mut a);
    let ks = draw_swaps(10, &mut b);
    let mut expected: Vec<i32> = (0..10).collect();
    apply_swaps(&mut expected, &ks);
    assert_eq!(items, expected);
}

#[test]
fn bags_are_the_swaps_of_their_draws() {
    let mut generator = GameRNGGenerator::new(Some(42));
    let mut rng = StdRng::seed_from_u64(42);
    for _ in 0..5 {
        let bag: Vec<i32> = generator.gen_7bag().iter().map(|p| p.to_i32()).collect();
        let ks = draw_swaps(7, &mut rng);
        let mut expected: Vec<i32> = (0..7).collect();
        apply_swaps(&mut expected, &ks);
        assert_eq!(bag, expected);
    }
}

#[test]
fn garbage_lines_leave_their_column_empty() {
    assert_eq!(garbage_line(0), 1022);
    assert_eq!(garbage_line(4), 1007);
    assert_eq!(garbage_line(9), 511);
}
