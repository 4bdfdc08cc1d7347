use std::collections::{HashMap, HashSet};
use std::hash::Hash;
use tetris_ai::c4w::ai::AI;
use tetris_ai::c4w::computed::C4WTransitions;
use tetris_ai::c4w::transitions::CENTER_SEED;
use tetris_ai::common::game::{Game, GameMove};
use tetris_ai::common::piece::PieceType;

// One center state and flat side areas, each leading back to itself for
// every piece.
fn tiny_transitions() -> C4WTransitions {
    C4WTransitions {
        center: vec![(0x31u16, vec![vec![(0x31u16, vec![GameMove::ShiftRight])]; 7])],
        left: vec![((0i8, 0i8, 0i8), vec![vec![((0i8, 0i8, 0i8), vec![GameMove::ShiftLeft, GameMove::ShiftLeft])]; 7])],
        right: vec![((0i8, 0i8, 0i8), vec![vec![((0i8, 0i8, 0i8), vec![GameMove::ShiftRight, GameMove::ShiftRight])]; 7])],
    }
}

fn seed_game(queue: &[PieceType], hold: Option<PieceType>) -> Game {
    let mut game = Game::new();
    game.board.set(3, 0, true);
    game.board.set(3, 1, true);
    game.board.set(4, 1, true);
    game.set_current(PieceType::T);
    game.set_hold(hold);
    game.set_queue(queue);
    game
}

#[test]
fn c4w_bot_holds_first() {
    let tr = tiny_transitions();
    let mut ai = AI::new(false);
    let mut game = seed_game(&[PieceType::L, PieceType::J], None);
    let eval = ai.evaluate_game(&mut game, &tr).unwrap();
    assert_eq!(eval.score, None);
    assert_eq!(eval.moves, vec![GameMove::Hold]);
    assert!(!ai.upstack);
}

#[test]
fn c4w_bot_builds_up_when_it_may_not_clear() {
    let tr = tiny_transitions();
    let mut ai = AI::new(false);
    let mut game = seed_game(&[PieceType::L, PieceType::J], Some(PieceType::I));
    let eval = ai.evaluate_game(&mut game, &tr).unwrap();
    // Side heights of 0 forbid clearing; every side move counts four states
    // below it, and the first of the best is the left area with the current
    // piece.
    assert_eq!(eval.score, Some(16));
    assert_eq!(eval.moves, vec![GameMove::ShiftLeft, GameMove::ShiftLeft, GameMove::HardDrop]);
    assert!(ai.upstack);
}

#[test]
fn c4w_bot_needs_a_next_piece() {
    let tr = tiny_transitions();
    let mut ai = AI::new(false);
    let mut game = seed_game(&[], Some(PieceType::I));
    let err = ai.evaluate_game(&mut game, &tr).err().unwrap();
    assert_eq!(err.0, "Evaluation returned no child state");
    assert!(!ai.upstack);
}

#[test]
fn center_transitions_clear_one_line() {
    let children = C4WTransitions::center_gen_transitions(CENTER_SEED);
    assert_eq!(children.len(), 7);
    // The I piece lands flat on the two cells above the bottom one and
    // clears that row, leaving the state as it was.
    assert_eq!(children[1], vec![(0x31, vec![])]);
    // The O piece shifted right clears the second row.
    assert_eq!(children[0], vec![(0b1101, vec![GameMove::ShiftRight])]);
    // The L piece only fills the bottom row when tucked under the cells
    // above it: turned, shifted, dropped and turned back.
    assert_eq!(
        children[3],
        vec![(
            0b1011,
            vec![
                GameMove::RotateLeft,
                GameMove::ShiftRight,
                GameMove::ShiftRight,
                GameMove::SoftDrop,
                GameMove::RotateRight
            ]
        )]
    );
    for list in children.iter() {
        for (i, (a, _)) in list.iter().enumerate() {
            for (b, _) in list.iter().skip(i + 1) {
                assert_ne!(a, b);
            }
        }
    }
}

#[test]
fn side_transitions_stay_low_and_flat() {
    let children = C4WTransitions::lr_gen_transitions((0, 0, 0), true);
    assert_eq!(children.len(), 7);
    assert!(children[0].iter().any(|(k, _)| *k == (2, 2, 0)));
    assert!(children[0].iter().any(|(k, _)| *k == (0, 2, 2)));
    for list in children.iter() {
        for ((a, b, c), _) in list.iter() {
            assert_eq!(*a.min(b).min(c), 0);
            assert!(*a <= 4 && *b <= 4 && *c <= 4);
        }
    }
    let (_, moves) = children[0].iter().find(|(k, _)| *k == (2, 2, 0)).unwrap();
    assert!(moves.iter().all(|m| *m == GameMove::ShiftLeft));
}

#[test]
fn c4w_tables_grow_from_the_seeds() {
    let tr = C4WTransitions::new();
    assert!(tr.find_center(CENTER_SEED).is_some());
    assert!(tr.find_lr(true, (0, 0, 0)).is_some());
    assert!(tr.find_lr(false, (0, 0, 0)).is_some());
    for (_, lists) in tr.left.iter() {
        assert_eq!(lists.len(), 7);
        for list in lists.iter() {
            for (k, _) in list.iter() {
                assert!(tr.find_lr(true, *k).is_some());
            }
        }
    }
}

// Every listed state is reached from the seed through listed children,
// and reaches the seed back.
fn strongly_connected<K: Copy + Eq + Hash>(table: &[(K, Vec<Vec<(K, Vec<GameMove>)>>)], seed: K) -> bool {
    let mut forward: HashMap<K, Vec<K>> = HashMap::new();
    let mut backward: HashMap<K, Vec<K>> = HashMap::new();
    for (k, lists) in table {
        for list in lists {
            for (c, _) in list {
                forward.entry(*k).or_default().push(*c);
                backward.entry(*c).or_default().push(*k);
            }
        }
    }
    let search = |edges: &HashMap<K, Vec<K>>| -> HashSet<K> {
        let mut seen = HashSet::new();
        let mut stack = vec![seed];
        seen.insert(seed);
        while let Some(k) = stack.pop() {
            for c in edges.get(&k).cloned().unwrap_or_default() {
                if seen.insert(c) {
                    stack.push(c);
                }
            }
        }
        seen
    };
    let reached = search(&forward);
    let leading_back = search(&backward);
    table.iter().all(|(k, _)| reached.contains(k) && leading_back.contains(k))
}

#[test]
fn c4w_tables_are_strongly_connected() {
    let tr = C4WTransitions::new();
    assert!(!tr.center.is_empty());
    assert!(strongly_connected(&tr.center, CENTER_SEED));
    assert!(strongly_connected(&tr.left, (0, 0, 0)));
    assert!(strongly_connected(&tr.right, (0, 0, 0)));
}
