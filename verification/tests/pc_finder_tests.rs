use tetris_ai::common::game::{Game, GameMove};
use tetris_ai::common::piece::PieceType;
use tetris_ai::pc_finder::{generate_child_states, permutations, solve_pc};

fn game_with(rows: [u16; 24], current: PieceType, queue: &[PieceType]) -> Game {
    let mut game = Game::new();
    game.board.set_matrix(rows);
    game.set_current(current);
    game.extend_queue(queue);
    game
}

#[test]
fn pc_lists_cover_each_turn_and_shift() {
    let perms = permutations();
    assert_eq!(perms.len(), 728);
    assert_eq!(
        perms[0],
        vec![
            GameMove::ShiftLeft,
            GameMove::ShiftLeft,
            GameMove::ShiftLeft,
            GameMove::SoftDrop,
            GameMove::SoftDrop
        ]
    );
    assert_eq!(perms[39], vec![GameMove::SoftDrop, GameMove::SoftDrop]);
    assert_eq!(perms[364][0], GameMove::Hold);
    assert_eq!(
        perms[1],
        vec![
            GameMove::ShiftLeft,
            GameMove::ShiftLeft,
            GameMove::ShiftLeft,
            GameMove::SoftDrop,
            GameMove::RotateRight,
            GameMove::SoftDrop
        ]
    );
}

#[test]
fn pc_found_with_a_flat_i() {
    let mut rows = [0u16; 24];
    rows[0] = 0b1111110000;
    let game = game_with(rows, PieceType::I, &[PieceType::O]);
    let moves = solve_pc(&game).unwrap();
    let mut replay = game.clone();
    for m in moves.iter() {
        replay.make_move(m);
    }
    assert_eq!(replay.board.matrix[0], 0);
    assert!(moves.contains(&GameMove::HardDrop));
}

#[test]
fn pc_already_clear_needs_no_moves() {
    let game = game_with([0u16; 24], PieceType::T, &[PieceType::O]);
    assert_eq!(solve_pc(&game), Some(vec![]));
}

#[test]
fn pc_not_found_for_a_lone_gap() {
    let mut rows = [0u16; 24];
    rows[0] = 0b1111111110;
    let game = game_with(rows, PieceType::O, &[PieceType::O]);
    assert_eq!(solve_pc(&game), None);
}

#[test]
fn pc_children_keep_the_low_row_empty() {
    let mut rows = [0u16; 24];
    rows[0] = 0b1111110000;
    let game = game_with(rows, PieceType::T, &[PieceType::I, PieceType::O]);
    let children = generate_child_states(&game);
    assert!(!children.is_empty());
    for (child, moves) in children.iter() {
        assert_eq!(child.board.matrix[1], 0);
        assert_eq!(*moves.last().unwrap(), GameMove::SoftDrop);
    }
}
