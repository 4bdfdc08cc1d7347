use tetris_ai::common::game::{Game, GameMove};
use tetris_ai::common::piece::PieceType;
use tetris_ai::rusty::ai::{gen_child_states, gen_child_states_no_moves, gen_moves};

fn start_game() -> Game {
    let mut game = Game::new();
    game.set_current(PieceType::T);
    game.set_hold(Some(PieceType::I));
    game.set_queue(&[PieceType::O, PieceType::L]);
    game
}

#[test]
fn rusty_move_lists_start_with_the_current_piece() {
    let game = start_game();
    let lists = gen_moves(&game);
    // The T piece unturned shifts from three columns left to four right.
    assert_eq!(lists[0], vec![GameMove::ShiftLeft; 3]);
    assert_eq!(lists[3], vec![]);
    assert_eq!(lists[7], vec![GameMove::ShiftRight; 4]);
    assert_eq!(lists[8][0], GameMove::RotateRight);
    assert!(lists.iter().any(|l| *l == vec![GameMove::Hold]));
    assert!(lists.iter().any(|l| *l == vec![GameMove::Rotate180, GameMove::SoftDrop, GameMove::RotateLeft]));
    assert!(lists.iter().all(|l| !l.contains(&GameMove::HardDrop)));
}

#[test]
fn rusty_children_are_told_apart_by_their_cells() {
    let game = start_game();
    let children = gen_child_states(&game);
    assert!(!children.is_empty());
    for (i, (a, _, _)) in children.iter().enumerate() {
        for (b, _, _) in children.iter().skip(i + 1) {
            assert!(a.board.matrix != b.board.matrix);
        }
    }
    // The T piece dropped where it spawns.
    let (child, drop, _) = children.iter().find(|(_, _, m)| m.is_empty()).unwrap();
    assert_eq!(child.board.matrix[0], 0b111000);
    assert_eq!(child.board.matrix[1], 0b10000);
    assert_eq!(drop.lines_cleared, 0);
    assert!(!drop.top_out);
    assert_eq!(child.current_piece.piece_type, PieceType::O);
}

#[test]
fn rusty_children_without_moves_keep_held_drops_apart() {
    let game = start_game();
    let with_moves = gen_child_states(&game);
    let children = gen_child_states_no_moves(&game);
    // Every board the moves lead to is among them, and an I piece dropped
    // flat is one of them.
    for (child, _, _) in with_moves.iter() {
        assert!(children.iter().any(|(c, _)| c.board.matrix == child.board.matrix));
    }
    assert!(children.iter().any(|(c, _)| c.board.matrix[0] == 0b1111000 && c.board.matrix[1] == 0));
    assert!(children.len() >= with_moves.len());
}
