use tetris_ai::c4w::computed::{gen_piece_moves, C4WTransitions};
use tetris_ai::c4w::piece::{Piece, PieceInfo, PieceMove, PieceType};
use tetris_ai::c4w::state::{
    inflate_lr, is_lr_valid, trim_lr, C4WMoveOptions, C4WState, C4WStateChange,
};
use tetris_ai::common::board::Board;
use tetris_ai::common::game::GameMove;

fn state(queue: Vec<PieceType>) -> C4WState {
    C4WState {
        left: (3, 4, 5),
        center: 0b0000_0000_0011_0001,
        right: (2, 2, 2),
        queue_ptr: 0,
        queue_pieces: queue,
        hold_piece: PieceType::I,
    }
}

#[test]
fn c4w_moves_can_be_taken_back() {
    let mut s = state(vec![PieceType::T, PieceType::L, PieceType::J]);
    let undo = s
        .make_move(&C4WMoveOptions { change: C4WStateChange::Left((5, 5, 6)), hold: true })
        .unwrap();
    assert_eq!(s.left, (5, 5, 6));
    assert_eq!(s.queue_ptr, 1);
    assert_eq!(s.hold_piece, PieceType::T);
    assert_eq!(s.queue_pieces[0], PieceType::I);
    assert_eq!(s.get_current_piece(), PieceType::L);
    s.undo_move(&undo);
    assert_eq!(s.left, (3, 4, 5));
    assert_eq!(s.queue_ptr, 0);
    assert_eq!(s.hold_piece, PieceType::I);
    assert_eq!(s.queue_pieces, vec![PieceType::T, PieceType::L, PieceType::J]);

    let undo = s
        .make_move(&C4WMoveOptions { change: C4WStateChange::Center(0b0001), hold: false })
        .unwrap();
    assert_eq!(s.center, 0b0001);
    s.undo_move(&undo);
    assert_eq!(s.center, 0b0000_0000_0011_0001);
}

#[test]
fn c4w_last_piece_cannot_move() {
    let mut s = state(vec![PieceType::O]);
    assert!(s
        .make_move(&C4WMoveOptions { change: C4WStateChange::Right((1, 1, 1)), hold: false })
        .is_err());
    assert_eq!(s.right, (2, 2, 2));
    assert_eq!(s.get_hold_piece(), PieceType::I);
}

#[test]
fn c4w_changes_are_up_or_down() {
    assert!(C4WStateChange::Center(3).is_downstack());
    assert!(!C4WStateChange::Center(3).is_upstack());
    assert!(C4WStateChange::Left((1, 2, 3)).is_upstack());
    assert!(C4WStateChange::Right((1, 2, 3)).is_upstack());
}

#[test]
fn side_states_trim_and_inflate() {
    assert_eq!(trim_lr((5, 3, 4)), ((2, 0, 1), 3));
    assert_eq!(trim_lr((0, 0, 0)), ((0, 0, 0), 0));
    assert_eq!(inflate_lr((2, 0, 1), 3), (5, 3, 4));
    assert!(is_lr_valid((2, 0, 1), 3));
    assert!(!is_lr_valid((13, 0, 1), 3));
}

#[test]
fn center_state_reads_the_center_cells() {
    let mut board = Board::new();
    board.set(3, 0, true);
    board.set(3, 1, true);
    board.set(4, 1, true);
    board.set(0, 0, true);
    board.set(6, 3, true);
    assert_eq!(C4WTransitions::center_get_state(&board), 0b1000_0000_0011_0001);
    board.set_cols([5, 6, 7, 0, 0, 0, 0, 1, 2, 3]);
    assert_eq!(C4WTransitions::lr_get_state(&board, true), (5, 6, 7));
    assert_eq!(C4WTransitions::lr_get_state(&board, false), (1, 2, 3));
}

#[test]
fn piece_move_lists() {
    let piece = Piece::new(PieceType::T);
    let moves = gen_piece_moves(&piece);
    // Orientation 0 of the T piece may shift from -3 to 4: eight shifts,
    // each with four final orientations.
    assert_eq!(moves[0], vec![PieceMove::ShiftLeft, PieceMove::ShiftLeft, PieceMove::ShiftLeft]);
    assert_eq!(moves[1], vec![
        PieceMove::ShiftLeft,
        PieceMove::ShiftLeft,
        PieceMove::ShiftLeft,
        PieceMove::SoftDrop,
        PieceMove::RotateRight,
    ]);
    assert_eq!(moves[12], vec![]);
    assert_eq!(moves[28], vec![PieceMove::ShiftRight; 4]);
    assert_eq!(moves[32], vec![PieceMove::RotateRight, PieceMove::ShiftLeft, PieceMove::ShiftLeft, PieceMove::ShiftLeft, PieceMove::ShiftLeft]);
    assert_eq!(PieceMove::SoftDrop.to_game_move(), GameMove::SoftDrop);
    assert_eq!(PieceMove::ShiftRight.to_string(), "shiftRight");
}

#[test]
fn c4w_pieces_move_like_the_shared_ones() {
    let board = Board::new();
    let mut piece = Piece::new(PieceType::J);
    assert_eq!(piece.location, (3, 19));
    assert!(piece.shift_right(&board));
    assert_eq!(piece.location, (4, 19));
    assert!(piece.rotate_left(&board));
    assert_eq!(piece.rotation, 3);
    assert!(piece.soft_drop(&board));
    assert!(!piece.soft_drop(&board));
    assert!(piece.make_move(&board, &PieceMove::RotateRight));
    assert_eq!(piece.rotation, 0);
    piece.reset();
    assert_eq!(piece.location, (3, 19));
    assert_eq!(Piece::info_size(&PieceType::I), 4);
    assert_eq!(Piece::info_starting_position(&PieceType::I), (3, 18));
    assert_eq!(Piece::info_shift_bounds(&PieceType::O, 0), (-1, 7, -1, 21));
    assert_eq!(Piece::info_kick_table(&PieceType::T, 0, 1), vec![(0, 0), (-1, 0), (-1, 1), (0, -2), (-1, -2)]);
    assert_eq!(piece.to_string(), "J");
    assert_eq!(PieceType::from_i32(3), Ok(PieceType::L));
    assert!(PieceType::from_i32(8).is_err());
    assert_eq!(PieceType::iter_types().len(), 7);
    let info = PieceInfo::new();
    assert_eq!(info.sizes, [2, 4, 3, 3, 3, 3, 3]);
    assert_eq!(info.shift_bounds[0][0], (-1, 7, -1, 21));
}
