use tetris_ai::common::ai::play_moves;
use tetris_ai::common::game::{Game, GameMove};
use tetris_ai::common::piece::PieceType;
use tetris_ai::rusty::board::Board;

#[test]
fn game_picture_shows_board_piece_hold_and_queue() {
    let mut game = Game::new();
    game.board.set(0, 0, true);
    game.set_hold(Some(PieceType::I));
    game.extend_queue(&[
        PieceType::O,
        PieceType::I,
        PieceType::T,
        PieceType::L,
        PieceType::J,
        PieceType::S,
        PieceType::Z,
        PieceType::O,
        PieceType::I,
    ]);
    let text = game.to_string();
    let lines: Vec<&str> = text.split('\n').collect();
    assert_eq!(lines.len(), 25);
    assert_eq!(lines[24], "[I ✓] (O) O I T L J S Z +2");
    assert_eq!(lines[23], format!("▓▓{}", "░░".repeat(9)));
    for line in &lines[..24] {
        assert_eq!(line.chars().count(), 20);
    }
    assert_eq!(text.matches("██").count(), 4);
}

#[test]
fn game_picture_of_short_queue_without_hold() {
    let mut game = Game::new();
    game.set_current(PieceType::T);
    game.extend_queue(&[PieceType::S, PieceType::Z]);
    let text = game.to_string();
    assert!(text.ends_with("\n[] (T) S Z"));
    assert_eq!(text.matches("██").count(), 4);
    assert_eq!(text.matches("▒▒").count() + text.matches("██").count(), 16);
}

#[test]
fn compact_board_picture_shows_the_visible_rows() {
    let mut board = Board::new();
    let mut matrix = [0u16; 40];
    matrix[0] = 0b11;
    matrix[19] = 0b1000000000;
    matrix[20] = 0b1111111111;
    board.set_matrix(matrix);
    let text = board.to_string();
    let lines: Vec<&str> = text.split('\n').collect();
    assert_eq!(lines.len(), 20);
    assert!(!text.ends_with('\n'));
    assert_eq!(lines[19], format!("████{}", "░░".repeat(8)));
    assert_eq!(lines[0], format!("{}██", "░░".repeat(9)));
    assert_eq!(text.matches("██").count(), 3);
}

#[test]
fn played_moves_stop_at_a_top_out() {
    let mut game = Game::new();
    game.extend_queue(&[PieceType::T, PieceType::I, PieceType::L]);
    let moves = vec![GameMove::ShiftLeft, GameMove::HardDrop];
    assert!(!play_moves(&mut game, &moves));
    assert_eq!(game.current_piece.piece_type, PieceType::T);
    assert_eq!(game.board.matrix[0], 0b0000011000);

    let mut tall = Game::new();
    let mut m = [0u16; 24];
    for row in m.iter_mut().take(19) {
        *row = 0b0000110000;
    }
    tall.board.set_matrix(m);
    tall.set_current(PieceType::O);
    tall.extend_queue(&[PieceType::T, PieceType::I]);
    let moves = vec![GameMove::HardDrop, GameMove::HardDrop];
    assert!(play_moves(&mut tall, &moves));
    assert_eq!(tall.queue_pieces.len(), 1);
}
