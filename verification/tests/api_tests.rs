use tetris_ai::api::{APIError, APIMove, APIRequest};
use tetris_ai::common::ai::DummyAI;
use tetris_ai::common::game::{Game, GameMove};
use tetris_ai::common::json::{game_from_input, JSONInput};
use tetris_ai::common::misc::{text_with_number, GenericErr};
use tetris_ai::common::piece::PieceType;

fn empty_columns(w: usize, h: usize) -> Vec<Vec<bool>> {
    vec![vec![false; h]; w]
}

#[test]
fn json_input_builds_the_game() {
    let mut matrix = empty_columns(10, 20);
    matrix[1][2] = true;
    let json_game = game_from_input(JSONInput { current: 0, hold: None, queue: vec![1, 2], matrix }).unwrap();

    let mut game = Game::new();
    game.set_current(PieceType::O);
    game.set_hold(None);
    game.append_queue(PieceType::I);
    game.append_queue(PieceType::T);
    game.board.set(1, 2, true);
    assert_eq!(game, json_game);
    assert_eq!(json_game.board.matrix[2], 0b10);
}

#[test]
fn json_input_errors() {
    let res = game_from_input(JSONInput { current: 9, hold: None, queue: vec![], matrix: empty_columns(10, 20) });
    assert_eq!(res.unwrap_err().0, "Error parsing JSON: Invalid PieceType #9");
    let res = game_from_input(JSONInput { current: 1, hold: Some(-1), queue: vec![], matrix: empty_columns(10, 20) });
    assert_eq!(res.unwrap_err().0, "Error parsing JSON: Invalid PieceType #-1");
    let res = game_from_input(JSONInput { current: 1, hold: Some(2), queue: vec![3, 7, 8], matrix: empty_columns(10, 20) });
    assert_eq!(res.unwrap_err().0, "Error parsing JSON: Invalid PieceType #7");
    let res = game_from_input(JSONInput { current: 0, hold: None, queue: vec![1, 2], matrix: empty_columns(1, 2) });
    assert_eq!(res.unwrap_err().0, "Error parsing JSON: Invalid matrix dimensions 1x2");
    let res = game_from_input(JSONInput { current: 0, hold: None, queue: vec![], matrix: vec![] });
    assert_eq!(res.unwrap_err().0, "Error parsing JSON: Invalid matrix dimensions 0x0");
}

#[test]
fn json_input_needs_every_column_twenty_long() {
    let mut short = empty_columns(10, 20);
    short[1] = vec![false; 2];
    let res = game_from_input(JSONInput { current: 0, hold: None, queue: vec![1], matrix: short });
    assert_eq!(res.unwrap_err().0, "Error parsing JSON: Invalid matrix dimensions 10x20");
    let mut long = empty_columns(10, 20);
    long[9] = vec![true; 30];
    let res = game_from_input(JSONInput { current: 0, hold: None, queue: vec![1], matrix: long });
    assert_eq!(res.unwrap_err().0, "Error parsing JSON: Invalid matrix dimensions 10x20");
    let mut three = empty_columns(3, 20);
    three[1] = vec![false; 5];
    let res = game_from_input(JSONInput { current: 0, hold: None, queue: vec![1], matrix: three });
    assert_eq!(res.unwrap_err().0, "Error parsing JSON: Invalid matrix dimensions 3x20");
    let res = game_from_input(JSONInput { current: 0, hold: None, queue: vec![1], matrix: empty_columns(11, 20) });
    assert_eq!(res.unwrap_err().0, "Error parsing JSON: Invalid matrix dimensions 11x20");
    let mut short = empty_columns(10, 20);
    short[4] = vec![true; 5];
    assert_eq!(APIRequest::from_fields(0, None, vec![], short).unwrap_err(), "Invalid matrix size");
    let mut long = empty_columns(10, 20);
    long[0] = vec![true; 21];
    assert_eq!(APIRequest::from_fields(0, None, vec![], long).unwrap_err(), "Invalid matrix size");
}

#[test]
fn dummy_ai_hard_drops() {
    let ai = DummyAI::new();
    let mut game = Game::new();
    assert_eq!(ai.hard_drop_moves(&game), None);
    game.append_queue(PieceType::I);
    assert_eq!(ai.hard_drop_moves(&game), Some(vec![GameMove::HardDrop]));
    // The game itself is left as it was.
    assert_eq!(game.queue_pieces.len(), 1);
}

#[test]
fn api_moves_and_requests() {
    assert_eq!(APIMove::ShiftLeft.to_string(), "shiftLeft");
    assert_eq!(APIMove::HardDrop.to_string(), "hardDrop");
    assert_eq!(APIMove::Rotate180.to_string(), "rotate180");
    assert_eq!(APIError::unknown().0, "Unknown error");
    assert_eq!(APIError::from_str("bad").0, "bad");
    let mut matrix = empty_columns(10, 20);
    matrix[9][19] = true;
    matrix[0][0] = true;
    let req = APIRequest::from_fields(2, Some(3), vec![4, 5], matrix).unwrap();
    assert_eq!(req.current, 2);
    assert_eq!(req.hold, Some(3));
    assert_eq!(req.queue, vec![4, 5]);
    assert_eq!(req.matrix[0], 1);
    assert_eq!(req.matrix[19], 1 << 9);
    let res = APIRequest::from_fields(0, None, vec![], empty_columns(10, 19));
    assert_eq!(res.unwrap_err(), "Invalid matrix size");
}

#[test]
fn messages_with_numbers() {
    assert_eq!(text_with_number("n=", 0), "n=0");
    assert_eq!(text_with_number("n=", -2147483648), "n=-2147483648");
    assert_eq!(GenericErr::new(String::from("oops")).0, "oops");
}
