use serde_json::Value;
use tetris_ai::common::ai::DummyAI;
use tetris_ai::common::game::{Game, GameMove};
use tetris_ai::common::json::{game_from_input, JSONInput};
use tetris_ai::common::misc::GenericErr;
use tetris_ai::common::piece::PieceType;

fn empty_board_json(current: i32, queue: &str, true_cell: Option<(usize, usize)>) -> String {
    let mut columns = Vec::new();
    for c in 0..10 {
        let cells: Vec<&str> = (0..20)
            .map(|r| if true_cell == Some((c, r)) { "true" } else { "false" })
            .collect();
        columns.push(format!("[{}]", cells.join(", ")));
    }
    format!(
        "{{\"current\": {}, \"hold\": null, \"queue\": {}, \"matrix\": [{}]}}",
        current,
        queue,
        columns.join(", ")
    )
}

/// Reads a request's fields out of its JSON text, as the bots' JSON front
/// end does, without a derive.
fn input_of(text: &str) -> Result<JSONInput, GenericErr> {
    let value: Value = serde_json::from_str(text).map_err(|e| GenericErr(format!("Serde Error: {}", e)))?;
    let field = |name: &str| value.get(name).cloned().ok_or(GenericErr(format!("missing field {}", name)));
    let num = |v: &Value| v.as_i64().map(|n| n as i32).ok_or(GenericErr(String::from("not a number")));
    let current = num(&field("current")?)?;
    let hold = match field("hold")? {
        Value::Null => None,
        v => Some(num(&v)?),
    };
    let mut queue = Vec::new();
    for v in field("queue")?.as_array().cloned().unwrap_or_default() {
        queue.push(num(&v)?);
    }
    let mut matrix = Vec::new();
    for col in field("matrix")?.as_array().cloned().unwrap_or_default() {
        let cells = col.as_array().cloned().unwrap_or_default();
        matrix.push(cells.iter().map(|c| c.as_bool().unwrap_or(false)).collect());
    }
    Ok(JSONInput { current, hold, queue, matrix })
}

fn parse(text: &str) -> Result<Game, GenericErr> {
    game_from_input(input_of(text)?)
}

#[test]
fn json_should_parse_properly() {
    let json = empty_board_json(0, "[1, 2]", Some((1, 2)));
    let json_game = parse(&json).unwrap();

    let mut game = Game::new();
    game.set_current(PieceType::O);
    game.set_hold(None);
    game.append_queue(PieceType::I);
    game.append_queue(PieceType::T);
    game.board.set(1, 2, true);

    assert_eq!(game, json_game);

    // Empty json
    assert!(parse("").is_err());

    // Invalid matrix size
    let json = r#"{
            "current": 0,
            "hold": null,
            "queue": [1, 2],
            "matrix": [
              [
                false, false
              ]
            ]
          }
        "#;
    match parse(json) {
        Err(e) => assert_eq!(e.0, "Error parsing JSON: Invalid matrix dimensions 1x2"),
        Ok(_) => panic!("a one-column board was accepted"),
    }
}

#[test]
fn dummy_ai_should_work() {
    let ai = DummyAI::new();
    let game = parse(&empty_board_json(0, "[1, 2]", None)).unwrap();
    assert_eq!(ai.hard_drop_moves(&game), Some(vec![GameMove::HardDrop]));

    let mut no_queue = Game::new();
    no_queue.set_current(PieceType::T);
    assert_eq!(ai.hard_drop_moves(&no_queue), None);
}
