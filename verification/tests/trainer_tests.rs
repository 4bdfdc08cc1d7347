use rand::rngs::StdRng;
use rand::SeedableRng;
use tetris_ai::common::game::{Game, GameDropRes, GameMove};
use tetris_ai::common::piece::PieceType;
use tetris_ai::rusty::trainer::{get_drop_res_score, play_fitness_round, refill_queue, FitnessStep};

fn two_row_well() -> Game {
    let mut game = Game::new();
    let mut m = [0u16; 24];
    m[0] = 0b1111001111;
    m[1] = 0b1111001111;
    game.board.set_matrix(m);
    game.set_current(PieceType::O);
    game.extend_queue(&[PieceType::T, PieceType::I]);
    game
}

#[test]
fn drop_scores_follow_the_table() {
    let empty = Game::new();
    let mut filled = Game::new();
    filled.board.set(0, 0, true);
    let expected = [0, 0, 1, 2, 4];
    for lines in 0..5 {
        let res = GameDropRes { lines_cleared: lines, top_out: false };
        assert_eq!(get_drop_res_score(&res, &filled), Ok(expected[lines as usize]));
        assert_eq!(get_drop_res_score(&res, &empty), Ok(expected[lines as usize] + 12));
    }
    for lines in [-1, 5, 9] {
        let res = GameDropRes { lines_cleared: lines, top_out: false };
        assert_eq!(get_drop_res_score(&res, &filled), Err(()));
    }
}

#[test]
fn fitness_round_scores_a_perfect_clear() {
    let mut game = two_row_well();
    let mut score = 5;
    let step = play_fitness_round(&mut game, vec![GameMove::HardDrop], &mut score, 10);
    assert!(matches!(step, FitnessStep::Continue));
    assert_eq!(score, 5 + 1 + 12);
    assert!(game.board.matrix.iter().all(|r| *r == 0));
    assert_eq!(game.current_piece.piece_type, PieceType::T);
    assert_eq!(game.queue_pieces.len(), 1);
}

#[test]
fn fitness_round_plays_every_move() {
    let mut game = two_row_well();
    let mut score = 0;
    let moves = vec![GameMove::ShiftLeft, GameMove::ShiftRight, GameMove::HardDrop];
    let step = play_fitness_round(&mut game, moves, &mut score, 10);
    assert!(matches!(step, FitnessStep::Continue));
    assert_eq!(score, 13);
    let mut game = two_row_well();
    let mut score = 0;
    let step = play_fitness_round(&mut game, vec![GameMove::ShiftLeft, GameMove::HardDrop], &mut score, 10);
    assert!(matches!(step, FitnessStep::Continue));
    assert_eq!(score, 0);
    assert_eq!(game.board.matrix[2], 0b0000011000);
}

#[test]
fn fitness_round_tops_out() {
    let mut game = Game::new();
    let mut m = [0u16; 24];
    for row in m.iter_mut().take(19) {
        *row = 0b0000110000;
    }
    game.board.set_matrix(m);
    game.set_current(PieceType::O);
    game.extend_queue(&[PieceType::T]);
    let mut score = 7;
    let step = play_fitness_round(&mut game, vec![GameMove::HardDrop], &mut score, 10);
    assert!(matches!(step, FitnessStep::ToppedOut));
    assert_eq!(score, 7 - 20);
}

#[test]
fn fitness_round_rejects_bad_moves() {
    let mut game = two_row_well();
    let mut score = 3;
    match play_fitness_round(&mut game, vec![], &mut score, 10) {
        FitnessStep::Failed(why) => assert_eq!(why, "Moves length is 0"),
        _ => panic!("expected a failure"),
    }
    assert_eq!(score, 3);
    match play_fitness_round(&mut game, vec![GameMove::ShiftLeft], &mut score, 10) {
        FitnessStep::Failed(why) => assert_eq!(why, "Last move was not hard drop"),
        _ => panic!("expected a failure"),
    }
    assert_eq!(score, 3);
}

#[test]
fn refill_adds_a_bag_when_the_queue_runs_low() {
    let mut rng = StdRng::seed_from_u64(4);
    let mut game = Game::new();
    refill_queue(&mut game, &mut rng);
    assert_eq!(game.queue_pieces.len(), 7);
    let mut nums: Vec<i32> = game.queue_pieces.iter().map(|p| p.to_i32()).collect();
    nums.sort();
    assert_eq!(nums, (0..7).collect::<Vec<i32>>());
    refill_queue(&mut game, &mut rng);
    assert_eq!(game.queue_pieces.len(), 7);
    game.queue_pieces.pop_front();
    let kept: Vec<PieceType> = game.queue_pieces.iter().cloned().collect();
    refill_queue(&mut game, &mut rng);
    assert_eq!(game.queue_pieces.len(), 13);
    let head: Vec<PieceType> = game.queue_pieces.iter().take(6).cloned().collect();
    assert_eq!(head, kept);
}
