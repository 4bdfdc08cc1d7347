use tetris_ai::rusty::board::{Board, BoardDropOptions};
use tetris_ai::rusty::consts::{PIECE_MAX_ROTATION, PIECE_NUM_TYPES};
use tetris_ai::rusty::game::{Game, GameDropOptions, GameRNGGenerator};
use tetris_ai::rusty::piece::{Piece, PieceInfo};

#[test]
fn test_piece_info_is_correct() {
    for i in 0..PIECE_NUM_TYPES {
        let piece = Piece::from_i32(i).unwrap();
        for rotation in 0..PIECE_MAX_ROTATION {
            let size = Piece::info_size(&piece);
            let shape = Piece::info_shape(&piece, rotation);
            let bit_shape = Piece::info_bit_shape(&piece, rotation);
            let height_map = Piece::info_height_map(&piece, rotation);
            let shift_bounds = Piece::info_shift_bounds(&piece, rotation);
            let rotation_bounds = Piece::info_rotation_bounds(&piece);
            for y in (0..4).rev() {
                let mut line = String::new();
                for x in 0..4 {
                    line.push_str(if shape[x][y] { "██" } else { "░░" });
                }
                println!("{}{:0>10b}", line, bit_shape[y as usize]);
            }
            let mut lows = String::new();
            for x in 0..4 {
                lows.push_str(&format!("{: >2}", height_map.0[x]));
            }
            println!("{}", lows);
            let mut heights = String::new();
            for x in 0..4 {
                heights.push_str(&format!("{: >2}", height_map.1[x]));
            }
            println!("{}", heights);
            println!(
                "Piece {} Rotation {}\nSize {} Bounds: Shift {:?} Rotation {}",
                piece.to_char(),
                rotation,
                size,
                shift_bounds,
                rotation_bounds
            );
            println!();
        }
        println!();
    }
}

#[test]
fn piece_tables_agree() {
    let info = PieceInfo::new();
    for i in 0..7 {
        let piece = Piece::from_i32(i).unwrap();
        assert_eq!(piece.to_i32(), i);
        assert_eq!(info.piece_sizes[i as usize], Piece::info_size(&piece));
        for r in 0..4 {
            assert_eq!(info.piece_shift_bounds[i as usize][r as usize], Piece::info_shift_bounds(&piece, r));
            assert_eq!(info.piece_height_maps[i as usize][r as usize], Piece::info_height_map(&piece, r));
            assert_eq!(info.piece_bit_shapes[i as usize][r as usize], Piece::info_bit_shape(&piece, r));
        }
    }
    assert!(Piece::from_i32(7).is_err());
    assert_eq!(Piece::get_all_pieces().len(), 7);
    // The T piece: row 1 of its box across columns 0 to 2, and row 2 of
    // column 1.
    let t = Piece::from_i32(2).unwrap();
    assert_eq!(Piece::info_height_map(&t, 0), ([1, 1, 1, -1], [1, 2, 1, -1]));
    assert_eq!(Piece::info_shift_bounds(&t, 0), (3, 4));
    assert_eq!(Piece::info_rotation_bounds(&t), 4);
}

#[test]
fn drop_on_an_empty_board() {
    let mut board = Board::new();
    let o = Piece::from_i32(0).unwrap();
    let (res, undo) = board.drop(&o, &BoardDropOptions { shift: 0, rotation: 0 }).unwrap();
    assert_eq!(res.lines_cleared, 0);
    assert!(!res.perfect_clear);
    // The O piece fills columns 4 and 5 of rows 0 and 1.
    assert_eq!(board.matrix[0], 0b0000110000);
    assert_eq!(board.matrix[1], 0b0000110000);
    assert_eq!(board.height_map, [0, 0, 0, 0, 2, 2, 0, 0, 0, 0]);
    assert_eq!(board.holes, 0);
    assert_eq!(undo.matrix, [0; 40]);
    // Taking the drop back restores the empty board.
    board.undo(&undo);
    assert_eq!(board.matrix, [0; 40]);
    assert_eq!(board.height_map, [0; 10]);
}

#[test]
fn drop_leaves_holes_and_clears_lines() {
    let mut board = Board::new();
    let mut matrix = [0u16; 40];
    matrix[0] = 0b1111110000;
    board.set_matrix(matrix);
    assert_eq!(board.height_map, [0, 0, 0, 0, 1, 1, 1, 1, 1, 1]);
    let i = Piece::from_i32(1).unwrap();
    // The flat I piece at shift -3 fills columns 0 to 3 of row 0 and clears it.
    let (res, _) = board.drop(&i, &BoardDropOptions { shift: -3, rotation: 0 }).unwrap();
    assert_eq!(res.lines_cleared, 1);
    assert!(res.perfect_clear);
    assert_eq!(board.matrix[0], 0);
    assert_eq!(board.height_map, [0; 10]);
    assert_eq!(board.holes, 0);

    // An overhang: a T piece pointing down on a step leaves a hole.
    let mut board = Board::new();
    let mut matrix = [0u16; 40];
    matrix[0] = 0b0000000001;
    board.set_matrix(matrix);
    let o = Piece::from_i32(0).unwrap();
    let (res, _) = board.drop(&o, &BoardDropOptions { shift: -4, rotation: 0 }).unwrap();
    assert_eq!(res.lines_cleared, 0);
    // The O piece rests on column 0's cell: column 1 gets a hole under it.
    assert_eq!(board.height_map[0], 3);
    assert_eq!(board.height_map[1], 3);
    assert_eq!(board.holes, 1);
}

#[test]
fn garbage_lines_push_rows_up() {
    let mut board = Board::new();
    board.add_garbage_line(0b1111111110);
    board.add_garbage_line(0b0111111111);
    assert_eq!(board.matrix[0], 0b0111111111);
    assert_eq!(board.matrix[1], 0b1111111110);
    assert_eq!(board.height_map[0], 1);
    assert_eq!(board.height_map[9], 2);
    assert_eq!(board.holes, 1);
}

#[test]
fn drops_that_reach_the_hidden_rows_are_refused() {
    let mut board = Board::new();
    let mut matrix = [0u16; 40];
    for y in 0..19 {
        matrix[y] = 0b0000010000;
    }
    board.set_matrix(matrix);
    let before = board.matrix;
    let i = Piece::from_i32(1).unwrap();
    // Upright I on column 4 would reach row 22.
    let res = board.drop(&i, &BoardDropOptions { shift: -1, rotation: 1 });
    assert!(res.is_err());
    assert_eq!(board.matrix, before);
}

#[test]
fn game_drop_and_undo() {
    let mut game = Game::new();
    assert!(game.drop(&GameDropOptions { rotation: 0, shift: 0, hold: false }).is_err());
    game.extend_queue(vec![
        Piece::from_i32(2).unwrap(),
        Piece::from_i32(3).unwrap(),
        Piece::from_i32(4).unwrap(),
    ]);
    assert_eq!(game.queue_len, 3);
    assert_eq!(game.get_curr_piece().unwrap().to_i32(), 2);
    assert_eq!(game.get_queue_piece(2).unwrap().to_i32(), 4);
    assert!(game.get_queue_piece(3).is_err());
    let before = game.clone();
    let (res, undo) = game.drop(&GameDropOptions { rotation: 0, shift: 0, hold: true }).unwrap();
    assert_eq!(res.lines_cleared, 0);
    assert_eq!(undo.score, 0);
    // Holding played the O piece; the T piece is now held.
    assert_eq!(game.hold.to_i32(), 2);
    assert_eq!(game.queue_len, 2);
    assert_eq!(game.queue_ptr, 1);
    game.undo(&undo);
    assert_eq!(game.queue_ptr, before.queue_ptr);
    assert_eq!(game.queue_len, before.queue_len);
    assert_eq!(game.hold, before.hold);
    assert_eq!(game.queue, before.queue);
    assert_eq!(game.board.matrix, before.board.matrix);
    assert_eq!(game.score, before.score);
}

#[test]
fn game_queue_is_a_ring() {
    let mut game = Game::new();
    for i in 0..14 {
        assert!(game.append_queue(Piece::from_i32(i % 7).unwrap()).is_ok());
    }
    assert!(game.append_queue(Piece::from_i32(0).unwrap()).is_err());
    game.set_queue(vec![Piece::from_i32(6).unwrap(); 20]);
    assert_eq!(game.queue_len, 14);
    game.clear_queue();
    assert_eq!(game.queue_len, 0);
    game.set_hold(Piece::from_i32(5).unwrap());
    assert_eq!(game.hold.to_i32(), 5);
}

#[test]
fn a_perfect_clear_scores_eleven() {
    let mut game = Game::new();
    let mut matrix = [0u16; 40];
    matrix[0] = 0b1111110000;
    game.board.set_matrix(matrix);
    game.extend_queue(vec![Piece::from_i32(1).unwrap(), Piece::from_i32(0).unwrap()]);
    let (res, undo) = game.drop(&GameDropOptions { rotation: 0, shift: -3, hold: false }).unwrap();
    assert_eq!(res.lines_cleared, 1);
    assert!(res.perfect_clear);
    assert_eq!(undo.score, 11);
    assert_eq!(game.score, 11);
}

#[test]
fn bags_hold_every_piece_once() {
    let mut rng = GameRNGGenerator::new(Some(42));
    for _ in 0..5 {
        let bag = rng.gen_7bag();
        let mut seen = [false; 7];
        for p in &bag {
            assert!(!seen[p.to_i32() as usize]);
            seen[p.to_i32() as usize] = true;
        }
        assert_eq!(bag.len(), 7);
    }
    let mut a = GameRNGGenerator::new(None);
    let mut b = GameRNGGenerator::new(Some(1));
    assert_eq!(
        a.gen_7bag().iter().map(|p| p.to_i32()).collect::<Vec<_>>(),
        b.gen_7bag().iter().map(|p| p.to_i32()).collect::<Vec<_>>()
    );
}

#[test]
fn garbage_lines_have_one_gap() {
    let mut rng = GameRNGGenerator::new(Some(7));
    for _ in 0..20 {
        let line = rng.gen_garbage_line();
        assert_eq!(line & !0b1111111111, 0);
        assert_eq!(line.count_ones(), 9);
    }
}

#[test]
fn drops_onto_a_tall_stack_are_refused() {
    let mut board = Board::new();
    let mut matrix = [0u16; 40];
    for row in matrix.iter_mut().take(37) {
        *row = 0b0000010000;
    }
    board.set_matrix(matrix);
    let before = board.matrix;
    let o = Piece::from_i32(0).unwrap();
    // The O piece lands on rows 37 and 38; no row is full.
    let res = board.drop(&o, &BoardDropOptions { shift: 0, rotation: 0 });
    assert!(res.is_err());
    assert_eq!(board.matrix, before);
    assert_eq!(board.height_map[4], 37);
}

#[test]
fn a_cleared_queue_refuses_every_drop() {
    let mut game = Game::new();
    game.extend_queue(vec![Piece::from_i32(2).unwrap(), Piece::from_i32(3).unwrap()]);
    game.clear_queue();
    for rotation in 0..4 {
        for shift in -5..6 {
            assert!(game.drop(&GameDropOptions { rotation, shift, hold: false }).is_err());
            assert!(game.drop(&GameDropOptions { rotation, shift, hold: true }).is_err());
        }
    }
    assert_eq!(game.queue_len, 0);
    assert!(game.get_curr_piece().is_err());
}
