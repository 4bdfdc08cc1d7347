use std::collections::hash_map::DefaultHasher;
use std::hash::{Hash, Hasher};
use std::collections::HashSet;
use tetris_ai::common::computed::PieceInfo;
use tetris_ai::common::game::{Game, GameMove, GameMoveRes};
use tetris_ai::common::piece::{Piece, PieceMove, PieceMoveRes, PieceType};
use tetris_ai::consts::{
    BOARD_WIDTH, PIECE_MAX_X_SHIFT, PIECE_NUM_ROTATION, PIECE_NUM_TYPES, PIECE_SHAPE_SIZE,
    PIECE_SPAWN_COLUMN,
};

#[test]
fn bit_shapes_match_shapes() {
    let info = PieceInfo::new();
    for piece in 0..PIECE_NUM_TYPES {
        for rotation in 0..PIECE_NUM_ROTATION {
            let shape = info.shapes[piece as usize][rotation as usize];
            // Get the center shape
            let bit_shape = info.bit_shapes[piece as usize][rotation as usize][PIECE_MAX_X_SHIFT as usize];
            // Check all 16 bits
            for j in 0..PIECE_SHAPE_SIZE {
                for i in 0..16 {
                    let bit = (bit_shape[j as usize] >> i) & 1;
                    let x = i - PIECE_SPAWN_COLUMN;
                    if x < 0 || x >= PIECE_SHAPE_SIZE {
                        assert_eq!(bit, 0);
                    } else {
                        if shape[x as usize][j as usize] {
                            assert_eq!(bit, 1);
                        } else {
                            assert_eq!(bit, 0);
                        }
                    }
                }
            }
        }
    }
}

#[test]
fn bit_shapes_match() {
    let info = PieceInfo::new();
    let bit_mask = (1 << BOARD_WIDTH) - 1;
    for piece in 0..PIECE_NUM_TYPES {
        for rotation in 0..PIECE_NUM_ROTATION {
            let bit_shape_arr = info.bit_shapes[piece as usize][rotation as usize];
            let center_shape = bit_shape_arr[PIECE_MAX_X_SHIFT as usize];
            for shift in 1..PIECE_MAX_X_SHIFT {
                let left_shape = bit_shape_arr[(PIECE_MAX_X_SHIFT - shift) as usize];
                let right_shape = bit_shape_arr[(PIECE_MAX_X_SHIFT + shift) as usize];
                for j in 0..PIECE_SHAPE_SIZE {
                    let center = center_shape[j as usize];
                    let left = left_shape[j as usize];
                    let right = right_shape[j as usize];
                    assert_eq!(left, center >> shift);
                    assert_eq!(right, (center << shift) & bit_mask);
                }
            }
        }
    }
}

#[test]
fn game_hashes_properly() {
    let mut game1 = Game::new();
    game1.set_current(PieceType::O);
    game1.set_hold(Some(PieceType::I));
    game1.set_queue(&[PieceType::T, PieceType::L]);
    game1.board.set(0, 0, true);
    game1.board.set(9, 22, true);
    let mut game2 = Game::new();
    game2.set_current(PieceType::O);
    game2.set_hold(Some(PieceType::I));
    game2.set_queue(&[PieceType::T, PieceType::L]);
    game2.board.set(0, 0, true);
    game2.board.set(9, 22, true);
    let mut hashset = HashSet::new();

    // Game 1 and Game 2 should be identical
    assert_eq!(game1, game2);
    hashset.insert(game1.clone());
    hashset.insert(game2.clone());
    assert_eq!(hashset.len(), 1);

    // Differs by current piece
    let mut game3 = Game::new();
    game3.set_current(PieceType::I);
    game3.set_hold(Some(PieceType::I));
    game3.set_queue(&[PieceType::T, PieceType::L]);
    game3.board.set(0, 0, true);
    game3.board.set(9, 22, true);
    assert_ne!(game1, game3);
    hashset.clear();
    hashset.insert(game1.clone());
    hashset.insert(game3.clone());
    assert_eq!(hashset.len(), 2);

    // Differs by hold_piece
    let mut game4 = Game::new();
    game4.set_current(PieceType::O);
    game4.set_hold(None);
    game4.set_queue(&[PieceType::T, PieceType::L]);
    game4.board.set(0, 0, true);
    game4.board.set(9, 22, true);
    assert_ne!(game1, game4);
    hashset.clear();
    hashset.insert(game1.clone());
    hashset.insert(game4.clone());
    assert_eq!(hashset.len(), 2);

    // Differs by queue
    let mut game5 = Game::new();
    game5.set_current(PieceType::O);
    game5.set_hold(Some(PieceType::I));
    game5.set_queue(&[PieceType::L, PieceType::L]);
    game5.board.set(0, 0, true);
    game5.board.set(9, 22, true);
    assert_ne!(game1, game5);
    hashset.clear();
    hashset.insert(game1.clone());
    hashset.insert(game5.clone());
    assert_eq!(hashset.len(), 2);

    // Differs by board
    let mut game6 = Game::new();
    game6.set_current(PieceType::O);
    game6.set_hold(Some(PieceType::I));
    game6.set_queue(&[PieceType::T, PieceType::L]);
    game6.board.set(0, 0, true);
    assert_ne!(game1, game6);
    hashset.clear();
    hashset.insert(game1.clone());
    hashset.insert(game6.clone());
    assert_eq!(hashset.len(), 2);
}

#[test]
fn piece_type_numbers_and_letters() {
    for i in 0..7 {
        let t = PieceType::from_i32(i).unwrap();
        assert_eq!(t.to_i32(), i);
    }
    assert_eq!(PieceType::from_i32(2).unwrap().to_char(), 'T');
    let err = PieceType::from_i32(9).unwrap_err();
    assert_eq!(err.0, "Invalid PieceType #9");
    let err = PieceType::from_i32(-12).unwrap_err();
    assert_eq!(err.0, "Invalid PieceType #-12");
    assert_eq!(PieceType::iter_types().len(), 7);
}

#[test]
fn piece_spawns_and_moves() {
    let game = Game::new();
    let mut piece = Piece::new(&PieceType::T);
    assert_eq!(piece.location, (3, 19));
    assert_eq!(piece.rotation, 0);
    assert!(matches!(piece.shift_left(&game.board), PieceMoveRes::Success));
    assert_eq!(piece.location, (2, 19));
    assert!(matches!(piece.rotate_right(&game.board), PieceMoveRes::Success));
    assert_eq!(piece.rotation, 1);
    // A soft drop from the top of an empty board reaches the floor.
    assert!(matches!(piece.soft_drop(&game.board), PieceMoveRes::Success));
    assert_eq!(piece.location.1, 0);
    // Dropping again does not move it.
    assert!(matches!(piece.soft_drop(&game.board), PieceMoveRes::Failed));
    piece.reset();
    assert_eq!(piece.location, (3, 19));
    assert_eq!(PieceMove::Rotate180.to_string(), "rotate180");
    assert_eq!(piece.to_string(), "T");
}

#[test]
fn pieces_stop_at_the_walls() {
    let game = Game::new();
    let mut piece = Piece::new(&PieceType::O);
    let mut moves = 0;
    while let PieceMoveRes::Success = piece.shift_left(&game.board) {
        moves += 1;
    }
    // The O piece's box has one empty column on the left.
    assert_eq!(moves, 4);
    assert_eq!(piece.location.0, -1);
}

#[test]
fn hard_drop_locks_and_spawns_the_next_piece() {
    let mut game = Game::new();
    game.set_current(PieceType::I);
    game.set_queue(&[PieceType::O, PieceType::T]);
    // Empty queue makes a hard drop fail.
    let mut empty = Game::new();
    assert!(matches!(empty.make_move(&GameMove::HardDrop), GameMoveRes::Failed));
    let res = game.make_move(&GameMove::HardDrop);
    match res {
        GameMoveRes::SuccessDrop(d) => {
            assert_eq!(d.lines_cleared, 0);
            assert!(!d.top_out);
        }
        _ => panic!("expected a drop"),
    }
    assert_eq!(game.current_piece.piece_type, PieceType::O);
    assert_eq!(game.queue_pieces.len(), 1);
    // The flat I piece fills four cells of the bottom row.
    assert_eq!(game.board.matrix[0].count_ones(), 4);
}

#[test]
fn hold_swaps_pieces() {
    let mut game = Game::new();
    game.set_current(PieceType::S);
    game.set_queue(&[PieceType::Z, PieceType::L]);
    assert!(matches!(game.make_move(&GameMove::Hold), GameMoveRes::SuccessNorm));
    assert_eq!(game.hold_piece, Some(PieceType::S));
    assert_eq!(game.current_piece.piece_type, PieceType::Z);
    assert_eq!(game.queue_pieces.len(), 1);
    assert_eq!(GameMove::HardDrop.to_string(), "hardDrop");
}

#[test]
fn line_clears_are_counted() {
    let mut game = Game::new();
    game.set_current(PieceType::I);
    game.set_queue(&[PieceType::O]);
    // Fill the bottom row except columns 3 to 6.
    for x in [0, 1, 2, 7, 8, 9] {
        game.board.set(x, 0, true);
    }
    match game.make_move(&GameMove::HardDrop) {
        GameMoveRes::SuccessDrop(d) => assert_eq!(d.lines_cleared, 1),
        _ => panic!("expected a drop"),
    }
    assert_eq!(game.board.matrix[0], 0);
    assert_eq!(game.board.height_map, [0; 10]);
}

fn hash_of<T: Hash>(value: &T) -> u64 {
    let mut hasher = DefaultHasher::new();
    value.hash(&mut hasher);
    hasher.finish()
}

#[test]
fn equal_games_hash_alike() {
    let mut game1 = Game::new();
    game1.set_current(PieceType::T);
    game1.set_queue(&[PieceType::S]);
    let mut game2 = game1.clone();
    game2.can_hold = false;
    game2.current_piece.make_move(&game2.board.clone(), &PieceMove::ShiftLeft);
    game2.current_piece.make_move(&game2.board.clone(), &PieceMove::RotateRight);
    assert_eq!(game1, game2);
    assert_ne!(game1.current_piece.location, game2.current_piece.location);
    assert_eq!(hash_of(&game1), hash_of(&game2));
    assert_eq!(hash_of(&game1.current_piece), hash_of(&game2.current_piece));
    let mut game3 = game1.clone();
    game3.set_hold(Some(PieceType::O));
    assert_ne!(game1, game3);
    assert_ne!(hash_of(&game1), hash_of(&game3));
}

#[test]
fn shapes_turn_a_quarter_and_keep_four_cells() {
    for t in PieceType::iter_types() {
        let n: usize = match t {
            PieceType::I => 4,
            PieceType::O => 0,
            _ => 3,
        };
        for r in 0..4i8 {
            let shape = Piece::info_shape(&t, r);
            let cells = shape.iter().flatten().filter(|c| **c).count();
            assert_eq!(cells, 4);
            let next = Piece::info_shape(&t, (r + 1) % 4);
            if n == 0 {
                assert_eq!(next, shape);
                continue;
            }
            for i in 0..4 {
                for j in 0..4 {
                    if i < n && j < n {
                        assert_eq!(next[j][n - 1 - i], shape[i][j]);
                    } else {
                        assert!(!shape[i][j]);
                    }
                }
            }
        }
    }
}

#[test]
fn height_map_entries_are_lowest_row_and_count() {
    assert_eq!(Piece::info_height_map(&PieceType::T, 0), [(1, 1), (1, 2), (1, 1), (-1, -1)]);
    for t in PieceType::iter_types() {
        for r in 0..4i8 {
            let shape = Piece::info_shape(&t, r);
            let hm = Piece::info_height_map(&t, r);
            for i in 0..4 {
                let ys: Vec<i8> = (0..4i8).filter(|j| shape[i][*j as usize]).collect();
                if ys.is_empty() {
                    assert_eq!(hm[i], (-1, -1));
                } else {
                    assert_eq!(hm[i], (ys[0], ys.len() as i8));
                }
            }
        }
    }
}

#[test]
fn shift_bounds_are_the_edges_of_the_board() {
    for t in PieceType::iter_types() {
        for r in 0..4i8 {
            let shape = Piece::info_shape(&t, r);
            let on_board = |x: i32| (0..4).all(|i| !shape[i].iter().any(|c| *c) || (0..10).contains(&(x + i as i32)));
            let (bl, br, _, _) = Piece::info_location_bounds(&t, r);
            for x in -10..20 {
                assert_eq!(on_board(x), bl as i32 <= x && x <= br as i32);
            }
            let spawn = Piece::info_spawn_location(&t).0;
            assert_eq!(Piece::info_shift_bounds(&t, r), (spawn - bl, br - spawn));
        }
    }
}

#[test]
fn rotate_left_undoes_rotate_right() {
    let board = tetris_ai::common::board::Board::new();
    for t in PieceType::iter_types() {
        let mut piece = Piece::new(&t);
        let before = piece;
        assert!(matches!(piece.rotate_right(&board), PieceMoveRes::Success));
        assert_eq!(piece.rotation, 1);
        assert!(matches!(piece.rotate_left(&board), PieceMoveRes::Success));
        assert_eq!(piece.rotation, before.rotation);
        assert_eq!(piece.location, before.location);
    }
}
