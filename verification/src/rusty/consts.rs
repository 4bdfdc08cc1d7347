//! Dimensions of the compact model.
use vstd::prelude::*;

verus! {

/// Number of columns of the playfield.
pub const BOARD_WIDTH: i32 = 10;
/// Number of rows of the playfield.
pub const BOARD_HEIGHT: i32 = 40;
/// Row at and above which a filled cell means the stack topped out.
pub const BOARD_VISIBLE_HEIGHT: i32 = 20;
/// Column of the left edge of a piece's box before it is shifted.
pub const PIECE_COLUMN: i32 = 3;
/// Side of the square box that holds a piece.
pub const PIECE_MAX_SIZE: i32 = 4;
/// Number of orientations of a piece.
pub const PIECE_MAX_ROTATION: i32 = 4;
/// Number of piece types.
pub const PIECE_NUM_TYPES: i32 = 7;
/// Capacity of the queue of upcoming pieces.
pub const GAME_MAX_QUEUE_LEN: i32 = 14;

} // verus!
