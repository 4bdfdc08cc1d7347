//! Dimensions shared by the board and piece models.
use vstd::prelude::*;

verus! {

/// Number of columns of the playfield.
pub const BOARD_WIDTH: i32 = 10;
/// Number of rows of the playfield, hidden rows included.
pub const BOARD_HEIGHT: i32 = 24;
/// Number of rows that are shown to a player.
pub const BOARD_VISIBLE_HEIGHT: i32 = 20;
/// Side of the square box that holds a piece.
pub const PIECE_SHAPE_SIZE: i32 = 4;
/// Number of orientations of a piece.
pub const PIECE_NUM_ROTATION: i32 = 4;
/// Number of piece types.
pub const PIECE_NUM_TYPES: i32 = 7;
/// Column of the left edge of a piece's box when it spawns.
pub const PIECE_SPAWN_COLUMN: i32 = 3;
/// How far a piece's box may move sideways from its spawn column.
pub const PIECE_MAX_X_SHIFT: i32 = 5;
/// A row whose ten cells are all filled.
pub const FULL_ROW: u16 = 1023;

} // verus!
