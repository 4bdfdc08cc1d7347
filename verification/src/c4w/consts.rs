//! The areas of the board that the center-four-wide bot tracks.
use vstd::prelude::*;

verus! {

/// The first column of the left area.
pub const LEFT_COL: i32 = 0;
/// The first column of the right area.
pub const RIGHT_COL: i32 = 7;
/// The number of columns of the left and of the right area.
pub const LR_WIDTH: i32 = 3;
/// The first column of the center area.
pub const CENTER_COL: i32 = 3;
/// The number of columns of the center area.
pub const CENTER_TRANSITION_WIDTH: i32 = 4;
/// The number of rows of the center area.
pub const CENTER_TRANSITION_HEIGHT: i32 = 4;
/// Heights of the left and right areas stay under this.
pub const LR_MAX_HEIGHT: i32 = 16;
/// The largest difference between the heights of one side area.
pub const LR_MAX_DIFF: i32 = 4;
/// How many pieces ahead the bot looks.
pub const AI_MAX_DEPTH: i32 = 6;

} // verus!
