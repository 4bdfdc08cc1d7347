//! The shared game model: piece tables, pieces, board and game.
pub mod misc;
pub mod computed;
pub mod board;
pub mod piece;
pub mod game;
pub mod render;
pub mod play;
pub mod json;
pub mod ai;
