//! A compact model for a searching bot: pieces as plain types, a board that
//! drops pieces column-wise and can undo a drop, and a game with a ring-buffer
//! queue.
pub mod consts;
pub mod piece;
pub mod board;
pub mod render;
pub mod game;
pub mod ai;
pub mod trainer;
