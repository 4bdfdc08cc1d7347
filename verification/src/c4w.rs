//! The center-four-wide bot's model: its pieces, and the states of its
//! three board areas.
pub mod piece;
pub mod consts;
pub mod state;
pub mod computed;
pub mod ai;
pub mod transitions;
