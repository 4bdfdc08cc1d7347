//! Tetris models (pieces, boards, games) and the decision logic of the
//! bots built on them.
use vstd::prelude::*;

pub mod bits;
pub mod consts;
pub mod common;
pub mod rusty;
pub mod api;
pub mod c4w;
pub mod pc_finder;

verus! {
} // verus!
