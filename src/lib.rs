//! A model of the water-sort puzzle: tubes of coloured liquid, the rules for
//! pouring one tube into another, the game that records the moves, and the
//! primitives of a solver that searches for a sorting sequence of moves.
use vstd::prelude::*;

pub mod game;
pub mod solver;
pub mod text;
pub mod tube;
pub mod turn;

verus! {

/// The number of cells in every tube.
pub const TUBE_SIZE: usize = 4;

} // verus!
