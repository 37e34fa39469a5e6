//! Farkle: dice-set encoding, scoring rules and the integer side of the
//! optimal-play solver.

pub mod defs;
pub mod dice_set;
pub mod freq;
pub mod iter_tools;
pub mod precompute;
pub mod valid_holds;
pub mod roll_odds;
pub mod farkle_solver;
pub mod turn;
