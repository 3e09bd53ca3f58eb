//! A solver for the Pyramid card-elimination puzzle.
//!
//! The tableau is a triangle of rows plus a cyclic draw pile. Cards leave in
//! pairs whose values add up to [`tableau::TARGET`], or alone when a card has
//! that value itself. [`solve`] searches depth first for a sequence of moves
//! that empties the top row.
pub mod tableau;
pub mod moves;
pub mod pyramid;
pub mod replay;
pub mod search;
pub mod solver;

pub use moves::Move;
pub use pyramid::Pyramid;
pub use solver::solve;
