//! Solver for a 3×3 edge-matching tile puzzle.
//!
//! Nine square pieces carry a colour and a head/tail polarity on each edge.
//! The solver places every piece once, freely rotated, so that touching
//! edges show the same colour with opposite polarity.

pub mod board;
pub mod filtering;
pub mod notation;
pub mod order;
pub mod outcomes;
pub mod piece;
pub mod rules;
pub mod search;

pub use board::{neighbors, next_open, State, EMPTY_SENTINEL};
pub use piece::{edge, rotate, Piece, PieceList};
pub use rules::legal;
pub use search::{solve, Search, Step};
