//! A solver for a hexagonal tile-elimination puzzle: 91 cells in a hex
//! diamond, tiles removed in matched pairs until the board is empty.
//!
//! The crate models the board and its coordinate system, generates the legal
//! moves of a position, and searches depth-first for an ordering of moves
//! that empties the board.

pub mod board;
pub mod combinations;
pub mod control;
pub mod element;
pub mod index;
pub mod rules;
pub mod scanner;
pub mod screen;
pub mod solution;
pub mod solver;
