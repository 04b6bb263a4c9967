//! A solver for Numberlink-family puzzles: paths joining pairs of colored
//! termini on a grid, optionally crossing bridges, jumping through warps, and
//! avoiding walls and holes.
//!
//! Boards are assembled with [`builder::SquareBoardBuilder`], lowered into a
//! [`board::Board`] by `build()`, and solved by reducing the board graph to a
//! Boolean satisfiability instance handed to a CDCL engine; the decoded
//! coloring is checked against the Numberlink rules before it is returned.

pub mod board;
pub mod builder;
pub mod cell;
pub mod graph;
pub mod location;
pub mod shape;
pub mod solver;

pub use board::Board;
pub use location::Location;
