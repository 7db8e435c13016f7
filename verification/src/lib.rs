//! Stepwise generation of perfect mazes on a rectangular grid.
//!
//! A [`carver::Carver`] owns a grid of cells and a backtracking stack and
//! carves a maze one step at a time: each step either pushes a random
//! unvisited neighbour onto the stack (connecting two cells) or backtracks
//! when the current cell has no unvisited neighbours. The driver applies
//! each carving step's wall change through [`carver::Carver::open_walls`].
//!
//! [`laws`] proves the state machine's laws — wall symmetry, visited
//! monotonicity, the termination bound and determinism — and [`perfect`]
//! proves that a completed carving is a spanning tree of the grid: every
//! cell reachable from the start cell, with exactly one open wall pair per
//! cell beyond the first.

pub mod carver;
pub mod grid;
pub mod laws;
pub mod perfect;

pub use carver::Carver;
pub use carver::CarverError;
pub use carver::Step;
pub use grid::Cell;
pub use grid::Coord;
pub use grid::Direction;
