//! Conway's Game of Life on an unbounded grid, stored sparsely: only the live
//! cells are kept, and one generation is computed by scanning the 3x3
//! neighbourhoods of the live cells.
//!
//! * [`point`] holds the grid coordinate and its neighbourhood.
//! * [`rules`] is the mathematical model: what a neighbourhood is, how live
//!   cells are counted, and which board follows a given board.
//! * [`board`] is the set of live cells.
//! * [`game`] is the simulation: a board and a generation counter.
pub mod point;
pub mod board;
pub mod game;
pub mod rules;

pub use board::Board;
pub use game::Game;
pub use point::Point;
