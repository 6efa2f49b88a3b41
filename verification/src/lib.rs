//! A sliding-tile puzzle ("taquin") with a verified best-first solver.
//!
//! A board is a square grid of numbered tiles with one blank cell; a move
//! slides the blank one step.  The crate offers the board and its moves,
//! two distance estimates between boards, and a search that returns a
//! sequence of moves leading from one board to another.

pub mod ai;
pub mod best_first;
mod arena;
pub mod board;
mod frontier;
pub mod heuristic;
pub mod key;
pub mod path;
pub mod random;
mod search;

pub use ai::{Node, NodeModel};
pub use board::{Board, Cell, Move, Taquin, TaquinError, MAX_SIZE};
pub use search::astar;
