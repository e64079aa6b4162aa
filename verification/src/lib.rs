//! An incremental simulator for Conway's Game of Life on a toroidal
//! (wrap-around) square grid.
//!
//! Instead of re-evaluating every cell on every step, the engine keeps a
//! *frontier*: a sorted, duplicate-free list of cell indices whose state
//! might change on the next step. Each step evaluates only the frontier
//! cells against a snapshot of the grid, commits the observed transitions,
//! and rebuilds the frontier from those transitions.

pub mod engine;
pub mod frontier;
pub mod grid;
pub mod model;

pub use engine::EngineError;
pub use engine::GameEngine;
pub use engine::StepResult;
pub use frontier::Frontier;
pub use grid::get_neighbors;
pub use grid::full_step;
pub use grid::Grid;
