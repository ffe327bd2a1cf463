//! Search-tree size estimation for edge-matching tiling puzzles.
//!
//! The crate models the grid of a rectangular puzzle, the orders in which a
//! solver may visit its cells, the resources a partial placement has used at
//! every depth, and the exact combinatorial weights attached to them.

pub mod puzzle_structure;
pub mod search_order;
pub mod search_progress;
pub mod big;
pub mod puzzle_combinations;
pub mod combinations;
pub mod log_scale;
