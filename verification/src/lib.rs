//! A solver for generalized Sudoku puzzles: square or rectangular blocks,
//! extra overlapping regions, constraint propagation and an exhaustive
//! search that branches on the cell with the fewest candidates left.

pub mod board;
pub mod cell;
pub mod cell_container;
pub mod coord;
pub mod group;
pub mod laws;
pub mod propagation;
pub mod puzzle_text;
pub mod rectangular;
pub mod render;
pub mod repeater;
pub mod search;

pub use rectangular::RectangularBoard;
