//! A Sudoku solver that keeps the rules of the game as a graph.
//!
//! The 81 cells are the nodes of an undirected graph in which two cells are
//! joined when they may not hold the same symbol. A [`SudokuBoard`] holds the
//! cells with their candidates, the graph, and an index of the cells by the
//! number of their candidates. Solving fills the cells that have a single
//! candidate and then searches, branching on a cell with the fewest
//! candidates.
//!
//! What a grid is and when it is solved is defined in [`rules`]; the
//! functions of the board state in their contracts what they do to the grid.

pub mod board;
pub mod color;
pub mod constraints;
pub mod givens;
pub mod graph;
pub mod propagation;
pub mod rules;
pub mod solver;

pub use crate::board::Cell;
pub use crate::board::SudokuBoard;
pub use crate::color::Color;
pub use crate::color::COLORS;
