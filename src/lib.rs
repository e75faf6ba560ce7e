use vstd::prelude::*;

pub mod graph;
pub mod parallel;
pub mod solver;
pub mod sudoku;

pub use graph::{dfs, Graph, GraphControl};
pub use solver::{solve_sudoku, SudokuSolver};
pub use sudoku::{Item, Sudoku, SudokuState};

verus! {

} // verus!
