//! A 9x9 Sudoku solver: cell/board model, candidate-set initialization,
//! constraint validation, and backtracking search with the
//! minimum-remaining-values heuristic.

pub mod sudoku_definition;
pub mod sudoku_parsing;
pub mod sudoku_solving;
