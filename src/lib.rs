//! Sudoku solving by constraint propagation with randomized backtracking
//! search (`wfc`), a propagation solver without backtracking (`wave`), and a
//! plain depth-first baseline solver (`naive`).
pub mod cell;
pub mod grid;
pub mod naive;
mod random;
pub mod wave;
pub mod wfc;
