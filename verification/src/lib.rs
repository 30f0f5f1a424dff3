//! 9x9 Sudoku puzzle generation with verified invariants: a complete-grid
//! generator built from a base pattern and band-preserving shuffles, a
//! forced-move constraint solver, and a digging procedure that empties cells
//! of a complete board while a propagation-based solvability oracle keeps
//! accepting the result.

pub mod digger;
pub mod generator;
pub mod grid;
pub mod render;
pub mod rng;
pub mod solver;
pub mod validator;
