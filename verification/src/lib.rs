//! A small SAT-solving toolkit: a CDCL solver with two watched literals,
//! a DPLL solver with counter-based propagation, and CNF encodings of the
//! Sudoku and Tents puzzles.
use vstd::prelude::*;

pub mod cdcl;
pub mod cnf;
pub mod dpll;
pub mod sodoku;
pub mod tents;
pub mod laws;
pub mod bench;
pub mod sort;
pub mod text;
pub mod dimacs;
