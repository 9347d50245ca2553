//! Conflict-driven clause learning with two watched literals, clause
//! deletion, Luby restarts, phase saving and a VSIDS-like decision order.
pub mod literals;
pub mod types;
pub mod watch;
pub mod heuristics;
pub mod preprocess;
pub mod search;
pub mod solver;

pub use types::{Clause, Variable};
