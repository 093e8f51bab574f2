//! Placement of N non-attacking queens by depth-first backtracking.
//!
//! `utils` holds the attack index: the signature of each square and the
//! trail of placed queens with its sets of occupied lines. `queen` holds the
//! row-by-row search over that trail.

pub mod queen;
pub mod utils;
