//! Verified solvers for a set of small text-input puzzles, one module
//! per puzzle.  The heart of the crate is `dies_06`: a deterministic
//! grid-traversal simulator with heuristic loop detection and an
//! exhaustive, parallel search over single-cell grid modifications.

pub mod dies_01;
pub mod dies_02;
pub mod dies_03;
pub mod dies_04;
pub mod dies_06;
pub mod dies_07;
pub mod text;
