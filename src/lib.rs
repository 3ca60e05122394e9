//! A Hitori solver: markable-cell analysis, candidate decoding, the badness
//! score with its connected-component count, and the decisions of a
//! simulated-annealing search.

pub mod grid;
pub mod components;
pub mod score;
pub mod codec;
pub mod anneal;
