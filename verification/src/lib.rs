//! Algorithms, data structures and number theory routines for contest
//! programming, each with a machine-checked contract.

pub mod algorithm;
pub mod data_structure;
pub mod graph;
pub mod grid;
pub mod math;
pub mod utils;

pub use algorithm::lis;
