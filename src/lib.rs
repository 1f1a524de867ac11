//! Branch-and-bound building blocks based on decision diagrams.

pub mod common;
pub mod oracles;
pub mod layer;
pub mod heuristics;
pub mod config;
pub mod mdd;
pub mod frontier;
pub mod solver;
