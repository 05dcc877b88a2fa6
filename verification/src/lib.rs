//! Helpers for line-oriented puzzle computations: bit-string decoding, grid
//! neighbourhoods, a few self-contained solvers, and the coordination model of
//! a bounded worker pool.

pub mod basins;
pub mod bingo;
pub mod bitops;
pub mod chunks;
pub mod course;
pub mod crabs;
pub mod diag;
pub mod extsort;
pub mod fish;
pub mod gridops;
pub mod octopus;
pub mod parse;
pub mod pool;
pub mod segments;
pub mod sonar;
pub mod vents;
