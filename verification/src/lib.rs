//! A verified kernel for scoring shuffled permutations of 1..=25 by their fixed points.
pub mod benchmark;
pub mod kernel;
pub mod kernel_simd;
pub mod libdivide;
pub mod rng;
pub mod text;
pub mod worker;
pub mod session;
