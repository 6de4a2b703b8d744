//! Two small, self-contained simulation engines: a bounded two-dimensional
//! cellular automaton (the life grid) and a hailstone-sequence generator
//! (the Collatz engine). Both are pure in-memory computations; presentation,
//! timing and randomness sources are the caller's concern.

pub mod collatz;
pub mod grid;
pub mod pattern;
pub mod rng;
