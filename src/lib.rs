//! Coke-oven cycle derivation: timestamp parsing, temperature interpolation,
//! trapezoidal time-weighted averaging and LOAD/PUSH cycle matching.
pub mod error;
pub mod time;
pub mod arith;
pub mod duration;
pub mod models;
pub mod integral;
pub mod series;
pub mod system;
