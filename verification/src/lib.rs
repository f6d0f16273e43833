//! Discrete core of an elytra flight simulator and pitch optimizer:
//! velocity grids, the cells that bilinear interpolation reads, and the
//! memo table of the dynamic program over quantised flight states.
//!
//! Positions and velocities are `f64` values in the simulator. This library
//! never does arithmetic on them: it stores them as the IEEE-754 bit
//! patterns of those values (`f64::to_bits`), copies them and compares
//! them bit for bit, which is how the memo table identifies its keys.

pub mod ahash_map;
pub mod dp;
pub mod grid;
pub mod pitches;
