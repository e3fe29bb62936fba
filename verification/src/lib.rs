//! Core of a street-network generator: fixed-point plane geometry, the
//! tensor of a direction field and its principal directions, the rules
//! that trace, smooth, space, clip and merge streamlines, and the ordered
//! sweep structure used to keep active segments sorted at a sweep height.
//!
//! All coordinates and lengths are integers in units of one ten-thousandth
//! of a grid cell, and unit vectors, weights and thresholds are given in
//! ten-thousandths, so every rule in this crate is exact. Evaluating the
//! field and integrating along it is left to the caller.

pub mod chance;
pub mod clip;
pub mod curve;
pub mod direction;
pub mod merge;
pub mod plan;
pub mod point;
pub mod present;
pub mod ratio;
pub mod resample;
pub mod seeding;
pub mod seeds;
pub mod smooth;
pub mod smoothing;
pub mod status;
pub mod status_laws;
pub mod sweep;
pub mod tensor;
pub mod tracer;
