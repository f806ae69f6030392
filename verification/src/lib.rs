//! Cyclic-pursuit simulation: `n` bodies start on a circle and each one
//! chases the body that precedes it in the cycle, tracing logarithmic
//! spirals toward the centre.
//!
//! All geometry is carried in fixed-point integer units (see [`fixed`]),
//! so every computation has an exact integer meaning that the contracts
//! state and the verifier checks.

pub mod fixed;
pub mod trig;
pub mod sim;
