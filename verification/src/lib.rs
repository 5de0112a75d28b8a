//! A particle field in which drifting dots are pushed by radial impulses and
//! answer with chained detonations.
//!
//! All quantities are fixed-point numbers counted in thousandths, so every
//! step of the engine is exact integer arithmetic.

pub mod fixed;
pub mod vec2d;
pub mod dot;
pub mod grid;
pub mod events;
pub mod render;
pub mod source;
pub mod universe;
