//! Dragon curves for a turtle.
//!
//! [`curve`] generates the ordered segments of a Dragon curve, [`turtle`]
//! replays segments as pen commands against the state of a pen, and
//! [`angle`] holds angles tagged with their unit. All arithmetic is on whole
//! numbers and exact.

pub mod angle;
pub mod curve;
pub mod turtle;
