//! The discrete core of a small ray tracer: which grid cells hold a sphere,
//! how a surface is classified and tiled, in what order pixels are scheduled
//! and put back together, and how a finished frame is laid out as bytes.
//!
//! Everything here works on integers and is proved against its contract.

pub mod image;
pub mod nearest;
pub mod scene;
pub mod schedule;
pub mod surface;
