//! Spatial grid index and the continuity cleaner and physical augmenter
//! built on it, over fixed-point signal-strength readings.

pub mod point;
pub mod point_map;
pub mod config;
pub mod clean;
pub mod augment;
pub mod record;
