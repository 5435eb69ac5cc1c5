//! A grouped nearest-neighbour index.
//!
//! Objects carry a name, a position on an integer grid and an identifier.
//! An ordered list of patterns defines groups: an object belongs to every
//! group whose pattern matches the start of its name. Each group can be asked
//! for its members in order of squared Euclidean distance to a point.

pub mod metric;
pub mod ranking;
pub mod group;
pub mod pattern;
pub mod nearest;
pub mod laws;
