//! The data model: points, patterns and sorted point sets.

pub mod mtp;
pub mod pattern;
pub mod point;
pub mod set;
pub mod tec;
