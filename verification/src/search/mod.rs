//! Search for the occurrences of a given pattern in a point set.

pub mod exact_matcher;
pub mod partial_matcher;
pub mod pattern_matcher;
