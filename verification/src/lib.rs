//! Discovery of repeated, translation-invariant patterns in sets of
//! two-dimensional integer points.

pub mod point_set;
pub mod ranked;
pub mod discovery;
pub mod io;
pub mod search;
