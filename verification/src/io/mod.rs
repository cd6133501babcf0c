//! Reading point sets from text.

pub mod csv;
