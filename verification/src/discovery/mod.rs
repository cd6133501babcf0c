//! Discovery of maximal translatable patterns and of translational
//! equivalence classes.

pub mod algorithm;
pub mod cosiatec;
pub mod hash_index;
pub mod heuristic;
pub mod shapes;
pub mod sia;
pub mod siar;
pub mod siatec;
pub mod siatec_c;
pub mod siatec_ch;
pub mod siatec_compress;
pub mod utilities;
pub mod windows;
