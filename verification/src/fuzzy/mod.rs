//! Arinae fuzzy matching algorithm: Smith-Waterman local alignment with
//! affine gap penalties and context-sensitive bonuses.

pub mod algo;
pub mod atom;
pub mod banding;
pub mod constants;
pub mod helpers;
pub mod matrix;
pub mod matcher;
pub mod prefilter;
