//! Review a unified diff hunk by hunk: parse it, track what has been
//! confirmed, navigate it, and write the confirmed part back out.

pub mod text;
pub mod parser;
pub mod fuzzy;
pub mod model;
pub mod display;
pub mod round_trip;
