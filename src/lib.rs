//! Fixed-width field extraction, weighted frequency tables and match
//! location grouping for line-oriented fixed-width data files.

pub mod text;
pub mod extract;
pub mod aggregate;
pub mod order;
pub mod freq;
pub mod regex_pattern;
pub mod locate;
pub mod render;
