//! A line-oriented filter that strips comments from source text and replaces
//! string literals by short placeholders, keeping the line structure intact.

pub mod blacklist;
pub mod config;
pub mod laws;
pub mod negative;
pub mod order;
pub mod parse;
pub mod range;
pub mod ranges;
pub mod render;
pub mod rescan;
pub mod scanner;
pub mod select;
pub mod token;
