//! Building records and queries, from values and from text.

pub mod gen;
pub mod parser;
