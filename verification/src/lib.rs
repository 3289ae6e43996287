//! Tabular rows from JSON documents.
//!
//! The engine discovers the value paths of each document, combines them into
//! one header, compiles the header into a forest of path trees, extracts a
//! value tree per document and unfolds it into flat rows, multiplying rows
//! wherever arrays occur.
pub mod json;
pub mod path;
pub mod utils;
pub mod schema;
pub mod repeats;
pub mod discover;
pub mod extract;
pub mod tuples;
pub mod render;
pub mod leaves;
pub mod nested;
pub mod parse;
