//! Structured key-value records from semi-structured log lines.
//!
//! A line that is a JSON object or array is taken apart by its members;
//! any other line is normalised, cut into segments at the start of each key
//! and every segment is read as a `key delimiter value` pair. Whatever does
//! not fit the pair shape is kept verbatim.
pub mod text;
pub mod pair;
pub mod patterns;
pub mod segment;
pub mod record;
pub mod json;
pub mod batch;
