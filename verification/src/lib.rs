//! Per-key streaming aggregation over newline-delimited `key;value` records.
//!
//! The input byte stream is cut into line-aligned chunks, each chunk is
//! parsed and aggregated into an independent table, and the tables are
//! combined by an associative, commutative merge. Values are decimal
//! numbers held in a fixed-point representation (hundredths), so every
//! aggregate is exact and the merge is order-independent.

pub mod entry;
pub mod parse;
pub mod table;
pub mod process;
pub mod splitter;
pub mod laws;
