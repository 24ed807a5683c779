//! A verified aggregation engine for `<station>;<temperature>` records.
//!
//! The input is a byte buffer of newline-terminated rows.  Each row names a
//! station and a temperature with at most one fractional digit; the engine
//! groups the rows by station and reports, per station, the minimum, maximum
//! and rounded mean.  Temperatures are held exactly, as signed counts of
//! tenths of a degree.

pub mod aggregate;
pub mod analyzer;
pub mod brc;
pub mod laws;
pub mod model;
pub mod parser;
pub mod processor;
pub mod reader;
pub mod search;
pub mod stats;
pub mod text;
