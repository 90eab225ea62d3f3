//! A batch engine for tab-delimited tabular data: line and batch parsing,
//! lookup indexes, conjunctive equality filtering and counting, grouped
//! aggregation, and the serialization logic behind bulk file output.

pub mod record;
pub mod parse;
pub mod serial;
pub mod filter;
pub mod batch;
pub mod index;
pub mod agg;
