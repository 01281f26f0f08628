//! Split a large SQL script into size-bounded batches of whole statements.
//!
//! The library scans the source text once, cutting it into statements at
//! semicolons that stand outside single-quoted string literals, and then
//! packs the statements, in order, into batches whose serialized byte size
//! stays within a budget.  Writing the batches to files is left to the
//! surrounding program; this crate only decides where the cuts fall.

pub mod scan;
pub mod plan;
pub mod render;
pub mod splitter;

pub use splitter::SqlSplitter;
