//! A verified LCOV coverage explorer: a trace is scanned into per-file
//! `(path, covered, instrumented)` records, the records build a tree keyed
//! by path segment, totals are aggregated bottom up, and the tree is either
//! rendered as a depth-limited report or browsed through a cursor.

pub mod laws;
pub mod nav;
pub mod parser;
pub mod report;
pub mod text;
pub mod tree;
