//! Projection of pairwise-alignment mapping records (tab-separated lines whose
//! field 0 names a query sequence and field 5 a target sequence) onto graph
//! formats, with every sequence name given a dense one-based identifier.
//!
//! Identifiers follow the sorted order of the distinct names, so the lookup
//! is an order-preserving minimal perfect hash: name number `i` in that order
//! gets `i + 1`. Every output is a sequence of lines without terminators.

pub mod catalog;
pub mod colors;
pub mod order;
pub mod project;
pub mod text;

pub use catalog::{record_names, LineFault, NameCatalog, PafError};
pub use colors::{color_of, lookup_key, parse_color_row, parse_u16, ColorTable};
pub use text::{decimal_bytes, split_fields};
