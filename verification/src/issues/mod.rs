//! The issue tracker: records, their text form, the store's naming rules and
//! the dependency graph over a set of records.

pub mod file_ops;
pub mod frontmatter;
pub mod graph;
pub mod models;
pub mod roundtrip;
