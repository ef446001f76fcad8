//! A plain-text knowledge base and issue tracker: the document model that
//! reads and writes markdown with frontmatter, and the dependency graph that
//! derives actionable work from the records.

pub mod commands;
pub mod issues;
pub mod llmd_dir;
pub mod markdown;
pub mod number;
pub mod paths;
pub mod pattern;
pub mod text;
pub mod text_laws;
