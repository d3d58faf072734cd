//! The high-level graph: its data model, the builder that parses source text
//! into it, the traversals over it and the rewrites that simplify it.
pub mod data;
pub mod parser;
pub mod visit;
pub mod rewrite;
