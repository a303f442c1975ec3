//! Compiles three flat, cross-referencing rule tables (replacements, file
//! placements, templates) into one hierarchical machine description.
pub mod compile;
pub mod index;
pub mod laws;
pub mod model;
pub mod report;
pub mod string_map;
pub mod string_set;
pub mod tree;
pub mod types;
