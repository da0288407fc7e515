//! Line-by-line authorship of a text buffer, kept in step with its edits.

pub mod blame;
pub mod build_tree;
pub mod commits;
pub mod edits;
pub mod entry;
pub mod laws;
pub mod message;
pub mod renderer;
pub mod row_edits;
pub mod rows;
pub mod small;
pub mod splice;
pub mod text;
pub mod tree;
