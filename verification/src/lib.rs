//! The notes of a vault of Markdown files, the wiki links between them, and
//! the order in which a viewer reveals them.
pub mod cli;
pub mod graph;
pub mod laws;
pub mod link;
pub mod path;
pub mod spawn;
pub mod text;
pub mod vault;
pub mod view;
