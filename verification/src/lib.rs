//! Task trees: the data model, its editing operations, filtering, statistics
//! and Markdown export of a tree-shaped todo list.
pub mod text;
pub mod model;
pub mod fields;
pub mod tree;
pub mod markdown;
pub mod filter;
pub mod state;
pub mod projects;
pub mod drive;
pub mod ui;
