//! A filtered, hierarchical listing of a project's files: which paths are
//! relevant, how the survivors fold into a directory tree, and how that tree
//! is rendered as indented text.

pub mod discovery;
pub mod filter;
pub mod listing;
pub mod order;
pub mod path;
pub mod path_order;
pub mod render;
pub mod render_lemmas;
pub mod report;
pub mod secret;
pub mod selection;
pub mod sorting;
pub mod text;
pub mod tree;
pub mod tree_lemmas;
pub mod trusted;
