//! The configuration screen's model.

pub mod hook_tree_view;

pub use hook_tree_view::HooksTreeView;
