//! A metadata-driven editor for nested configuration trees: a navigation
//! stack over one level of the tree at a time, an editing session, and a path
//! resolver that writes a leaf arbitrarily deep in the tree.
pub mod text;
pub mod schema;
pub mod resolve;
pub mod menu;
pub mod controller;
