//! Rebuilds a forest from flat `id,label,parent` records and lists every
//! root-to-leaf path as a slash-delimited string.
//!
//! * [`tree`] holds the data model: a [`tree::Tree`] maps a parent id to its
//!   children, each child id occurring once per parent, and can tell
//!   whether it is free of cycles.
//! * [`record`] reads one text record per line and builds the tree.
//! * [`paths`] enumerates the leaf paths, recursively and with a work list.
//! * [`shape`] states what a forest rooted at 0 is, and proves that it has
//!   one leaf path for each childless node.

pub mod paths;
pub mod record;
pub mod shape;
pub mod tree;
