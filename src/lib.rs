//! A pointer-free, append-only document tree built from structural events.
//!
//! Nodes live in one array with a parallel array of depths; every structural
//! relationship (parent, children, siblings, ancestors, descendants) is
//! recomputed from the depth sequence.

pub mod attributes;
pub mod builder;
pub mod namespace;
pub mod qname;
pub mod tree;

pub use attributes::{Attributes, XAttribute};
pub use builder::{BuildError, MismatchPolicy, TagEvent, TreeBuilder, XEvent};
pub use qname::format_tag_name;
pub use tree::{FlatTree, Node, XNode};
