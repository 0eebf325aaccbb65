//! Depth-first traversal over arbitrary tree-shaped data.
//!
//! Any type that can enumerate references to its immediate children (the
//! [`Tree`](traverse::Tree) capability) can be walked lazily by
//! [`TreeIter`](traverse::TreeIter), a stack-based iterator that produces a
//! reference to every node reachable from a root, root first. The order is
//! the stack discipline's own: a node's children are pushed in declared order
//! and popped last-in-first-out, so later-declared siblings are visited
//! before earlier-declared ones.

pub mod order;
pub mod traverse;
pub mod u32_tree;

pub use order::SpecTree;
pub use traverse::DfTraverse;
pub use traverse::Tree;
pub use traverse::TreeIter;
pub use u32_tree::U32Tree;
