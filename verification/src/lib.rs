//! An ordered container: an unbalanced binary search tree over `u64` keys with
//! an arbitrary payload per key.  Nodes live in a flat arena owned by the tree,
//! linked by indices (parent, left, right), so no ownership cycle exists and
//! releasing the tree never recurses, however deep the tree has grown.

pub mod bst;
pub mod order;
mod shape;
pub mod traverse;

pub use bst::BST;
pub use traverse::IntoIter;
pub use traverse::Iter;
pub use traverse::IterMut;
