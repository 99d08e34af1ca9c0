//! An in-memory ordered key-value map over arbitrary byte strings, built on a
//! cache-line-sized radix tree: every node holds up to sixteen ordered
//! (segment, child) slots, each segment a length-prefixed fragment of at most
//! seven bytes, so that a lookup touches one fixed-size record per level.

pub mod node;
pub mod order;
pub mod tree;

pub use node::ResolvedChild;
pub use node::TSIMTreeFault;
pub use node::TSIMTreeNode;
pub use node::TSIMTreeNodeChild;
pub use tree::TSIMTree;
