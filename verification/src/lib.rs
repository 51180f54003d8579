//! A collection of classic in-memory data structures, verified with Verus.
//!
//! The centrepiece is [`OrdBTree`], a positional (order-statistics)
//! balanced tree addressed by cumulative element weights rather than by key
//! comparison. Around it stand a set of smaller structures: prefix-sum trees
//! over commutative monoids, a union-find forest, and a binary max-heap.

pub mod groups;

mod fenwick_tree;
mod heap;
mod ord_btree;
mod segment_tree;
mod union_find;

pub use fenwick_tree::FenwickTree;
pub use heap::{MaxHeap, MinHeap};
pub use ord_btree::{BTreeIter, OrdBTree, OrdSize, OrdSizeOf, OrdSizeOne};
pub use segment_tree::SegmentTree;
pub use union_find::UnionFind;
