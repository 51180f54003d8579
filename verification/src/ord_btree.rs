//! A positional (order-statistics) balanced tree.
//!
//! Elements are addressed by *offset*: the cumulative sum of the weights of
//! all elements logically preceding a point. Keys are never compared; the
//! order of elements is purely the order in which they were inserted.

use vstd::prelude::*;

mod balance;
mod model;
mod node;
mod store;
mod tree;

pub use model::{find_at, find_boundary, offset_of, weight_sum, weights_pos};
pub use model::{lemma_get_at_start_offset, lemma_insert_remove_roundtrip, lemma_reverse_iteration};
pub use tree::{BTreeIter, OrdBTree};

verus! {

/// A key capability: every key contributes a positive weight to cumulative
/// offsets. In the degenerate case every key weighs 1 and offsets equal ranks.
pub trait OrdSize {
    /// The mathematical weight of the key.
    spec fn spec_size(&self) -> usize;

    /// The weight of the key.
    fn size(&self) -> (r: usize)
        ensures
            r == self.spec_size(),
    ;
}

/// The unit weight: a key marker whose weight is always 1, which makes
/// offsets coincide with ranks.
#[derive(Debug, Clone, Copy, PartialEq, Eq, Hash, Structural)]
pub struct OrdSizeOne;

impl OrdSize for OrdSizeOne {
    open spec fn spec_size(&self) -> usize {
        1
    }

    fn size(&self) -> (r: usize)
        ensures
            r == self.spec_size(),
    {
        1
    }
}

/// A key carrying an explicit positive weight.
#[derive(Debug, Clone, Copy, PartialEq, Eq, Hash, Structural)]
pub struct OrdSizeOf(pub usize);

impl OrdSize for OrdSizeOf {
    open spec fn spec_size(&self) -> usize {
        self.0
    }

    fn size(&self) -> (r: usize)
        ensures
            r == self.spec_size(),
    {
        self.0
    }
}

} // verus!
