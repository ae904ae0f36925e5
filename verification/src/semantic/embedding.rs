//! Embeddings as the worker and the caches carry them.

use crate::semantic::pins::DIMENSIONS;
use vstd::prelude::*;

verus! {

/// An embedding: the bit patterns of its single-precision numbers.
#[derive(Clone, Debug, PartialEq, Eq)]
pub struct Embedding(pub Vec<u32>);

impl View for Embedding {
    type V = Seq<u32>;

    open spec fn view(&self) -> Seq<u32> {
        self.0@
    }
}

impl Embedding {
    /// An embedding has as many numbers as the model has dimensions.
    pub open spec fn well_formed(&self) -> bool {
        self@.len() == DIMENSIONS
    }
}

} // verus!
