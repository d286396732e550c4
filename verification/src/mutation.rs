//! Records of structural changes, as the incremental build consumes them.
use vstd::prelude::*;

verus! {

/// A structural change to the chunk graph.
#[derive(Debug, Clone, Copy, PartialEq, Eq, Structural)]
pub enum Mutation {
    /// A chunk was added to the build.
    ChunkAdd { chunk: usize },
    /// Chunk `to` was split off chunk `from`.
    ChunkSplit { from: usize, to: usize },
}

impl Mutation {
    /// Whether the record names chunk `c`.
    pub open spec fn mentions(self, c: usize) -> bool {
        match self {
            Mutation::ChunkAdd { chunk } => chunk == c,
            Mutation::ChunkSplit { from, to } => from == c || to == c,
        }
    }

    /// Whether the record names chunk `c`.
    pub fn refers_to(&self, c: usize) -> (b: bool)
        ensures
            b == self.mentions(c),
    {
        match self {
            Mutation::ChunkAdd { chunk } => *chunk == c,
            Mutation::ChunkSplit { from, to } => *from == c || *to == c,
        }
    }
}

} // verus!
