//! Keys under which chunks of a tree are stored.

use vstd::prelude::*;
use crate::node_id::NodeId;

verus! {

/// Id under which a chunk is stored: the first node id that the chunk owns.
/// It is equal to or precedes every node id present in the chunk.
#[derive(Ord, PartialOrd, Eq, PartialEq, Structural, Clone, Copy, Hash, Debug)]
pub struct ChunkId(pub NodeId);

impl ChunkId {
    /// The number behind the id.
    pub open spec fn key(self) -> u128 {
        let NodeId(k) = self.0;
        k
    }

    /// The chunk id with the given number.
    pub open spec fn of(k: u128) -> ChunkId {
        ChunkId(NodeId(k))
    }

    /// The number behind the id.
    pub fn number(&self) -> (k: u128)
        ensures
            k == self.key(),
            *self == ChunkId::of(k),
    {
        let NodeId(k) = self.0;
        k
    }
}

} // verus!
