//! Chunk pull requests and sealed chunk bodies.

use vstd::prelude::*;

use crate::ids::FileId;
use crate::protocol::packet::PacketHeader;

verus! {

/// One sealed chunk body with the position it authenticates.
#[derive(Clone, Debug, PartialEq, Eq)]
pub struct ChunkBodyFrame {
    pub header: PacketHeader,
    pub file_id: FileId,
    pub index: u64,
    pub ciphertext: Vec<u8>,
}

} // verus!

verus! {

pub const MAX_PULL_CHUNK_IDS: usize = 32;

/// A bounded request for chunk bodies.
#[derive(Debug, PartialEq, Eq)]
pub struct PullRequest {
    chunk_ids: Vec<crate::ids::ChunkId>,
}

impl PullRequest {
    #[verifier::type_invariant]
    spec fn bounded(self) -> bool {
        self.chunk_ids@.len() <= MAX_PULL_CHUNK_IDS
    }

    /// The requested identifiers, in request order.
    pub closed spec fn ids(self) -> Seq<crate::ids::ChunkId> {
        self.chunk_ids@
    }

    pub fn new(chunk_ids: Vec<crate::ids::ChunkId>) -> (r: crate::error::Result<Self>)
        ensures
            match r {
                Ok(p) => p.ids() == chunk_ids@ && chunk_ids@.len() <= MAX_PULL_CHUNK_IDS,
                Err(e) => e is InvalidInput && chunk_ids@.len() > MAX_PULL_CHUNK_IDS,
            },
    {
        if chunk_ids.len() > MAX_PULL_CHUNK_IDS {
            return Err(crate::error::Error::InvalidInput(
                "pull request exceeds the 32 chunk identifier cap",
            ));
        }
        Ok(Self { chunk_ids })
    }

    pub fn chunk_ids(&self) -> (r: &[crate::ids::ChunkId])
        ensures
            r@ == self.ids(),
            r@.len() <= MAX_PULL_CHUNK_IDS,
    {
        proof {
            use_type_invariant(self);
        }
        self.chunk_ids.as_slice()
    }
}

} // verus!
