//! Serving have queries on an authenticated live pair.

use vstd::prelude::*;

use crate::error::Result;
use crate::protocol::locate::{reply_matches, HaveQuery, HaveReply};
use crate::store::chunks::{have_bits, ChunkStore, MemoryChunkStore};

verus! {

/// The answer this member gives to `query` from the chunks it holds now.
pub fn answer_have(chunks: &MemoryChunkStore, query: &HaveQuery) -> (r: Result<HaveReply>)
    requires
        chunks.wf(),
    ensures
        match r {
            Ok(reply) => {
                &&& reply.file_id == query.file()
                &&& reply.chunk_ids@ == query.ids()
                &&& reply_matches(reply, *query)
                &&& have_bits(reply.have_bitset@, query.ids(), chunks@)
            },
            Err(_) => false,
        },
{
    proof {
        chunks.lemma_valid();
    }
    crate::sync::locate::answer_have(query, chunks)
}

} // verus!
