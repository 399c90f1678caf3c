//! Holder discovery: which of a file's chunks a live peer has.

use vstd::prelude::*;

use crate::error::{Error, Result};
use crate::ids::{ChunkId, FileId};

verus! {

pub const MAX_HAVE_CHUNK_IDS: usize = 32;

/// Two identifier lists with the same bytes in the same order.
pub open spec fn same_ids(a: Seq<ChunkId>, b: Seq<ChunkId>) -> bool {
    a.len() == b.len() && forall|i: int| 0 <= i < a.len() ==> (#[trigger] a[i])@ == b[i]@
}

/// Bytes of a bitset holding one bit per requested identifier.
pub open spec fn bitset_len(count: int) -> int {
    (count + 7) / 8
}

/// Bit `index` of a packed bitset, least-significant bit first.
pub open spec fn bitset_has(bits: Seq<u8>, index: int) -> bool {
    0 <= index / 8 < bits.len() && (bits[index / 8] & (1u8 << ((index % 8) as u8))) != 0
}

#[derive(Debug, PartialEq, Eq)]
pub struct HaveQuery {
    pub file_id: FileId,
    chunk_ids: Vec<ChunkId>,
}

impl HaveQuery {
    #[verifier::type_invariant]
    spec fn bounded(self) -> bool {
        1 <= self.chunk_ids@.len() <= MAX_HAVE_CHUNK_IDS
    }

    pub closed spec fn ids(self) -> Seq<ChunkId> {
        self.chunk_ids@
    }

    /// The file the query asks about.
    pub closed spec fn file(self) -> FileId {
        self.file_id
    }

    pub fn new(file_id: FileId, chunk_ids: Vec<ChunkId>) -> (r: Result<Self>)
        ensures
            match r {
                Ok(q) => q.file() == file_id && q.ids() == chunk_ids@,
                Err(e) => e is InvalidInput && !(1 <= chunk_ids@.len() <= MAX_HAVE_CHUNK_IDS),
            },
    {
        require_count(chunk_ids.len())?;
        Ok(Self { file_id, chunk_ids })
    }

    pub fn get_file_id(&self) -> (r: FileId)
        ensures
            r == self.file(),
    {
        self.file_id
    }

    pub fn chunk_ids(&self) -> (r: &[ChunkId])
        ensures
            r@ == self.ids(),
            1 <= r@.len() <= MAX_HAVE_CHUNK_IDS,
    {
        proof {
            use_type_invariant(self);
        }
        self.chunk_ids.as_slice()
    }
}

#[derive(Clone, Debug, PartialEq, Eq)]
pub struct HaveReply {
    pub file_id: FileId,
    pub chunk_ids: Vec<ChunkId>,
    pub have_bitset: Vec<u8>,
}

/// Whether `reply` answers exactly `query` with a bitset of the right size.
pub open spec fn reply_matches(reply: HaveReply, query: HaveQuery) -> bool {
    &&& 1 <= reply.chunk_ids@.len() <= MAX_HAVE_CHUNK_IDS
    &&& reply.file_id@ == query.file()@
    &&& same_ids(reply.chunk_ids@, query.ids())
    &&& reply.have_bitset@.len() == bitset_len(reply.chunk_ids@.len() as int)
}

pub fn ids_equal(a: &[ChunkId], b: &[ChunkId]) -> (r: bool)
    ensures
        r == same_ids(a@, b@),
{
    if a.len() != b.len() {
        return false;
    }
    let mut i: usize = 0;
    while i < a.len()
        invariant
            i <= a@.len(),
            a@.len() == b@.len(),
            forall|j: int| 0 <= j < i ==> (#[trigger] a@[j])@ == b@[j]@,
        decreases a@.len() - i,
    {
        if a[i] != b[i] {
            return false;
        }
        i = i + 1;
    }
    true
}

impl HaveReply {
    pub fn new(query: &HaveQuery, have_bitset: Vec<u8>) -> (r: Result<Self>)
        ensures
            match r {
                Ok(reply) => reply.file_id == query.file() && reply.chunk_ids@ == query.ids()
                    && reply.have_bitset@ == have_bitset@ && reply_matches(reply, *query),
                Err(e) => e is InvalidInput && have_bitset@.len() != bitset_len(
                    query.ids().len() as int,
                ),
            },
    {
        let ids = query.chunk_ids();
        let reply = Self {
            file_id: query.get_file_id(),
            chunk_ids: vstd::slice::slice_to_vec(ids),
            have_bitset,
        };
        reply.validate(query)?;
        Ok(reply)
    }

    /// A reply is accepted only for the exact query it answers.
    pub fn validate(&self, query: &HaveQuery) -> (r: Result<()>)
        ensures
            r is Ok <==> reply_matches(*self, *query),
            r matches Err(e) ==> if !(1 <= self.chunk_ids@.len() <= MAX_HAVE_CHUNK_IDS) {
                e is InvalidInput
            } else if self.file_id@ != query.file()@ || !same_ids(self.chunk_ids@, query.ids()) {
                e is AuthenticationFailed
            } else {
                e is InvalidInput
            },
    {
        require_count(self.chunk_ids.len())?;
        if self.file_id != query.get_file_id() || !ids_equal(self.chunk_ids.as_slice(), query.chunk_ids()) {
            return Err(Error::AuthenticationFailed);
        }
        if self.have_bitset.len() != (self.chunk_ids.len() + 7) / 8 {
            return Err(Error::InvalidInput("have reply bitset length mismatch"));
        }
        Ok(())
    }

    /// Whether the replying peer holds the `index`-th requested chunk.
    pub fn has(&self, index: usize) -> (r: bool)
        ensures
            r == (index < self.chunk_ids@.len() && bitset_has(self.have_bitset@, index as int)),
    {
        if index >= self.chunk_ids.len() {
            return false;
        }
        let byte_index = index / 8;
        if byte_index >= self.have_bitset.len() {
            return false;
        }
        let shift = (index % 8) as u8;
        (self.have_bitset[byte_index] & (1u8 << shift)) != 0
    }
}

/// Between one and 32 identifiers.
pub fn require_count(count: usize) -> (r: Result<()>)
    ensures
        r is Ok <==> 1 <= count <= MAX_HAVE_CHUNK_IDS,
        r matches Err(e) ==> e is InvalidInput,
{
    if count < 1 || count > MAX_HAVE_CHUNK_IDS {
        return Err(Error::InvalidInput("have query requires between 1 and 32 chunk identifiers"));
    }
    Ok(())
}

} // verus!
