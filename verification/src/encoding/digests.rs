//! Content addresses and the flush statement.

use vstd::prelude::*;

use crate::crypto::hash::{sha256, sha256_digest};
use crate::ids::{ChunkId, FileId, PeerId};
use crate::sync::host::FlushChallenge;
use crate::wire::{be64, push_array32, push_bytes, push_u64};

verus! {

/// Domain separation for peer identities.
pub open spec fn peer_id_domain() -> Seq<u8> {
    seq![113u8, 102, 115, 47, 118, 49, 47, 112, 101, 101, 114]
}

/// A member's identity: SHA-256 over the peer domain and its ML-DSA-65
/// verification key.
pub fn peer_id(vk: &[u8]) -> (r: PeerId)
    ensures
        r@ == sha256_digest(peer_id_domain() + vk@),
{
    let domain: [u8; 11] = [113, 102, 115, 47, 118, 49, 47, 112, 101, 101, 114];
    assert(domain@ =~= peer_id_domain());
    let mut input: Vec<u8> = Vec::new();
    push_bytes(&mut input, &domain);
    push_bytes(&mut input, vk);
    PeerId(sha256(input.as_slice()))
}

/// A chunk's content address: SHA-256 over its file, its index and its
/// plaintext.
pub fn chunk_id(file_id: &FileId, index: u64, plaintext: &[u8]) -> (r: ChunkId)
    ensures
        r@ == sha256_digest(file_id@ + be64(index) + plaintext@),
{
    let mut input: Vec<u8> = Vec::new();
    push_array32(&mut input, &file_id.0);
    push_u64(&mut input, index);
    push_bytes(&mut input, plaintext);
    ChunkId(sha256(input.as_slice()))
}

/// The statement a mailbox owner signs to release its queue: the challenge.
pub fn flush_m(challenge: &FlushChallenge) -> (r: [u8; 32])
    ensures
        r@ == challenge.0@,
{
    challenge.0
}

} // verus!
