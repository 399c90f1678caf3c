//! Host-side mailbox and control records.

use vstd::prelude::*;

pub mod commit;
pub mod filesystem;

use crate::ids::{ChunkId, Epoch, FileId, PeerId, SeqNum};
use crate::protocol::manifest::Manifest;

verus! {

/// An encrypted pairwise packet queued for an offline recipient.
#[derive(Clone, Debug, PartialEq, Eq)]
pub struct MailboxEnvelope {
    pub recipient_id: PeerId,
    pub sender_id: PeerId,
    pub epoch: Epoch,
    pub seq: SeqNum,
    pub queued_at: u64,
    pub ciphertext: Vec<u8>,
}

/// Random bytes the mailbox owner signs before its queue is released.
#[derive(Clone, Debug, PartialEq, Eq)]
pub struct FlushChallenge(pub [u8; 32]);

/// One committed change to the vault.
#[derive(Clone, Debug, PartialEq, Eq)]
pub enum ControlUpdate {
    NewManifest(Manifest),
    Add(FileId),
    Clear(FileId),
    Remove(FileId),
    Link { parent: FileId, name: String, child: FileId, is_dir: bool },
    Unlink { parent: FileId, name: String },
    Rename { src_parent: FileId, src_name: String, dst_parent: FileId, dst_name: String },
}

/// A control update with its position in the host's instruction log.
#[derive(Clone, Debug, PartialEq, Eq)]
pub struct ControlRecord {
    pub id: u64,
    pub update: ControlUpdate,
}

/// What waits in a durable mailbox: a control record or a reference to a
/// plaintext chunk to be sealed at delivery.
#[derive(Clone, Debug, PartialEq, Eq)]
pub enum QueueContent {
    Control(ControlRecord),
    Chunk { file_id: FileId, index: u64, chunk_id: ChunkId },
}

} // verus!
