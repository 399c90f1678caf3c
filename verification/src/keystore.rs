//! The identity-path lifecycle. No key material is generated or persisted
//! here: the file at the identity path is only classified.

use vstd::prelude::*;

use crate::crypto::identity::IdentityDocument;
use crate::crypto::wrap::WrapMessage;
use crate::error::{Error, Result};
use crate::ids::{Epoch, PeerId};

verus! {

/// An owned filesystem path.
#[verifier::external_type_specification]
#[verifier::external_body]
pub struct ExPathBuf(std::path::PathBuf);

/// A borrowed filesystem path.
#[verifier::external_type_specification]
#[verifier::external_body]
pub struct ExPath(std::path::Path);

/// A stored pair key: its slot, its pair and epoch, and the key bytes.
pub struct PersistedKey {
    pub slot: u64,
    pub peer_id: PeerId,
    pub epoch: Epoch,
    pub key: [u8; 32],
}

/// A signed wrap kept for the pair it established.
pub struct PersistedPair {
    pub peer_id: PeerId,
    pub epoch: Epoch,
    pub initiator: PeerId,
    pub wrap: WrapMessage,
}

/// The key store's durable state.
pub struct PersistedState {
    pub local_id: PeerId,
    pub next_slot: u64,
    pub peers: Vec<IdentityDocument>,
    pub pairs: Vec<PersistedPair>,
    pub keys: Vec<PersistedKey>,
    /// The highest epoch seen per peer, kept after a provisional discard.
    pub epoch_watermarks: Vec<(PeerId, Epoch)>,
}

pub struct IdentityPath {
    pub path: std::path::PathBuf,
    pub state: IdentityState,
}

#[derive(Debug, Clone, Copy, PartialEq, Eq, Structural)]
pub enum IdentityState {
    Pending,
    /// Existing bytes are preserved; they are not parsed, trusted, or used yet.
    ExistingUnverified,
}

/// What an identity path holds, from the metadata of the file found there:
/// only a regular file is accepted, and an empty one is still pending.
pub fn identity_state(is_file: bool, len: u64) -> (r: Result<IdentityState>)
    ensures
        match r {
            Ok(s) => is_file && s == (if len == 0 {
                IdentityState::Pending
            } else {
                IdentityState::ExistingUnverified
            }),
            Err(e) => !is_file && e is InvalidInput,
        },
{
    if !is_file {
        return Err(Error::InvalidInput("identity path must be a regular file"));
    }
    if len == 0 {
        Ok(IdentityState::Pending)
    } else {
        Ok(IdentityState::ExistingUnverified)
    }
}

/// A future implementation must verify the signature and self-certifying
/// peer id before returning any identity as authenticated.
pub trait IdentityKeyStore {
    fn load_or_create_identity(&self, path: &std::path::Path) -> Result<IdentityDocument>;

    fn load_verified_peer(&self, peer_id: &PeerId) -> Result<IdentityDocument>;
}

pub struct PendingKeyStore;

impl IdentityKeyStore for PendingKeyStore {
    fn load_or_create_identity(&self, path: &std::path::Path) -> (r: Result<IdentityDocument>)
        ensures
            r matches Err(Error::NotImplemented(_)),
    {
        Err(Error::NotImplemented("identity generation, verification, and key persistence"))
    }

    fn load_verified_peer(&self, peer_id: &PeerId) -> (r: Result<IdentityDocument>)
        ensures
            r matches Err(Error::NotImplemented(_)),
    {
        Err(Error::NotImplemented("verified peer identity persistence"))
    }
}

} // verus!
