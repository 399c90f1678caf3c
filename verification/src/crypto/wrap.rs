//! Pair-key wrap messages and sessions.

use vstd::prelude::*;

use crate::crypto::aead::PairKeyHandle;
use crate::ids::{Epoch, PeerId};

verus! {

/// A signed Construction B wrap of a fresh pair key.
#[derive(Clone, Debug, PartialEq, Eq)]
pub struct WrapMessage {
    pub kem_ct: Vec<u8>,
    pub wrap_ct: Vec<u8>,
    pub epoch: Epoch,
    pub min_id: PeerId,
    pub max_id: PeerId,
    pub signature: Vec<u8>,
}

/// An installed pair session: the peer, the epoch and the handle of the
/// pair key held in the key store.
pub struct PairSession {
    pub peer_id: PeerId,
    pub epoch: Epoch,
    key_handle: PairKeyHandle,
}

impl PairSession {
    pub closed spec fn handle(&self) -> PairKeyHandle {
        self.key_handle
    }

    pub closed spec fn peer(&self) -> PeerId {
        self.peer_id
    }

    pub closed spec fn session_epoch(&self) -> Epoch {
        self.epoch
    }

    pub fn new(peer_id: PeerId, epoch: Epoch, key_handle: PairKeyHandle) -> (r: Self)
        ensures
            r.peer() == peer_id,
            r.session_epoch() == epoch,
            r.handle() == key_handle,
    {
        PairSession { peer_id, epoch, key_handle }
    }

    pub fn get_peer_id(&self) -> (r: PeerId)
        ensures
            r == self.peer(),
    {
        self.peer_id
    }

    pub fn get_epoch(&self) -> (r: Epoch)
        ensures
            r == self.session_epoch(),
    {
        self.epoch
    }

    pub fn key_handle(&self) -> (r: &PairKeyHandle)
        ensures
            *r == self.handle(),
    {
        &self.key_handle
    }
}

} // verus!
