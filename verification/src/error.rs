use vstd::prelude::*;

use crate::ids::{Epoch, PeerId};
use crate::net::VaultId;

verus! {

/// An I/O failure reported by the operating system.
#[verifier::external_type_specification]
#[verifier::external_body]
pub struct ExIoError(std::io::Error);

/// Every failure the backend reports. Messages are static so that they never
/// carry untrusted or secret data.
#[derive(Debug)]
pub enum Error {
    NotImplemented(&'static str),
    InvalidInput(&'static str),
    AuthenticationFailed,
    KeyUnavailable,
    State(&'static str),
    ReplayRejected,
    EpochConflict { retry_epoch: Epoch },
    /// A pair session already serves another vault.
    VaultSessionConflict { peer_id: PeerId, bound: VaultId, requested: VaultId },
    Io(std::io::Error),
}

pub type Result<T> = core::result::Result<T, Error>;

} // verus!
