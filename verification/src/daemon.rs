//! The daemon's role decision. The host is a role of an authenticated member,
//! never a separate process.

use vstd::prelude::*;

use crate::error::{Error, Result};
use crate::ids::PeerId;

verus! {

#[derive(Clone, Copy, Debug, PartialEq, Eq, Structural)]
pub enum MemberRole {
    Member,
    Host,
}

/// The local member hosts the vault exactly when it is the configured host.
pub fn member_role(local_id: &PeerId, host_id: Option<&PeerId>) -> (r: MemberRole)
    ensures
        r == (if host_id is Some && host_id->0@ == local_id@ {
            MemberRole::Host
        } else {
            MemberRole::Member
        }),
{
    match host_id {
        Some(host) => {
            if crate::ids::bytes32_eq(&host.0, &local_id.0) {
                MemberRole::Host
            } else {
                MemberRole::Member
            }
        },
        None => MemberRole::Member,
    }
}

/// The configured host's peer id from the raw contents of its id file:
/// exactly 32 bytes, with no text encoding.
pub fn host_id_from_bytes(bytes: &[u8]) -> (r: Result<PeerId>)
    ensures
        match r {
            Ok(p) => bytes@.len() == 32 && p@ == bytes@,
            Err(e) => bytes@.len() != 32 && e is InvalidInput,
        },
{
    if bytes.len() != 32 {
        return Err(Error::InvalidInput("host-id file must contain exactly 32 raw bytes"));
    }
    Ok(PeerId(crate::wire::array32_at(bytes, 0)))
}

} // verus!
