//! Self-certifying identity documents.

use vstd::prelude::*;

use crate::crypto::hash::sha256_digest;
use crate::crypto::sign::{
    identity_context, mldsa65_accepts, PureMlDsa, RustCryptoPureMlDsa, IDENTITY_CONTEXT,
};
use crate::encoding::digests::{peer_id, peer_id_domain};
use crate::encoding::identity::{identity_fits, identity_m, identity_m_bytes};
use crate::error::{Error, Result};
use crate::ids::{bytes32_eq, PeerId};
use crate::wire::{bytes_eq, copy_bytes};

verus! {

/// The public, self-certifying identity document exchanged by peers.
#[derive(Clone, Debug, PartialEq, Eq)]
pub struct IdentityDocument {
    pub peer_id: PeerId,
    /// Static X-Wing public-key encoding.
    pub ek: Vec<u8>,
    /// ML-DSA-65 public-key encoding.
    pub vk: Vec<u8>,
    pub created_at: u64,
    pub signature: Vec<u8>,
}

/// Two documents with the same contents.
pub open spec fn same_identity(a: IdentityDocument, b: IdentityDocument) -> bool {
    &&& a.peer_id@ == b.peer_id@
    &&& a.ek@ == b.ek@
    &&& a.vk@ == b.vk@
    &&& a.created_at == b.created_at
    &&& a.signature@ == b.signature@
}

/// The document binds its peer id to its verification key and carries a
/// valid identity signature over its message.
pub open spec fn identity_verified(d: IdentityDocument) -> bool {
    &&& d.peer_id@ == sha256_digest(peer_id_domain() + d.vk@)
    &&& identity_fits(d)
    &&& mldsa65_accepts(d.vk@, identity_context(), identity_m_bytes(d), d.signature@)
}

impl IdentityDocument {
    pub fn peer_id_for(vk: &[u8]) -> (r: PeerId)
        ensures
            r@ == sha256_digest(peer_id_domain() + vk@),
    {
        peer_id(vk)
    }

    /// Checks the self-certifying principal and the signed document.
    pub fn verify(&self) -> (r: Result<()>)
        ensures
            r is Ok <==> identity_verified(*self),
    {
        let expected = Self::peer_id_for(self.vk.as_slice());
        if !bytes32_eq(&self.peer_id.0, &expected.0) {
            return Err(Error::AuthenticationFailed);
        }
        let message = identity_m(self)?;
        RustCryptoPureMlDsa.verify(self.vk.as_slice(), &IDENTITY_CONTEXT, message.as_slice(), self.signature.as_slice())
    }

    /// Whether two documents have the same contents.
    pub fn same_as(&self, other: &IdentityDocument) -> (r: bool)
        ensures
            r == same_identity(*self, *other),
    {
        bytes32_eq(&self.peer_id.0, &other.peer_id.0) && bytes_eq(self.ek.as_slice(), other.ek.as_slice())
            && bytes_eq(self.vk.as_slice(), other.vk.as_slice()) && self.created_at == other.created_at
            && bytes_eq(self.signature.as_slice(), other.signature.as_slice())
    }

    /// A field-by-field copy.
    pub fn duplicate(&self) -> (r: Self)
        ensures
            same_identity(r, *self),
    {
        IdentityDocument {
            peer_id: self.peer_id,
            ek: copy_bytes(&self.ek),
            vk: copy_bytes(&self.vk),
            created_at: self.created_at,
            signature: copy_bytes(&self.signature),
        }
    }
}

} // verus!
