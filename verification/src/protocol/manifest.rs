//! Writer-signed file manifests.

use vstd::prelude::*;

use crate::crypto::identity::IdentityDocument;
use crate::crypto::sign::{manifest_context, mldsa65_accepts, PureMlDsa, RustCryptoPureMlDsa, MANIFEST_CONTEXT};
use crate::encoding::control::{manifest_fits, manifest_m, manifest_m_bytes};
use crate::error::{Error, Result};
use crate::ids::{bytes32_eq, ChunkId, FileId, PeerId};

verus! {

#[derive(Clone, Debug, PartialEq, Eq)]
pub struct Manifest {
    pub file_id: FileId,
    /// Chunk identifiers in file order.
    pub chunk_ids: Vec<ChunkId>,
    pub size: u64,
    pub writer_id: PeerId,
    pub version: u64,
    pub signature: Vec<u8>,
}

/// Two manifests with the same fields, byte for byte.
pub open spec fn same_manifest(a: Manifest, b: Manifest) -> bool {
    &&& a.file_id == b.file_id
    &&& a.chunk_ids@ == b.chunk_ids@
    &&& a.size == b.size
    &&& a.writer_id == b.writer_id
    &&& a.version == b.version
    &&& a.signature@ == b.signature@
}

impl Manifest {
    /// A field-by-field copy.
    pub fn duplicate(&self) -> (r: Self)
        ensures
            same_manifest(r, *self),
    {
        Manifest {
            file_id: self.file_id,
            chunk_ids: vstd::slice::slice_to_vec(self.chunk_ids.as_slice()),
            size: self.size,
            writer_id: self.writer_id,
            version: self.version,
            signature: vstd::slice::slice_to_vec(self.signature.as_slice()),
        }
    }
}

/// Whether `p` is one of `members`.
pub open spec fn is_member(members: Seq<PeerId>, p: Seq<u8>) -> bool {
    exists|i: int| 0 <= i < members.len() && (#[trigger] members[i])@ == p
}

pub(crate) fn contains_peer(members: &[PeerId], p: &PeerId) -> (r: bool)
    ensures
        r == is_member(members@, p@),
{
    let mut i: usize = 0;
    while i < members.len()
        invariant
            i <= members@.len(),
            forall|j: int| 0 <= j < i ==> (#[trigger] members@[j])@ != p@,
        decreases members@.len() - i,
    {
        if bytes32_eq(&members[i].0, &p.0) {
            return true;
        }
        i = i + 1;
    }
    false
}

/// When a manifest is trusted: its writer is a current member, `writer` is
/// that member's identity, and the writer's key signed the manifest.
pub open spec fn manifest_trusted(m: Manifest, writer: IdentityDocument, members: Seq<PeerId>) -> bool {
    &&& is_member(members, m.writer_id@)
    &&& writer.peer_id@ == m.writer_id@
    &&& manifest_fits(m)
    &&& mldsa65_accepts(writer.vk@, manifest_context(), manifest_m_bytes(m), m.signature@)
}

/// A writer manifest authenticated by the host control path. The
/// constructor is the verification, so no chunk holder can supply trust.
#[derive(Clone)]
pub struct TrustedManifest(Manifest);

impl TrustedManifest {
    pub closed spec fn inner(self) -> Manifest {
        self.0
    }

    /// Membership is checked before the manifest's encoding is touched.
    pub fn verify(manifest: Manifest, writer: &IdentityDocument, members: &[PeerId]) -> (r: Result<Self>)
        ensures
            match r {
                Ok(t) => t.inner() == manifest && manifest_trusted(manifest, *writer, members@),
                Err(_) => !manifest_trusted(manifest, *writer, members@),
            },
    {
        if !contains_peer(members, &manifest.writer_id) {
            return Err(Error::AuthenticationFailed);
        }
        if !bytes32_eq(&writer.peer_id.0, &manifest.writer_id.0) {
            return Err(Error::AuthenticationFailed);
        }
        let message = manifest_m(&manifest)?;
        RustCryptoPureMlDsa.verify(
            writer.vk.as_slice(),
            &MANIFEST_CONTEXT,
            message.as_slice(),
            manifest.signature.as_slice(),
        )?;
        Ok(TrustedManifest(manifest))
    }

    pub fn manifest(&self) -> (r: &Manifest)
        ensures
            *r == self.inner(),
    {
        &self.0
    }
}

} // verus!
