//! What a committed control update does to the directory tree, and how a
//! writer's save becomes a signed manifest and a link.

use vstd::prelude::*;

use crate::crypto::hash::sha256_digest;
use crate::crypto::sign::{manifest_context, mldsa65_signing, PureMlDsa, RustCryptoPureMlDsa, SigningKeyHandle, MANIFEST_CONTEXT};
use crate::encoding::control::{manifest_fits, manifest_m, manifest_m_bytes};
use crate::encoding::digests::chunk_id;
use crate::error::{Error, Result};
use crate::ids::{bytes32_eq, ChunkId, FileId, PeerId};
use crate::protocol::manifest::{Manifest, TrustedManifest};
use crate::store::durable::MAX_CHUNK_BYTES;
use crate::store::tree::{
    DirentV, is_dir_in, link_outcome, path_parts, remove_outcome, rename_outcome, resolve_dirs, resolve_from,
    unlink_outcome, DirectoryTree,
};
use crate::sync::host::ControlUpdate;
use crate::wire::be64;

verus! {

/// Whether one of `ids` is `f`.
pub open spec fn has_id(ids: Seq<FileId>, f: Seq<u8>) -> bool {
    exists|i: int| 0 <= i < ids.len() && (#[trigger] ids[i])@ == f
}

/// Whether `update` links as a directory a file that has a manifest.
pub open spec fn links_file_as_dir(manifest_ids: Seq<FileId>, update: ControlUpdate) -> bool {
    match update {
        ControlUpdate::Link { child, is_dir, .. } => is_dir && has_id(manifest_ids, child@),
        _ => false,
    }
}

/// A file that has a manifest cannot be linked as a directory.
/// `manifest_ids` are the files the host holds a manifest for.
pub fn validate_link_kind(manifest_ids: &[FileId], update: &ControlUpdate) -> (r: Result<()>)
    ensures
        r is Ok <==> !links_file_as_dir(manifest_ids@, *update),
        r matches Err(e) ==> e is InvalidInput,
{
    if let ControlUpdate::Link { child, is_dir, .. } = update {
        if *is_dir {
            let mut i: usize = 0;
            while i < manifest_ids.len()
                invariant
                    i <= manifest_ids@.len(),
                    links_file_as_dir(manifest_ids@, *update) == has_id(manifest_ids@, child@),
                    forall|j: int| 0 <= j < i ==> (#[trigger] manifest_ids@[j])@ != child@,
                decreases manifest_ids@.len() - i,
            {
                if bytes32_eq(&manifest_ids[i].0, &child.0) {
                    assert((manifest_ids@[i as int])@ == child@);
                    return Err(Error::InvalidInput("file manifest cannot become a directory"));
                }
                i = i + 1;
            }
        }
    }
    Ok(())
}

/// Applies one control update to a copy of `tree`. The result is the new
/// tree and the file whose content the update releases, if any.
pub fn apply_tree_update(tree: &DirectoryTree, update: &ControlUpdate) -> (r: Result<(DirectoryTree, Option<FileId>)>)
    requires
        tree.wf(),
    ensures
        match r {
            Ok((next, removed)) => next.wf() && next.root() == tree.root() && match *update {
                ControlUpdate::NewManifest(m) => !is_dir_in(tree@, tree.root(), m.file_id@) && next@
                    == tree@ && removed is None,
                ControlUpdate::Add(_) => next@ == tree@ && removed is None,
                ControlUpdate::Clear(f) => next@ == tree@ && removed == Some(f),
                ControlUpdate::Remove(f) => remove_outcome(tree@, tree.root(), f@, Ok(()), next@)
                    && removed == Some(f),
                ControlUpdate::Link { parent, name, child, is_dir } => link_outcome(
                    tree@,
                    tree.root(),
                    parent@,
                    name@,
                    child@,
                    is_dir,
                    Ok(()),
                    next@,
                ) && removed is None,
                ControlUpdate::Unlink { parent, name } => (removed matches Some(c) && unlink_outcome(
                    tree@,
                    tree.root(),
                    parent@,
                    name@,
                    Ok(c),
                    next@,
                )),
                ControlUpdate::Rename { src_parent, src_name, dst_parent, dst_name } => rename_outcome(
                    tree@,
                    tree.root(),
                    src_parent@,
                    src_name@,
                    dst_parent@,
                    dst_name@,
                    Ok(()),
                    next@,
                ) && removed is None,
            },
            Err(e) => match *update {
                ControlUpdate::NewManifest(m) => e is InvalidInput && is_dir_in(tree@, tree.root(), m.file_id@),
                ControlUpdate::Add(_) => false,
                ControlUpdate::Clear(_) => false,
                ControlUpdate::Remove(f) => remove_outcome(tree@, tree.root(), f@, Err(e), tree@),
                ControlUpdate::Link { parent, name, child, is_dir } => link_outcome(
                    tree@,
                    tree.root(),
                    parent@,
                    name@,
                    child@,
                    is_dir,
                    Err(e),
                    tree@,
                ),
                ControlUpdate::Unlink { parent, name } => unlink_outcome(
                    tree@,
                    tree.root(),
                    parent@,
                    name@,
                    Err(e),
                    tree@,
                ),
                ControlUpdate::Rename { src_parent, src_name, dst_parent, dst_name } => rename_outcome(
                    tree@,
                    tree.root(),
                    src_parent@,
                    src_name@,
                    dst_parent@,
                    dst_name@,
                    Err(e),
                    tree@,
                ),
            },
        },
{
    let mut next = tree.duplicate();
    match update {
        ControlUpdate::NewManifest(manifest) => {
            if next.is_dir(&manifest.file_id) {
                return Err(Error::InvalidInput("cannot save a directory as a file"));
            }
            Ok((next, None))
        },
        ControlUpdate::Add(_) => Ok((next, None)),
        ControlUpdate::Clear(file_id) => Ok((next, Some(*file_id))),
        ControlUpdate::Remove(file_id) => match next.remove_id(file_id) {
            Ok(()) => Ok((next, Some(*file_id))),
            Err(e) => Err(e),
        },
        ControlUpdate::Link { parent, name, child, is_dir } => match next.link(
            *parent,
            name.as_str(),
            *child,
            *is_dir,
        ) {
            Ok(()) => Ok((next, None)),
            Err(e) => Err(e),
        },
        ControlUpdate::Unlink { parent, name } => match next.unlink(*parent, name.as_str()) {
            Ok(c) => Ok((next, Some(c))),
            Err(e) => Err(e),
        },
        ControlUpdate::Rename { src_parent, src_name, dst_parent, dst_name } => match next.rename(
            *src_parent,
            src_name.as_str(),
            *dst_parent,
            dst_name.as_str(),
        ) {
            Ok(()) => Ok((next, None)),
            Err(e) => Err(e),
        },
    }
}

/// The total length of `bodies`.
pub open spec fn total_len(bodies: Seq<Vec<u8>>) -> int
    decreases bodies.len(),
{
    if bodies.len() == 0 {
        0
    } else {
        total_len(bodies.drop_last()) + bodies.last()@.len()
    }
}

/// Whether every body fits in one chunk.
pub open spec fn chunks_fit(bodies: Seq<Vec<u8>>) -> bool {
    forall|i: int| 0 <= i < bodies.len() ==> (#[trigger] bodies[i])@.len() <= MAX_CHUNK_BYTES
}

/// An unsigned manifest for `bodies` as the chunks of file `file_id`.
pub open spec fn drafted(m: Manifest, file_id: Seq<u8>, writer_id: Seq<u8>, version: int, bodies: Seq<Vec<u8>>) -> bool {
    &&& m.file_id@ == file_id
    &&& m.writer_id@ == writer_id
    &&& m.version == version
    &&& m.size == total_len(bodies)
    &&& m.chunk_ids@.len() == bodies.len()
    &&& forall|i: int|
        0 <= i < bodies.len() ==> (#[trigger] m.chunk_ids@[i])@ == sha256_digest(
            file_id + be64(i as u64) + bodies[i]@,
        )
}

proof fn lemma_total_len_prefix(bodies: Seq<Vec<u8>>, i: int)
    requires
        0 <= i <= bodies.len(),
    ensures
        total_len(bodies.take(i)) <= total_len(bodies),
        total_len(bodies.take(i)) >= 0,
    decreases bodies.len(),
{
    if i < bodies.len() {
        assert(bodies.drop_last().take(i) =~= bodies.take(i));
        lemma_total_len_prefix(bodies.drop_last(), i);
    } else {
        assert(bodies.take(i) =~= bodies);
    }
    lemma_total_len_nonneg(bodies.take(i));
}

proof fn lemma_total_len_nonneg(bodies: Seq<Vec<u8>>)
    ensures
        total_len(bodies) >= 0,
    decreases bodies.len(),
{
    if bodies.len() > 0 {
        lemma_total_len_nonneg(bodies.drop_last());
    }
}

/// The chunk ids and size of `bodies` stored as file `file_id`, with an
/// empty signature. Every body must fit in one chunk and the total size in
/// 64 bits.
pub fn draft_manifest(file_id: FileId, writer_id: PeerId, version: u64, bodies: &[Vec<u8>]) -> (r: Result<Manifest>)
    ensures
        match r {
            Ok(m) => drafted(m, file_id@, writer_id@, version as int, bodies@) && m.signature@.len() == 0
                && chunks_fit(bodies@),
            Err(e) => e is InvalidInput && !(chunks_fit(bodies@) && total_len(bodies@) <= u64::MAX),
        },
{
    let mut chunk_ids: Vec<ChunkId> = Vec::new();
    let mut size: u64 = 0;
    let mut i: usize = 0;
    while i < bodies.len()
        invariant
            i <= bodies@.len(),
            size == total_len(bodies@.take(i as int)),
            chunk_ids@.len() == i,
            forall|j: int| 0 <= j < i ==> (#[trigger] bodies@[j])@.len() <= MAX_CHUNK_BYTES,
            forall|j: int|
                0 <= j < i ==> (#[trigger] chunk_ids@[j])@ == sha256_digest(
                    file_id@ + be64(j as u64) + bodies@[j]@,
                ),
        decreases bodies@.len() - i,
    {
        let body = &bodies[i];
        assert(bodies@.take(i + 1).drop_last() =~= bodies@.take(i as int));
        if body.len() as u64 > MAX_CHUNK_BYTES {
            return Err(Error::InvalidInput("chunk exceeds 1 MiB"));
        }
        let len = body.len() as u64;
        if size > u64::MAX - len {
            proof {
                lemma_total_len_prefix(bodies@, i + 1);
            }
            return Err(Error::InvalidInput("file size overflow"));
        }
        size = size + len;
        chunk_ids.push(chunk_id(&file_id, i as u64, body.as_slice()));
        i = i + 1;
    }
    assert(bodies@.take(bodies@.len() as int) =~= bodies@);
    Ok(Manifest { file_id, chunk_ids, size, writer_id, version, signature: Vec::new() })
}

/// The version the manifest of `f` carries among `known`: its first entry.
pub open spec fn known_version(known: Seq<TrustedManifest>, f: Seq<u8>) -> Option<u64>
    decreases known.len(),
{
    if known.len() == 0 {
        None
    } else if known[0].inner().file_id@ == f {
        Some(known[0].inner().version)
    } else {
        known_version(known.drop_first(), f)
    }
}

fn find_version(known: &[TrustedManifest], f: &FileId) -> (r: Option<u64>)
    ensures
        r == known_version(known@, f@),
{
    let mut i: usize = 0;
    assert(known@.skip(0) =~= known@);
    while i < known.len()
        invariant
            i <= known@.len(),
            known_version(known@, f@) == known_version(known@.skip(i as int), f@),
        decreases known@.len() - i,
    {
        let m = known[i].manifest();
        assert(known@.skip(i as int)[0] == known@[i as int]);
        if bytes32_eq(&m.file_id.0, &f.0) {
            return Some(m.version);
        }
        assert(known@.skip(i as int).drop_first() =~= known@.skip(i + 1));
        i = i + 1;
    }
    None
}

/// The directory a save at `path` lands in.
pub open spec fn save_parent(s: Seq<DirentV>, root: Seq<u8>, path: Seq<char>) -> Option<Seq<u8>> {
    match path_parts(path) {
        Some(cs) => if cs.len() > 0 {
            resolve_dirs(s, root, cs.drop_last())
        } else {
            None
        },
        None => None,
    }
}

/// What `path` names now, if anything.
pub open spec fn save_existing(s: Seq<DirentV>, root: Seq<u8>, path: Seq<char>) -> Option<Seq<u8>> {
    match path_parts(path) {
        Some(cs) => resolve_from(s, root, cs),
        None => None,
    }
}

/// The file a save at `path` writes: what the path names, else `fresh`.
pub open spec fn save_file_id(s: Seq<DirentV>, root: Seq<u8>, path: Seq<char>, fresh: Seq<u8>) -> Seq<u8> {
    match save_existing(s, root, path) {
        Some(f) => f,
        None => fresh,
    }
}

/// The version a save of `f` gives its manifest.
pub open spec fn save_version(known: Seq<TrustedManifest>, f: Seq<u8>) -> int {
    match known_version(known, f) {
        Some(v) => v + 1,
        None => 1,
    }
}

/// A save of `f` gives its manifest one more than the version of the held
/// manifest of `f`; the manifests of other files held before it do not count.
pub proof fn law_save_version_follows_own_manifest(known: Seq<TrustedManifest>, f: Seq<u8>, i: int)
    requires
        0 <= i < known.len(),
        known[i].inner().file_id@ == f,
        forall|j: int| 0 <= j < i ==> (#[trigger] known[j]).inner().file_id@ != f,
    ensures
        save_version(known, f) == known[i].inner().version + 1,
    decreases i,
{
    if i > 0 {
        let rest = known.drop_first();
        assert forall|j: int| 0 <= j < i - 1 implies (#[trigger] rest[j]).inner().file_id@ != f by {
            assert(rest[j] == known[j + 1]);
        }
        assert(known[0].inner().file_id@ != f);
        law_save_version_follows_own_manifest(rest, f, i - 1);
    }
}

/// A save of a file no held manifest names gives version 1, whatever the
/// other files' manifests hold.
pub proof fn law_save_version_of_unknown_file(known: Seq<TrustedManifest>, f: Seq<u8>)
    requires
        forall|j: int| 0 <= j < known.len() ==> (#[trigger] known[j]).inner().file_id@ != f,
    ensures
        save_version(known, f) == 1,
    decreases known.len(),
{
    if known.len() > 0 {
        let rest = known.drop_first();
        assert forall|j: int| 0 <= j < rest.len() implies (#[trigger] rest[j]).inner().file_id@ != f by {
            assert(rest[j] == known[j + 1]);
        }
        assert(known[0].inner().file_id@ != f);
        law_save_version_of_unknown_file(rest, f);
    }
}

/// A writer's save of `bodies` at `path`, up to its commit: the signed
/// manifest, and the link that names a new file. The file keeps the id the
/// path names; a new file takes `fresh_id`. `known` are the manifests the
/// host holds.
pub fn prepare_save(
    tree: &DirectoryTree,
    path: &str,
    fresh_id: FileId,
    known: &[TrustedManifest],
    writer_id: PeerId,
    signing_key: &SigningKeyHandle,
    bodies: &[Vec<u8>],
) -> (r: Result<(Manifest, Option<ControlUpdate>)>)
    requires
        tree.wf(),
    ensures
        match r {
            Ok((m, link)) => {
                let f = save_file_id(tree@, tree.root(), path@, fresh_id@);
                &&& save_parent(tree@, tree.root(), path@) is Some
                &&& !(save_existing(tree@, tree.root(), path@) matches Some(e) && is_dir_in(tree@, tree.root(), e))
                &&& drafted(m, f, writer_id@, save_version(known@, f), bodies@)
                &&& chunks_fit(bodies@)
                &&& mldsa65_signing(signing_key.seed_bytes(), manifest_context(), manifest_m_bytes(m)) == Some(m.signature@)
                &&& if save_existing(tree@, tree.root(), path@) is Some {
                    link is None
                } else {
                    link matches Some(ControlUpdate::Link { parent, name, child, is_dir })
                        && Some(parent@) == save_parent(tree@, tree.root(), path@)
                        && name@ == path_parts(path@).unwrap().last() && child@ == f && !is_dir
                }
            },
            Err(e) => {
                let f = save_file_id(tree@, tree.root(), path@, fresh_id@);
                if save_parent(tree@, tree.root(), path@) is None {
                    e is InvalidInput || e is State
                } else if save_existing(tree@, tree.root(), path@) matches Some(x) && is_dir_in(tree@, tree.root(), x) {
                    e is InvalidInput
                } else if known_version(known@, f) == Some(u64::MAX) {
                    e is State
                } else if !(chunks_fit(bodies@) && total_len(bodies@) <= u64::MAX) {
                    e is InvalidInput
                } else if bodies@.len() > u32::MAX {
                    e is InvalidInput
                } else {
                    e is AuthenticationFailed && exists|m: Manifest|
                        drafted(m, f, writer_id@, save_version(known@, f), bodies@) && #[trigger] mldsa65_signing(
                            signing_key.seed_bytes(),
                            manifest_context(),
                            manifest_m_bytes(m),
                        ) is None
                }
            },
        },
{
    let (parent, name) = tree.resolve_parent(path)?;
    let existing = match tree.resolve(path) {
        Ok(id) => Some(id),
        Err(_) => None,
    };
    let file_id = match existing {
        Some(id) => {
            if tree.is_dir(&id) {
                return Err(Error::InvalidInput("cannot save a directory"));
            }
            id
        },
        None => fresh_id,
    };
    let version = match find_version(known, &file_id) {
        None => 1,
        Some(v) => {
            if v == u64::MAX {
                return Err(Error::State("manifest version exhausted"));
            }
            v + 1
        },
    };
    let mut manifest = draft_manifest(file_id, writer_id, version, bodies)?;
    let message = manifest_m(&manifest)?;
    assert(MANIFEST_CONTEXT@ =~= manifest_context());
    let signature = RustCryptoPureMlDsa.sign(signing_key, &MANIFEST_CONTEXT, message.as_slice())?;
    manifest.signature = signature;
    let link = match existing {
        Some(_) => None,
        None => Some(ControlUpdate::Link { parent, name, child: file_id, is_dir: false }),
    };
    Ok((manifest, link))
}

/// Whether the link sent with an upload names the uploaded file as a file.
pub open spec fn upload_link_ok(file_id: Seq<u8>, link: Option<ControlUpdate>) -> bool {
    match link {
        None => true,
        Some(ControlUpdate::Link { child, is_dir, .. }) => !is_dir && child@ == file_id,
        Some(_) => false,
    }
}

/// An upload may carry one link, and only one that names its own file.
pub fn check_upload_link(file_id: &FileId, link: &Option<ControlUpdate>) -> (r: Result<()>)
    ensures
        r is Ok <==> upload_link_ok(file_id@, *link),
        r matches Err(e) ==> e is InvalidInput,
{
    match link {
        None => Ok(()),
        Some(ControlUpdate::Link { child, is_dir, .. }) => {
            if !*is_dir && bytes32_eq(&child.0, &file_id.0) {
                Ok(())
            } else {
                Err(Error::InvalidInput("upload link does not match file"))
            }
        },
        Some(_) => Err(Error::InvalidInput("upload link does not match file")),
    }
}

} // verus!
