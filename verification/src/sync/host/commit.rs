//! The host's commit of one writer upload: every record of the save is
//! prepared against the host state first, and the records are handed back
//! together, to be published only after the new state is durable.

use vstd::prelude::*;

use crate::crypto::identity::IdentityDocument;
use crate::crypto::sign::{manifest_context, mldsa65_accepts, mldsa65_signing, SigningKeyHandle};
use crate::encoding::control::manifest_m_bytes;
use crate::error::{Error, Result};
use crate::ids::{bytes32_eq, FileId, PeerId};
use crate::protocol::manifest::{contains_peer, is_member, manifest_trusted, same_manifest, Manifest, TrustedManifest};
use crate::store::tree::{has_key, is_dir_in, link_outcome, link_path_ok, linked, valid_name, DirectoryTree, DirentV};
use crate::sync::host::filesystem::{
    apply_tree_update, check_upload_link, chunks_fit, drafted, known_version, prepare_save, save_existing,
    save_file_id, save_parent, save_version, total_len, upload_link_ok,
};
use crate::sync::host::{ControlRecord, ControlUpdate};

verus! {

/// What the host's commit path reads and changes.
pub struct HostView {
    /// Whether the host role is serving.
    pub running: bool,
    /// Current vault members.
    pub members: Vec<PeerId>,
    /// The latest trusted manifest of each file, one per file.
    pub manifests: Vec<TrustedManifest>,
    /// The committed directory tree.
    pub tree: DirectoryTree,
    /// The id the next control record takes.
    pub next_control: u64,
}

/// No file has two manifests.
pub open spec fn distinct_files(known: Seq<Manifest>) -> bool {
    forall|i: int, j: int|
        0 <= i < j < known.len() ==> (#[trigger] known[i]).file_id@ != (#[trigger] known[j]).file_id@
}

/// `known` with `m` as the manifest of its file: in place of the one it
/// supersedes, or added.
pub open spec fn with_manifest(known: Seq<Manifest>, m: Manifest) -> Seq<Manifest> {
    if exists|i: int| 0 <= i < known.len() && (#[trigger] known[i]).file_id@ == m.file_id@ {
        known.update(choose|i: int| 0 <= i < known.len() && (#[trigger] known[i]).file_id@ == m.file_id@, m)
    } else {
        known.push(m)
    }
}

impl HostView {
    pub open spec fn wf(&self) -> bool {
        &&& self.tree.wf()
        &&& distinct_files(self.known())
    }

    /// The manifests the host holds.
    pub open spec fn known(&self) -> Seq<Manifest> {
        self.manifests@.map_values(|t: TrustedManifest| t.inner())
    }
}

/// The conditions under which `link` can join the tree `s`.
pub open spec fn link_ok(s: Seq<DirentV>, root: Seq<u8>, link: ControlUpdate) -> bool {
    match link {
        ControlUpdate::Link { parent, name, child, .. } => {
            &&& valid_name(name@)
            &&& is_dir_in(s, root, parent@)
            &&& child@ != root
            &&& !linked(s, child@)
            &&& !has_key(s, parent@, name@)
            &&& link_path_ok(s, root, parent@, name@)
        },
        _ => false,
    }
}

/// How many control records an upload commits.
pub open spec fn record_count(link: Option<ControlUpdate>) -> int {
    if link is Some { 2 } else { 1 }
}

/// When the host commits an upload: it is serving, the sender is a member
/// and the manifest's writer, `writer` is the sender's identity and signed
/// the manifest, the link (if any) names the uploaded file and fits the
/// tree, the file is no directory, and the record ids do not run out.
pub open spec fn upload_ok(
    state: HostView,
    sender: PeerId,
    writer: IdentityDocument,
    manifest: Manifest,
    link: Option<ControlUpdate>,
) -> bool {
    &&& state.running
    &&& is_member(state.members@, sender@)
    &&& manifest.writer_id@ == sender@
    &&& manifest_trusted(manifest, writer, state.members@)
    &&& upload_link_ok(manifest.file_id@, link)
    &&& !is_dir_in(state.tree@, state.tree.root(), manifest.file_id@)
    &&& (link matches Some(l) ==> link_ok(state.tree@, state.tree.root(), l))
    &&& state.next_control + record_count(link) <= u64::MAX
}

/// The committed state and records of an accepted upload: the manifest
/// becomes its file's manifest, the link joins the tree, and the records
/// take consecutive ids from `next_control`, the manifest first.
pub open spec fn upload_committed(
    old: HostView,
    manifest: Manifest,
    link: Option<ControlUpdate>,
    new: HostView,
    recs: Seq<ControlRecord>,
) -> bool {
    &&& new.wf()
    &&& new.running == old.running
    &&& new.members@ == old.members@
    &&& new.known() == with_manifest(old.known(), manifest)
    &&& new.tree.root() == old.tree.root()
    &&& match link {
        Some(ControlUpdate::Link { parent, name, child, is_dir }) => link_outcome(
            old.tree@,
            old.tree.root(),
            parent@,
            name@,
            child@,
            is_dir,
            Ok(()),
            new.tree@,
        ),
        _ => new.tree@ == old.tree@,
    }
    &&& new.next_control == old.next_control + record_count(link)
    &&& recs.len() == record_count(link)
    &&& recs[0].id == old.next_control
    &&& recs[0].update matches ControlUpdate::NewManifest(m) && same_manifest(m, manifest)
    &&& (link matches Some(l) ==> recs[1].id == old.next_control + 1 && recs[1].update == l)
}

/// The records of one committed upload carry consecutive ids from the
/// host's counter before the upload, and the counter moves past all of them,
/// so no later record can reuse an id of the upload.
pub proof fn law_upload_records_consecutive(
    old: HostView,
    manifest: Manifest,
    link: Option<ControlUpdate>,
    new: HostView,
    recs: Seq<ControlRecord>,
)
    requires
        upload_committed(old, manifest, link, new, recs),
    ensures
        forall|i: int| 0 <= i < recs.len() ==> (#[trigger] recs[i]).id == old.next_control + i,
        new.next_control == old.next_control + recs.len(),
{
}

/// The position of `file`'s manifest among `manifests`, if it has one.
fn manifest_slot(manifests: &Vec<TrustedManifest>, file: &[u8; 32]) -> (r: Option<usize>)
    ensures
        match r {
            Some(i) => i < manifests@.len() && manifests@[i as int].inner().file_id@ == file@,
            None => forall|i: int|
                0 <= i < manifests@.len() ==> (#[trigger] manifests@[i]).inner().file_id@ != file@,
        },
{
    let mut i: usize = 0;
    while i < manifests.len()
        invariant
            i <= manifests@.len(),
            forall|j: int| 0 <= j < i ==> (#[trigger] manifests@[j]).inner().file_id@ != file@,
        decreases manifests@.len() - i,
    {
        if bytes32_eq(&manifests[i].manifest().file_id.0, file) {
            return Some(i);
        }
        i = i + 1;
    }
    None
}

/// Commits a writer's upload into `state` and returns its control records,
/// the manifest's first. Nothing changes unless every record of the upload
/// is accepted. The records are for publishing once the new state is
/// durable; `writer` is the identity the host holds for `sender`.
#[verifier::rlimit(60)]
pub fn stage_upload(
    state: &mut HostView,
    sender: PeerId,
    writer: &IdentityDocument,
    manifest: Manifest,
    link: Option<ControlUpdate>,
) -> (r: Result<Vec<ControlRecord>>)
    requires
        old(state).wf(),
    ensures
        r is Ok <==> upload_ok(*old(state), sender, *writer, manifest, link),
        match r {
            Ok(recs) => upload_committed(*old(state), manifest, link, *final(state), recs@),
            Err(e) => {
                &&& *final(state) == *old(state)
                &&& !old(state).running ==> e is State
                &&& old(state).running && (!is_member(old(state).members@, sender@)
                    || manifest.writer_id@ != sender@) ==> e is AuthenticationFailed
            },
        },
{
    if !state.running {
        return Err(Error::State("host is not running"));
    }
    if !contains_peer(state.members.as_slice(), &sender) || !bytes32_eq(&manifest.writer_id.0, &sender.0) {
        return Err(Error::AuthenticationFailed);
    }
    let record = manifest.duplicate();
    let file = manifest.file_id;
    let trusted = TrustedManifest::verify(manifest, writer, state.members.as_slice())?;
    check_upload_link(&file, &link)?;
    let (with_file, _) = apply_tree_update(&state.tree, &ControlUpdate::NewManifest(record.duplicate()))?;
    let tree = match &link {
        Some(l) => {
            let (linked_tree, _) = apply_tree_update(&with_file, l)?;
            linked_tree
        },
        None => with_file,
    };
    let count: u64 = if link.is_some() { 2 } else { 1 };
    let next = match state.next_control.checked_add(count) {
        Some(n) => n,
        None => return Err(Error::State("control record ids exhausted")),
    };
    let first = state.next_control;
    let ghost old_known = state.known();
    let ghost old_state_manifests = state.manifests@;
    let ghost record_view = trusted.inner();
    match manifest_slot(&state.manifests, &file.0) {
        Some(i) => {
            state.manifests.set(i, trusted);
            proof {
                let c = choose|j: int| 0 <= j < old_known.len() && (#[trigger] old_known[j]).file_id@ == file@;
                assert(old_known[i as int].file_id@ == file@);
                assert(c == i);
                assert(state.known() =~= old_known.update(i as int, record_view));
            }
        },
        None => {
            state.manifests.push(trusted);
            proof {
                assert forall|j: int| 0 <= j < old_known.len() implies (#[trigger] old_known[j]).file_id@ != file@ by {
                    assert(old_known[j] == old_state_manifests[j].inner());
                }
                assert(state.known() =~= old_known.push(record_view));
            }
        },
    }
    state.tree = tree;
    state.next_control = next;
    let mut recs: Vec<ControlRecord> = Vec::new();
    recs.push(ControlRecord { id: first, update: ControlUpdate::NewManifest(record) });
    match link {
        Some(l) => {
            recs.push(ControlRecord { id: first + 1, update: l });
        },
        None => {},
    }
    Ok(recs)
}

/// The upload of a save: some manifest of `f` drafted by `writer_id` from
/// `bodies` at the next version, with some link, committed from `old` to
/// `new` with the records `recs`.
pub open spec fn save_committed(
    old: HostView,
    writer_id: Seq<u8>,
    bodies: Seq<Vec<u8>>,
    f: FileId,
    new: HostView,
    recs: Seq<ControlRecord>,
) -> bool {
    exists|m: Manifest, link: Option<ControlUpdate>|
        #![trigger upload_committed(old, m, link, new, recs)]
        {
            &&& m.file_id == f
            &&& drafted(m, f@, writer_id, save_version(old.manifests@, f@), bodies)
            &&& upload_committed(old, m, link, new, recs)
        }
}

/// When a save at an existing path is owed success: the host is serving and
/// the writer is a member; the path names a file that is no directory and
/// whose version can still grow; the bodies fit; the writer's key signs the
/// drafted manifest and its identity accepts the signature; and a record id
/// is left. No random value is drawn for such a save.
pub open spec fn save_owed(
    state: HostView,
    writer: IdentityDocument,
    seed: Seq<u8>,
    path: Seq<char>,
    bodies: Seq<Vec<u8>>,
) -> bool {
    let (s, root) = (state.tree@, state.tree.root());
    let f = save_existing(s, root, path).unwrap();
    &&& state.running
    &&& is_member(state.members@, writer.peer_id@)
    &&& save_parent(s, root, path) is Some
    &&& save_existing(s, root, path) is Some
    &&& !is_dir_in(s, root, f)
    &&& known_version(state.manifests@, f) != Some(u64::MAX)
    &&& chunks_fit(bodies)
    &&& total_len(bodies) <= u64::MAX
    &&& bodies.len() <= u32::MAX
    &&& forall|m: Manifest|
        #[trigger] drafted(m, f, writer.peer_id@, save_version(state.manifests@, f), bodies) ==> {
            &&& mldsa65_signing(seed, manifest_context(), manifest_m_bytes(m)) is Some
            &&& mldsa65_accepts(
                writer.vk@,
                manifest_context(),
                manifest_m_bytes(m),
                mldsa65_signing(seed, manifest_context(), manifest_m_bytes(m)).unwrap(),
            )
        }
    &&& state.next_control + 1 <= u64::MAX
}

/// The host's save of `bodies` at `path` for the member `writer`: the signed
/// manifest and link of the save, committed as one upload. A new path takes
/// a file id drawn from the operating system's random source. Returns the
/// file and the upload's records, which are for publishing once the new
/// state is durable.
pub fn save_file(
    state: &mut HostView,
    writer: &IdentityDocument,
    signing_key: &SigningKeyHandle,
    path: &str,
    bodies: &[Vec<u8>],
) -> (r: Result<(FileId, Vec<ControlRecord>)>)
    requires
        old(state).wf(),
    ensures
        match r {
            Ok((f, recs)) => f@ == save_file_id(old(state).tree@, old(state).tree.root(), path@, f@)
                && save_committed(*old(state), writer.peer_id@, bodies@, f, *final(state), recs@),
            Err(e) => {
                &&& *final(state) == *old(state)
                &&& old(state).running && is_member(old(state).members@, writer.peer_id@) && save_existing(
                    old(state).tree@,
                    old(state).tree.root(),
                    path@,
                ) is Some ==> !save_owed(*old(state), *writer, signing_key.seed_bytes(), path@, bodies@)
            },
        },
        !old(state).running ==> (r matches Err(e) && e is State),
        old(state).running && !is_member(old(state).members@, writer.peer_id@) ==> (r matches Err(e)
            && e is AuthenticationFailed),
        save_owed(*old(state), *writer, signing_key.seed_bytes(), path@, bodies@) ==> r is Ok,
{
    if !state.running {
        return Err(Error::State("host is not running"));
    }
    let sender = writer.peer_id;
    if !contains_peer(state.members.as_slice(), &sender) {
        return Err(Error::AuthenticationFailed);
    }
    let fresh = match state.tree.resolve(path) {
        Ok(existing) => existing,
        Err(_) => match crate::crypto::random::random_bytes::<32>() {
            Some(bytes) => FileId(bytes),
            None => return Err(Error::State("OS entropy unavailable")),
        },
    };
    let (manifest, link) = prepare_save(
        &state.tree,
        path,
        fresh,
        state.manifests.as_slice(),
        sender,
        signing_key,
        bodies,
    )?;
    let file = manifest.file_id;
    let ghost drafted_manifest = manifest;
    let ghost drafted_link = link;
    let recs = stage_upload(state, sender, writer, manifest, link)?;
    assert(save_committed(*old(state), writer.peer_id@, bodies@, file, *state, recs@)) by {
        assert(upload_committed(*old(state), drafted_manifest, drafted_link, *state, recs@));
    }
    Ok((file, recs))
}

} // verus!
