use quantam_fs::crypto::identity::IdentityDocument;
use quantam_fs::crypto::sign::SigningKeyHandle;
use quantam_fs::error::Error;
use quantam_fs::ids::{FileId, PeerId};
use quantam_fs::store::tree::DirectoryTree;
use quantam_fs::sync::host::commit::{save_file, stage_upload, HostView};
use quantam_fs::sync::host::filesystem::prepare_save;
use quantam_fs::sync::host::ControlUpdate;

const ROOT: FileId = FileId([1; 32]);

fn writer(seed: u8) -> (IdentityDocument, SigningKeyHandle) {
    let key = SigningKeyHandle::from_seed([seed; 32]);
    let vk = key.verification_key();
    let document = IdentityDocument {
        peer_id: IdentityDocument::peer_id_for(&vk),
        ek: vec![seed; 4],
        vk,
        created_at: 1,
        signature: Vec::new(),
    };
    (document, key)
}

fn host(members: Vec<PeerId>) -> HostView {
    HostView {
        running: true,
        members,
        manifests: Vec::new(),
        tree: DirectoryTree::new(ROOT),
        next_control: 7,
    }
}

#[test]
fn upload_commits_manifest_then_link_with_consecutive_ids() {
    let (doc, key) = writer(3);
    let mut state = host(vec![doc.peer_id]);
    let file = FileId([9; 32]);
    let (manifest, link) =
        prepare_save(&state.tree, "a.txt", file, &state.manifests, doc.peer_id, &key, &[b"hi".to_vec()]).unwrap();
    let recs = stage_upload(&mut state, doc.peer_id, &doc, manifest.clone(), link.clone()).unwrap();
    assert_eq!(recs.len(), 2);
    assert_eq!(recs[0].id, 7);
    assert_eq!(recs[0].update, ControlUpdate::NewManifest(manifest.clone()));
    assert_eq!(recs[1].id, 8);
    assert_eq!(Some(recs[1].update.clone()), link);
    assert_eq!(state.next_control, 9);
    assert_eq!(state.tree.resolve("a.txt").unwrap(), file);
    assert_eq!(state.manifests.len(), 1);
    assert_eq!(state.manifests[0].manifest(), &manifest);
}

#[test]
fn refused_upload_leaves_the_host_unchanged() {
    let (doc, key) = writer(3);
    let (other, _) = writer(4);
    let mut state = host(vec![doc.peer_id]);
    let (manifest, link) =
        prepare_save(&state.tree, "a.txt", FileId([9; 32]), &state.manifests, doc.peer_id, &key, &[]).unwrap();
    // the sender is not the manifest's writer
    let err = stage_upload(&mut state, other.peer_id, &other, manifest.clone(), link.clone()).unwrap_err();
    assert!(matches!(err, Error::AuthenticationFailed));
    // a stopped host refuses
    state.running = false;
    let err = stage_upload(&mut state, doc.peer_id, &doc, manifest.clone(), link.clone()).unwrap_err();
    assert!(matches!(err, Error::State(_)));
    state.running = true;
    // a link that names another file
    let wrong = Some(ControlUpdate::Link { parent: ROOT, name: "b".to_owned(), child: FileId([8; 32]), is_dir: false });
    let err = stage_upload(&mut state, doc.peer_id, &doc, manifest.clone(), wrong).unwrap_err();
    assert!(matches!(err, Error::InvalidInput(_)));
    // record ids exhausted
    state.next_control = u64::MAX - 1;
    let err = stage_upload(&mut state, doc.peer_id, &doc, manifest, link).unwrap_err();
    assert!(matches!(err, Error::State(_)));
    assert_eq!(state.next_control, u64::MAX - 1);
    assert!(state.manifests.is_empty());
    assert!(state.tree.resolve("a.txt").is_err());
}

#[test]
fn save_file_replaces_the_manifest_of_an_existing_file() {
    let (doc, key) = writer(5);
    let mut state = host(vec![doc.peer_id]);
    let (file, recs) = save_file(&mut state, &doc, &key, "notes.txt", &[b"one".to_vec()]).unwrap();
    assert_eq!(recs.len(), 2);
    assert_eq!(state.tree.resolve("notes.txt").unwrap(), file);
    let (again, recs) = save_file(&mut state, &doc, &key, "notes.txt", &[b"two".to_vec()]).unwrap();
    assert_eq!(again, file);
    assert_eq!(recs.len(), 1);
    assert_eq!(recs[0].id, 9);
    assert_eq!(state.manifests.len(), 1);
    assert_eq!(state.manifests[0].manifest().version, 2);
    assert_eq!(state.next_control, 10);
}

#[test]
fn save_file_requires_a_member_writer() {
    let (doc, key) = writer(5);
    let (other, _) = writer(6);
    let mut state = host(vec![other.peer_id]);
    let err = save_file(&mut state, &doc, &key, "notes.txt", &[]).unwrap_err();
    assert!(matches!(err, Error::AuthenticationFailed));
    assert_eq!(state.next_control, 7);
}
