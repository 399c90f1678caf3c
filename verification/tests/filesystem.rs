use quantam_fs::crypto::identity::IdentityDocument;
use quantam_fs::crypto::sign::{PureMlDsa, RustCryptoPureMlDsa, SigningKeyHandle, MANIFEST_CONTEXT};
use quantam_fs::encoding::control::manifest_m;
use quantam_fs::encoding::digests::chunk_id;
use quantam_fs::error::Error;
use quantam_fs::ids::{FileId, PeerId};
use quantam_fs::protocol::manifest::{Manifest, TrustedManifest};
use quantam_fs::store::durable::MAX_CHUNK_BYTES;
use quantam_fs::store::tree::DirectoryTree;
use quantam_fs::sync::host::filesystem::{
    apply_tree_update, check_upload_link, draft_manifest, prepare_save, validate_link_kind,
};
use quantam_fs::sync::host::ControlUpdate;

const ROOT: FileId = FileId([1; 32]);

fn link(parent: FileId, name: &str, child: FileId, is_dir: bool) -> ControlUpdate {
    ControlUpdate::Link { parent, name: name.to_owned(), child, is_dir }
}

fn writer(seed: u8) -> (IdentityDocument, SigningKeyHandle) {
    let key = SigningKeyHandle::from_seed([seed; 32]);
    let vk = key.verification_key();
    let document = IdentityDocument {
        peer_id: IdentityDocument::peer_id_for(&vk),
        ek: vec![seed; 4],
        vk,
        created_at: 1,
        signature: Vec::new(),
    };
    (document, key)
}

#[test]
fn tree_updates_link_unlink_rename_and_remove() {
    let tree = DirectoryTree::new(ROOT);
    let dir = FileId([2; 32]);
    let file = FileId([3; 32]);
    let (tree, removed) = apply_tree_update(&tree, &link(ROOT, "docs", dir, true)).unwrap();
    assert_eq!(removed, None);
    let (tree, _) = apply_tree_update(&tree, &link(dir, "a.txt", file, false)).unwrap();
    assert_eq!(tree.resolve("docs/a.txt").unwrap(), file);
    let rename = ControlUpdate::Rename {
        src_parent: dir,
        src_name: "a.txt".to_owned(),
        dst_parent: ROOT,
        dst_name: "b.txt".to_owned(),
    };
    let (renamed, removed) = apply_tree_update(&tree, &rename).unwrap();
    assert_eq!(removed, None);
    assert_eq!(renamed.resolve("b.txt").unwrap(), file);
    assert!(renamed.resolve("docs/a.txt").is_err());
    // the input tree is untouched
    assert_eq!(tree.resolve("docs/a.txt").unwrap(), file);
    let unlink = ControlUpdate::Unlink { parent: ROOT, name: "b.txt".to_owned() };
    let (unlinked, removed) = apply_tree_update(&renamed, &unlink).unwrap();
    assert_eq!(removed, Some(file));
    assert!(unlinked.resolve("b.txt").is_err());
    let (gone, removed) = apply_tree_update(&tree, &ControlUpdate::Remove(file)).unwrap();
    assert_eq!(removed, Some(file));
    assert!(gone.resolve("docs/a.txt").is_err());
    assert_eq!(gone.resolve("docs").unwrap(), dir);
}

#[test]
fn tree_updates_that_keep_the_tree() {
    let tree = DirectoryTree::new(ROOT);
    let file = FileId([4; 32]);
    let (same, removed) = apply_tree_update(&tree, &ControlUpdate::Clear(file)).unwrap();
    assert_eq!(removed, Some(file));
    assert_eq!(same.dirents().len(), 1);
    let (same, removed) = apply_tree_update(&tree, &ControlUpdate::Add(file)).unwrap();
    assert_eq!(removed, None);
    assert_eq!(same.dirents().len(), 1);
    let manifest = Manifest {
        file_id: ROOT,
        chunk_ids: Vec::new(),
        size: 0,
        writer_id: PeerId([5; 32]),
        version: 1,
        signature: Vec::new(),
    };
    assert!(matches!(
        apply_tree_update(&tree, &ControlUpdate::NewManifest(manifest)),
        Err(Error::InvalidInput(_))
    ));
}

#[test]
fn failing_tree_updates_report_the_tree_error() {
    let tree = DirectoryTree::new(ROOT);
    let dir = FileId([2; 32]);
    let (tree, _) = apply_tree_update(&tree, &link(ROOT, "docs", dir, true)).unwrap();
    assert!(matches!(
        apply_tree_update(&tree, &link(ROOT, "docs", FileId([9; 32]), false)),
        Err(Error::State(_))
    ));
    assert!(matches!(
        apply_tree_update(&tree, &ControlUpdate::Remove(ROOT)),
        Err(Error::InvalidInput(_))
    ));
    let (tree, _) = apply_tree_update(&tree, &link(dir, "inner", FileId([6; 32]), false)).unwrap();
    assert!(matches!(
        apply_tree_update(&tree, &ControlUpdate::Unlink { parent: ROOT, name: "docs".to_owned() }),
        Err(Error::State(_))
    ));
}

#[test]
fn manifest_files_cannot_become_directories() {
    let file = FileId([7; 32]);
    let ids = [FileId([8; 32]), file];
    assert!(matches!(
        validate_link_kind(&ids, &link(ROOT, "x", file, true)),
        Err(Error::InvalidInput(_))
    ));
    assert!(validate_link_kind(&ids, &link(ROOT, "x", file, false)).is_ok());
    assert!(validate_link_kind(&ids, &link(ROOT, "x", FileId([9; 32]), true)).is_ok());
    assert!(validate_link_kind(&ids, &ControlUpdate::Clear(file)).is_ok());
}

#[test]
fn upload_links_must_name_the_uploaded_file() {
    let file = FileId([7; 32]);
    assert!(check_upload_link(&file, &None).is_ok());
    assert!(check_upload_link(&file, &Some(link(ROOT, "x", file, false))).is_ok());
    assert!(check_upload_link(&file, &Some(link(ROOT, "x", file, true))).is_err());
    assert!(check_upload_link(&file, &Some(link(ROOT, "x", FileId([8; 32]), false))).is_err());
    assert!(check_upload_link(&file, &Some(ControlUpdate::Clear(file))).is_err());
}

#[test]
fn drafts_chunk_ids_size_and_version() {
    let file = FileId([7; 32]);
    let bodies = vec![b"hello".to_vec(), Vec::new(), b"world!".to_vec()];
    let m = draft_manifest(file, PeerId([5; 32]), 3, &bodies).unwrap();
    assert_eq!(m.size, 11);
    assert_eq!(m.version, 3);
    assert_eq!(m.chunk_ids.len(), 3);
    assert_eq!(m.chunk_ids[2], chunk_id(&file, 2, b"world!"));
    assert_eq!(m.chunk_ids[0], chunk_id(&file, 0, b"hello"));
    assert!(m.signature.is_empty());
    let big = vec![vec![0u8; MAX_CHUNK_BYTES as usize + 1]];
    assert!(matches!(draft_manifest(file, PeerId([5; 32]), 1, &big), Err(Error::InvalidInput(_))));
    let exact = vec![vec![0u8; MAX_CHUNK_BYTES as usize]];
    assert_eq!(draft_manifest(file, PeerId([5; 32]), 1, &exact).unwrap().size, MAX_CHUNK_BYTES);
}

#[test]
fn save_signs_a_new_file_and_links_it() {
    let (document, key) = writer(11);
    let tree = DirectoryTree::new(ROOT);
    let fresh = FileId([12; 32]);
    let (manifest, link_update) =
        prepare_save(&tree, "notes.txt", fresh, &[], document.peer_id, &key, &[b"abc".to_vec()]).unwrap();
    assert_eq!(manifest.file_id, fresh);
    assert_eq!(manifest.version, 1);
    assert_eq!(manifest.size, 3);
    assert_eq!(manifest.writer_id, document.peer_id);
    let message = manifest_m(&manifest).unwrap();
    RustCryptoPureMlDsa
        .verify(&document.vk, &MANIFEST_CONTEXT, &message, &manifest.signature)
        .unwrap();
    assert_eq!(link_update, Some(link(ROOT, "notes.txt", fresh, false)));
    let trusted = TrustedManifest::verify(manifest, &document, &[document.peer_id]).unwrap();
    assert_eq!(trusted.manifest().file_id, fresh);
}

#[test]
fn saving_an_existing_file_bumps_its_version_and_keeps_its_id() {
    let (document, key) = writer(13);
    let file = FileId([14; 32]);
    let tree = DirectoryTree::new(ROOT);
    let (tree, _) = apply_tree_update(&tree, &link(ROOT, "a.txt", file, false)).unwrap();
    let (first, _) =
        prepare_save(&tree, "a.txt", FileId([15; 32]), &[], document.peer_id, &key, &[b"v1".to_vec()]).unwrap();
    assert_eq!(first.file_id, file);
    let known = [TrustedManifest::verify(first, &document, &[document.peer_id]).unwrap()];
    let (second, link_update) =
        prepare_save(&tree, "a.txt", FileId([15; 32]), &known, document.peer_id, &key, &[b"v2".to_vec()]).unwrap();
    assert_eq!(second.file_id, file);
    assert_eq!(second.version, 2);
    assert_eq!(link_update, None);
}

#[test]
fn save_refuses_directories_and_missing_parents() {
    let (document, key) = writer(16);
    let tree = DirectoryTree::new(ROOT);
    let (tree, _) = apply_tree_update(&tree, &link(ROOT, "docs", FileId([2; 32]), true)).unwrap();
    assert!(matches!(
        prepare_save(&tree, "docs", FileId([3; 32]), &[], document.peer_id, &key, &[]),
        Err(Error::InvalidInput(_))
    ));
    assert!(matches!(
        prepare_save(&tree, "missing/a.txt", FileId([3; 32]), &[], document.peer_id, &key, &[]),
        Err(Error::State(_))
    ));
    assert!(prepare_save(&tree, "", FileId([3; 32]), &[], document.peer_id, &key, &[]).is_err());
}
