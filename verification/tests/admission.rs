use quantam_fs::crypto::identity::IdentityDocument;
use quantam_fs::crypto::sign::{
    PureMlDsa, RustCryptoPureMlDsa, SigningKeyHandle, IDENTITY_CONTEXT, MANIFEST_CONTEXT,
};
use quantam_fs::daemon::{member_role, MemberRole};
use quantam_fs::encoding::control::manifest_m;
use quantam_fs::encoding::identity::identity_m;
use quantam_fs::error::Error;
use quantam_fs::ids::{ChunkId, FileId, PeerId};
use quantam_fs::keystore::{identity_state, IdentityKeyStore, IdentityState, PendingKeyStore};
use quantam_fs::net::join::JoinRequest;
use quantam_fs::net::{JoinCode, VaultId};
use quantam_fs::protocol::manifest::{Manifest, TrustedManifest};
use quantam_fs::sync::host::ControlUpdate;

fn identity(seed: u8) -> (IdentityDocument, SigningKeyHandle) {
    let key = SigningKeyHandle::from_seed([seed; 32]);
    let vk = key.verification_key();
    let mut document = IdentityDocument {
        peer_id: IdentityDocument::peer_id_for(&vk),
        ek: vec![seed; 8],
        vk,
        created_at: 1_700_000_000,
        signature: Vec::new(),
    };
    let message = identity_m(&document).unwrap();
    document.signature = RustCryptoPureMlDsa
        .sign(&key, &IDENTITY_CONTEXT, &message)
        .unwrap();
    (document, key)
}

#[test]
fn signed_identity_verifies_and_a_changed_one_does_not() {
    let (document, _) = identity(1);
    assert!(document.verify().is_ok());
    let mut changed = document.duplicate();
    changed.created_at += 1;
    assert!(changed.verify().is_err());
    let mut wrong_peer = document.duplicate();
    wrong_peer.peer_id = PeerId([0; 32]);
    assert!(wrong_peer.verify().is_err());
}

#[test]
fn join_request_is_bound_to_the_exchanged_identity() {
    let (document, key) = identity(2);
    let vault = VaultId([7; 32]);
    let code = JoinCode([8; 16]);
    let request = JoinRequest::sign(document.duplicate(), &key, vault, code).unwrap();
    assert!(request.verify(&document).is_ok());

    let (other, _) = identity(3);
    assert!(matches!(
        request.verify(&other),
        Err(Error::AuthenticationFailed)
    ));
    let mut other_code = request.clone();
    other_code.join_code = JoinCode([9; 16]);
    assert!(other_code.verify(&document).is_err());
    let mut bad_signature = request.clone();
    bad_signature.signature[0] ^= 1;
    assert!(bad_signature.verify(&document).is_err());
}

#[test]
fn manifest_is_trusted_only_from_a_member_writer_with_its_signature() {
    let (writer, key) = identity(4);
    let mut manifest = Manifest {
        file_id: FileId([1; 32]),
        chunk_ids: vec![ChunkId([2; 32])],
        size: 10,
        writer_id: writer.peer_id,
        version: 1,
        signature: Vec::new(),
    };
    let message = manifest_m(&manifest).unwrap();
    manifest.signature = RustCryptoPureMlDsa
        .sign(&key, &MANIFEST_CONTEXT, &message)
        .unwrap();

    let members = vec![writer.peer_id];
    let trusted = TrustedManifest::verify(manifest.clone(), &writer, &members).unwrap();
    assert!(trusted.manifest() == &manifest);

    assert!(TrustedManifest::verify(manifest.clone(), &writer, &[]).is_err());
    let mut resized = manifest.clone();
    resized.size = 11;
    assert!(TrustedManifest::verify(resized, &writer, &members).is_err());
    let (stranger, _) = identity(5);
    assert!(TrustedManifest::verify(manifest, &stranger, &members).is_err());
}

#[test]
fn host_role_follows_the_configured_host() {
    let local = PeerId([1; 32]);
    assert_eq!(member_role(&local, Some(&local)), MemberRole::Host);
    assert_eq!(member_role(&local, Some(&PeerId([2; 32]))), MemberRole::Member);
    assert_eq!(member_role(&local, None), MemberRole::Member);
}

#[test]
fn identity_path_state_depends_on_file_kind_and_size() {
    assert_eq!(identity_state(true, 0).unwrap(), IdentityState::Pending);
    assert_eq!(identity_state(true, 5).unwrap(), IdentityState::ExistingUnverified);
    assert!(matches!(identity_state(false, 0), Err(Error::InvalidInput(_))));
    assert!(matches!(
        PendingKeyStore.load_verified_peer(&PeerId([1; 32])),
        Err(Error::NotImplemented(_))
    ));
}

#[test]
fn control_update_bytes_round_trip() {
    let update = ControlUpdate::Link {
        parent: FileId([1; 32]),
        name: "dir".to_owned(),
        child: FileId([2; 32]),
        is_dir: true,
    };
    let bytes = update.encoded().unwrap();
    assert_eq!(bytes[0], 4);
    assert_eq!(bytes.len(), 1 + 32 + 4 + 3 + 32 + 1);
    assert!(ControlUpdate::from_encoded(&bytes).unwrap() == update);
    assert!(ControlUpdate::from_encoded(&bytes[..bytes.len() - 1]).is_err());
    let add = ControlUpdate::Add(FileId([3; 32]));
    assert_eq!(add.encoded().unwrap().len(), 33);
}
