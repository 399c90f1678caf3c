use quantam_fs::crypto::identity::IdentityDocument;
use quantam_fs::crypto::sign::{PureMlDsa, RustCryptoPureMlDsa, SigningKeyHandle, IDENTITY_CONTEXT};
use quantam_fs::encoding::identity::identity_m;
use quantam_fs::error::Error;
use quantam_fs::ids::PeerId;
use quantam_fs::net::frame::{Frame, FLUSH_CHALLENGE_KIND, GCM_PACKET_KIND};
use quantam_fs::net::join::NetControl;
use quantam_fs::net::join_steps::{
    accept_welcome, admission_frame, claim_peer, join_failure, join_offer, join_replica_host, take_connection,
};
use quantam_fs::net::VaultId;

fn signed(seed: u8) -> IdentityDocument {
    let key = SigningKeyHandle::from_seed([seed; 32]);
    let vk = key.verification_key();
    let mut document = IdentityDocument {
        peer_id: IdentityDocument::peer_id_for(&vk),
        ek: vec![seed; 4],
        vk,
        created_at: 9,
        signature: Vec::new(),
    };
    let message = identity_m(&document).unwrap();
    document.signature = RustCryptoPureMlDsa.sign(&key, &IDENTITY_CONTEXT, &message).unwrap();
    document
}

#[test]
fn a_joiner_expects_a_flush_offer() {
    let wrong = Frame { kind: GCM_PACKET_KIND, payload: vec![] };
    assert!(matches!(join_offer(&wrong), Err(Error::State("expected flush challenge after Join"))));
    let short = Frame { kind: FLUSH_CHALLENGE_KIND, payload: vec![1, 2, 3] };
    assert!(matches!(join_offer(&short), Err(Error::InvalidInput(_))));
}

#[test]
fn failed_joins_discard_the_pair_once_the_request_was_sent() {
    let (discard, error) = join_failure(true, true, Error::AuthenticationFailed);
    assert!(discard);
    assert!(matches!(error, Error::State("handshake deadline exceeded")));
    let (discard, error) = join_failure(false, false, Error::AuthenticationFailed);
    assert!(!discard);
    assert!(matches!(error, Error::AuthenticationFailed));
}

#[test]
fn a_replica_follows_its_host() {
    assert!(join_replica_host(None, PeerId([1; 32])).is_ok());
    assert!(join_replica_host(Some(PeerId([1; 32])), PeerId([1; 32])).is_ok());
    assert!(matches!(join_replica_host(Some(PeerId([2; 32])), PeerId([1; 32])), Err(Error::AuthenticationFailed)));
}

#[test]
fn a_welcome_imports_the_other_members() {
    let (me, host) = (signed(1), signed(2));
    let welcome = NetControl::JoinAccepted { vault_id: VaultId([7; 32]), members: vec![host.clone(), me.clone()] };
    let (imports, ids) = accept_welcome(&welcome, VaultId([7; 32]), me.peer_id);
    assert_eq!(imports, vec![0]);
    assert_eq!(ids.unwrap(), vec![host.peer_id, me.peer_id]);
    let (imports, ids) = accept_welcome(&welcome, VaultId([8; 32]), me.peer_id);
    assert!(imports.is_empty());
    assert!(matches!(ids, Err(Error::AuthenticationFailed)));
    let (imports, ids) = accept_welcome(&NetControl::Ready, VaultId([7; 32]), me.peer_id);
    assert!(imports.is_empty() && ids.is_err());
}

#[test]
fn a_forged_member_stops_the_welcome() {
    let (host, other) = (signed(2), signed(3));
    let mut forged = signed(4);
    forged.created_at = 10;
    let welcome = NetControl::JoinAccepted { vault_id: VaultId([7; 32]), members: vec![host, forged, other] };
    let (imports, ids) = accept_welcome(&welcome, VaultId([7; 32]), PeerId([0; 32]));
    assert_eq!(imports, vec![0]);
    assert!(ids.is_err());
}

#[test]
fn a_host_serves_bounded_connections_one_per_peer() {
    assert_eq!(take_connection(0, 0), Some((1, 1)));
    assert_eq!(take_connection(128, 0), None);
    assert_eq!(take_connection(5, 32), None);
    let mut active = Vec::new();
    assert!(claim_peer(&mut active, PeerId([1; 32])).is_ok());
    assert!(matches!(claim_peer(&mut active, PeerId([1; 32])), Err(Error::State("peer already connected"))));
    assert_eq!(active.len(), 1);
    assert!(admission_frame(&Frame { kind: GCM_PACKET_KIND, payload: vec![] }).is_ok());
    assert!(matches!(admission_frame(&Frame { kind: FLUSH_CHALLENGE_KIND, payload: vec![] }), Err(Error::AuthenticationFailed)));
}
