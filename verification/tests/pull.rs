use quantam_fs::crypto::aead::PairKeyHandle;
use quantam_fs::crypto::wrap::PairSession;
use quantam_fs::error::Error;
use quantam_fs::ids::{ChunkId, Epoch, PeerId};
use quantam_fs::protocol::pull::PullRequest;
use quantam_fs::sync::pull::{PendingPullCoordinator, PullCoordinator};

#[test]
fn pending_coordinator_refuses_pulls() {
    let request = PullRequest::new(vec![ChunkId([1; 32])]).unwrap();
    assert!(matches!(PendingPullCoordinator.request(&request), Err(Error::NotImplemented(_))));
}

#[test]
fn pair_session_keeps_its_handle() {
    let session = PairSession::new(PeerId([2; 32]), Epoch(4), PairKeyHandle { slot: 9, store_id: [3; 32] });
    assert_eq!(session.peer_id, PeerId([2; 32]));
    assert_eq!(session.key_handle().slot, 9);
    assert_eq!(session.key_handle().store_id, [3; 32]);
}
