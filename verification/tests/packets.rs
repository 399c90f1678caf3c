use quantam_fs::crypto::aead::{PairKeyState, RustCryptoAes256Gcm};
use quantam_fs::crypto::wrap::PairSession;
use quantam_fs::error::Error;
use quantam_fs::ids::{Epoch, PeerId, SeqNum};
use quantam_fs::net::session::{open_packet, seal_packet};

fn endpoint(local: PeerId, peer: PeerId, key: [u8; 32]) -> (RustCryptoAes256Gcm, PairSession) {
    let mut store = RustCryptoAes256Gcm::new(local, [0xaa; 32]);
    let handle = store.install(PairKeyState::new(key, peer, Epoch(3))).unwrap();
    (store, PairSession::new(peer, Epoch(3), handle))
}

#[test]
fn a_sealed_packet_opens_once_at_the_peer() {
    let (alice, bob) = (PeerId([1; 32]), PeerId([2; 32]));
    let (mut a, a_session) = endpoint(alice, bob, [7; 32]);
    let (mut b, b_session) = endpoint(bob, alice, [7; 32]);
    let packet = seal_packet(&mut a, &a_session, SeqNum(1), b"hello").unwrap();
    assert!(packet.header.sender_id == alice);
    assert!(packet.header.receiver_id == bob);
    assert_eq!(packet.header.seq, SeqNum(1));
    assert_eq!(open_packet(&mut b, &b_session, &packet).unwrap(), b"hello".to_vec());
    assert!(matches!(open_packet(&mut b, &b_session, &packet), Err(Error::ReplayRejected)));
    // a counter is never sent twice
    assert!(matches!(seal_packet(&mut a, &a_session, SeqNum(1), b"again"), Err(Error::State(_))));
}

#[test]
fn a_packet_under_another_key_is_refused() {
    let (alice, bob) = (PeerId([1; 32]), PeerId([2; 32]));
    let (mut a, a_session) = endpoint(alice, bob, [7; 32]);
    let (mut b, b_session) = endpoint(bob, alice, [8; 32]);
    let packet = seal_packet(&mut a, &a_session, SeqNum(1), b"hello").unwrap();
    assert!(matches!(open_packet(&mut b, &b_session, &packet), Err(Error::AuthenticationFailed)));
}
