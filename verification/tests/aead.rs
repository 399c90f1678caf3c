use aes_gcm::aead::{Aead, KeyInit, Payload};
use quantam_fs::crypto::aead::{Aes256Gcm, PairKeyState, RustCryptoAes256Gcm};
use quantam_fs::encoding::frames::{nonce, packet_aad};
use quantam_fs::error::Error;
use quantam_fs::ids::{Epoch, PeerId, SeqNum};
use quantam_fs::protocol::packet::{PacketHeader, PayloadType, PROTOCOL_VERSION};

const KEY: [u8; 32] = [0x42; 32];

fn header(sender: PeerId, receiver: PeerId, seq: u64) -> PacketHeader {
    PacketHeader {
        version: PROTOCOL_VERSION,
        sender_id: sender,
        receiver_id: receiver,
        epoch: Epoch(3),
        seq: SeqNum(seq),
    }
}

fn pair(local: PeerId, peer: PeerId) -> (RustCryptoAes256Gcm, quantam_fs::crypto::aead::PairKeyHandle) {
    let mut store = RustCryptoAes256Gcm::new(local, [local.0[0]; 32]);
    let handle = store.install(PairKeyState::new(KEY, peer, Epoch(3))).unwrap();
    (store, handle)
}

#[test]
fn sealed_packet_opens_once_at_the_peer() {
    let a = PeerId([1; 32]);
    let b = PeerId([2; 32]);
    let (mut alice, alice_key) = pair(a, b);
    let (mut bob, bob_key) = pair(b, a);
    let h = header(a, b, 7);
    let aad = packet_aad(&h);
    let n = nonce(&h, PayloadType::Packet);
    let sealed = alice.seal(&alice_key, &n, &aad, b"hello").unwrap();
    assert_eq!(sealed.len(), 5 + 16);
    assert_eq!(bob.open(&bob_key, &n, &aad, &sealed).unwrap(), b"hello");
    assert!(matches!(
        bob.open(&bob_key, &n, &aad, &sealed),
        Err(Error::ReplayRejected)
    ));
}

#[test]
fn ciphertext_is_the_crates_aes_256_gcm_output() {
    let a = PeerId([1; 32]);
    let b = PeerId([2; 32]);
    let (mut alice, alice_key) = pair(a, b);
    let h = header(a, b, 1);
    let aad = packet_aad(&h);
    let n = nonce(&h, PayloadType::Packet);
    let sealed = alice.seal(&alice_key, &n, &aad, b"payload").unwrap();
    let cipher = aes_gcm::Aes256Gcm::new(&KEY.into());
    let expected = cipher
        .encrypt(&n.into(), Payload { msg: b"payload", aad: &aad })
        .unwrap();
    assert_eq!(sealed, expected);
    assert_ne!(&sealed[..7], b"payload");
}

#[test]
fn send_counter_must_strictly_increase_per_payload_type() {
    let a = PeerId([1; 32]);
    let b = PeerId([2; 32]);
    let (mut alice, alice_key) = pair(a, b);
    let h = header(a, b, 5);
    let aad = packet_aad(&h);
    let n = nonce(&h, PayloadType::Packet);
    assert!(alice.seal(&alice_key, &n, &aad, b"x").is_ok());
    assert!(matches!(
        alice.seal(&alice_key, &n, &aad, b"x"),
        Err(Error::State(_))
    ));
    let older = header(a, b, 4);
    let older_aad = packet_aad(&older);
    let older_nonce = nonce(&older, PayloadType::Packet);
    assert!(matches!(
        alice.seal(&alice_key, &older_nonce, &older_aad, b"x"),
        Err(Error::State(_))
    ));
    let newer = header(a, b, 6);
    assert!(alice
        .seal(&alice_key, &nonce(&newer, PayloadType::Packet), &packet_aad(&newer), b"x")
        .is_ok());
}

#[test]
fn header_must_match_pair_direction_epoch_and_nonce() {
    let a = PeerId([1; 32]);
    let b = PeerId([2; 32]);
    let c = PeerId([3; 32]);
    let (mut alice, alice_key) = pair(a, b);
    let wrong_receiver = header(a, c, 1);
    assert!(matches!(
        alice.seal(
            &alice_key,
            &nonce(&wrong_receiver, PayloadType::Packet),
            &packet_aad(&wrong_receiver),
            b"x"
        ),
        Err(Error::InvalidInput(_))
    ));
    let inbound = header(b, a, 1);
    assert!(matches!(
        alice.seal(&alice_key, &nonce(&inbound, PayloadType::Packet), &packet_aad(&inbound), b"x"),
        Err(Error::InvalidInput(_))
    ));
    let mut other_epoch = header(a, b, 1);
    other_epoch.epoch = Epoch(4);
    assert!(matches!(
        alice.seal(
            &alice_key,
            &nonce(&other_epoch, PayloadType::Packet),
            &packet_aad(&other_epoch),
            b"x"
        ),
        Err(Error::InvalidInput(_))
    ));
    let good = header(a, b, 1);
    let mut bad_nonce = nonce(&good, PayloadType::Packet);
    bad_nonce[11] ^= 1;
    assert!(matches!(
        alice.seal(&alice_key, &bad_nonce, &packet_aad(&good), b"x"),
        Err(Error::InvalidInput(_))
    ));
    assert!(matches!(
        alice.seal(&alice_key, &nonce(&good, PayloadType::Packet), &[0; 80], b"x"),
        Err(Error::InvalidInput(_))
    ));
}

#[test]
fn tampering_fails_authentication_without_spending_the_counter() {
    let a = PeerId([1; 32]);
    let b = PeerId([2; 32]);
    let (mut alice, alice_key) = pair(a, b);
    let (mut bob, bob_key) = pair(b, a);
    let h = header(a, b, 9);
    let aad = packet_aad(&h);
    let n = nonce(&h, PayloadType::Packet);
    let sealed = alice.seal(&alice_key, &n, &aad, b"data").unwrap();
    let mut tampered = sealed.clone();
    tampered[0] ^= 1;
    assert!(matches!(
        bob.open(&bob_key, &n, &aad, &tampered),
        Err(Error::AuthenticationFailed)
    ));
    assert_eq!(bob.open(&bob_key, &n, &aad, &sealed).unwrap(), b"data");
}

#[test]
fn unknown_handle_is_refused() {
    let a = PeerId([1; 32]);
    let b = PeerId([2; 32]);
    let (mut alice, mut alice_key) = pair(a, b);
    alice_key.slot += 1;
    let h = header(a, b, 1);
    assert!(matches!(
        alice.seal(&alice_key, &nonce(&h, PayloadType::Packet), &packet_aad(&h), b"x"),
        Err(Error::KeyUnavailable)
    ));
}
