use quantam_fs::crypto::identity::IdentityDocument;
use quantam_fs::crypto::sign::{PureMlDsa, RustCryptoPureMlDsa, SigningKeyHandle, IDENTITY_CONTEXT};
use quantam_fs::encoding::identity::identity_m;
use quantam_fs::encoding::keys::{decode_store_state, encode_store_state};
use quantam_fs::error::Result;
use quantam_fs::ids::{Epoch, PeerId};
use quantam_fs::keystore::{PersistedKey, PersistedState};

const STORE_STATE_MAGIC: &[u8] = b"qfs/local/keys/";

fn must_ok<T>(result: Result<T>) -> T {
    match result {
        Ok(value) => value,
        Err(error) => panic!("unexpected error: {error:?}"),
    }
}

fn document(seed: u8) -> IdentityDocument {
    let key = SigningKeyHandle::from_seed([seed; 32]);
    let vk = key.verification_key();
    let mut document = IdentityDocument {
        peer_id: IdentityDocument::peer_id_for(&vk),
        ek: vec![seed; 16],
        vk,
        created_at: 5,
        signature: Vec::new(),
    };
    let message = must_ok(identity_m(&document));
    document.signature = must_ok(RustCryptoPureMlDsa.sign(&key, &IDENTITY_CONTEXT, &message));
    document
}

fn empty_state(local_id: PeerId) -> PersistedState {
    PersistedState {
        local_id,
        next_slot: 7,
        peers: Vec::new(),
        pairs: Vec::new(),
        keys: Vec::new(),
        epoch_watermarks: Vec::new(),
    }
}

#[test]
fn store_state_round_trip_reuses_signed_identity_and_preserves_key_slot() {
    let local = document(1);
    let peer = document(2);
    let peer_id = peer.peer_id;
    let state = PersistedState {
        local_id: local.peer_id,
        next_slot: 12,
        peers: vec![peer.clone()],
        pairs: Vec::new(),
        keys: vec![PersistedKey {
            slot: 11,
            peer_id,
            epoch: Epoch(4),
            key: [0xa5; 32],
        }],
        epoch_watermarks: vec![(peer_id, Epoch(4))],
    };

    let encoded = must_ok(encode_store_state(&state));
    let decoded = must_ok(decode_store_state(&encoded));
    assert!(decoded.local_id == state.local_id);
    assert!(decoded.next_slot == state.next_slot);
    assert!(decoded.peers == state.peers);
    assert!(decoded.pairs.is_empty());
    assert!(decoded.keys.len() == 1);
    assert!(decoded.keys[0].slot == 11);
    assert!(decoded.keys[0].peer_id == peer_id);
    assert!(decoded.keys[0].epoch == Epoch(4));
    assert!(decoded.keys[0].key == [0xa5; 32]);
    assert!(decoded.epoch_watermarks == vec![(peer_id, Epoch(4))]);
    assert!(decoded.peers[0].verify().is_ok());
}

#[test]
fn store_state_rejects_oversized_count_and_truncated_key_record() {
    let local_id = PeerId([0x11; 32]);
    let encoded = must_ok(encode_store_state(&empty_state(local_id)));
    let peer_count_offset = STORE_STATE_MAGIC.len() + 1 + 32 + 8;
    let mut oversized_count = encoded.to_vec();
    oversized_count[peer_count_offset..peer_count_offset + 4]
        .copy_from_slice(&u32::MAX.to_be_bytes());
    assert!(decode_store_state(&oversized_count).is_err());

    let mut state = empty_state(local_id);
    state.keys.push(PersistedKey {
        slot: 1,
        peer_id: PeerId([0x22; 32]),
        epoch: Epoch(2),
        key: [0x33; 32],
    });
    let mut truncated_key = must_ok(encode_store_state(&state));
    assert!(truncated_key.pop().is_some());
    assert!(decode_store_state(&truncated_key).is_err());
}

#[test]
fn store_state_reads_legacy_v1_without_epoch_watermarks() {
    let encoded = must_ok(encode_store_state(&empty_state(PeerId([0x44; 32]))));
    let legacy = &encoded[..encoded.len() - 4];
    let decoded = must_ok(decode_store_state(legacy));
    assert!(decoded.epoch_watermarks.is_empty());
}

#[test]
fn store_state_layout_and_trailing_bytes() {
    let encoded = must_ok(encode_store_state(&empty_state(PeerId([0x55; 32]))));
    assert_eq!(&encoded[..STORE_STATE_MAGIC.len()], STORE_STATE_MAGIC);
    assert_eq!(encoded[STORE_STATE_MAGIC.len()], 1);
    assert_eq!(encoded.len(), STORE_STATE_MAGIC.len() + 1 + 32 + 8 + 4 * 4);
    let mut trailing = encoded.clone();
    trailing.push(0);
    assert!(decode_store_state(&trailing).is_err());
    let mut bad_version = encoded.clone();
    bad_version[STORE_STATE_MAGIC.len()] = 2;
    assert!(decode_store_state(&bad_version).is_err());
}
