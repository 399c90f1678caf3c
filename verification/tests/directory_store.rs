use quantam_fs::crypto::identity::IdentityDocument;
use quantam_fs::crypto::sign::SigningKeyHandle;
use quantam_fs::encoding::directory::{
    decode_directory_ad, decode_directory_state, encode_directory_ad, encode_directory_state,
};
use quantam_fs::error::Error;
use quantam_fs::net::directory::{DirForget, DirectoryAd, DirectoryState, DirectoryStore, MAX_ADS_PER_PEER};
use quantam_fs::net::{JoinCode, VaultId};

const NOW: u64 = 1_700_000_000;
const WEEK: u64 = 604_800;

fn member(seed: u8) -> (IdentityDocument, SigningKeyHandle) {
    let key = SigningKeyHandle::from_seed([seed; 32]);
    let vk = key.verification_key();
    let document = IdentityDocument {
        peer_id: IdentityDocument::peer_id_for(&vk),
        ek: vec![seed; 8],
        vk,
        created_at: 1,
        signature: Vec::new(),
    };
    (document, key)
}

fn ad(seed: u8, vault: u8, issued_at: u64) -> DirectoryAd {
    let (document, key) = member(seed);
    DirectoryAd::sign(&document, &key, VaultId([vault; 32]), "192.0.2.7:4433".to_owned(), issued_at).unwrap()
}

fn forget(seed: u8, vault: u8, code: JoinCode, issued_at: u64) -> DirForget {
    let (document, key) = member(seed);
    DirForget::sign(document.peer_id, &key, VaultId([vault; 32]), code, issued_at).unwrap()
}

#[test]
fn signed_ads_verify_and_tampering_is_refused() {
    let mut signed = ad(1, 9, NOW);
    assert!(signed.verify(NOW).is_ok());
    assert!(matches!(signed.verify(NOW + WEEK + 1), Err(Error::InvalidInput(_))));
    assert!(matches!(signed.verify(NOW - 121), Err(Error::InvalidInput(_))));
    signed.addr = "192.0.2.8:4433".to_owned();
    assert!(matches!(signed.verify(NOW), Err(Error::AuthenticationFailed)));
}

#[test]
fn ad_encoding_round_trips_and_rejects_damage() {
    let signed = ad(2, 9, NOW);
    let bytes = encode_directory_ad(&signed).unwrap();
    assert_eq!(decode_directory_ad(&bytes).unwrap(), signed);
    assert!(decode_directory_ad(&bytes[..bytes.len() - 1]).is_err());
    let mut longer = bytes.clone();
    longer.push(0);
    assert!(decode_directory_ad(&longer).is_err());
}

#[test]
fn put_then_lookup_returns_the_ad_until_it_expires() {
    let mut store = DirectoryStore::new();
    let code = JoinCode([5; 16]);
    let signed = ad(3, 9, NOW);
    store.put(code, signed.clone(), NOW).unwrap();
    let (found, changed) = store.lookup(&code, NOW + 10).unwrap();
    assert_eq!(found, Some(signed));
    assert!(!changed);
    let (missing, _) = store.lookup(&JoinCode([6; 16]), NOW).unwrap();
    assert_eq!(missing, None);
    let (expired, changed) = store.lookup(&code, NOW + WEEK + 1).unwrap();
    assert_eq!(expired, None);
    assert!(changed);
}

#[test]
fn replayed_and_foreign_puts_are_refused() {
    let mut store = DirectoryStore::new();
    let code = JoinCode([5; 16]);
    store.put(code, ad(3, 9, NOW), NOW).unwrap();
    assert!(matches!(store.put(code, ad(3, 9, NOW), NOW), Err(Error::ReplayRejected)));
    assert!(matches!(store.put(JoinCode([7; 16]), ad(3, 9, NOW - 5), NOW), Err(Error::ReplayRejected)));
    assert!(matches!(store.put(code, ad(4, 9, NOW), NOW), Err(Error::AuthenticationFailed)));
    store.put(code, ad(3, 9, NOW + 1), NOW + 1).unwrap();
}

#[test]
fn one_member_holds_at_most_its_quota_of_ads() {
    let mut store = DirectoryStore::new();
    for i in 0..MAX_ADS_PER_PEER {
        let code = JoinCode([i as u8; 16]);
        store.put(code, ad(8, 9, NOW + i as u64), NOW + i as u64).unwrap();
    }
    let late = NOW + MAX_ADS_PER_PEER as u64;
    assert!(matches!(store.put(JoinCode([200; 16]), ad(8, 9, late), late), Err(Error::InvalidInput(_))));
    // replacing one of its own codes stays within the quota
    store.put(JoinCode([0; 16]), ad(8, 9, late + 1), late + 1).unwrap();
}

#[test]
fn forget_removes_the_code_and_refuses_replays() {
    let mut store = DirectoryStore::new();
    let code = JoinCode([5; 16]);
    store.put(code, ad(3, 9, NOW), NOW).unwrap();
    assert!(matches!(store.forget(&forget(3, 9, code, NOW), NOW), Err(Error::ReplayRejected)));
    assert!(matches!(store.forget(&forget(4, 9, code, NOW + 1), NOW), Err(Error::AuthenticationFailed)));
    store.forget(&forget(3, 9, code, NOW + 1), NOW + 1).unwrap();
    assert_eq!(store.lookup(&code, NOW + 1).unwrap().0, None);
    assert!(matches!(store.forget(&forget(3, 9, code, NOW + 1), NOW + 1), Err(Error::ReplayRejected)));
}

#[test]
fn failed_store_refuses_service() {
    let mut store = DirectoryStore::new();
    store.mark_failed();
    assert!(matches!(store.put(JoinCode([1; 16]), ad(3, 9, NOW), NOW), Err(Error::State(_))));
    assert!(matches!(store.lookup(&JoinCode([1; 16]), NOW), Err(Error::State(_))));
}

#[test]
fn stored_state_round_trips_and_reopens() {
    let mut store = DirectoryStore::new();
    let second = ad(4, 8, NOW);
    store.put(JoinCode([5; 16]), ad(3, 9, NOW), NOW).unwrap();
    store.put(JoinCode([6; 16]), second.clone(), NOW).unwrap();
    let bytes = encode_directory_state(&store.state()).unwrap();
    let decoded = decode_directory_state(&bytes).unwrap();
    assert_eq!(encode_directory_state(&decoded).unwrap(), bytes);
    let mut reopened = DirectoryStore::from_state(decoded).unwrap();
    assert_eq!(reopened.lookup(&JoinCode([6; 16]), NOW).unwrap().0, Some(second));
    assert!(decode_directory_state(&bytes[..bytes.len() - 1]).is_err());
    assert!(decode_directory_state(b"qfs/local/keys/").is_err());
}

#[test]
fn reopen_refuses_an_ad_without_its_watermark() {
    let mut store = DirectoryStore::new();
    store.put(JoinCode([5; 16]), ad(3, 9, NOW), NOW).unwrap();
    let state = store.state();
    let stripped = DirectoryState { ads: state.ads, watermarks: Vec::new() };
    assert!(matches!(DirectoryStore::from_state(stripped), Err(Error::InvalidInput(_))));
}
