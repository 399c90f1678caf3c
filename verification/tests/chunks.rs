use quantam_fs::ids::{ChunkId, FileId};
use quantam_fs::store::chunks::{ChunkStore, MemoryChunkStore};
use sha2::Digest;

#[test]
fn stores_plaintext_and_reports_have_vector_in_request_order() {
    let mut store = MemoryChunkStore::new();
    let present = store.put(&FileId([3; 32]), 7, b"plaintext".to_vec());
    let absent = ChunkId([9; 32]);

    assert!(store.has(&present));
    assert_eq!(store.get(&present), Some(b"plaintext".as_slice()));
    assert_eq!(store.get_record(&present).unwrap().index, 7);
    assert_eq!(store.have_bitset(&[absent, present]), vec![0b0000_0010]);

    store.remove_file(&FileId([3; 32]));
    assert!(store.is_empty());
}

#[test]
fn chunk_address_is_the_digest_of_file_index_and_plaintext() {
    let mut store = MemoryChunkStore::new();
    let id = store.put(&FileId([5; 32]), 2, b"abc".to_vec());
    let mut input = vec![5u8; 32];
    input.extend_from_slice(&2u64.to_be_bytes());
    input.extend_from_slice(b"abc");
    let digest: [u8; 32] = sha2::Sha256::digest(&input).into();
    assert_eq!(id.0, digest);
}

#[test]
fn removing_one_file_keeps_the_others() {
    let mut store = MemoryChunkStore::new();
    let a = store.put(&FileId([1; 32]), 0, b"a".to_vec());
    let b = store.put(&FileId([2; 32]), 0, b"b".to_vec());
    let a2 = store.put(&FileId([1; 32]), 1, b"c".to_vec());
    assert_eq!(store.len(), 3);
    store.remove_file(&FileId([1; 32]));
    assert_eq!(store.len(), 1);
    assert!(!store.has(&a));
    assert!(!store.has(&a2));
    assert_eq!(store.get(&b), Some(b"b".as_slice()));
}

#[test]
fn putting_the_same_chunk_twice_keeps_one_copy() {
    let mut store = MemoryChunkStore::new();
    let first = store.put(&FileId([1; 32]), 0, b"same".to_vec());
    let second = store.put(&FileId([1; 32]), 0, b"same".to_vec());
    assert_eq!(first, second);
    assert_eq!(store.len(), 1);
}

#[test]
fn have_bitset_spans_several_bytes_and_clears_padding() {
    let mut store = MemoryChunkStore::new();
    let mut ids = vec![ChunkId([0xee; 32]); 10];
    ids[0] = store.put(&FileId([1; 32]), 0, b"x".to_vec());
    ids[9] = store.put(&FileId([1; 32]), 1, b"y".to_vec());
    assert_eq!(store.have_bitset(&ids), vec![0b0000_0001, 0b0000_0010]);
    assert!(store.have_bitset(&[]).is_empty());
}
