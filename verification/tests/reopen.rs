use quantam_fs::encoding::digests::chunk_id;
use quantam_fs::encoding::replica::encode_replica;
use quantam_fs::error::Error;
use quantam_fs::ids::{ChunkId, FileId, PeerId};
use quantam_fs::store::chunks::{ChunkStore, MemoryChunkStore};
use quantam_fs::store::durable::{admit_chunks, evict_file, open_snapshot, ChunkFile};
use quantam_fs::store::replica::ReplicaMetadata;
use quantam_fs::sync::host::QueueContent;

#[test]
fn reopening_keeps_good_chunks_and_discards_bad_ones() {
    let file = FileId([7; 32]);
    let good = chunk_id(&file, 0, b"alpha");
    let bad = chunk_id(&file, 1, b"beta");
    let unreadable = ChunkId([9; 32]);
    let missing = ChunkId([8; 32]);
    let metadata = ReplicaMetadata::new(FileId([1; 32]));
    let found = vec![
        (good, file, 0, ChunkFile::Read(b"alpha".to_vec())),
        (bad, file, 1, ChunkFile::Read(b"tampered".to_vec())),
        (unreadable, file, 2, ChunkFile::Unreadable),
        (missing, file, 3, ChunkFile::Missing),
    ];
    let (store, discard) = admit_chunks(&metadata, &found).unwrap();
    assert_eq!(store.get(&good), Some(&b"alpha"[..]));
    assert_eq!(store.get(&bad), None);
    assert_eq!(store.len(), 1);
    assert_eq!(discard, vec![bad, unreadable]);
}

#[test]
fn reopening_refuses_a_mailbox_chunk_that_is_gone() {
    let file = FileId([7; 32]);
    let owed = chunk_id(&file, 0, b"alpha");
    let mut metadata = ReplicaMetadata::new(FileId([1; 32]));
    metadata.members.push(PeerId([2; 32]));
    metadata
        .mailboxes
        .push((PeerId([2; 32]), vec![QueueContent::Chunk { file_id: file, index: 0, chunk_id: owed }]));
    let found = vec![(owed, file, 0, ChunkFile::Read(b"other".to_vec()))];
    assert!(matches!(
        admit_chunks(&metadata, &found),
        Err(Error::State("mailbox references an unavailable plaintext chunk"))
    ));
}

#[test]
fn opening_a_snapshot() {
    let root = FileId([1; 32]);
    assert!(matches!(open_snapshot(None, root), Ok((0, None))));
    assert!(matches!(open_snapshot(Some(&[]), root), Err(Error::InvalidInput(_))));
    let bytes = encode_replica(&ReplicaMetadata::new(root), 4).unwrap();
    let (generation, metadata) = open_snapshot(Some(&bytes), root).unwrap();
    assert_eq!(generation, 4);
    assert!(metadata.is_some());
    assert!(matches!(open_snapshot(Some(&bytes), FileId([2; 32])), Err(Error::State(_))));
}

#[test]
fn a_member_evicts_a_files_chunks_unless_a_mailbox_owes_them() {
    let (local, host) = (PeerId([1; 32]), PeerId([2; 32]));
    let (f, g) = (FileId([7; 32]), FileId([6; 32]));
    let mut store = MemoryChunkStore::new();
    store.put(&f, 0, b"a".to_vec());
    store.put(&f, 1, b"b".to_vec());
    let kept = store.put(&g, 0, b"c".to_vec());
    let mut metadata = ReplicaMetadata::new(FileId([1; 32]));
    assert!(matches!(
        evict_file(&mut store, &metadata, host, host, &[local, host], f),
        Err(Error::State("replica is not a live member with H"))
    ));
    metadata.mailboxes.push((local, vec![QueueContent::Chunk { file_id: f, index: 0, chunk_id: ChunkId([3; 32]) }]));
    assert!(matches!(
        evict_file(&mut store, &metadata, local, host, &[local, host], f),
        Err(Error::State("mailbox pins file chunks"))
    ));
    assert_eq!(store.len(), 3);
    metadata.mailboxes.clear();
    assert_eq!(evict_file(&mut store, &metadata, local, host, &[local, host], f).unwrap(), 2);
    assert_eq!(store.len(), 1);
    assert!(store.get(&kept).is_some());
}
