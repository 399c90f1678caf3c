use quantam_fs::encoding::replica::decode_replica;
use quantam_fs::error::Error;
use quantam_fs::ids::{ChunkId, FileId, PeerId};
use quantam_fs::net::admin::hex;
use quantam_fs::protocol::manifest::Manifest;
use quantam_fs::store::chunks::{ChunkStore, MemoryChunkStore};
use quantam_fs::store::durable::{chunk_file_name, stage_snapshot};
use quantam_fs::store::replica::ReplicaMetadata;
use quantam_fs::sync::host::QueueContent;

fn manifest(file_id: FileId, chunk_ids: Vec<ChunkId>) -> Manifest {
    Manifest { file_id, chunk_ids, size: 8, writer_id: PeerId([5; 32]), version: 1, signature: Vec::new() }
}

#[test]
fn snapshot_indexes_only_pinned_chunks_it_holds() {
    let root = FileId([3; 32]);
    let file = FileId([4; 32]);
    let mut chunks = MemoryChunkStore::new();
    let pinned = chunks.put(&file, 0, b"pinned".to_vec());
    let loose = chunks.put(&file, 7, b"loose".to_vec());
    let missing = ChunkId([0; 32]);
    let mut metadata = ReplicaMetadata::new(root);
    metadata.manifests.push(manifest(file, vec![missing, pinned]));
    let (staged, next, bytes) = stage_snapshot(metadata, &root, 4, &chunks).unwrap();
    assert_eq!(next, 5);
    assert_eq!(staged.chunk_index, vec![(pinned, file, 0)]);
    assert!(!staged.chunk_index.iter().any(|entry| entry.0 == loose));
    let (generation, decoded) = decode_replica(&bytes, root).unwrap();
    assert_eq!(generation, 5);
    assert_eq!(decoded.chunk_index, staged.chunk_index);
    assert_eq!(decoded.manifests.len(), 1);
}

#[test]
fn snapshot_refuses_a_missing_mailbox_chunk() {
    let root = FileId([0x31; 32]);
    let chunks = MemoryChunkStore::new();
    let mut metadata = ReplicaMetadata::new(root);
    metadata.mailboxes.push((
        PeerId([9; 32]),
        vec![QueueContent::Chunk { file_id: FileId([0x32; 32]), index: 0, chunk_id: ChunkId([0x33; 32]) }],
    ));
    assert!(matches!(stage_snapshot(metadata, &root, 1, &chunks), Err(Error::State(_))));
}

#[test]
fn snapshot_refuses_another_root_and_an_exhausted_generation() {
    let root = FileId([7; 32]);
    let chunks = MemoryChunkStore::new();
    assert!(matches!(
        stage_snapshot(ReplicaMetadata::new(root), &FileId([8; 32]), 1, &chunks),
        Err(Error::InvalidInput(_))
    ));
    assert!(matches!(stage_snapshot(ReplicaMetadata::new(root), &root, u64::MAX, &chunks), Err(Error::State(_))));
}

#[test]
fn chunk_files_are_named_by_lowercase_hex() {
    let id = ChunkId([0xab; 32]);
    assert_eq!(chunk_file_name(&id), hex(&id.0));
    assert_eq!(chunk_file_name(&id), "ab".repeat(32));
}
