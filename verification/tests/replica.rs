use quantam_fs::encoding::replica::{decode_replica, encode_replica};
use quantam_fs::error::{Error, Result};
use quantam_fs::ids::{ChunkId, FileId, PeerId};
use quantam_fs::store::replica::ReplicaMetadata;
use quantam_fs::store::tree::DirectoryTree;
use quantam_fs::sync::host::{ControlRecord, ControlUpdate, QueueContent};

const REPLICA_MAGIC: &[u8] = b"qfs/local/replica/";

fn must_ok<T>(result: Result<T>) -> T {
    match result {
        Ok(value) => value,
        Err(error) => panic!("unexpected error: {error:?}"),
    }
}

#[test]
fn log_waits_for_every_member_ack() {
    let a = PeerId([1; 32]);
    let b = PeerId([2; 32]);
    let mut metadata = ReplicaMetadata::new(FileId([0; 32]));
    metadata.members.extend([a, b]);
    metadata.log = (1..=3)
        .map(|id| ControlRecord {
            id,
            update: ControlUpdate::Add(FileId([id as u8; 32])),
        })
        .collect();

    metadata.acked_through.push((a, 3));
    metadata.truncate_log();
    assert_eq!(metadata.log.len(), 3);

    metadata.acked_through.push((b, 2));
    metadata.truncate_log();
    assert_eq!(metadata.log.len(), 1);
    assert_eq!(metadata.log[0].id, 3);
}

#[test]
fn log_is_kept_whole_without_members() {
    let mut metadata = ReplicaMetadata::new(FileId([0; 32]));
    metadata.log.push(ControlRecord {
        id: 1,
        update: ControlUpdate::Add(FileId([1; 32])),
    });
    metadata.truncate_log();
    assert_eq!(metadata.log.len(), 1);
    assert_eq!(metadata.ack_of(&PeerId([9; 32])), 0);
}

#[test]
fn replica_round_trip_preserves_metadata_without_plaintext_or_ciphertext() {
    let root = FileId([0x10; 32]);
    let member = PeerId([0x20; 32]);
    let file_id = FileId([0x30; 32]);
    let chunk_id = ChunkId([0x40; 32]);
    let record = ControlRecord {
        id: 1,
        update: ControlUpdate::Add(file_id),
    };
    let mut metadata = ReplicaMetadata::new(root);
    metadata.members.push(member);
    metadata.log.push(record.clone());
    metadata.next_control = 2;
    metadata
        .mailboxes
        .push((member, vec![QueueContent::Control(record)]));
    metadata.acked_through.push((member, 0));
    metadata.chunk_index.push((chunk_id, file_id, 7));

    let encoded = must_ok(encode_replica(&metadata, 9));
    let (generation, decoded) = must_ok(decode_replica(&encoded, root));
    assert_eq!(generation, 9);
    assert!(decoded == metadata);
}

#[test]
fn replica_rejects_damage_truncation_and_wrong_root() {
    let root = FileId([0x51; 32]);
    let encoded = must_ok(encode_replica(&ReplicaMetadata::new(root), 1));

    let mut damaged = encoded.clone();
    let body_offset = REPLICA_MAGIC.len() + 1 + 8 + 4;
    damaged[body_offset] ^= 1;
    assert!(matches!(
        decode_replica(&damaged, root),
        Err(Error::AuthenticationFailed)
    ));
    assert!(decode_replica(&encoded[..encoded.len() - 1], root).is_err());
    assert!(matches!(
        decode_replica(&encoded, FileId([0x52; 32])),
        Err(Error::State(_))
    ));
}

#[test]
fn replica_round_trip_preserves_canonical_tree() {
    let root = FileId([0x81; 32]);
    let mut tree = DirectoryTree::new(root);
    must_ok(tree.link(root, "a", FileId([0x82; 32]), true));
    must_ok(tree.link(FileId([0x82; 32]), "f", FileId([0x83; 32]), false));
    let mut metadata = ReplicaMetadata::new(root);
    metadata.dirents = tree.dirents();
    let encoded = must_ok(encode_replica(&metadata, 2));
    let (_, decoded) = must_ok(decode_replica(&encoded, root));
    assert!(decoded.dirents == metadata.dirents);
}

#[test]
fn replica_header_carries_magic_version_and_generation() {
    let root = FileId([0x61; 32]);
    let encoded = must_ok(encode_replica(&ReplicaMetadata::new(root), 0x0102));
    assert_eq!(&encoded[..REPLICA_MAGIC.len()], REPLICA_MAGIC);
    assert_eq!(encoded[REPLICA_MAGIC.len()], 1);
    assert_eq!(
        &encoded[REPLICA_MAGIC.len() + 1..REPLICA_MAGIC.len() + 9],
        &[0, 0, 0, 0, 0, 0, 1, 2]
    );
    let mut bad_magic = encoded.clone();
    bad_magic[0] ^= 1;
    assert!(decode_replica(&bad_magic, root).is_err());
}

#[test]
fn unsorted_members_are_refused_by_the_encoder() {
    let mut metadata = ReplicaMetadata::new(FileId([0x71; 32]));
    metadata.members.push(PeerId([2; 32]));
    metadata.members.push(PeerId([1; 32]));
    assert!(encode_replica(&metadata, 1).is_err());
}

#[test]
fn acknowledgements_only_raise_a_members_watermark() {
    let mut metadata = ReplicaMetadata::new(FileId([0x70; 32]));
    let (a, b) = (PeerId([0x72; 32]), PeerId([0x71; 32]));
    metadata.members.push(b);
    metadata.members.push(a);
    metadata.next_control = 10;
    assert!(matches!(metadata.acknowledge_applied(false, a, 3), Err(Error::State(_))));
    assert!(matches!(metadata.acknowledge_applied(true, PeerId([9; 32]), 3), Err(Error::AuthenticationFailed)));
    assert!(matches!(metadata.acknowledge_applied(true, a, 10), Err(Error::InvalidInput("ack exceeds host log"))));
    metadata.acknowledge_applied(true, a, 5).unwrap();
    metadata.acknowledge_applied(true, b, 2).unwrap();
    metadata.acknowledge_applied(true, a, 4).unwrap();
    assert_eq!(metadata.ack_of(&a), 5);
    assert_eq!(metadata.ack_of(&b), 2);
    // kept in member order
    assert_eq!(metadata.acked_through, vec![(b, 2), (a, 5)]);
}
