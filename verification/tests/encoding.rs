use quantam_fs::encoding::admission::{decode_net_control, encode_net_control};
use quantam_fs::encoding::control::{decode_control_record, encode_control_record};
use quantam_fs::encoding::frames::{decode_aad, packet_aad};
use quantam_fs::encoding::locate::{
    decode_have_query, decode_have_reply, decode_pull_request, encode_have_query,
    encode_have_reply, encode_pull_request,
};
use quantam_fs::error::Result;
use quantam_fs::ids::{ChunkId, Epoch, FileId, PeerId, SeqNum};
use quantam_fs::net::join::NetControl;
use quantam_fs::protocol::locate::{HaveQuery, HaveReply};
use quantam_fs::protocol::packet::{PacketHeader, PROTOCOL_VERSION};
use quantam_fs::protocol::pull::PullRequest;
use quantam_fs::sync::host::{ControlRecord, ControlUpdate};

const HAVE_MAGIC: &[u8; 12] = b"qfs/v1/have/";

fn must_ok<T>(result: Result<T>) -> T {
    match result {
        Ok(value) => value,
        Err(error) => panic!("unexpected error: {error:?}"),
    }
}

#[test]
fn decode_aad_rejects_noncanonical_length_and_version() {
    assert!(decode_aad(&[0; 80]).is_err());

    let header = PacketHeader {
        version: PROTOCOL_VERSION,
        sender_id: PeerId([1; 32]),
        receiver_id: PeerId([2; 32]),
        epoch: Epoch(3),
        seq: SeqNum(4),
    };
    let mut aad = packet_aad(&header);
    aad[0] = PROTOCOL_VERSION + 1;
    assert!(decode_aad(&aad).is_err());
}

#[test]
fn aad_round_trips_its_header() {
    let header = PacketHeader {
        version: PROTOCOL_VERSION,
        sender_id: PeerId([5; 32]),
        receiver_id: PeerId([6; 32]),
        epoch: Epoch(7),
        seq: SeqNum(8),
    };
    let aad = packet_aad(&header);
    let (decoded, _) = must_ok(decode_aad(&aad));
    assert_eq!(decoded, header);
}

#[test]
fn tree_control_kinds_round_trip_without_changing_legacy_kinds() {
    let parent = FileId([0x71; 32]);
    let child = FileId([0x72; 32]);
    let updates = [
        ControlUpdate::Link {
            parent,
            name: "é".to_owned(),
            child,
            is_dir: true,
        },
        ControlUpdate::Unlink {
            parent,
            name: "old".to_owned(),
        },
        ControlUpdate::Rename {
            src_parent: parent,
            src_name: "from".to_owned(),
            dst_parent: child,
            dst_name: "to".to_owned(),
        },
    ];
    for (offset, update) in updates.into_iter().enumerate() {
        let record = ControlRecord {
            id: offset as u64 + 8,
            update,
        };
        let encoded = must_ok(encode_control_record(&record));
        assert_eq!(encoded[8], offset as u8 + 4);
        assert!(must_ok(decode_control_record(&encoded)) == record);
    }

    let legacy = ControlRecord {
        id: 3,
        update: ControlUpdate::Add(parent),
    };
    let encoded = must_ok(encode_control_record(&legacy));
    assert_eq!(encoded.len(), 41);
    assert_eq!(encoded[8], 1);
}

#[test]
fn control_record_decoder_rejects_trailing_bytes_and_unknown_kinds() {
    let record = ControlRecord {
        id: 1,
        update: ControlUpdate::Remove(FileId([3; 32])),
    };
    let mut encoded = must_ok(encode_control_record(&record));
    assert!(must_ok(decode_control_record(&encoded)) == record);
    encoded.push(0);
    assert!(decode_control_record(&encoded).is_err());
    encoded.pop();
    encoded[8] = 99;
    assert!(decode_control_record(&encoded).is_err());
}

#[test]
fn heartbeat_watermark_extends_only_the_existing_heartbeat_kind() {
    assert_eq!(must_ok(encode_net_control(&NetControl::Heartbeat)), [5]);
    let applied = NetControl::HeartbeatApplied { through: 19 };
    let encoded = must_ok(encode_net_control(&applied));
    assert_eq!(encoded.len(), 9);
    assert_eq!(encoded[0], 5);
    assert!(must_ok(decode_net_control(&encoded)) == applied);
    assert!(decode_net_control(&[5, 0]).is_err());
}

#[test]
fn have_query_and_reply_use_separate_strict_magic_framing() {
    let query = must_ok(HaveQuery::new(
        FileId([0x91; 32]),
        vec![ChunkId([0xa1; 32]), ChunkId([0xa2; 32])],
    ));
    let query_bytes = must_ok(encode_have_query(&query));
    assert_eq!(&query_bytes[..HAVE_MAGIC.len()], HAVE_MAGIC);
    assert_eq!(query_bytes[HAVE_MAGIC.len()], 1);
    assert!(must_ok(decode_have_query(&query_bytes)) == query);
    assert!(decode_net_control(&query_bytes).is_err());
    assert!(decode_pull_request(&query_bytes).is_err());
    assert!(decode_control_record(&query_bytes).is_err());

    let reply = must_ok(HaveReply::new(&query, vec![0b01]));
    let reply_bytes = must_ok(encode_have_reply(&reply));
    assert_eq!(reply_bytes[HAVE_MAGIC.len()], 2);
    let decoded = must_ok(decode_have_reply(&reply_bytes));
    assert!(decoded == reply);
    assert!(decoded.validate(&query).is_ok());

    let mut truncated = reply_bytes.clone();
    truncated.pop();
    assert!(decode_have_reply(&truncated).is_err());
    let mut trailing = reply_bytes;
    trailing.push(0);
    assert!(decode_have_reply(&trailing).is_err());
}

#[test]
fn have_decoders_reject_zero_oversized_and_wrong_kinds() {
    let count_offset = HAVE_MAGIC.len() + 1 + 32;
    let mut zero = Vec::from(HAVE_MAGIC.as_slice());
    zero.push(1);
    zero.extend_from_slice(&[0; 32]);
    zero.extend_from_slice(&0u32.to_be_bytes());
    assert!(decode_have_query(&zero).is_err());

    let mut oversized = zero;
    oversized[count_offset..count_offset + 4].copy_from_slice(&33u32.to_be_bytes());
    assert!(decode_have_query(&oversized).is_err());

    let mut wrong_kind = must_ok(encode_have_query(&must_ok(HaveQuery::new(
        FileId([1; 32]),
        vec![ChunkId([2; 32])],
    ))));
    wrong_kind[HAVE_MAGIC.len()] = 2;
    assert!(decode_have_query(&wrong_kind).is_err());
}

#[test]
fn pull_request_round_trips() {
    let request = must_ok(PullRequest::new(vec![ChunkId([7; 32]), ChunkId([8; 32])]));
    let bytes = must_ok(encode_pull_request(&request));
    assert!(must_ok(decode_pull_request(&bytes)) == request);
    assert!(decode_pull_request(&bytes[..bytes.len() - 1]).is_err());
}
