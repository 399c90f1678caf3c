use quantam_fs::encoding::admission::{decode_vault_metadata, encode_vault_metadata};
use quantam_fs::error::Error;
use quantam_fs::encoding::frames::{decode_control_packet, encode_control_packet};
use quantam_fs::encoding::locate::{decode_pull_request, encode_pull_request};
use quantam_fs::encoding::mailbox::{
    decode_mailbox_envelope, encode_mailbox_envelope, encode_mailbox_frame, mailbox_wire_m, MailboxFrame,
};
use quantam_fs::ids::{ChunkId, Epoch, FileId, PeerId, SeqNum};
use quantam_fs::net::join::VaultMetadata;
use quantam_fs::net::{JoinCode, VaultId};
use quantam_fs::protocol::packet::{ControlPacket, PacketHeader, ReplayWindowState, PROTOCOL_VERSION};
use quantam_fs::protocol::pull::PullRequest;
use quantam_fs::sync::host::MailboxEnvelope;

fn envelope(queued_at: u64, seq: u64) -> MailboxEnvelope {
    let frame = MailboxFrame::ChunkBody { file_id: FileId([6; 32]), index: 2, ciphertext: vec![9, 8, 7] };
    MailboxEnvelope {
        recipient_id: PeerId([2; 32]),
        sender_id: PeerId([1; 32]),
        epoch: Epoch(3),
        seq: SeqNum(seq),
        queued_at,
        ciphertext: encode_mailbox_frame(&frame).unwrap(),
    }
}

#[test]
fn pull_request_reads_back_its_identifiers() {
    let request = PullRequest::new(vec![ChunkId([1; 32]), ChunkId([2; 32]), ChunkId([1; 32])]).unwrap();
    let bytes = encode_pull_request(&request).unwrap();
    assert_eq!(bytes.len(), 4 + 3 * 32);
    let back = decode_pull_request(&bytes).unwrap();
    assert_eq!(back.chunk_ids(), request.chunk_ids());
    assert!(decode_pull_request(&bytes[..bytes.len() - 1]).is_err());
}

#[test]
fn control_packet_reads_back_header_and_ciphertext() {
    let packet = ControlPacket {
        header: PacketHeader {
            version: PROTOCOL_VERSION,
            sender_id: PeerId([1; 32]),
            receiver_id: PeerId([2; 32]),
            epoch: Epoch(5),
            seq: SeqNum(6),
        },
        ciphertext: vec![1, 2, 3, 4],
    };
    let bytes = encode_control_packet(&packet).unwrap();
    assert_eq!(bytes.len(), 81 + 4 + 4);
    let back = decode_control_packet(&bytes).unwrap();
    assert_eq!(back, packet);
    let mut longer = bytes.clone();
    longer.push(0);
    assert!(decode_control_packet(&longer).is_err());
}

#[test]
fn vault_metadata_reads_back_members_in_order() {
    let metadata = VaultMetadata {
        vault_id: VaultId([3; 32]),
        join_code: JoinCode([4; 16]),
        issued_at: 10,
        members: vec![PeerId([9; 32]), PeerId([5; 32])],
    };
    let back = decode_vault_metadata(&encode_vault_metadata(&metadata).unwrap()).unwrap();
    assert_eq!(back.vault_id, metadata.vault_id);
    assert!(back.join_code == metadata.join_code);
    assert_eq!(back.issued_at, 10);
    assert_eq!(back.members, metadata.members);
}

#[test]
fn envelope_reads_back_all_but_queue_time() {
    let e = envelope(77, 4);
    let back = decode_mailbox_envelope(&encode_mailbox_envelope(&e).unwrap()).unwrap();
    assert_eq!(back, MailboxEnvelope { queued_at: 0, ..e });
}

#[test]
fn mailbox_commitment_ignores_queue_times() {
    let a = [envelope(1, 4), envelope(2, 5)];
    let b = [envelope(1000, 4), envelope(0, 5)];
    let wa = mailbox_wire_m(&a).unwrap();
    assert_eq!(wa, mailbox_wire_m(&b).unwrap());
    assert_eq!(&wa[..4], &2u32.to_be_bytes());
}

#[test]
fn replay_window_follows_the_accepted_counters() {
    let mut w = ReplayWindowState::default();
    for s in [5u64, 3, 2000, 1990] {
        assert!(w.accept(SeqNum(s)).is_ok());
    }
    assert_eq!(w.highest_seen, Some(2000));
    // accepted counters are refused, as is anything 1024 or more below the highest
    for s in [2000u64, 1990, 976, 5, 3] {
        assert!(w.check(SeqNum(s)).is_err());
    }
    // unseen counters inside the window, and counters above it, are fresh
    for s in [977u64, 1999, 2001] {
        assert!(w.check(SeqNum(s)).is_ok());
    }
    let before = w;
    assert!(w.accept(SeqNum(1990)).is_err());
    assert_eq!(w, before);
}

#[test]
fn vault_metadata_with_a_repeated_member_is_refused() {
    let metadata = VaultMetadata {
        vault_id: VaultId([3; 32]),
        join_code: JoinCode([4; 16]),
        issued_at: 10,
        members: vec![PeerId([9; 32]), PeerId([5; 32]), PeerId([9; 32])],
    };
    let bytes = encode_vault_metadata(&metadata).unwrap();
    assert!(matches!(decode_vault_metadata(&bytes), Err(Error::InvalidInput("duplicate vault member"))));
}
