use quantam_fs::crypto::identity::IdentityDocument;
use quantam_fs::crypto::sign::{PureMlDsa, RustCryptoPureMlDsa, SigningKeyHandle, IDENTITY_CONTEXT};
use quantam_fs::encoding::frames::encode_wrap_ack;
use quantam_fs::encoding::identity::identity_m;
use quantam_fs::encoding::mailbox::{encode_mailbox_frame, MailboxFrame};
use quantam_fs::error::Error;
use quantam_fs::ids::{Epoch, FileId, PeerId, SeqNum};
use quantam_fs::net::frame::{Frame, GCM_CHUNK_KIND, GCM_PACKET_KIND, WRAP_ACK_KIND};
use quantam_fs::net::join::{
    admitted_metadata, body_frame, drained_bytes, next_ad_time, queued_frame, repeated_wrap_ack,
    JoinRequest, VaultMetadata, MAX_DRAIN_BYTES,
};
use quantam_fs::net::{JoinCode, VaultId};
use quantam_fs::sync::host::MailboxEnvelope;

fn identity(seed: u8) -> (IdentityDocument, SigningKeyHandle) {
    let key = SigningKeyHandle::from_seed([seed; 32]);
    let vk = key.verification_key();
    let mut document = IdentityDocument {
        peer_id: IdentityDocument::peer_id_for(&vk),
        ek: vec![seed; 4],
        vk,
        created_at: 9,
        signature: Vec::new(),
    };
    let message = identity_m(&document).unwrap();
    document.signature = RustCryptoPureMlDsa.sign(&key, &IDENTITY_CONTEXT, &message).unwrap();
    (document, key)
}

fn envelope(frame: &MailboxFrame) -> MailboxEnvelope {
    MailboxEnvelope {
        recipient_id: PeerId([2; 32]),
        sender_id: PeerId([1; 32]),
        epoch: Epoch(3),
        seq: SeqNum(4),
        queued_at: 77,
        ciphertext: encode_mailbox_frame(frame).unwrap(),
    }
}

#[test]
fn queued_envelopes_travel_as_their_sealed_frames_and_come_back() {
    for frame in [
        MailboxFrame::Control { ciphertext: vec![5; 20] },
        MailboxFrame::ChunkBody { file_id: FileId([6; 32]), index: 2, ciphertext: vec![7; 30] },
    ] {
        let queued = envelope(&frame);
        let live = body_frame(&queued).unwrap();
        let expected_kind = match frame {
            MailboxFrame::Control { .. } => GCM_PACKET_KIND,
            MailboxFrame::ChunkBody { .. } => GCM_CHUNK_KIND,
        };
        assert_eq!(live.kind, expected_kind);
        let received = queued_frame(live).unwrap();
        assert_eq!(received.queued_at, 0);
        assert!(received.sender_id == queued.sender_id);
        assert!(received.recipient_id == queued.recipient_id);
        assert_eq!(received.epoch, queued.epoch);
        assert_eq!(received.seq, queued.seq);
        assert_eq!(received.ciphertext, queued.ciphertext);
    }
}

#[test]
fn drain_refuses_other_frames_and_damaged_envelopes() {
    assert!(matches!(
        queued_frame(Frame::new(WRAP_ACK_KIND, vec![0; 9]).unwrap()),
        Err(Error::State(_))
    ));
    assert!(matches!(
        queued_frame(Frame::new(GCM_PACKET_KIND, vec![0; 3]).unwrap()),
        Err(Error::InvalidInput(_))
    ));
    let mut broken = envelope(&MailboxFrame::Control { ciphertext: vec![1] });
    broken.ciphertext[0] = 9;
    assert!(body_frame(&broken).is_err());
}

#[test]
fn ad_times_always_advance() {
    assert_eq!(next_ad_time(100, 5).unwrap(), 100);
    assert_eq!(next_ad_time(100, 100).unwrap(), 101);
    assert_eq!(next_ad_time(0, 0).unwrap(), 1);
    assert!(matches!(next_ad_time(5, u64::MAX), Err(Error::State(_))));
}

#[test]
fn admission_needs_the_current_code_and_adds_a_member_once() {
    let (host, _) = identity(1);
    let (member, key) = identity(2);
    let metadata = VaultMetadata {
        vault_id: VaultId([3; 32]),
        join_code: JoinCode([4; 16]),
        issued_at: 10,
        members: vec![host.peer_id],
    };
    let request = JoinRequest::sign(member.duplicate(), &key, metadata.vault_id, metadata.join_code).unwrap();
    let admitted = admitted_metadata(&metadata, &request, &member, true).unwrap();
    assert_eq!(admitted.members.len(), 2);
    assert!(admitted.members[1] == member.peer_id);
    let again = admitted_metadata(&admitted, &request, &member, true).unwrap();
    assert_eq!(again.members.len(), 2);
    assert!(matches!(
        admitted_metadata(&metadata, &request, &member, false),
        Err(Error::State(_))
    ));
    let stale = JoinRequest::sign(member.duplicate(), &key, metadata.vault_id, JoinCode([5; 16])).unwrap();
    assert!(matches!(
        admitted_metadata(&metadata, &stale, &member, true),
        Err(Error::AuthenticationFailed)
    ));
    assert!(admitted_metadata(&metadata, &request, &host, true).is_err());
}

#[test]
fn only_a_repeated_ack_of_the_current_epoch_is_skipped() {
    let ack = Frame::new(WRAP_ACK_KIND, encode_wrap_ack(Epoch(8), false).to_vec()).unwrap();
    assert!(repeated_wrap_ack(&ack, Epoch(8)).unwrap());
    assert!(!repeated_wrap_ack(&ack, Epoch(9)).unwrap());
    let retry = Frame::new(WRAP_ACK_KIND, encode_wrap_ack(Epoch(8), true).to_vec()).unwrap();
    assert!(!repeated_wrap_ack(&retry, Epoch(8)).unwrap());
    let other = Frame::new(GCM_PACKET_KIND, vec![1]).unwrap();
    assert!(!repeated_wrap_ack(&other, Epoch(8)).unwrap());
    let damaged = Frame::new(WRAP_ACK_KIND, vec![0; 3]).unwrap();
    assert!(repeated_wrap_ack(&damaged, Epoch(8)).is_err());
}

#[test]
fn drain_size_is_bounded() {
    assert_eq!(drained_bytes(10, 5).unwrap(), 15);
    assert_eq!(drained_bytes(0, MAX_DRAIN_BYTES).unwrap(), MAX_DRAIN_BYTES);
    assert!(drained_bytes(MAX_DRAIN_BYTES, 1).is_err());
    assert!(drained_bytes(1, usize::MAX).is_err());
}
