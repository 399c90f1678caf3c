//! Vault admission messages.

use vstd::prelude::*;

use crate::crypto::identity::{same_identity, IdentityDocument};
use crate::crypto::sign::{
    join_context, mldsa65_accepts, mldsa65_signing, PureMlDsa, RustCryptoPureMlDsa, SigningKeyHandle,
    JOIN_CONTEXT,
};
use crate::encoding::identity::{identity_fits, identity_m_bytes, join_request_m, join_request_m_bytes};
use crate::encoding::frames::{
    chunk_aad_bytes, control_packet_bytes, chunk_body_bytes, decode_chunk_body_frame, decode_control_packet,
    encode_chunk_body_frame, encode_control_packet, header_bytes,
};
use crate::encoding::mailbox::{
    carried_bytes, decode_mailbox_frame, encode_mailbox_frame, envelope_header, frame_bytes as mailbox_frame_bytes,
    frame_ok as mailbox_frame_ok, lemma_frame_bytes_injective, MailboxFrame,
};
use crate::error::{Error, Result};
use crate::encoding::frames::{decode_wrap_ack, wrap_ack_bytes};
use crate::ids::{bytes32_eq, Epoch};
use crate::net::frame::{frame_ok, Frame, GCM_CHUNK_KIND, GCM_PACKET_KIND, WRAP_ACK_KIND};
use crate::net::bytes16_eq;
use crate::protocol::manifest::{contains_peer, is_member};
use crate::protocol::packet::{ControlPacket, PacketHeader, PROTOCOL_VERSION};
use crate::protocol::pull::ChunkBodyFrame;
use crate::sync::host::MailboxEnvelope;
use crate::ids::PeerId;
use crate::net::{JoinCode, VaultId};
use crate::sync::host::FlushChallenge;

verus! {

/// A member's signed request to join a vault with its join code.
#[derive(Clone, PartialEq, Eq)]
pub struct JoinRequest {
    pub vault_id: VaultId,
    pub join_code: JoinCode,
    pub document: IdentityDocument,
    pub signature: Vec<u8>,
}

/// The request carries exactly the identity exchanged on the connection and
/// a valid join signature by it.
pub open spec fn join_verified(request: JoinRequest, exchanged: IdentityDocument) -> bool {
    &&& same_identity(request.document, exchanged)
    &&& identity_fits(request.document)
    &&& mldsa65_accepts(exchanged.vk@, join_context(), join_request_m_bytes(request), request.signature@)
}

impl JoinRequest {
    /// A request to join `vault_id` with `join_code`, carrying the member's
    /// own identity `document` and signed with its `signing_key`.
    pub fn sign(document: IdentityDocument, signing_key: &SigningKeyHandle, vault_id: VaultId, join_code: JoinCode) -> (r:
        Result<Self>)
        ensures
            match r {
                Ok(q) => {
                    &&& same_identity(q.document, document)
                    &&& q.vault_id@ == vault_id@
                    &&& q.join_code@ == join_code@
                    &&& identity_fits(document)
                    &&& mldsa65_signing(signing_key.seed_bytes(), join_context(), join_request_m_bytes(q))
                        == Some(q.signature@)
                },
                Err(e) => (e is InvalidInput && !identity_fits(document)) || (e is AuthenticationFailed
                    && identity_fits(document) && mldsa65_signing(
                    signing_key.seed_bytes(),
                    join_context(),
                    vault_id@ + (join_code@ + identity_m_bytes(document)),
                ) is None),
            },
    {
        let mut request = JoinRequest { vault_id, join_code, document, signature: Vec::new() };
        let message = join_request_m(&request)?;
        let signature = RustCryptoPureMlDsa.sign(signing_key, &JOIN_CONTEXT, message.as_slice())?;
        request.signature = signature;
        Ok(request)
    }

    /// The request carries exactly the identity exchanged on this connection
    /// and a valid join signature by it.
    pub fn verify(&self, exchanged: &IdentityDocument) -> (r: Result<()>)
        ensures
            r is Ok <==> join_verified(*self, *exchanged),
            r matches Err(e) ==> e is AuthenticationFailed || e is InvalidInput,
    {
        if !self.document.same_as(exchanged) {
            return Err(Error::AuthenticationFailed);
        }
        let message = join_request_m(self)?;
        RustCryptoPureMlDsa.verify(exchanged.vk.as_slice(), &JOIN_CONTEXT, message.as_slice(), self.signature.as_slice())
    }
}

#[derive(Clone, PartialEq, Eq)]
pub struct NetWelcome {
    pub vault_id: VaultId,
    pub members: Vec<IdentityDocument>,
}

#[derive(Clone, PartialEq, Eq)]
pub struct FlushOffer {
    pub challenge: FlushChallenge,
    pub frame_count: u32,
}

/// Encrypted controls exchanged on a live host connection.
#[derive(Clone, PartialEq, Eq)]
pub enum NetControl {
    JoinAccepted { vault_id: VaultId, members: Vec<IdentityDocument> },
    FlushEnd { digest: [u8; 32] },
    FlushApplied { digest: [u8; 32] },
    Ready,
    Heartbeat,
    HeartbeatApplied { through: u64 },
}

/// The host's durable admission record of one vault.
#[derive(Clone, PartialEq, Eq)]
pub struct VaultMetadata {
    pub vault_id: VaultId,
    pub join_code: JoinCode,
    pub issued_at: u64,
    pub members: Vec<PeerId>,
}

/// The live frame kind that carries a mailbox frame.
pub open spec fn carrier_kind(f: MailboxFrame) -> u8 {
    match f {
        MailboxFrame::Control { .. } => GCM_PACKET_KIND,
        MailboxFrame::ChunkBody { .. } => GCM_CHUNK_KIND,
    }
}

/// The frame that delivers a queued envelope during a mailbox drain: its
/// sealed packet or chunk body under the envelope's own header.
pub fn body_frame(envelope: &MailboxEnvelope) -> (r: Result<Frame>)
    ensures
        match r {
            Ok(f) => exists|m: MailboxFrame|
                mailbox_frame_ok(m) && envelope.ciphertext@ == #[trigger] mailbox_frame_bytes(m) && f.kind
                    == carrier_kind(m) && f.payload@ == carried_bytes(envelope_header(*envelope), m)
                    && frame_ok(f.kind, f.payload@.len() as int),
            Err(e) => e is InvalidInput && forall|m: MailboxFrame|
                mailbox_frame_ok(m) && envelope.ciphertext@ == #[trigger] mailbox_frame_bytes(m) ==> !frame_ok(
                    carrier_kind(m),
                    carried_bytes(envelope_header(*envelope), m).len() as int,
                ),
        },
{
    let header = PacketHeader {
        version: PROTOCOL_VERSION,
        sender_id: envelope.sender_id,
        receiver_id: envelope.recipient_id,
        epoch: envelope.epoch,
        seq: envelope.seq,
    };
    let ghost h = envelope_header(*envelope);
    assert(header == h);
    let frame = decode_mailbox_frame(envelope.ciphertext.as_slice())?;
    proof {
        assert forall|m: MailboxFrame|
            mailbox_frame_ok(m) && envelope.ciphertext@ == #[trigger] mailbox_frame_bytes(m) implies carried_bytes(
            h,
            m,
        ) == carried_bytes(h, frame) && carrier_kind(m) == carrier_kind(frame) by {
            lemma_frame_bytes_injective(m, frame, h);
            assert(mailbox_frame_bytes(m)[0] == mailbox_frame_bytes(frame)[0]);
        }
    }
    match frame {
        MailboxFrame::Control { ciphertext } => {
            let packet = ControlPacket { header, ciphertext };
            let payload = encode_control_packet(&packet)?;
            proof {
                let m = MailboxFrame::Control { ciphertext: packet.ciphertext };
                assert(payload@ == carried_bytes(h, m));
            }
            Frame::new(GCM_PACKET_KIND, payload)
        },
        MailboxFrame::ChunkBody { file_id, index, ciphertext } => {
            let body = ChunkBodyFrame { header, file_id, index, ciphertext };
            let payload = encode_chunk_body_frame(&body)?;
            proof {
                let m = MailboxFrame::ChunkBody { file_id, index, ciphertext: body.ciphertext };
                assert(payload@ == carried_bytes(h, m));
            }
            Frame::new(GCM_CHUNK_KIND, payload)
        },
    }
}

/// The envelope a member queues from a frame received during a mailbox
/// drain; the local queue time of a received envelope is zero.
pub fn queued_frame(received: Frame) -> (r: Result<MailboxEnvelope>)
    ensures
        match r {
            Ok(e) => e.queued_at == 0 && exists|m: MailboxFrame|
                mailbox_frame_ok(m) && e.ciphertext@ == #[trigger] mailbox_frame_bytes(m) && received.kind
                    == carrier_kind(m) && received.payload@ == carried_bytes(envelope_header(e), m),
            Err(e) => ((e is State && received.kind != GCM_PACKET_KIND && received.kind != GCM_CHUNK_KIND)
                || (e is InvalidInput && (received.kind == GCM_PACKET_KIND || received.kind == GCM_CHUNK_KIND)))
                && (e is InvalidInput ==> forall|h: PacketHeader, m: MailboxFrame|
                    h.version == PROTOCOL_VERSION && mailbox_frame_ok(m) && received.kind == carrier_kind(m)
                        ==> received.payload@ != #[trigger] carried_bytes(h, m)),
        },
{
    let (header, inner) = if received.kind == GCM_PACKET_KIND {
        let packet = match decode_control_packet(received.payload.as_slice()) {
            Ok(p) => p,
            Err(e) => {
                proof {
                    assert forall|h: PacketHeader, m: MailboxFrame|
                        h.version == PROTOCOL_VERSION && mailbox_frame_ok(m) && received.kind == carrier_kind(m)
                            implies received.payload@ != #[trigger] carried_bytes(h, m) by {
                        if let MailboxFrame::Control { ciphertext } = m {
                            let p = ControlPacket { header: h, ciphertext };
                            assert(control_packet_bytes(p) == carried_bytes(h, m));
                        }
                    }
                }
                return Err(e);
            },
        };
        (packet.header, MailboxFrame::Control { ciphertext: packet.ciphertext })
    } else if received.kind == GCM_CHUNK_KIND {
        let body = match decode_chunk_body_frame(received.payload.as_slice()) {
            Ok(b) => b,
            Err(e) => {
                proof {
                    assert forall|h: PacketHeader, m: MailboxFrame|
                        h.version == PROTOCOL_VERSION && mailbox_frame_ok(m) && received.kind == carrier_kind(m)
                            implies received.payload@ != #[trigger] carried_bytes(h, m) by {
                        if let MailboxFrame::ChunkBody { file_id, index, ciphertext } = m {
                            let f = ChunkBodyFrame { header: h, file_id, index, ciphertext };
                            assert(chunk_body_bytes(f) == carried_bytes(h, m));
                        }
                    }
                }
                return Err(e);
            },
        };
        (body.header, MailboxFrame::ChunkBody { file_id: body.file_id, index: body.index, ciphertext: body.ciphertext })
    } else {
        return Err(Error::State("unexpected frame during mailbox drain"));
    };
    let ciphertext = encode_mailbox_frame(&inner)?;
    let envelope = MailboxEnvelope {
        sender_id: header.sender_id,
        recipient_id: header.receiver_id,
        epoch: header.epoch,
        seq: header.seq,
        queued_at: 0,
        ciphertext,
    };
    proof {
        assert(envelope_header(envelope) == header);
        assert(received.payload@ == carried_bytes(header, inner));
    }
    Ok(envelope)
}

pub const MAX_CONNECTIONS: usize = 128;

pub const MAX_PROVISIONAL: usize = 32;

pub const MAX_DRAIN_BYTES: usize = 67108864;

pub const MAX_DRAIN_FRAMES: u32 = 100000;

/// Seconds since the Unix epoch from the system clock.
#[verifier::external_body]
pub fn unix_time() -> (r: Result<u64>)
    ensures
        r matches Err(e) ==> e is State,
{
    match std::time::SystemTime::now().duration_since(std::time::UNIX_EPOCH) {
        Ok(elapsed) => Ok(elapsed.as_secs()),
        Err(_) => Err(Error::State("clock predates Unix epoch")),
    }
}

/// A directory advertisement time: now, but always after the last one.
pub fn next_ad_time(now: u64, last_issued: u64) -> (r: Result<u64>)
    ensures
        match r {
            Ok(t) => last_issued < u64::MAX && t == (if now > last_issued + 1 {
                now
            } else {
                (last_issued + 1) as u64
            }),
            Err(e) => last_issued == u64::MAX && e is State,
        },
{
    if last_issued == u64::MAX {
        return Err(Error::State("ad timestamp exhausted"));
    }
    let next = last_issued + 1;
    if now > next {
        Ok(now)
    } else {
        Ok(next)
    }
}

/// The admission record after accepting `peer`: the join request must be
/// signed by the exchanged identity for this vault's current code, and the
/// host must be running. A returning member is not listed twice.
pub fn admitted_metadata(
    metadata: &VaultMetadata,
    request: &JoinRequest,
    peer: &IdentityDocument,
    running: bool,
) -> (r: Result<VaultMetadata>)
    ensures
        match r {
            Ok(m) => {
                &&& join_verified(*request, *peer)
                &&& request.vault_id@ == metadata.vault_id@
                &&& request.join_code@ == metadata.join_code@
                &&& running
                &&& m.vault_id == metadata.vault_id
                &&& m.join_code == metadata.join_code
                &&& m.issued_at == metadata.issued_at
                &&& m.members@ == (if is_member(metadata.members@, peer.peer_id@) {
                    metadata.members@
                } else {
                    metadata.members@.push(peer.peer_id)
                })
            },
            Err(e) => !(join_verified(*request, *peer) && request.vault_id@ == metadata.vault_id@
                && request.join_code@ == metadata.join_code@ && running) && (e is AuthenticationFailed
                || e is InvalidInput || e is State),
        },
{
    request.verify(peer)?;
    if !bytes32_eq(&request.vault_id.0, &metadata.vault_id.0) || !bytes16_eq(&request.join_code.0, &metadata.join_code.0) {
        return Err(Error::AuthenticationFailed);
    }
    if !running {
        return Err(Error::State("host is not running"));
    }
    let mut members: Vec<PeerId> = Vec::new();
    let mut i: usize = 0;
    while i < metadata.members.len()
        invariant
            i <= metadata.members@.len(),
            members@ == metadata.members@.take(i as int),
        decreases metadata.members@.len() - i,
    {
        members.push(metadata.members[i]);
        i = i + 1;
        assert(members@ =~= metadata.members@.take(i as int));
    }
    assert(metadata.members@.take(metadata.members@.len() as int) =~= metadata.members@);
    if !contains_peer(metadata.members.as_slice(), &peer.peer_id) {
        members.push(peer.peer_id);
    }
    Ok(VaultMetadata {
        vault_id: metadata.vault_id,
        join_code: metadata.join_code,
        issued_at: metadata.issued_at,
        members,
    })
}

/// Whether a received frame repeats the acknowledgement of the epoch in
/// force, which a reader passes over.
pub fn repeated_wrap_ack(frame: &Frame, epoch: Epoch) -> (r: Result<bool>)
    ensures
        match r {
            Ok(skip) => skip == (frame.kind == WRAP_ACK_KIND && frame.payload@ == wrap_ack_bytes(epoch, false)),
            Err(e) => e is InvalidInput && frame.kind == WRAP_ACK_KIND && forall|a: Epoch, retry: bool|
                frame.payload@ != #[trigger] wrap_ack_bytes(a, retry),
        },
{
    if frame.kind != WRAP_ACK_KIND {
        return Ok(false);
    }
    let (ack, retry) = decode_wrap_ack(frame.payload.as_slice())?;
    proof {
        if frame.payload@ == wrap_ack_bytes(epoch, false) {
            crate::encoding::frames::lemma_wrap_ack_injective(ack, retry, epoch, false);
        }
    }
    Ok(ack.0 == epoch.0 && !retry)
}

/// A mailbox drain's size so far after one more frame of `len` bytes.
pub fn drained_bytes(total: usize, len: usize) -> (r: Result<usize>)
    ensures
        match r {
            Ok(t) => t == total + len && t <= MAX_DRAIN_BYTES,
            Err(e) => e is InvalidInput && total + len > MAX_DRAIN_BYTES,
        },
{
    if len > MAX_DRAIN_BYTES || total > MAX_DRAIN_BYTES - len {
        return Err(Error::InvalidInput("mailbox memory budget exceeded"));
    }
    Ok(total + len)
}

} // verus!
