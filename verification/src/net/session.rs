//! The decisions of the pair handshake. The connection owner reads and
//! writes frames and runs the key store; at each point these functions say
//! what to send, what to open, and when the pair is established.

use vstd::prelude::*;

use crate::crypto::aead::{opened, sealed, Aes256Gcm, RustCryptoAes256Gcm};
use crate::crypto::wrap::{PairSession, WrapMessage};
use crate::encoding::frames::{header_bytes, nonce, nonce_bytes, packet_aad};
use crate::ids::SeqNum;
use crate::protocol::packet::{ControlPacket, PacketHeader, PayloadType, PROTOCOL_VERSION};
use crate::encoding::frames::{decode_wrap_ack, lemma_wrap_ack_injective, wrap_ack_bytes};
use crate::encoding::identity::{decode_wrap, lemma_wrap_bytes_injective, wrap_bytes, wrap_encodable};
use crate::error::{Error, Result};
use crate::ids::{bytes32_eq, bytes32_lt, lex_lt, Epoch, PeerId};
use crate::net::frame::{Frame, WRAP_ACK_KIND, WRAP_KIND};
use crate::wire::bytes_eq;

verus! {

/// The wrap a party opens the exchange with.
#[derive(Clone, Copy, Debug, PartialEq, Eq)]
pub enum OpeningWrap {
    /// Send the cached wrap again.
    RetryCached,
    /// Raise the watermark to `floor` and send a wrap for the next epoch.
    Create { floor: Epoch },
    /// Send nothing; the peer speaks first.
    Wait,
}

pub open spec fn max_epoch(a: u64, b: u64) -> u64 {
    if a >= b {
        a
    } else {
        b
    }
}

/// The opening of a handshake that may replace the pair. `cached` is the
/// cached wrap's initiator and epoch; `has_active` whether a session is live.
/// A cached wrap of this party at the shared floor is resent when this party
/// is not behind or is the smaller id; otherwise the smaller id starts a new
/// epoch unless both sides agree on a live cached pair.
pub open spec fn opening_wrap(
    local: Seq<u8>,
    peer: Seq<u8>,
    local_epoch: u64,
    remote_epoch: u64,
    cached: Option<(Seq<u8>, u64)>,
    has_active: bool,
) -> OpeningWrap {
    let floor = max_epoch(local_epoch, remote_epoch);
    let eligible = cached matches Some((initiator, epoch)) && initiator == local && epoch == floor && has_active;
    if eligible && (local_epoch >= remote_epoch || lex_lt(local, peer)) {
        OpeningWrap::RetryCached
    } else if lex_lt(local, peer) && (local_epoch != remote_epoch || cached is None || local_epoch == 0
        || !has_active) {
        OpeningWrap::Create { floor: Epoch(floor) }
    } else {
        OpeningWrap::Wait
    }
}

/// A party whose own cached wrap is at the shared floor, with a live
/// session, resends it when it is not behind the peer or is the smaller id.
pub proof fn law_own_cached_wrap_is_resent(
    local: Seq<u8>,
    peer: Seq<u8>,
    local_epoch: u64,
    remote_epoch: u64,
)
    requires
        local_epoch >= remote_epoch || lex_lt(local, peer),
    ensures
        opening_wrap(
            local,
            peer,
            local_epoch,
            remote_epoch,
            Some((local, max_epoch(local_epoch, remote_epoch))),
            true,
        ) == OpeningWrap::RetryCached,
{
}

/// Of the two parties of a pair that hold the same cached wrap (one of
/// theirs, at the shared floor) or none, and agree on whether a session is
/// live, at least one sends a wrap: the handshake never waits on both sides.
pub proof fn law_some_party_opens(
    a: Seq<u8>,
    b: Seq<u8>,
    a_epoch: u64,
    b_epoch: u64,
    cached: Option<(Seq<u8>, u64)>,
    has_active: bool,
)
    requires
        a != b,
        cached matches Some((x, e)) ==> (x == a || x == b) && e == max_epoch(a_epoch, b_epoch),
    ensures
        !(opening_wrap(a, b, a_epoch, b_epoch, cached, has_active) is Wait && opening_wrap(
            b,
            a,
            b_epoch,
            a_epoch,
            cached,
            has_active,
        ) is Wait),
{
    crate::ids::lemma_lex_total(a, b);
    crate::ids::lemma_lex_asymmetric(a, b);
}

pub fn initial_wrap(
    local_id: &PeerId,
    peer_id: &PeerId,
    local_epoch: Epoch,
    remote_epoch: Epoch,
    cached: Option<(PeerId, Epoch)>,
    has_active: bool,
) -> (r: OpeningWrap)
    ensures
        r == opening_wrap(
            local_id@,
            peer_id@,
            local_epoch.0,
            remote_epoch.0,
            match cached {
                Some((i, e)) => Some((i@, e.0)),
                None => None,
            },
            has_active,
        ),
{
    let floor = if local_epoch.0 >= remote_epoch.0 {
        local_epoch.0
    } else {
        remote_epoch.0
    };
    let local_first = bytes32_lt(&local_id.0, &peer_id.0);
    let eligible = match cached {
        Some((initiator, epoch)) => bytes32_eq(&initiator.0, &local_id.0) && epoch.0 == floor && has_active,
        None => false,
    };
    if eligible && (local_epoch.0 >= remote_epoch.0 || local_first) {
        return OpeningWrap::RetryCached;
    }
    if local_first && (local_epoch.0 != remote_epoch.0 || cached.is_none() || local_epoch.0 == 0 || !has_active) {
        return OpeningWrap::Create { floor: Epoch(floor) };
    }
    OpeningWrap::Wait
}

/// The wrap a party opens a candidate exchange with, beside a confirmed
/// pair of epoch `confirmed`.
#[derive(Clone, Copy, Debug, PartialEq, Eq)]
pub enum CandidateOpening {
    /// Send the cached candidate again.
    RetryCached,
    /// Send a candidate wrap for the next epoch.
    Create,
    /// Send nothing; the peer speaks first.
    Wait,
}

/// A cached candidate is resent by its initiator. Without one, the smaller
/// id starts, or the party whose epoch is ahead of the confirmed pair and
/// not behind the peer's.
pub open spec fn candidate_opening_of(
    local: Seq<u8>,
    peer: Seq<u8>,
    local_epoch: u64,
    remote_epoch: u64,
    confirmed: u64,
    cached_initiator: Option<Seq<u8>>,
) -> CandidateOpening {
    match cached_initiator {
        Some(i) => if i == local {
            CandidateOpening::RetryCached
        } else {
            CandidateOpening::Wait
        },
        None => if lex_lt(local, peer) || (local_epoch > confirmed && local_epoch >= remote_epoch) {
            CandidateOpening::Create
        } else {
            CandidateOpening::Wait
        },
    }
}

pub fn candidate_opening(
    local_id: &PeerId,
    peer_id: &PeerId,
    local_epoch: Epoch,
    remote_epoch: Epoch,
    confirmed: Epoch,
    cached_initiator: Option<PeerId>,
) -> (r: CandidateOpening)
    ensures
        r == candidate_opening_of(
            local_id@,
            peer_id@,
            local_epoch.0,
            remote_epoch.0,
            confirmed.0,
            match cached_initiator {
                Some(i) => Some(i@),
                None => None,
            },
        ),
{
    match cached_initiator {
        Some(initiator) => {
            if bytes32_eq(&initiator.0, &local_id.0) {
                CandidateOpening::RetryCached
            } else {
                CandidateOpening::Wait
            }
        },
        None => {
            if bytes32_lt(&local_id.0, &peer_id.0) || (local_epoch.0 > confirmed.0 && local_epoch.0
                >= remote_epoch.0) {
                CandidateOpening::Create
            } else {
                CandidateOpening::Wait
            }
        },
    }
}

/// What to do with the next frame of a wrap exchange.
pub enum HandshakeStep {
    /// A wrap older than the session: check its signature, then read on.
    Stale(WrapMessage),
    /// A wrap to open.
    Open(WrapMessage),
    /// The peer asks for a retry: read on (a candidate exchange first
    /// drops its own candidate).
    RetryAck,
    /// The peer acknowledged the session of this epoch: established.
    Acknowledged(Epoch),
}

/// The next step of a wrap exchange on `frame`. `session` is the epoch of
/// the session being confirmed: the live pair, or in a candidate exchange
/// the candidate.
pub fn handshake_step(frame: &Frame, session: Option<Epoch>, candidate: bool) -> (r: Result<HandshakeStep>)
    ensures
        match r {
            Ok(HandshakeStep::Stale(m)) => frame.kind == WRAP_KIND && frame.payload@ == wrap_bytes(m)
                && wrap_encodable(m) && (session matches Some(s) && m.epoch.0 < s.0),
            Ok(HandshakeStep::Open(m)) => frame.kind == WRAP_KIND && frame.payload@ == wrap_bytes(m)
                && wrap_encodable(m) && !(session matches Some(s) && m.epoch.0 < s.0),
            Ok(HandshakeStep::RetryAck) => frame.kind == WRAP_ACK_KIND && exists|e: Epoch|
                frame.payload@ == #[trigger] wrap_ack_bytes(e, true),
            Ok(HandshakeStep::Acknowledged(e)) => frame.kind == WRAP_ACK_KIND && frame.payload@
                == wrap_ack_bytes(e, false) && session == Some(e),
            Err(e) => if frame.kind == WRAP_KIND {
                e is InvalidInput && forall|m: WrapMessage| wrap_encodable(m) ==> frame.payload@ != #[trigger] wrap_bytes(m)
            } else if frame.kind == WRAP_ACK_KIND {
                (e is InvalidInput && forall|x: Epoch, retry: bool| frame.payload@ != #[trigger] wrap_ack_bytes(x, retry))
                    || (e is KeyUnavailable && session is None && exists|x: Epoch| frame.payload@ == #[trigger] wrap_ack_bytes(x, false))
                    || (e is State && exists|x: Epoch| frame.payload@ == #[trigger] wrap_ack_bytes(x, false) && session is Some && session != Some(x))
            } else {
                e is State
            },
        },
{
    if frame.kind == WRAP_KIND {
        let message = decode_wrap(frame.payload.as_slice())?;
        let stale = match session {
            Some(s) => message.epoch.0 < s.0,
            None => false,
        };
        if stale {
            return Ok(HandshakeStep::Stale(message));
        }
        return Ok(HandshakeStep::Open(message));
    }
    if frame.kind == WRAP_ACK_KIND {
        let (epoch, retry_pending) = decode_wrap_ack(frame.payload.as_slice())?;
        if retry_pending {
            return Ok(HandshakeStep::RetryAck);
        }
        let current = match session {
            Some(s) => s,
            None => {
                return Err(Error::KeyUnavailable);
            },
        };
        if epoch.0 != current.0 {
            if candidate {
                return Err(Error::State("WrapAck epoch does not match admission candidate"));
            }
            return Err(Error::State("WrapAck epoch does not match active session"));
        }
        return Ok(HandshakeStep::Acknowledged(epoch));
    }
    if candidate {
        Err(Error::State("unexpected frame during candidate handshake"))
    } else {
        Err(Error::State("unexpected frame during pair handshake"))
    }
}

/// What follows an attempt to open a wrap.
#[derive(Clone, Copy, Debug, PartialEq, Eq)]
pub enum UnwrapStep {
    /// Acknowledge this epoch asking for a retry, then send the retry wrap.
    AckRetry(Epoch),
    /// Acknowledge this epoch: established.
    Established(Epoch),
    /// The local wrap won the collision; wait for its acknowledgement.
    ReadOn,
}

/// The step after opening a wrap of epoch `message_epoch`: `opened` is the
/// session it gave or why it did not, `collision_pending` whether this
/// party still owes a retry of a colliding wrap.
pub fn after_unwrap(message_epoch: Epoch, opened: Result<Epoch>, collision_pending: bool) -> (r: Result<UnwrapStep>)
    ensures
        match opened {
            Ok(e) => if collision_pending {
                r == Ok::<UnwrapStep, Error>(UnwrapStep::AckRetry(message_epoch))
            } else {
                r == Ok::<UnwrapStep, Error>(UnwrapStep::Established(e))
            },
            Err(Error::EpochConflict { .. }) => r == Ok::<UnwrapStep, Error>(UnwrapStep::ReadOn),
            Err(e) => r matches Err(e2) && e2 == e,
        },
{
    match opened {
        Ok(epoch) => {
            if collision_pending {
                Ok(UnwrapStep::AckRetry(message_epoch))
            } else {
                Ok(UnwrapStep::Established(epoch))
            }
        },
        Err(Error::EpochConflict { .. }) => Ok(UnwrapStep::ReadOn),
        Err(e) => Err(e),
    }
}

/// Whether two wraps are the same bytes for bytes.
pub open spec fn same_wrap(a: WrapMessage, b: WrapMessage) -> bool {
    &&& a.kem_ct@ == b.kem_ct@
    &&& a.wrap_ct@ == b.wrap_ct@
    &&& a.epoch == b.epoch
    &&& a.min_id@ == b.min_id@
    &&& a.max_id@ == b.max_id@
    &&& a.signature@ == b.signature@
}

pub fn wraps_equal(a: &WrapMessage, b: &WrapMessage) -> (r: bool)
    ensures
        r == same_wrap(*a, *b),
{
    bytes_eq(a.kem_ct.as_slice(), b.kem_ct.as_slice()) && bytes_eq(a.wrap_ct.as_slice(), b.wrap_ct.as_slice())
        && a.epoch.0 == b.epoch.0 && bytes32_eq(&a.min_id.0, &b.min_id.0) && bytes32_eq(&a.max_id.0, &b.max_id.0)
        && bytes_eq(a.signature.as_slice(), b.signature.as_slice())
}

/// Whether a handshake keeps the live pair: both hints name its epoch.
pub fn keeps_pair(local_epoch: Epoch, remote_epoch: Epoch, session_epoch: Epoch) -> (r: bool)
    ensures
        r == (local_epoch.0 == session_epoch.0 && remote_epoch.0 == session_epoch.0),
{
    local_epoch.0 == session_epoch.0 && remote_epoch.0 == session_epoch.0
}

/// What the peer's reply means when the live pair is kept.
#[derive(Clone, Copy, Debug, PartialEq, Eq)]
pub enum PreservedStep {
    /// The peer resent the cached wrap: open it, and it must give the live
    /// epoch.
    OpenCached,
    /// The peer acknowledged the live epoch.
    Confirmed,
}

/// The peer's reply while the pair is kept. Its initiator resent the cached
/// wrap; the other side must answer with that same wrap, the initiator with
/// a plain acknowledgement of the live epoch.
pub fn preserved_step(frame: &Frame, local_initiated: bool, cached: &WrapMessage, session_epoch: Epoch) -> (r: Result<
    PreservedStep,
>)
    ensures
        match r {
            Ok(PreservedStep::OpenCached) => frame.kind == WRAP_KIND && !local_initiated && exists|m: WrapMessage|
                frame.payload@ == #[trigger] wrap_bytes(m) && wrap_encodable(m) && same_wrap(m, *cached),
            Ok(PreservedStep::Confirmed) => frame.kind == WRAP_ACK_KIND && local_initiated && frame.payload@
                == wrap_ack_bytes(session_epoch, false),
            Err(e) => e is InvalidInput || e is State,
        },
        (frame.kind == WRAP_KIND && !local_initiated && wrap_encodable(*cached) && frame.payload@ == wrap_bytes(*cached))
            ==> r == Ok::<PreservedStep, Error>(PreservedStep::OpenCached),
        (frame.kind == WRAP_ACK_KIND && local_initiated && frame.payload@ == wrap_ack_bytes(session_epoch, false))
            ==> r == Ok::<PreservedStep, Error>(PreservedStep::Confirmed),
{
    if frame.kind == WRAP_KIND && !local_initiated {
        let incoming = decode_wrap(frame.payload.as_slice())?;
        proof {
            if wrap_encodable(*cached) && frame.payload@ == wrap_bytes(*cached) {
                lemma_wrap_bytes_injective(incoming, *cached);
            }
        }
        if !wraps_equal(&incoming, cached) {
            return Err(Error::State("active pair cannot rotate during another Join"));
        }
        return Ok(PreservedStep::OpenCached);
    }
    if frame.kind == WRAP_ACK_KIND && local_initiated {
        let (epoch, retry_pending) = decode_wrap_ack(frame.payload.as_slice())?;
        proof {
            if frame.payload@ == wrap_ack_bytes(session_epoch, false) {
                lemma_wrap_ack_injective(epoch, retry_pending, session_epoch, false);
            }
        }
        if retry_pending || epoch.0 != session_epoch.0 {
            return Err(Error::State("active pair cannot rotate during another Join"));
        }
        return Ok(PreservedStep::Confirmed);
    }
    Err(Error::State("active pair cannot rotate during another Join"))
}

/// The watermark a wrap from a smaller peer lets this party raise to,
/// before any session exists: the epoch just below the wrap's, when the
/// wrap names this pair in order and that epoch is above `floor`. The
/// wrap's signature is checked before the watermark moves.
pub open spec fn incoming_floor_of(
    has_session: bool,
    local: Seq<u8>,
    peer: Seq<u8>,
    min_id: Seq<u8>,
    max_id: Seq<u8>,
    epoch: u64,
    floor: u64,
) -> Option<u64> {
    if has_session || !lex_lt(peer, local) || min_id != peer || max_id != local || epoch == 0 {
        None
    } else if (epoch - 1) as u64 > floor {
        Some((epoch - 1) as u64)
    } else {
        None
    }
}

pub fn incoming_floor(has_session: bool, local_id: &PeerId, peer_id: &PeerId, message: &WrapMessage, floor: Epoch) -> (r:
    Option<Epoch>)
    ensures
        match r {
            Some(e) => incoming_floor_of(
                has_session,
                local_id@,
                peer_id@,
                message.min_id@,
                message.max_id@,
                message.epoch.0,
                floor.0,
            ) == Some(e.0),
            None => incoming_floor_of(
                has_session,
                local_id@,
                peer_id@,
                message.min_id@,
                message.max_id@,
                message.epoch.0,
                floor.0,
            ) is None,
        },
{
    if has_session {
        return None;
    }
    if !bytes32_lt(&peer_id.0, &local_id.0) || !bytes32_eq(&message.min_id.0, &peer_id.0) || !bytes32_eq(
        &message.max_id.0,
        &local_id.0,
    ) {
        return None;
    }
    if message.epoch.0 == 0 {
        return None;
    }
    let predecessor = message.epoch.0 - 1;
    if predecessor > floor.0 {
        Some(Epoch(predecessor))
    } else {
        None
    }
}

/// The header of the packet that `local` sends on `session` under counter
/// `seq`.
pub open spec fn outbound_header(local: PeerId, session: PairSession, seq: SeqNum) -> PacketHeader {
    PacketHeader {
        version: PROTOCOL_VERSION,
        sender_id: local,
        receiver_id: session.peer(),
        epoch: session.session_epoch(),
        seq,
    }
}

/// Seals `plaintext` as the control packet `local` sends to the session's
/// peer under counter `seq`: its header is the packet's AAD and names the
/// nonce, and the pair key of the session seals it.
pub fn seal_packet(
    aead: &mut RustCryptoAes256Gcm,
    session: &PairSession,
    seq: SeqNum,
    plaintext: &[u8],
) -> (r: Result<ControlPacket>)
    ensures
        final(aead).local() == old(aead).local(),
        forall|h: crate::crypto::aead::PairKeyHandle|
            h.slot != session.handle().slot ==> #[trigger] final(aead).pair(h) == old(aead).pair(h),
        ({
            let header = outbound_header(old(aead).local(), *session, seq);
            let rc = match r {
                Ok(p) => Ok::<Vec<u8>, Error>(p.ciphertext),
                Err(e) => Err::<Vec<u8>, Error>(e),
            };
            &&& r matches Ok(p) ==> p.header == header
            &&& match old(aead).pair(session.handle()) {
                None => r matches Err(e) && e is KeyUnavailable,
                Some(before) => final(aead).pair(session.handle()) matches Some(after) && sealed(
                    before,
                    after,
                    old(aead).local()@,
                    nonce_bytes(header, PayloadType::Packet),
                    header_bytes(header),
                    plaintext@,
                    rc,
                ),
            }
        }),
{
    let header = PacketHeader {
        version: PROTOCOL_VERSION,
        sender_id: aead.local_id(),
        receiver_id: session.get_peer_id(),
        epoch: session.get_epoch(),
        seq,
    };
    let aad = packet_aad(&header);
    let n = nonce(&header, PayloadType::Packet);
    match aead.seal(session.key_handle(), &n, aad.as_slice(), plaintext) {
        Ok(ciphertext) => Ok(ControlPacket { header, ciphertext }),
        Err(e) => Err(e),
    }
}

/// Opens a control packet received on `session`: its header is the AAD and
/// names the nonce, and the session's pair key opens it.
pub fn open_packet(aead: &mut RustCryptoAes256Gcm, session: &PairSession, packet: &ControlPacket) -> (r: Result<Vec<u8>>)
    ensures
        final(aead).local() == old(aead).local(),
        forall|h: crate::crypto::aead::PairKeyHandle|
            h.slot != session.handle().slot ==> #[trigger] final(aead).pair(h) == old(aead).pair(h),
        match old(aead).pair(session.handle()) {
            None => r matches Err(e) && e is KeyUnavailable,
            Some(before) => final(aead).pair(session.handle()) matches Some(after) && opened(
                before,
                after,
                old(aead).local()@,
                nonce_bytes(packet.header, PayloadType::Packet),
                header_bytes(packet.header),
                packet.ciphertext@,
                r,
            ),
        },
{
    let aad = packet_aad(&packet.header);
    let n = nonce(&packet.header, PayloadType::Packet);
    aead.open(session.key_handle(), &n, aad.as_slice(), packet.ciphertext.as_slice())
}

} // verus!
