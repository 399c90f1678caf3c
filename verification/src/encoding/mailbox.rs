//! Mailbox frames, queued envelopes in transport form, and the ordered
//! mailbox commitment a recipient acknowledges.

use vstd::prelude::*;

use crate::crypto::hash::{sha256, sha256_digest};
use crate::encoding::frames::{
    chunk_aad_bytes, chunk_body_bytes, control_packet_bytes, decode_chunk_body_frame,
    decode_control_packet, encode_chunk_body_frame, encode_control_packet, header_bytes,
    lemma_header_bytes_injective, lemma_header_len,
};
use crate::error::{Error, Result};
use crate::ids::{Epoch, FileId, PeerId, SeqNum};
use crate::protocol::packet::{ControlPacket, PacketHeader, PROTOCOL_VERSION};
use crate::protocol::pull::ChunkBodyFrame;
use crate::sync::host::MailboxEnvelope;
use crate::wire::{
    be64, fits_u32, flat, lemma_be64, lemma_flat_push, lemma_take_bytes, lemma_take_u64,
    lemma_take_var, push_array32, push_length, push_u64, push_variable, var, Reader,
};

verus! {

/// The typed content of a mailbox envelope. The ciphertext is already
/// pairwise GCM output; the framing adds no further encryption.
#[derive(Clone, Debug, PartialEq, Eq)]
pub enum MailboxFrame {
    Control { ciphertext: Vec<u8> },
    ChunkBody { file_id: FileId, index: u64, ciphertext: Vec<u8> },
}

pub open spec fn frame_bytes(f: MailboxFrame) -> Seq<u8> {
    match f {
        MailboxFrame::Control { ciphertext } => seq![0u8] + var(ciphertext@),
        MailboxFrame::ChunkBody { file_id, index, ciphertext } => seq![1u8] + (file_id@ + (be64(
            index,
        ) + var(ciphertext@))),
    }
}

pub open spec fn frame_ok(f: MailboxFrame) -> bool {
    match f {
        MailboxFrame::Control { ciphertext } => fits_u32(ciphertext@.len() as int),
        MailboxFrame::ChunkBody { ciphertext, .. } => fits_u32(ciphertext@.len() as int),
    }
}

pub fn encode_mailbox_frame(frame: &MailboxFrame) -> (r: Result<Vec<u8>>)
    ensures
        match r {
            Ok(v) => v@ == frame_bytes(*frame) && frame_ok(*frame),
            Err(e) => e is InvalidInput && !frame_ok(*frame),
        },
{
    let mut out: Vec<u8> = Vec::new();
    match frame {
        MailboxFrame::Control { ciphertext } => {
            out.push(0);
            push_variable(&mut out, ciphertext.as_slice())?;
        },
        MailboxFrame::ChunkBody { file_id, index, ciphertext } => {
            out.push(1);
            push_array32(&mut out, &file_id.0);
            push_u64(&mut out, *index);
            push_variable(&mut out, ciphertext.as_slice())?;
        },
    }
    assert(out@ =~= frame_bytes(*frame));
    Ok(out)
}

pub fn decode_mailbox_frame(bytes: &[u8]) -> (r: Result<MailboxFrame>)
    ensures
        match r {
            Ok(f) => bytes@ == frame_bytes(f) && frame_ok(f),
            Err(e) => e is InvalidInput && forall|f: MailboxFrame|
                frame_ok(f) ==> bytes@ != #[trigger] frame_bytes(f),
        },
{
    let ghost s = bytes@;
    let ghost target = choose|f: MailboxFrame| frame_ok(f) && s == #[trigger] frame_bytes(f);
    let ghost canon = frame_ok(target) && s == frame_bytes(target);
    proof {
        if canon {
            match target {
                MailboxFrame::Control { ciphertext } => {
                    assert(s =~= seq![0u8] + (var(ciphertext@) + Seq::<u8>::empty()));
                    lemma_take_var(ciphertext@, Seq::<u8>::empty());
                },
                MailboxFrame::ChunkBody { file_id, index, ciphertext } => {
                    assert(s =~= seq![1u8] + (file_id@ + (be64(index) + (var(ciphertext@) + Seq::<u8>::empty()))));
                    lemma_take_bytes(file_id@, be64(index) + (var(ciphertext@) + Seq::<u8>::empty()));
                    lemma_take_u64(index, var(ciphertext@) + Seq::<u8>::empty());
                    lemma_take_var(ciphertext@, Seq::<u8>::empty());
                },
            }
        }
    }
    let mut reader = Reader::new(bytes);
    let kind = reader.byte()?;
    if kind == 0 {
        let ciphertext = reader.variable()?;
        reader.finish()?;
        let f = MailboxFrame::Control { ciphertext: vstd::slice::slice_to_vec(ciphertext) };
        assert(s =~= frame_bytes(f));
        Ok(f)
    } else if kind == 1 {
        let file_id = FileId(reader.array32()?);
        let index = reader.u64()?;
        let ciphertext = reader.variable()?;
        reader.finish()?;
        let f = MailboxFrame::ChunkBody {
            file_id,
            index,
            ciphertext: vstd::slice::slice_to_vec(ciphertext),
        };
        assert(s =~= frame_bytes(f));
        Ok(f)
    } else {
        Err(Error::InvalidInput("unknown mailbox frame kind"))
    }
}

/// The packet header an envelope travels under.
pub open spec fn envelope_header(e: MailboxEnvelope) -> PacketHeader {
    PacketHeader {
        version: PROTOCOL_VERSION,
        sender_id: e.sender_id,
        receiver_id: e.recipient_id,
        epoch: e.epoch,
        seq: e.seq,
    }
}

/// The packet or chunk-body frame that carries `f` under header `h`.
pub open spec fn carried_bytes(h: PacketHeader, f: MailboxFrame) -> Seq<u8> {
    match f {
        MailboxFrame::Control { ciphertext } => header_bytes(h) + var(ciphertext@),
        MailboxFrame::ChunkBody { file_id, index, ciphertext } => chunk_aad_bytes(h, file_id, index)
            + var(ciphertext@),
    }
}

pub open spec fn transport_bytes(h: PacketHeader, f: MailboxFrame) -> Seq<u8> {
    match f {
        MailboxFrame::Control { .. } => seq![0u8] + var(carried_bytes(h, f)),
        MailboxFrame::ChunkBody { .. } => seq![1u8] + var(carried_bytes(h, f)),
    }
}

pub open spec fn transport_fits(h: PacketHeader, f: MailboxFrame) -> bool {
    frame_ok(f) && fits_u32(carried_bytes(h, f).len() as int)
}

/// A frame is determined by its bytes.
pub proof fn lemma_frame_bytes_injective(f: MailboxFrame, g: MailboxFrame, h: PacketHeader)
    requires
        frame_ok(f),
        frame_ok(g),
        frame_bytes(f) == frame_bytes(g),
    ensures
        carried_bytes(h, f) == carried_bytes(h, g),
        transport_bytes(h, f) == transport_bytes(h, g),
{
    let s = frame_bytes(f);
    assert(s[0] == frame_bytes(g)[0]);
    match (f, g) {
        (MailboxFrame::Control { ciphertext: a }, MailboxFrame::Control { ciphertext: b }) => {
            lemma_take_var(a@, Seq::<u8>::empty());
            lemma_take_var(b@, Seq::<u8>::empty());
            assert(s.skip(1) =~= var(a@) + Seq::<u8>::empty());
            assert(s.skip(1) =~= var(b@) + Seq::<u8>::empty());
            assert(a@ == b@);
        },
        (
            MailboxFrame::ChunkBody { file_id: fa, index: ia, ciphertext: a },
            MailboxFrame::ChunkBody { file_id: fb, index: ib, ciphertext: b },
        ) => {
            let ta = fa@ + (be64(ia) + (var(a@) + Seq::<u8>::empty()));
            let tb = fb@ + (be64(ib) + (var(b@) + Seq::<u8>::empty()));
            assert(s.skip(1) =~= ta);
            assert(s.skip(1) =~= tb);
            lemma_take_bytes(fa@, be64(ia) + (var(a@) + Seq::<u8>::empty()));
            lemma_take_bytes(fb@, be64(ib) + (var(b@) + Seq::<u8>::empty()));
            lemma_take_u64(ia, var(a@) + Seq::<u8>::empty());
            lemma_take_u64(ib, var(b@) + Seq::<u8>::empty());
            lemma_take_var(a@, Seq::<u8>::empty());
            lemma_take_var(b@, Seq::<u8>::empty());
            assert(fa@ == fb@);
            assert(ia == ib);
            assert(a@ == b@);
        },
        (MailboxFrame::Control { .. }, MailboxFrame::ChunkBody { .. }) => {
            assert(frame_bytes(f)[0] == 0u8);
            assert(frame_bytes(g)[0] == 1u8);
        },
        (MailboxFrame::ChunkBody { .. }, MailboxFrame::Control { .. }) => {
            assert(frame_bytes(f)[0] == 1u8);
            assert(frame_bytes(g)[0] == 0u8);
        },
    }
}

/// Transport form for a queued envelope. `queued_at` is local host metadata
/// and is left out; a received envelope reconstructs it as zero.
pub fn encode_mailbox_envelope(envelope: &MailboxEnvelope) -> (r: Result<Vec<u8>>)
    ensures
        match r {
            Ok(v) => exists|f: MailboxFrame|
                frame_ok(f) && envelope.ciphertext@ == frame_bytes(f) && transport_fits(
                    envelope_header(*envelope),
                    f,
                ) && v@ == #[trigger] transport_bytes(envelope_header(*envelope), f),
            Err(e) => e is InvalidInput && forall|f: MailboxFrame|
                frame_ok(f) && envelope.ciphertext@ == #[trigger] frame_bytes(f) ==> !transport_fits(
                    envelope_header(*envelope),
                    f,
                ),
        },
{
    let header = PacketHeader {
        version: PROTOCOL_VERSION,
        sender_id: envelope.sender_id,
        receiver_id: envelope.recipient_id,
        epoch: envelope.epoch,
        seq: envelope.seq,
    };
    let ghost h = envelope_header(*envelope);
    assert(header == h);
    let frame = decode_mailbox_frame(envelope.ciphertext.as_slice())?;
    proof {
        assert forall|f: MailboxFrame|
            frame_ok(f) && envelope.ciphertext@ == #[trigger] frame_bytes(f) implies carried_bytes(h, f)
            == carried_bytes(h, frame) && transport_bytes(h, f) == transport_bytes(h, frame) by {
            lemma_frame_bytes_injective(f, frame, h);
        }
    }
    let mut out: Vec<u8> = Vec::new();
    match frame {
        MailboxFrame::Control { ciphertext } => {
            let packet = ControlPacket { header, ciphertext };
            let encoded = encode_control_packet(&packet)?;
            out.push(0);
            push_variable(&mut out, encoded.as_slice())?;
            proof {
                let f = MailboxFrame::Control { ciphertext: packet.ciphertext };
                assert(out@ =~= transport_bytes(h, f));
            }
        },
        MailboxFrame::ChunkBody { file_id, index, ciphertext } => {
            let body = ChunkBodyFrame { header, file_id, index, ciphertext };
            let encoded = encode_chunk_body_frame(&body)?;
            out.push(1);
            push_variable(&mut out, encoded.as_slice())?;
            proof {
                let f = MailboxFrame::ChunkBody { file_id, index, ciphertext: body.ciphertext };
                assert(out@ =~= transport_bytes(h, f));
            }
        },
    }
    Ok(out)
}

/// The envelope a transport form stands for; `queued_at` is zero.
#[verifier::spinoff_prover]
pub fn decode_mailbox_envelope(bytes: &[u8]) -> (r: Result<MailboxEnvelope>)
    ensures
        match r {
            Ok(e) => e.queued_at == 0 && exists|f: MailboxFrame|
                frame_ok(f) && e.ciphertext@ == frame_bytes(f) && transport_fits(
                    envelope_header(e),
                    f,
                ) && bytes@ == #[trigger] transport_bytes(envelope_header(e), f),
            Err(e) => e is InvalidInput && forall|h: PacketHeader, f: MailboxFrame|
                h.version == PROTOCOL_VERSION && transport_fits(h, f) ==> bytes@
                    != #[trigger] transport_bytes(h, f),
        },
{
    let ghost s = bytes@;
    let ghost target = choose|h: PacketHeader, f: MailboxFrame|
        h.version == PROTOCOL_VERSION && transport_fits(h, f) && s == #[trigger] transport_bytes(h, f);
    let ghost canon = target.0.version == PROTOCOL_VERSION && transport_fits(target.0, target.1)
        && s == transport_bytes(target.0, target.1);
    proof {
        assert forall|h: PacketHeader, f: MailboxFrame|
            h.version == PROTOCOL_VERSION && transport_fits(h, f) && s == #[trigger] transport_bytes(h, f)
            implies canon by {}
    }
    proof {
        if canon {
            let (h, f) = target;
            assert(s == seq![s[0]] + (var(carried_bytes(h, f)) + Seq::<u8>::empty()));
            lemma_take_var(carried_bytes(h, f), Seq::<u8>::empty());
        }
    }
    let mut reader = Reader::new(bytes);
    let kind = match reader.byte() {
        Ok(k) => k,
        Err(e) => {
            assert(!canon);
            assert(forall|h: PacketHeader, f: MailboxFrame|
                h.version == PROTOCOL_VERSION && transport_fits(h, f) ==> bytes@
                    != #[trigger] transport_bytes(h, f));
            return Err(e);
        },
    };
    proof {
        assert(reader.rest() =~= s.skip(1));
        assert(s[0] == kind);
        if canon {
            let (h, f) = target;
            assert(s.skip(1) =~= var(carried_bytes(h, f)) + Seq::<u8>::empty());
            match f {
                MailboxFrame::Control { .. } => {
                    assert(transport_bytes(h, f)[0] == 0u8);
                },
                MailboxFrame::ChunkBody { .. } => {
                    assert(transport_bytes(h, f)[0] == 1u8);
                },
            }
        }
    }
    if kind == 0 {
        let inner = match reader.variable() {
            Ok(v) => v,
            Err(e) => {
                assert(!canon);
            assert(forall|h: PacketHeader, f: MailboxFrame|
                h.version == PROTOCOL_VERSION && transport_fits(h, f) ==> bytes@
                    != #[trigger] transport_bytes(h, f));
                return Err(e);
            },
        };
        match reader.finish() {
            Ok(()) => {},
            Err(e) => {
                assert(!canon);
            assert(forall|h: PacketHeader, f: MailboxFrame|
                h.version == PROTOCOL_VERSION && transport_fits(h, f) ==> bytes@
                    != #[trigger] transport_bytes(h, f));
                return Err(e);
            },
        }
        proof {
            if canon {
                let (h, f) = target;
                if let MailboxFrame::Control { ciphertext } = f {
                    assert(inner@ == control_packet_bytes(ControlPacket { header: h, ciphertext }));
                }
            }
        }
        let packet = match decode_control_packet(inner) {
            Ok(p) => p,
            Err(e) => {
                assert(!canon);
            assert(forall|h: PacketHeader, f: MailboxFrame|
                h.version == PROTOCOL_VERSION && transport_fits(h, f) ==> bytes@
                    != #[trigger] transport_bytes(h, f));
                return Err(e);
            },
        };
        let frame = MailboxFrame::Control { ciphertext: packet.ciphertext };
        let ciphertext = match encode_mailbox_frame(&frame) {
            Ok(c) => c,
            Err(e) => {
                assert(!canon);
            assert(forall|h: PacketHeader, f: MailboxFrame|
                h.version == PROTOCOL_VERSION && transport_fits(h, f) ==> bytes@
                    != #[trigger] transport_bytes(h, f));
                return Err(e);
            },
        };
        let e = MailboxEnvelope {
            recipient_id: packet.header.receiver_id,
            sender_id: packet.header.sender_id,
            epoch: packet.header.epoch,
            seq: packet.header.seq,
            queued_at: 0,
            ciphertext,
        };
        proof {
            assert(envelope_header(e) == packet.header);
            assert(carried_bytes(packet.header, frame) == inner@);
            assert(transport_fits(envelope_header(e), frame));
            assert(s =~= transport_bytes(envelope_header(e), frame));
            assert(frame_ok(frame) && e.ciphertext@ == frame_bytes(frame));
            assert(exists|f: MailboxFrame|
                frame_ok(f) && e.ciphertext@ == frame_bytes(f) && transport_fits(
                    envelope_header(e),
                    f,
                ) && bytes@ == #[trigger] transport_bytes(envelope_header(e), f));
        }
        Ok(e)
    } else if kind == 1 {
        let inner = match reader.variable() {
            Ok(v) => v,
            Err(e) => {
                assert(!canon);
            assert(forall|h: PacketHeader, f: MailboxFrame|
                h.version == PROTOCOL_VERSION && transport_fits(h, f) ==> bytes@
                    != #[trigger] transport_bytes(h, f));
                return Err(e);
            },
        };
        match reader.finish() {
            Ok(()) => {},
            Err(e) => {
                assert(!canon);
            assert(forall|h: PacketHeader, f: MailboxFrame|
                h.version == PROTOCOL_VERSION && transport_fits(h, f) ==> bytes@
                    != #[trigger] transport_bytes(h, f));
                return Err(e);
            },
        }
        proof {
            if canon {
                let (h, f) = target;
                if let MailboxFrame::ChunkBody { file_id, index, ciphertext } = f {
                    assert(inner@ == chunk_body_bytes(ChunkBodyFrame { header: h, file_id, index, ciphertext }));
                }
            }
        }
        let chunk = match decode_chunk_body_frame(inner) {
            Ok(c) => c,
            Err(e) => {
                assert(!canon);
            assert(forall|h: PacketHeader, f: MailboxFrame|
                h.version == PROTOCOL_VERSION && transport_fits(h, f) ==> bytes@
                    != #[trigger] transport_bytes(h, f));
                return Err(e);
            },
        };
        let frame = MailboxFrame::ChunkBody {
            file_id: chunk.file_id,
            index: chunk.index,
            ciphertext: chunk.ciphertext,
        };
        let ciphertext = match encode_mailbox_frame(&frame) {
            Ok(c) => c,
            Err(e) => {
                assert(!canon);
            assert(forall|h: PacketHeader, f: MailboxFrame|
                h.version == PROTOCOL_VERSION && transport_fits(h, f) ==> bytes@
                    != #[trigger] transport_bytes(h, f));
                return Err(e);
            },
        };
        let e = MailboxEnvelope {
            recipient_id: chunk.header.receiver_id,
            sender_id: chunk.header.sender_id,
            epoch: chunk.header.epoch,
            seq: chunk.header.seq,
            queued_at: 0,
            ciphertext,
        };
        proof {
            assert(envelope_header(e) == chunk.header);
            assert(carried_bytes(chunk.header, frame) == inner@);
            assert(transport_fits(envelope_header(e), frame));
            assert(s =~= transport_bytes(envelope_header(e), frame));
            assert(frame_ok(frame) && e.ciphertext@ == frame_bytes(frame));
            assert(exists|f: MailboxFrame|
                frame_ok(f) && e.ciphertext@ == frame_bytes(f) && transport_fits(
                    envelope_header(e),
                    f,
                ) && bytes@ == #[trigger] transport_bytes(envelope_header(e), f));
        }
        Ok(e)
    } else {
        proof {
            if canon {
                let (h, f) = target;
                match f {
                    MailboxFrame::Control { .. } => {
                        assert(transport_bytes(h, f)[0] == 0u8);
                    },
                    MailboxFrame::ChunkBody { .. } => {
                        assert(transport_bytes(h, f)[0] == 1u8);
                    },
                }
            }
        }
        assert(!canon);
            assert(forall|h: PacketHeader, f: MailboxFrame|
                h.version == PROTOCOL_VERSION && transport_fits(h, f) ==> bytes@
                    != #[trigger] transport_bytes(h, f));
        Err(Error::InvalidInput("unknown mailbox transport kind"))
    }
}

/// The frame inside an envelope's ciphertext, when it holds one.
pub open spec fn envelope_frame(e: MailboxEnvelope) -> MailboxFrame {
    choose|f: MailboxFrame| frame_ok(f) && e.ciphertext@ == frame_bytes(f)
}

/// An envelope whose ciphertext is a frame that fits its transport form.
pub open spec fn envelope_ok(e: MailboxEnvelope) -> bool {
    exists|f: MailboxFrame|
        frame_ok(f) && e.ciphertext@ == #[trigger] frame_bytes(f) && transport_fits(
            envelope_header(e),
            f,
        )
}

pub open spec fn envelope_transport(e: MailboxEnvelope) -> Seq<u8> {
    transport_bytes(envelope_header(e), envelope_frame(e))
}

pub open spec fn wire_record_fn() -> spec_fn(MailboxEnvelope) -> Seq<u8> {
    |e: MailboxEnvelope| var(envelope_transport(e))
}

/// The ordered mailbox commitment: a count, then each envelope's transport
/// form as a variable field.
pub open spec fn wire_bytes(es: Seq<MailboxEnvelope>) -> Seq<u8> {
    crate::wire::be32(es.len() as u32) + flat(es, wire_record_fn())
}

pub open spec fn wire_ok(es: Seq<MailboxEnvelope>) -> bool {
    &&& fits_u32(es.len() as int)
    &&& forall|i: int|
        0 <= i < es.len() ==> envelope_ok(#[trigger] es[i]) && fits_u32(
            envelope_transport(es[i]).len() as int,
        )
}

proof fn lemma_envelope_transport(e: MailboxEnvelope, v: Seq<u8>)
    requires
        exists|f: MailboxFrame|
            frame_ok(f) && e.ciphertext@ == frame_bytes(f) && transport_fits(envelope_header(e), f)
                && v == #[trigger] transport_bytes(envelope_header(e), f),
    ensures
        envelope_ok(e),
        v == envelope_transport(e),
{
    let f = choose|f: MailboxFrame|
        frame_ok(f) && e.ciphertext@ == frame_bytes(f) && transport_fits(envelope_header(e), f) && v
            == #[trigger] transport_bytes(envelope_header(e), f);
    let g = envelope_frame(e);
    lemma_frame_bytes_injective(f, g, envelope_header(e));
}

/// Transport bytes determine the header and the frame they carry.
pub proof fn lemma_transport_bytes_injective(h1: PacketHeader, f1: MailboxFrame, h2: PacketHeader, f2: MailboxFrame)
    requires
        transport_fits(h1, f1),
        transport_fits(h2, f2),
        transport_bytes(h1, f1) == transport_bytes(h2, f2),
    ensures
        h1 == h2,
        frame_bytes(f1) == frame_bytes(f2),
{
    let e = Seq::<u8>::empty();
    let (b1, b2) = (transport_bytes(h1, f1), transport_bytes(h2, f2));
    assert(b1[0] == b2[0]);
    assert(b1.skip(1) =~= var(carried_bytes(h1, f1)) + e);
    assert(b2.skip(1) =~= var(carried_bytes(h2, f2)) + e);
    lemma_take_var(carried_bytes(h1, f1), e);
    lemma_take_var(carried_bytes(h2, f2), e);
    let (c1, c2) = (carried_bytes(h1, f1), carried_bytes(h2, f2));
    assert(c1 == c2);
    lemma_header_len(h1);
    lemma_header_len(h2);
    match (f1, f2) {
        (MailboxFrame::Control { ciphertext: x }, MailboxFrame::Control { ciphertext: y }) => {
            lemma_take_bytes(header_bytes(h1), var(x@) + e);
            lemma_take_bytes(header_bytes(h2), var(y@) + e);
            assert(c1 =~= header_bytes(h1) + (var(x@) + e));
            assert(c2 =~= header_bytes(h2) + (var(y@) + e));
            lemma_header_bytes_injective(h1, h2);
            lemma_take_var(x@, e);
            lemma_take_var(y@, e);
        },
        (
            MailboxFrame::ChunkBody { file_id: i1, index: n1, ciphertext: x },
            MailboxFrame::ChunkBody { file_id: i2, index: n2, ciphertext: y },
        ) => {
            let (r1, r2) = (i1@ + (be64(n1) + (var(x@) + e)), i2@ + (be64(n2) + (var(y@) + e)));
            assert(c1 =~= header_bytes(h1) + r1);
            assert(c2 =~= header_bytes(h2) + r2);
            lemma_take_bytes(header_bytes(h1), r1);
            lemma_take_bytes(header_bytes(h2), r2);
            lemma_header_bytes_injective(h1, h2);
            lemma_take_bytes(i1@, be64(n1) + (var(x@) + e));
            lemma_take_bytes(i2@, be64(n2) + (var(y@) + e));
            lemma_take_u64(n1, var(x@) + e);
            lemma_take_u64(n2, var(y@) + e);
            lemma_take_var(x@, e);
            lemma_take_var(y@, e);
            assert(frame_bytes(f1) =~= frame_bytes(f2));
        },
        _ => {},
    }
}

/// Reading back an encoded envelope gives its recipient, sender, epoch,
/// counter and ciphertext: `f` is the frame the encoder found in `env`, and
/// `g` the frame the decoder found in what it returned, `e`.
pub proof fn law_envelope_round_trip(env: MailboxEnvelope, f: MailboxFrame, e: MailboxEnvelope, g: MailboxFrame)
    requires
        frame_ok(f),
        env.ciphertext@ == frame_bytes(f),
        transport_fits(envelope_header(env), f),
        frame_ok(g),
        e.ciphertext@ == frame_bytes(g),
        transport_fits(envelope_header(e), g),
        transport_bytes(envelope_header(env), f) == transport_bytes(envelope_header(e), g),
    ensures
        same_but_queued_at(env, e),
{
    lemma_transport_bytes_injective(envelope_header(env), f, envelope_header(e), g);
}

/// Two envelopes that differ at most in their host-local queue time.
pub open spec fn same_but_queued_at(a: MailboxEnvelope, b: MailboxEnvelope) -> bool {
    &&& a.recipient_id == b.recipient_id
    &&& a.sender_id == b.sender_id
    &&& a.epoch == b.epoch
    &&& a.seq == b.seq
    &&& a.ciphertext@ == b.ciphertext@
}

/// Queue times never affect the mailbox commitment: mailboxes that differ
/// only in when each envelope was queued commit to the same bytes, and are
/// accepted or refused alike.
pub proof fn law_wire_ignores_queue_times(es: Seq<MailboxEnvelope>, fs: Seq<MailboxEnvelope>)
    requires
        es.len() == fs.len(),
        forall|i: int| 0 <= i < es.len() ==> same_but_queued_at(#[trigger] es[i], fs[i]),
    ensures
        wire_bytes(es) == wire_bytes(fs),
        wire_ok(es) == wire_ok(fs),
{
    lemma_flat_ignores_queue_times(es, fs);
    assert forall|i: int| 0 <= i < es.len() implies envelope_ok(#[trigger] es[i]) == envelope_ok(fs[i])
        && envelope_transport(es[i]) == envelope_transport(fs[i]) by {
        assert(same_but_queued_at(es[i], fs[i]));
        assert(envelope_header(es[i]) == envelope_header(fs[i]));
        assert(envelope_frame(es[i]) == envelope_frame(fs[i]));
    }
    if wire_ok(es) {
        assert forall|i: int| 0 <= i < fs.len() implies envelope_ok(#[trigger] fs[i]) && fits_u32(
            envelope_transport(fs[i]).len() as int,
        ) by {
            assert(envelope_ok(es[i]) && envelope_transport(es[i]) == envelope_transport(fs[i]));
        }
    }
    if wire_ok(fs) {
        assert forall|i: int| 0 <= i < es.len() implies envelope_ok(#[trigger] es[i]) && fits_u32(
            envelope_transport(es[i]).len() as int,
        ) by {
            assert(envelope_ok(fs[i]) && envelope_transport(es[i]) == envelope_transport(fs[i]));
        }
    }
}

proof fn lemma_flat_ignores_queue_times(es: Seq<MailboxEnvelope>, fs: Seq<MailboxEnvelope>)
    requires
        es.len() == fs.len(),
        forall|i: int| 0 <= i < es.len() ==> same_but_queued_at(#[trigger] es[i], fs[i]),
    ensures
        flat(es, wire_record_fn()) == flat(fs, wire_record_fn()),
    decreases es.len(),
{
    if es.len() > 0 {
        assert(same_but_queued_at(es[0], fs[0]));
        assert(envelope_header(es[0]) == envelope_header(fs[0]));
        assert(envelope_frame(es[0]) == envelope_frame(fs[0]));
        assert forall|i: int| 0 <= i < es.drop_first().len() implies same_but_queued_at(
            #[trigger] es.drop_first()[i],
            fs.drop_first()[i],
        ) by {
            assert(same_but_queued_at(es[i + 1], fs[i + 1]));
        }
        lemma_flat_ignores_queue_times(es.drop_first(), fs.drop_first());
    }
}

/// Canonical ordered mailbox commitment. Host-local queue timestamps are not
/// delivery data and do not affect what the recipient acknowledges.
pub fn mailbox_wire_m(envelopes: &[MailboxEnvelope]) -> (r: Result<Vec<u8>>)
    ensures
        match r {
            Ok(v) => v@ == wire_bytes(envelopes@) && wire_ok(envelopes@),
            Err(e) => e is InvalidInput && !wire_ok(envelopes@),
        },
{
    let ghost es = envelopes@;
    let mut out: Vec<u8> = Vec::new();
    push_length(&mut out, envelopes.len())?;
    let ghost head = out@;
    let mut i: usize = 0;
    assert(es.take(0) =~= Seq::<MailboxEnvelope>::empty());
    while i < envelopes.len()
        invariant
            es == envelopes@,
            i <= es.len(),
            fits_u32(es.len() as int),
            out@ == head + flat(es.take(i as int), wire_record_fn()),
            forall|k: int|
                0 <= k < i ==> envelope_ok(#[trigger] es[k]) && fits_u32(
                    envelope_transport(es[k]).len() as int,
                ),
        decreases es.len() - i,
    {
        let ghost e = es[i as int];
        let encoded = match encode_mailbox_envelope(&envelopes[i]) {
            Ok(v) => v,
            Err(err) => {
                proof {
                    if envelope_ok(e) {
                        let f = choose|f: MailboxFrame|
                            frame_ok(f) && e.ciphertext@ == #[trigger] frame_bytes(f)
                                && transport_fits(envelope_header(e), f);
                    }
                }
                return Err(err);
            },
        };
        proof {
            lemma_envelope_transport(e, encoded@);
        }
        match push_variable(&mut out, encoded.as_slice()) {
            Ok(()) => {},
            Err(err) => {
                return Err(err);
            },
        }
        proof {
            lemma_flat_push(es.take(i as int), e, wire_record_fn());
            assert(es.take(i + 1) =~= es.take(i as int).push(e));
        }
        i = i + 1;
    }
    assert(es.take(es.len() as int) =~= es);
    Ok(out)
}

/// The SHA-256 digest of the mailbox commitment.
pub fn mailbox_digest(envelopes: &[MailboxEnvelope]) -> (r: Result<[u8; 32]>)
    ensures
        match r {
            Ok(d) => wire_ok(envelopes@) && d@ == sha256_digest(wire_bytes(envelopes@)),
            Err(e) => e is InvalidInput && !wire_ok(envelopes@),
        },
{
    let wire = mailbox_wire_m(envelopes)?;
    Ok(sha256(wire.as_slice()))
}

} // verus!
