//! AEAD associated data, packet frames and small handshake messages.

use vstd::prelude::*;

use crate::error::{Error, Result};
use crate::ids::{lex_lt, Epoch, FileId, PeerId, SeqNum};
use crate::protocol::packet::{ControlPacket, PacketHeader, PayloadType, PROTOCOL_VERSION};
use crate::protocol::pull::ChunkBodyFrame;
use crate::wire::{
    array32_at, be64, fits_u32, lemma_be64, lemma_take_bytes, lemma_take_u64, lemma_take_var, push_array32, push_u64,
    push_variable, u64_at, var, Reader,
};

verus! {

/// The 81 header bytes: version, sender, receiver, epoch, counter.
pub open spec fn header_bytes(h: PacketHeader) -> Seq<u8> {
    seq![h.version] + (h.sender_id@ + (h.receiver_id@ + (be64(h.epoch.0) + be64(h.seq.0))))
}

/// Chunk-body AAD: the header, then the file id and chunk index it belongs to.
pub open spec fn chunk_aad_bytes(h: PacketHeader, file_id: FileId, index: u64) -> Seq<u8> {
    header_bytes(h) + (file_id@ + be64(index))
}

pub open spec fn control_packet_bytes(p: ControlPacket) -> Seq<u8> {
    header_bytes(p.header) + var(p.ciphertext@)
}

pub open spec fn chunk_body_bytes(f: ChunkBodyFrame) -> Seq<u8> {
    chunk_aad_bytes(f.header, f.file_id, f.index) + var(f.ciphertext@)
}

pub proof fn lemma_header_len(h: PacketHeader)
    ensures
        header_bytes(h).len() == 81,
{
    lemma_be64(h.epoch.0);
    lemma_be64(h.seq.0);
}

/// Header bytes determine the header.
pub proof fn lemma_header_bytes_injective(a: PacketHeader, b: PacketHeader)
    requires
        header_bytes(a) == header_bytes(b),
    ensures
        a == b,
{
    let ta = a.sender_id@ + (a.receiver_id@ + (be64(a.epoch.0) + be64(a.seq.0)));
    let tb = b.sender_id@ + (b.receiver_id@ + (be64(b.epoch.0) + be64(b.seq.0)));
    lemma_take_bytes(seq![a.version], ta);
    lemma_take_bytes(seq![b.version], tb);
    assert(seq![a.version][0] == seq![b.version][0]);
    let (ua, ub) = (a.receiver_id@ + (be64(a.epoch.0) + be64(a.seq.0)), b.receiver_id@ + (be64(b.epoch.0) + be64(b.seq.0)));
    lemma_take_bytes(a.sender_id@, ua);
    lemma_take_bytes(b.sender_id@, ub);
    let (va, vb) = (be64(a.epoch.0) + be64(a.seq.0), be64(b.epoch.0) + be64(b.seq.0));
    lemma_take_bytes(a.receiver_id@, va);
    lemma_take_bytes(b.receiver_id@, vb);
    lemma_take_u64(a.epoch.0, be64(a.seq.0));
    lemma_take_u64(b.epoch.0, be64(b.seq.0));
    lemma_take_u64(a.seq.0, Seq::<u8>::empty());
    lemma_take_u64(b.seq.0, Seq::<u8>::empty());
    assert(be64(a.seq.0) + Seq::<u8>::empty() =~= be64(a.seq.0));
    assert(be64(b.seq.0) + Seq::<u8>::empty() =~= be64(b.seq.0));
    assert(a.sender_id.0 =~= b.sender_id.0);
    assert(a.receiver_id.0 =~= b.receiver_id.0);
}

/// Control packet bytes determine the packet: decoding an encoded packet
/// gives back its header and its ciphertext.
pub proof fn law_control_packet_bytes_injective(a: ControlPacket, b: ControlPacket)
    requires
        fits_u32(a.ciphertext@.len() as int),
        fits_u32(b.ciphertext@.len() as int),
        control_packet_bytes(a) == control_packet_bytes(b),
    ensures
        a.header == b.header,
        a.ciphertext@ == b.ciphertext@,
{
    lemma_header_len(a.header);
    lemma_header_len(b.header);
    lemma_take_bytes(header_bytes(a.header), var(a.ciphertext@));
    lemma_take_bytes(header_bytes(b.header), var(b.ciphertext@));
    lemma_header_bytes_injective(a.header, b.header);
    lemma_take_var(a.ciphertext@, Seq::<u8>::empty());
    lemma_take_var(b.ciphertext@, Seq::<u8>::empty());
    assert(var(a.ciphertext@) + Seq::<u8>::empty() =~= var(a.ciphertext@));
    assert(var(b.ciphertext@) + Seq::<u8>::empty() =~= var(b.ciphertext@));
}

pub fn packet_aad(header: &PacketHeader) -> (r: Vec<u8>)
    ensures
        r@ == header_bytes(*header),
{
    let mut out: Vec<u8> = Vec::with_capacity(81);
    out.push(header.version);
    push_array32(&mut out, &header.sender_id.0);
    push_array32(&mut out, &header.receiver_id.0);
    push_u64(&mut out, header.epoch.0);
    push_u64(&mut out, header.seq.0);
    assert(out@ =~= header_bytes(*header));
    out
}

pub fn chunk_aad(header: &PacketHeader, file_id: &FileId, index: u64) -> (r: Vec<u8>)
    ensures
        r@ == chunk_aad_bytes(*header, *file_id, index),
{
    let mut out = packet_aad(header);
    push_array32(&mut out, &file_id.0);
    push_u64(&mut out, index);
    assert(out@ =~= chunk_aad_bytes(*header, *file_id, index));
    out
}

/// Decode one of the two canonical AEAD AAD layouts. Packet AAD is exactly 81
/// bytes; chunk-body AAD appends the 32-byte file id and 8-byte index.
pub fn decode_aad(aad: &[u8]) -> (r: Result<(PacketHeader, PayloadType)>)
    ensures
        match r {
            Ok((h, t)) => {
                &&& (aad@.len() == 81 && t == PayloadType::Packet) || (aad@.len() == 121 && t
                    == PayloadType::ChunkBody)
                &&& h.version == PROTOCOL_VERSION
                &&& header_bytes(h) == aad@.take(81)
            },
            Err(e) => e is InvalidInput && ((aad@.len() != 81 && aad@.len() != 121) || aad@[0]
                != PROTOCOL_VERSION),
        },
{
    let payload_type = if aad.len() == 81 {
        PayloadType::Packet
    } else if aad.len() == 121 {
        PayloadType::ChunkBody
    } else {
        return Err(Error::InvalidInput("invalid AEAD AAD length"));
    };
    if aad[0] != PROTOCOL_VERSION {
        return Err(Error::InvalidInput("unsupported packet version"));
    }
    let sender_id = array32_at(aad, 1);
    let receiver_id = array32_at(aad, 33);
    let epoch = u64_at(aad, 65);
    let seq = u64_at(aad, 73);
    let header = PacketHeader {
        version: aad[0],
        sender_id: PeerId(sender_id),
        receiver_id: PeerId(receiver_id),
        epoch: Epoch(epoch),
        seq: SeqNum(seq),
    };
    assert(header_bytes(header) =~= aad@.take(81));
    Ok((header, payload_type))
}

/// Nonce bytes: type and direction bits, three zero bytes, the counter.
pub open spec fn nonce_bytes(h: PacketHeader, t: PayloadType) -> Seq<u8> {
    let type_bit: u8 = if t == PayloadType::ChunkBody { 1 } else { 0 };
    let dir_bit: u8 = if lex_lt(h.receiver_id@, h.sender_id@) { 1 } else { 0 };
    seq![((type_bit << 7u8) | (dir_bit << 6u8)) as u8, 0u8, 0u8, 0u8] + be64(h.seq.0)
}

/// The AEAD nonce comes directly from the header counter, so the nonce and
/// the AAD cannot name different counters.
pub fn nonce(header: &PacketHeader, payload_type: PayloadType) -> (r: [u8; 12])
    ensures
        r@ == nonce_bytes(*header, payload_type),
{
    let mut out = [0u8; 12];
    let type_bit: u8 = if payload_type == PayloadType::ChunkBody { 1 } else { 0 };
    let dir_bit: u8 = if header.receiver_id.less_than(&header.sender_id) { 1 } else { 0 };
    out[0] = (type_bit << 7u8) | (dir_bit << 6u8);
    let s = header.seq.0;
    out[4] = (s >> 56u64) as u8;
    out[5] = (s >> 48u64) as u8;
    out[6] = (s >> 40u64) as u8;
    out[7] = (s >> 32u64) as u8;
    out[8] = (s >> 24u64) as u8;
    out[9] = (s >> 16u64) as u8;
    out[10] = (s >> 8u64) as u8;
    out[11] = s as u8;
    assert(out@ =~= nonce_bytes(*header, payload_type));
    out
}

pub fn encode_control_packet(packet: &ControlPacket) -> (r: Result<Vec<u8>>)
    ensures
        match r {
            Ok(v) => v@ == control_packet_bytes(*packet) && fits_u32(packet.ciphertext@.len() as int),
            Err(e) => e is InvalidInput && !fits_u32(packet.ciphertext@.len() as int),
        },
{
    let mut out = packet_aad(&packet.header);
    push_variable(&mut out, packet.ciphertext.as_slice())?;
    Ok(out)
}

/// A well-formed control packet: current version and a length-prefixable body.
pub open spec fn control_packet_wf(p: ControlPacket) -> bool {
    p.header.version == PROTOCOL_VERSION && fits_u32(p.ciphertext@.len() as int)
}

pub fn decode_control_packet(bytes: &[u8]) -> (r: Result<ControlPacket>)
    ensures
        match r {
            Ok(p) => bytes@ == control_packet_bytes(p) && control_packet_wf(p),
            Err(e) => e is InvalidInput && forall|p: ControlPacket|
                control_packet_wf(p) ==> bytes@ != #[trigger] control_packet_bytes(p),
        },
{
    let ghost s = bytes@;
    let ghost target = choose|p: ControlPacket|
        control_packet_wf(p) && s == #[trigger] control_packet_bytes(p);
    let ghost canon = control_packet_wf(target) && s == control_packet_bytes(target);
    proof {
        if canon {
            lemma_header_len(target.header);
            lemma_take_bytes(header_bytes(target.header), var(target.ciphertext@));
            lemma_take_var(target.ciphertext@, Seq::<u8>::empty());
            assert(var(target.ciphertext@) + Seq::<u8>::empty() =~= var(target.ciphertext@));
        }
    }
    let mut reader = Reader::new(bytes);
    let aad = reader.take(81)?;
    let (header, payload_type) = decode_aad(aad)?;
    if payload_type != PayloadType::Packet {
        return Err(Error::InvalidInput("control packet has chunk AAD"));
    }
    let ciphertext = reader.variable()?;
    reader.finish()?;
    let packet = ControlPacket { header, ciphertext: vstd::slice::slice_to_vec(ciphertext) };
    assert(aad@.take(81) =~= aad@);
    Ok(packet)
}

pub fn encode_chunk_body_frame(frame: &ChunkBodyFrame) -> (r: Result<Vec<u8>>)
    ensures
        match r {
            Ok(v) => v@ == chunk_body_bytes(*frame) && fits_u32(frame.ciphertext@.len() as int),
            Err(e) => e is InvalidInput && !fits_u32(frame.ciphertext@.len() as int),
        },
{
    let mut out = chunk_aad(&frame.header, &frame.file_id, frame.index);
    push_variable(&mut out, frame.ciphertext.as_slice())?;
    Ok(out)
}

pub open spec fn chunk_body_wf(f: ChunkBodyFrame) -> bool {
    f.header.version == PROTOCOL_VERSION && fits_u32(f.ciphertext@.len() as int)
}

pub fn decode_chunk_body_frame(bytes: &[u8]) -> (r: Result<ChunkBodyFrame>)
    ensures
        match r {
            Ok(f) => bytes@ == chunk_body_bytes(f) && chunk_body_wf(f),
            Err(e) => e is InvalidInput && forall|f: ChunkBodyFrame|
                chunk_body_wf(f) ==> bytes@ != #[trigger] chunk_body_bytes(f),
        },
{
    let ghost s = bytes@;
    let ghost target = choose|f: ChunkBodyFrame|
        chunk_body_wf(f) && s == #[trigger] chunk_body_bytes(f);
    let ghost canon = chunk_body_wf(target) && s == chunk_body_bytes(target);
    proof {
        if canon {
            let a = chunk_aad_bytes(target.header, target.file_id, target.index);
            lemma_header_len(target.header);
            lemma_be64(target.index);
            lemma_take_bytes(a, var(target.ciphertext@));
            lemma_take_var(target.ciphertext@, Seq::<u8>::empty());
            assert(var(target.ciphertext@) + Seq::<u8>::empty() =~= var(target.ciphertext@));
        }
    }
    let mut reader = Reader::new(bytes);
    let aad = reader.take(121)?;
    let (header, payload_type) = decode_aad(aad)?;
    if payload_type != PayloadType::ChunkBody {
        return Err(Error::InvalidInput("chunk body frame has packet AAD"));
    }
    let file_id = array32_at(aad, 81);
    let index = u64_at(aad, 113);
    let ciphertext = reader.variable()?;
    reader.finish()?;
    let frame = ChunkBodyFrame {
        header,
        file_id: FileId(file_id),
        index,
        ciphertext: vstd::slice::slice_to_vec(ciphertext),
    };
    assert(aad@ =~= chunk_aad_bytes(header, FileId(file_id), index));
    Ok(frame)
}

pub open spec fn epoch_hint_bytes(peer_id: PeerId, epoch: Epoch) -> Seq<u8> {
    peer_id@ + be64(epoch.0)
}

pub fn epoch_hint_m(peer_id: &PeerId, epoch: Epoch) -> (r: Vec<u8>)
    ensures
        r@ == epoch_hint_bytes(*peer_id, epoch),
{
    let mut out: Vec<u8> = Vec::with_capacity(40);
    push_array32(&mut out, &peer_id.0);
    push_u64(&mut out, epoch.0);
    out
}

pub fn decode_epoch_hint(bytes: &[u8]) -> (r: Result<(PeerId, Epoch)>)
    ensures
        match r {
            Ok((p, e)) => bytes@ == epoch_hint_bytes(p, e),
            Err(e) => e is InvalidInput && forall|p: PeerId, e: Epoch|
                bytes@ != #[trigger] epoch_hint_bytes(p, e),
        },
{
    proof {
        assert forall|p: PeerId, e: Epoch| bytes@ != #[trigger] epoch_hint_bytes(p, e)
            || bytes@.len() == 40 by {
            lemma_be64(e.0);
        }
    }
    let mut reader = Reader::new(bytes);
    let peer_id = PeerId(reader.array32()?);
    let epoch = Epoch(reader.u64()?);
    reader.finish()?;
    assert(bytes@ =~= epoch_hint_bytes(peer_id, epoch));
    Ok((peer_id, epoch))
}

pub open spec fn wrap_ack_bytes(epoch: Epoch, retry_pending: bool) -> Seq<u8> {
    be64(epoch.0) + seq![if retry_pending { 1u8 } else { 0u8 }]
}

/// One WrapAck encoding names one epoch and one flag.
pub proof fn lemma_wrap_ack_injective(a: Epoch, ra: bool, b: Epoch, rb: bool)
    requires
        wrap_ack_bytes(a, ra) == wrap_ack_bytes(b, rb),
    ensures
        a == b && ra == rb,
{
    lemma_be64(a.0);
    lemma_be64(b.0);
    let x = wrap_ack_bytes(a, ra);
    let y = wrap_ack_bytes(b, rb);
    assert(x.take(8) =~= be64(a.0));
    assert(y.take(8) =~= be64(b.0));
    assert(be64(a.0) == be64(b.0));
    crate::wire::lemma_be64_injective(a.0, b.0);
    assert(x[8] == (if ra { 1u8 } else { 0u8 }));
    assert(y[8] == (if rb { 1u8 } else { 0u8 }));
}

pub fn encode_wrap_ack(epoch: Epoch, retry_pending: bool) -> (r: [u8; 9])
    ensures
        r@ == wrap_ack_bytes(epoch, retry_pending),
{
    let mut out = [0u8; 9];
    let s = epoch.0;
    out[0] = (s >> 56u64) as u8;
    out[1] = (s >> 48u64) as u8;
    out[2] = (s >> 40u64) as u8;
    out[3] = (s >> 32u64) as u8;
    out[4] = (s >> 24u64) as u8;
    out[5] = (s >> 16u64) as u8;
    out[6] = (s >> 8u64) as u8;
    out[7] = s as u8;
    out[8] = if retry_pending { 1 } else { 0 };
    assert(out@ =~= wrap_ack_bytes(epoch, retry_pending));
    out
}

pub fn decode_wrap_ack(bytes: &[u8]) -> (r: Result<(Epoch, bool)>)
    ensures
        match r {
            Ok((e, retry)) => bytes@ == wrap_ack_bytes(e, retry),
            Err(e) => e is InvalidInput && forall|e: Epoch, retry: bool|
                bytes@ != #[trigger] wrap_ack_bytes(e, retry),
        },
{
    proof {
        assert forall|e: Epoch, retry: bool| bytes@ == #[trigger] wrap_ack_bytes(e, retry)
            implies bytes@.len() == 9 && (bytes@[8] == 0 || bytes@[8] == 1) by {
            lemma_be64(e.0);
        }
    }
    let mut reader = Reader::new(bytes);
    let epoch = Epoch(reader.u64()?);
    let flag = reader.byte()?;
    let retry_pending = if flag == 0 {
        false
    } else if flag == 1 {
        true
    } else {
        return Err(Error::InvalidInput("invalid WrapAck retry flag"));
    };
    reader.finish()?;
    assert(bytes@ =~= wrap_ack_bytes(epoch, retry_pending));
    Ok((epoch, retry_pending))
}

} // verus!
