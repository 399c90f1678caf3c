//! Length-prefixed TCP frames: a version byte, a big-endian u32 body length,
//! then the body, whose first byte is the frame kind.

use vstd::prelude::*;

use crate::error::{Error, Result};
use crate::wire::{be32, push_bytes, push_u32};

verus! {

pub const FRAME_VERSION: u8 = 1;

pub const MAX_FRAME_BODY_LEN: u32 = 1048576;

pub const MIN_FRAME_KIND: u8 = 1;

pub const MAX_FRAME_KIND: u8 = 14;

pub const IDENTITY_KIND: u8 = 1;

pub const EPOCH_HINT_KIND: u8 = 2;

pub const WRAP_KIND: u8 = 3;

pub const WRAP_ACK_KIND: u8 = 4;

pub const DIR_LOOKUP_KIND: u8 = 5;

pub const DIR_AD_KIND: u8 = 6;

pub const DIR_PUT_KIND: u8 = 7;

pub const DIR_FORGET_KIND: u8 = 8;

pub const JOIN_KIND: u8 = 9;

pub const GCM_PACKET_KIND: u8 = 10;

pub const GCM_CHUNK_KIND: u8 = 11;

pub const FLUSH_CHALLENGE_KIND: u8 = 12;

pub const FLUSH_SIGNATURE_KIND: u8 = 13;

pub const HEARTBEAT_KIND: u8 = 14;

/// The length of the fixed part read before a body: version and length.
pub const FRAME_HEADER_LEN: usize = 5;

#[derive(Clone, Debug, PartialEq, Eq)]
pub struct Frame {
    pub kind: u8,
    pub payload: Vec<u8>,
}

pub open spec fn known_kind(kind: u8) -> bool {
    MIN_FRAME_KIND <= kind <= MAX_FRAME_KIND
}

/// A frame that can be sent: a known kind and a body, kind byte included,
/// within the limit.
pub open spec fn frame_ok(kind: u8, payload_len: int) -> bool {
    known_kind(kind) && payload_len + 1 <= MAX_FRAME_BODY_LEN
}

/// The bytes of a frame on the wire.
pub open spec fn frame_bytes(kind: u8, payload: Seq<u8>) -> Seq<u8> {
    seq![FRAME_VERSION] + (be32((payload.len() + 1) as u32) + (seq![kind] + payload))
}

pub fn validate_kind(kind: u8) -> (r: Result<()>)
    ensures
        r is Ok <==> known_kind(kind),
        r matches Err(e) ==> e is InvalidInput,
{
    if kind < MIN_FRAME_KIND || kind > MAX_FRAME_KIND {
        return Err(Error::InvalidInput("unknown TCP frame type"));
    }
    Ok(())
}

impl Frame {
    /// A frame whose body, counting the kind byte, fits the limit.
    pub fn new(kind: u8, payload: Vec<u8>) -> (r: Result<Self>)
        ensures
            match r {
                Ok(f) => f.kind == kind && f.payload@ == payload@ && frame_ok(kind, payload@.len() as int),
                Err(e) => e is InvalidInput && !frame_ok(kind, payload@.len() as int),
            },
    {
        validate_kind(kind)?;
        if payload.len() >= MAX_FRAME_BODY_LEN as usize {
            return Err(Error::InvalidInput("TCP frame body exceeds 1 MiB"));
        }
        Ok(Frame { kind, payload })
    }
}

/// The bytes `write_frame` sends for `frame`.
pub fn encode_frame(frame: &Frame) -> (r: Result<Vec<u8>>)
    ensures
        match r {
            Ok(v) => frame_ok(frame.kind, frame.payload@.len() as int) && v@ == frame_bytes(
                frame.kind,
                frame.payload@,
            ),
            Err(e) => e is InvalidInput && !frame_ok(frame.kind, frame.payload@.len() as int),
        },
{
    validate_kind(frame.kind)?;
    if frame.payload.len() >= MAX_FRAME_BODY_LEN as usize {
        return Err(Error::InvalidInput("TCP frame body exceeds 1 MiB"));
    }
    let body_len = (frame.payload.len() + 1) as u32;
    let mut out: Vec<u8> = Vec::new();
    out.push(FRAME_VERSION);
    push_u32(&mut out, body_len);
    out.push(frame.kind);
    push_bytes(&mut out, frame.payload.as_slice());
    assert(out@ =~= frame_bytes(frame.kind, frame.payload@));
    Ok(out)
}

/// The body length announced by a frame header, checked before any body
/// storage is allocated.
pub fn frame_body_len(header: &[u8; 5]) -> (r: Result<u32>)
    ensures
        match r {
            Ok(n) => header@[0] == FRAME_VERSION && header@.subrange(1, 5) == be32(n) && 1 <= n
                <= MAX_FRAME_BODY_LEN,
            Err(e) => e is InvalidInput && (header@[0] != FRAME_VERSION || forall|n: u32|
                header@.subrange(1, 5) == be32(n) ==> !(1 <= n <= MAX_FRAME_BODY_LEN)),
        },
{
    if header[0] != FRAME_VERSION {
        return Err(Error::InvalidInput("unsupported TCP frame version"));
    }
    let n = u32_at(header);
    proof {
        assert forall|m: u32| header@.subrange(1, 5) == be32(m) implies m == n by {
            crate::wire::lemma_be32_injective(m, n);
        }
    }
    if n == 0 {
        return Err(Error::InvalidInput("TCP frame body omits type"));
    }
    if n > MAX_FRAME_BODY_LEN {
        return Err(Error::InvalidInput("TCP frame body exceeds 1 MiB"));
    }
    Ok(n)
}

fn u32_at(header: &[u8; 5]) -> (r: u32)
    ensures
        be32(r) == header@.subrange(1, 5),
{
    let v = ((header[1] as u32) << 24u32) | ((header[2] as u32) << 16u32) | ((header[3] as u32)
        << 8u32) | (header[4] as u32);
    proof {
        let sub = header@.subrange(1, 5);
        crate::wire::lemma_be32_canonical(sub);
        assert(v == crate::wire::from_be32(sub));
    }
    v
}

/// The frame carried by a received body: its first byte is the kind.
pub fn frame_from_body(body: Vec<u8>) -> (r: Result<Frame>)
    requires
        1 <= body@.len() <= MAX_FRAME_BODY_LEN,
    ensures
        match r {
            Ok(f) => known_kind(body@[0]) && f.kind == body@[0] && f.payload@ == body@.skip(1),
            Err(e) => e is InvalidInput && !known_kind(body@[0]),
        },
{
    let kind = body[0];
    validate_kind(kind)?;
    let payload = vstd::slice::slice_to_vec(vstd::slice::slice_subrange(body.as_slice(), 1, body.len()));
    assert(payload@ =~= body@.skip(1));
    Ok(Frame { kind, payload })
}

} // verus!
