//! Welcome messages, flush offers, encrypted live controls and the host's
//! durable vault metadata.

use vstd::prelude::*;

use crate::crypto::identity::IdentityDocument;
use crate::encoding::identity::{decode_identity, encode_identity, identity_bytes, identity_encodable};
use crate::error::{Error, Result};
use crate::net::join::{FlushOffer, NetControl, NetWelcome, VaultMetadata};
use crate::net::{JoinCode, VaultId};
use crate::ids::PeerId;
use crate::sync::host::FlushChallenge;
use crate::wire::{
    be32, be64, flat, fits_u32, ids_bytes, lemma_be32, lemma_be64, lemma_flat_len, lemma_flat_push, lemma_ids_bytes_injective,
    lemma_flat_skip, lemma_ids_bytes_len, lemma_ids_bytes_push, lemma_ids_bytes_skip,
    lemma_take_bytes, lemma_take_u32, lemma_take_u64, lemma_take_var, push_array32, push_bytes,
    push_length, push_u64, push_variable, var, Reader, LOCAL_FORMAT_VERSION,
};

verus! {

// ---------------------------------------------------------------------------
// Welcome
// ---------------------------------------------------------------------------

/// One member of a welcome: its encoded identity document as a variable field.
pub open spec fn member_record(d: IdentityDocument) -> Seq<u8> {
    var(identity_bytes(d))
}

pub open spec fn member_record_fn() -> spec_fn(IdentityDocument) -> Seq<u8> {
    |d: IdentityDocument| member_record(d)
}

pub open spec fn member_encodable(d: IdentityDocument) -> bool {
    identity_encodable(d) && fits_u32(identity_bytes(d).len() as int)
}

pub open spec fn members_encodable(members: Seq<IdentityDocument>) -> bool {
    &&& fits_u32(members.len() as int)
    &&& forall|i: int| 0 <= i < members.len() ==> member_encodable(#[trigger] members[i])
}

pub open spec fn welcome_bytes(vault_id: Seq<u8>, members: Seq<IdentityDocument>) -> Seq<u8> {
    vault_id + (be32(members.len() as u32) + flat(members, member_record_fn()))
}

proof fn lemma_member_records_len(members: Seq<IdentityDocument>)
    ensures
        flat(members, member_record_fn()).len() >= 56 * members.len(),
{
    let f = member_record_fn();
    assert forall|i: int| 0 <= i < members.len() implies f(#[trigger] members[i]).len() >= 56 by {
        let d = members[i];
        assert(f(d) == var(identity_bytes(d)));
    }
    lemma_flat_len(members, f, 56);
}

/// Appends each member's record; fails on the first member that cannot be
/// encoded.
fn push_members(out: &mut Vec<u8>, members: &Vec<IdentityDocument>) -> (r: Result<()>)
    ensures
        match r {
            Ok(()) => final(out)@ == old(out)@ + flat(members@, member_record_fn()) && forall|
                i: int,
            | 0 <= i < members@.len() ==> member_encodable(#[trigger] members@[i]),
            Err(e) => e is InvalidInput && exists|i: int|
                0 <= i < members@.len() && !member_encodable(#[trigger] members@[i]),
        },
{
    let ghost head = out@;
    let mut i: usize = 0;
    assert(members@.take(0) =~= Seq::<IdentityDocument>::empty());
    while i < members.len()
        invariant
            i <= members@.len(),
            out@ == head + flat(members@.take(i as int), member_record_fn()),
            forall|j: int| 0 <= j < i ==> member_encodable(#[trigger] members@[j]),
        decreases members@.len() - i,
    {
        let encoded = match encode_identity(&members[i]) {
            Ok(v) => v,
            Err(e) => {
                assert(!member_encodable(members@[i as int]));
                return Err(e);
            },
        };
        match push_variable(out, encoded.as_slice()) {
            Ok(()) => {},
            Err(e) => {
                assert(!member_encodable(members@[i as int]));
                return Err(e);
            },
        }
        proof {
            lemma_flat_push(members@.take(i as int), members@[i as int], member_record_fn());
            assert(members@.take(i + 1) =~= members@.take(i as int).push(members@[i as int]));
        }
        i = i + 1;
    }
    assert(members@.take(members@.len() as int) =~= members@);
    Ok(())
}

pub fn encode_net_welcome(welcome: &NetWelcome) -> (r: Result<Vec<u8>>)
    ensures
        match r {
            Ok(v) => v@ == welcome_bytes(welcome.vault_id@, welcome.members@) && members_encodable(
                welcome.members@,
            ),
            Err(e) => e is InvalidInput && !members_encodable(welcome.members@),
        },
{
    let mut out: Vec<u8> = Vec::new();
    push_welcome(&mut out, &welcome.vault_id, &welcome.members)?;
    assert(out@ =~= welcome_bytes(welcome.vault_id@, welcome.members@));
    Ok(out)
}

fn push_welcome(out: &mut Vec<u8>, vault_id: &VaultId, members: &Vec<IdentityDocument>) -> (r:
    Result<()>)
    ensures
        match r {
            Ok(()) => final(out)@ == old(out)@ + welcome_bytes(vault_id@, members@)
                && members_encodable(members@),
            Err(e) => e is InvalidInput && !members_encodable(members@),
        },
{
    let ghost head = out@;
    push_array32(out, &vault_id.0);
    push_length(out, members.len())?;
    push_members(out, members)?;
    assert(out@ =~= head + welcome_bytes(vault_id@, members@));
    Ok(())
}

/// Reads `count` member records.
fn read_members(reader: &mut Reader, count: usize, Ghost(expected): Ghost<Option<Seq<IdentityDocument>>>) -> (r: Result<Vec<IdentityDocument>>)
    requires
        old(reader).wf(),
        expected matches Some(m) ==> m.len() == count && members_encodable(m) && old(reader).rest()
            == flat(m, member_record_fn()),
    ensures
        final(reader).wf(),
        match r {
            Ok(members) => members@.len() == count && old(reader).rest() == flat(
                members@,
                member_record_fn(),
            ) + final(reader).rest() && forall|i: int|
                0 <= i < members@.len() ==> member_encodable(#[trigger] members@[i]) && (
            expected is Some ==> final(reader).rest().len() == 0),
            Err(e) => e is InvalidInput && expected is None,
        },
{
    let ghost start = reader.rest();
    let mut members: Vec<IdentityDocument> = Vec::new();
    let mut i: usize = 0;
    proof {
        if let Some(m) = expected {
            assert(m.skip(0) =~= m);
        }
        assert(flat(members@, member_record_fn()) + start =~= start);
    }
    while i < count
        invariant
            reader.wf(),
            i <= count,
            members@.len() == i,
            start == old(reader).rest(),
            start == flat(members@, member_record_fn()) + reader.rest(),
            forall|j: int| 0 <= j < i ==> member_encodable(#[trigger] members@[j]),
            expected matches Some(m) ==> m.len() == count && members_encodable(m)
                && reader.rest() == flat(m.skip(i as int), member_record_fn()),
        decreases count - i,
    {
        proof {
            if let Some(m) = expected {
                lemma_flat_skip(m, i as int, member_record_fn());
                assert(member_encodable(m[i as int]));
                lemma_take_var(
                    identity_bytes(m[i as int]),
                    flat(m.skip(i + 1), member_record_fn()),
                );
            }
        }
        let v = reader.variable()?;
        proof {
            if let Some(m) = expected {
                assert(v@ == identity_bytes(m[i as int]));
            }
        }
        let d = decode_identity(v)?;
        proof {
            lemma_flat_push(members@, d, member_record_fn());
        }
        members.push(d);
        i = i + 1;
        proof {
            assert(members@[i - 1] == d);
        }
    }
    proof {
        if let Some(m) = expected {
            assert(m.skip(count as int) =~= Seq::<IdentityDocument>::empty());
        }
    }
    Ok(members)
}

pub fn decode_net_welcome(bytes: &[u8]) -> (r: Result<NetWelcome>)
    ensures
        match r {
            Ok(w) => bytes@ == welcome_bytes(w.vault_id@, w.members@) && members_encodable(
                w.members@,
            ),
            Err(e) => e is InvalidInput && forall|v: Seq<u8>, m: Seq<IdentityDocument>|
                v.len() == 32 && members_encodable(m) ==> bytes@ != #[trigger] welcome_bytes(v, m),
        },
{
    let ghost s = bytes@;
    let ghost target = choose|v: Seq<u8>, m: Seq<IdentityDocument>|
        v.len() == 32 && members_encodable(m) && s == #[trigger] welcome_bytes(v, m);
    let ghost canon = target.0.len() == 32 && members_encodable(target.1) && s == welcome_bytes(
        target.0,
        target.1,
    );
    proof {
        if canon {
            let (v, m) = target;
            lemma_take_bytes(v, be32(m.len() as u32) + flat(m, member_record_fn()));
            lemma_take_u32(m.len() as u32, flat(m, member_record_fn()));
            lemma_member_records_len(m);
            let l = flat(m, member_record_fn()).len() as int;
            assert(m.len() <= l / 56) by (nonlinear_arith)
                requires
                    56 * m.len() <= l,
            ;
        }
    }
    let mut reader = Reader::new(bytes);
    let vault_id = VaultId(reader.array32()?);
    let count = reader.count(56)?;
    let ghost expected: Option<Seq<IdentityDocument>> = if canon {
        Some(target.1)
    } else {
        None
    };
    let members = read_members(&mut reader, count, Ghost(expected))?;
    let ghost rest = reader.rest();
    reader.finish()?;
    proof {
        assert(flat(members@, member_record_fn()) + rest =~= flat(members@, member_record_fn()));
    }
    let welcome = NetWelcome { vault_id, members };
    assert(bytes@ =~= welcome_bytes(welcome.vault_id@, welcome.members@));
    Ok(welcome)
}

// ---------------------------------------------------------------------------
// Flush offers
// ---------------------------------------------------------------------------

/// The most frames one mailbox flush may announce.
pub const MAX_FLUSH_FRAMES: u32 = 1_000_000;

pub open spec fn flush_offer_bytes(challenge: Seq<u8>, frame_count: u32) -> Seq<u8> {
    challenge + be32(frame_count)
}

pub fn encode_flush_offer(offer: &FlushOffer) -> (r: Result<[u8; 36]>)
    ensures
        match r {
            Ok(a) => a@ == flush_offer_bytes(offer.challenge.0@, offer.frame_count)
                && offer.frame_count <= MAX_FLUSH_FRAMES,
            Err(e) => e is InvalidInput && offer.frame_count > MAX_FLUSH_FRAMES,
        },
{
    if offer.frame_count > MAX_FLUSH_FRAMES {
        return Err(Error::InvalidInput("flush frame count exceeds cap"));
    }
    let mut out = [0u8; 36];
    let mut i: usize = 0;
    while i < 32
        invariant
            i <= 32,
            out@.len() == 36,
            forall|j: int| 0 <= j < i ==> out@[j] == offer.challenge.0@[j],
        decreases 32 - i,
    {
        out[i] = offer.challenge.0[i];
        i = i + 1;
    }
    let n = offer.frame_count;
    out[32] = (n >> 24u32) as u8;
    out[33] = (n >> 16u32) as u8;
    out[34] = (n >> 8u32) as u8;
    out[35] = n as u8;
    assert(out@ =~= flush_offer_bytes(offer.challenge.0@, offer.frame_count));
    Ok(out)
}

pub fn decode_flush_offer(bytes: &[u8]) -> (r: Result<FlushOffer>)
    ensures
        match r {
            Ok(o) => bytes@ == flush_offer_bytes(o.challenge.0@, o.frame_count) && o.frame_count
                <= MAX_FLUSH_FRAMES,
            Err(e) => e is InvalidInput && forall|c: Seq<u8>, n: u32|
                c.len() == 32 && n <= MAX_FLUSH_FRAMES ==> bytes@ != #[trigger] flush_offer_bytes(
                    c,
                    n,
                ),
        },
{
    proof {
        assert forall|c: Seq<u8>, n: u32|
            c.len() == 32 && bytes@ == #[trigger] flush_offer_bytes(c, n) implies bytes@.len() == 36
            && bytes@.skip(32) == be32(n) by {
            lemma_be32(n);
            assert(bytes@.skip(32) =~= be32(n));
        }
    }
    let mut reader = Reader::new(bytes);
    let challenge = FlushChallenge(reader.array32()?);
    let frame_count = reader.u32()?;
    reader.finish()?;
    proof {
        assert(bytes@ =~= flush_offer_bytes(challenge.0@, frame_count));
        assert forall|c: Seq<u8>, n: u32|
            c.len() == 32 && bytes@ == #[trigger] flush_offer_bytes(c, n) implies n == frame_count by {
            lemma_take_bytes(c, be32(n));
            lemma_take_u32(n, Seq::<u8>::empty());
            assert(be32(n) + Seq::<u8>::empty() =~= be32(n));
            lemma_take_u32(frame_count, Seq::<u8>::empty());
            assert(be32(frame_count) + Seq::<u8>::empty() =~= be32(frame_count));
            assert(bytes@.skip(32) =~= be32(frame_count));
        }
    }
    if frame_count > MAX_FLUSH_FRAMES {
        return Err(Error::InvalidInput("flush frame count exceeds cap"));
    }
    Ok(FlushOffer { challenge, frame_count })
}

// ---------------------------------------------------------------------------
// Encrypted live controls
// ---------------------------------------------------------------------------

pub open spec fn net_control_bytes(c: NetControl) -> Seq<u8> {
    match c {
        NetControl::JoinAccepted { vault_id, members } => seq![1u8] + welcome_bytes(
            vault_id@,
            members@,
        ),
        NetControl::FlushEnd { digest } => seq![2u8] + digest@,
        NetControl::FlushApplied { digest } => seq![3u8] + digest@,
        NetControl::Ready => seq![4u8],
        NetControl::Heartbeat => seq![5u8],
        NetControl::HeartbeatApplied { through } => seq![5u8] + be64(through),
    }
}

pub open spec fn net_control_encodable(c: NetControl) -> bool {
    match c {
        NetControl::JoinAccepted { members, .. } => members_encodable(members@),
        _ => true,
    }
}

pub fn encode_net_control(control: &NetControl) -> (r: Result<Vec<u8>>)
    ensures
        match r {
            Ok(v) => v@ == net_control_bytes(*control) && net_control_encodable(*control),
            Err(e) => e is InvalidInput && !net_control_encodable(*control),
        },
{
    let mut out: Vec<u8> = Vec::new();
    match control {
        NetControl::JoinAccepted { vault_id, members } => {
            out.push(1);
            push_welcome(&mut out, vault_id, members)?;
        },
        NetControl::FlushEnd { digest } => {
            out.push(2);
            push_bytes(&mut out, digest);
        },
        NetControl::FlushApplied { digest } => {
            out.push(3);
            push_bytes(&mut out, digest);
        },
        NetControl::Ready => out.push(4),
        NetControl::Heartbeat => out.push(5),
        NetControl::HeartbeatApplied { through } => {
            out.push(5);
            push_u64(&mut out, *through);
        },
    }
    assert(out@ =~= net_control_bytes(*control));
    Ok(out)
}

pub fn decode_net_control(bytes: &[u8]) -> (r: Result<NetControl>)
    ensures
        match r {
            Ok(c) => bytes@ == net_control_bytes(c) && net_control_encodable(c),
            Err(e) => e is InvalidInput && forall|c: NetControl|
                net_control_encodable(c) ==> bytes@ != #[trigger] net_control_bytes(c),
        },
{
    let ghost s = bytes@;
    proof {
        assert forall|c: NetControl| net_control_encodable(c) && s == #[trigger] net_control_bytes(c)
            implies s.len() >= 1 && s.skip(1) == net_control_bytes(c).skip(1) by {}
        assert forall|through: u64| s == #[trigger] net_control_bytes(NetControl::HeartbeatApplied { through })
            implies s.len() == 9 by {
            lemma_be64(through);
        }
    }
    let mut reader = Reader::new(bytes);
    let kind = reader.byte()?;
    let ghost body = reader.rest();
    let control = if kind == 1 {
        let n = reader.remaining();
        let rest = reader.take(n)?;
        proof {
            assert(rest@ =~= body);
            assert forall|v: Seq<u8>, m: Seq<IdentityDocument>| s == seq![1u8] + #[trigger] welcome_bytes(v, m)
                implies rest@ == welcome_bytes(v, m) by {
                assert(s.skip(1) =~= welcome_bytes(v, m));
            }
        }
        let welcome = match decode_net_welcome(rest) {
            Ok(w) => w,
            Err(e) => {
                proof {
                    assert forall|c: NetControl| net_control_encodable(c) implies s != #[trigger] net_control_bytes(c) by {
                        if let NetControl::JoinAccepted { vault_id, members } = c {
                            if s == net_control_bytes(c) {
                                assert(s == seq![1u8] + welcome_bytes(vault_id@, members@));
                                assert(rest@ == welcome_bytes(vault_id@, members@));
                            }
                        }
                    }
                }
                return Err(e);
            },
        };
        NetControl::JoinAccepted { vault_id: welcome.vault_id, members: welcome.members }
    } else if kind == 2 {
        NetControl::FlushEnd { digest: reader.array32()? }
    } else if kind == 3 {
        NetControl::FlushApplied { digest: reader.array32()? }
    } else if kind == 4 {
        NetControl::Ready
    } else if kind == 5 {
        let n = reader.remaining();
        if n == 0 {
            NetControl::Heartbeat
        } else if n == 8 {
            NetControl::HeartbeatApplied { through: reader.u64()? }
        } else {
            return Err(Error::InvalidInput("invalid heartbeat control length"));
        }
    } else {
        return Err(Error::InvalidInput("unknown encrypted network control kind"));
    };
    reader.finish()?;
    assert(bytes@ =~= net_control_bytes(control));
    Ok(control)
}

// ---------------------------------------------------------------------------
// Vault metadata
// ---------------------------------------------------------------------------

pub open spec fn vault_magic() -> Seq<u8> {
    seq![113u8, 102, 115, 47, 108, 111, 99, 97, 108, 47, 118, 97, 117, 108, 116, 47]
}

pub open spec fn distinct_peers(members: Seq<PeerId>) -> bool {
    forall|i: int, j: int| 0 <= i < j < members.len() ==> members[i]@ != members[j]@
}

pub open spec fn vault_metadata_bytes(m: VaultMetadata) -> Seq<u8> {
    vault_magic() + (seq![LOCAL_FORMAT_VERSION] + (m.vault_id@ + (m.join_code@ + (be64(m.issued_at)
        + (be32(m.members@.len() as u32) + ids_bytes(m.members@))))))
}

/// Vault metadata bytes determine the metadata: decoding encoded metadata
/// gives back its vault, join code, issue time and members in order.
pub proof fn law_vault_metadata_bytes_injective(a: VaultMetadata, b: VaultMetadata)
    requires
        fits_u32(a.members@.len() as int),
        fits_u32(b.members@.len() as int),
        vault_metadata_bytes(a) == vault_metadata_bytes(b),
    ensures
        a.vault_id == b.vault_id,
        a.join_code == b.join_code,
        a.issued_at == b.issued_at,
        a.members@ == b.members@,
{
    let (ta, tb) = (be32(a.members@.len() as u32) + ids_bytes(a.members@), be32(b.members@.len() as u32) + ids_bytes(b.members@));
    let (ua, ub) = (a.join_code@ + (be64(a.issued_at) + ta), b.join_code@ + (be64(b.issued_at) + tb));
    lemma_take_bytes(vault_magic(), seq![LOCAL_FORMAT_VERSION] + (a.vault_id@ + ua));
    lemma_take_bytes(vault_magic(), seq![LOCAL_FORMAT_VERSION] + (b.vault_id@ + ub));
    lemma_take_bytes(seq![LOCAL_FORMAT_VERSION], a.vault_id@ + ua);
    lemma_take_bytes(seq![LOCAL_FORMAT_VERSION], b.vault_id@ + ub);
    lemma_take_bytes(a.vault_id@, ua);
    lemma_take_bytes(b.vault_id@, ub);
    lemma_take_bytes(a.join_code@, be64(a.issued_at) + ta);
    lemma_take_bytes(b.join_code@, be64(b.issued_at) + tb);
    lemma_take_u64(a.issued_at, ta);
    lemma_take_u64(b.issued_at, tb);
    lemma_take_u32(a.members@.len() as u32, ids_bytes(a.members@));
    lemma_take_u32(b.members@.len() as u32, ids_bytes(b.members@));
    lemma_ids_bytes_injective(a.members@, b.members@, 32);
    assert(a.vault_id.0 =~= b.vault_id.0);
    assert(a.join_code.0 =~= b.join_code.0);
    assert forall|i: int| 0 <= i < a.members@.len() implies a.members@[i] == b.members@[i] by {
        assert(a.members@[i]@ == b.members@[i]@);
        assert(a.members@[i].0 =~= b.members@[i].0);
    }
    assert(a.members@ =~= b.members@);
}

pub fn encode_vault_metadata(metadata: &VaultMetadata) -> (r: Result<Vec<u8>>)
    ensures
        match r {
            Ok(v) => v@ == vault_metadata_bytes(*metadata) && fits_u32(
                metadata.members@.len() as int,
            ),
            Err(e) => e is InvalidInput && !fits_u32(metadata.members@.len() as int),
        },
{
    let magic: [u8; 16] = [113, 102, 115, 47, 108, 111, 99, 97, 108, 47, 118, 97, 117, 108, 116, 47];
    assert(magic@ =~= vault_magic());
    let mut out: Vec<u8> = Vec::new();
    push_bytes(&mut out, &magic);
    out.push(LOCAL_FORMAT_VERSION);
    push_array32(&mut out, &metadata.vault_id.0);
    push_bytes(&mut out, &metadata.join_code.0);
    push_u64(&mut out, metadata.issued_at);
    push_length(&mut out, metadata.members.len())?;
    let ghost head = out@;
    let mut i: usize = 0;
    while i < metadata.members.len()
        invariant
            i <= metadata.members@.len(),
            out@ == head + ids_bytes(metadata.members@.take(i as int)),
        decreases metadata.members@.len() - i,
    {
        proof {
            lemma_ids_bytes_push(metadata.members@.take(i as int), metadata.members@[i as int]);
            assert(metadata.members@.take(i + 1) =~= metadata.members@.take(i as int).push(
                metadata.members@[i as int],
            ));
        }
        push_array32(&mut out, &metadata.members[i].0);
        i = i + 1;
    }
    assert(metadata.members@.take(metadata.members@.len() as int) =~= metadata.members@);
    assert(out@ =~= vault_metadata_bytes(*metadata));
    Ok(out)
}

/// Reads `count` distinct peer identifiers.
fn read_distinct_peers(reader: &mut Reader, count: usize, Ghost(expected): Ghost<Option<Seq<PeerId>>>) -> (r: Result<Vec<PeerId>>)
    requires
        old(reader).wf(),
        expected matches Some(m) ==> m.len() == count && old(reader).rest() == ids_bytes(m),
    ensures
        final(reader).wf(),
        match r {
            Ok(members) => members@.len() == count && old(reader).rest() == ids_bytes(members@)
                + final(reader).rest() && distinct_peers(members@) && (expected matches Some(m)
                ==> final(reader).rest().len() == 0 && distinct_peers(m)),
            Err(e) => e is InvalidInput && (expected is None || (e == Error::InvalidInput(
                "duplicate vault member",
            ) && !distinct_peers(expected.unwrap()))),
        },
{
    let ghost start = reader.rest();
    proof {
        if let Some(m) = expected {
            assert(m.skip(0) =~= m);
        }
        assert(ids_bytes(Seq::<PeerId>::empty()) + start =~= start);
    }
    let mut members: Vec<PeerId> = Vec::new();
    let mut i: usize = 0;
    while i < count
        invariant
            reader.wf(),
            i <= count,
            members@.len() == i,
            start == old(reader).rest(),
            start == ids_bytes(members@) + reader.rest(),
            distinct_peers(members@),
            expected matches Some(m) ==> m.len() == count && reader.rest()
                == ids_bytes(m.skip(i as int)) && forall|j: int|
                0 <= j < i ==> (#[trigger] members@[j])@ == m[j]@,
        decreases count - i,
    {
        proof {
            if let Some(m) = expected {
                lemma_ids_bytes_skip(m, i as int);
                lemma_take_bytes(m[i as int]@, ids_bytes(m.skip(i + 1)));
            }
        }
        let member = PeerId(reader.array32()?);
        if contains_peer(&members, &member) {
            proof {
                if let Some(m) = expected {
                    let j = choose|j: int|
                        0 <= j < members@.len() && (#[trigger] members@[j])@ == member@;
                    assert(members@[j]@ == m[j]@);
                    assert(member@ == m[i as int]@);
                }
            }
            return Err(Error::InvalidInput("duplicate vault member"));
        }
        proof {
            lemma_ids_bytes_push(members@, member);
        }
        members.push(member);
        i = i + 1;
    }
    proof {
        if let Some(m) = expected {
            assert(m.skip(count as int) =~= Seq::<PeerId>::empty());
            assert forall|a: int, b: int| 0 <= a < b < m.len() implies m[a]@ != m[b]@ by {
                assert(members@[a]@ == m[a]@ && members@[b]@ == m[b]@);
            }
        }
    }
    Ok(members)
}

/// Whether `peer` occurs in `members`.
fn contains_peer(members: &Vec<PeerId>, peer: &PeerId) -> (r: bool)
    ensures
        r == exists|i: int| 0 <= i < members@.len() && (#[trigger] members@[i])@ == peer@,
{
    let mut i: usize = 0;
    while i < members.len()
        invariant
            i <= members@.len(),
            forall|j: int| 0 <= j < i ==> (#[trigger] members@[j])@ != peer@,
        decreases members@.len() - i,
    {
        if crate::ids::bytes32_eq(&members[i].0, &peer.0) {
            return true;
        }
        i = i + 1;
    }
    false
}

#[verifier::rlimit(80)]
#[verifier::spinoff_prover]
pub fn decode_vault_metadata(bytes: &[u8]) -> (r: Result<VaultMetadata>)
    ensures
        match r {
            Ok(m) => bytes@ == vault_metadata_bytes(m) && distinct_peers(m.members@) && fits_u32(
                m.members@.len() as int,
            ),
            Err(e) => e is InvalidInput && forall|m: VaultMetadata|
                distinct_peers(m.members@) && fits_u32(m.members@.len() as int) ==> bytes@
                    != #[trigger] vault_metadata_bytes(m),
        },
        forall|m: VaultMetadata|
            !distinct_peers(m.members@) && fits_u32(m.members@.len() as int) && bytes@
                == #[trigger] vault_metadata_bytes(m) ==> r == Err::<VaultMetadata, Error>(
                Error::InvalidInput("duplicate vault member"),
            ),
{
    let ghost s = bytes@;
    let ghost target = choose|m: VaultMetadata|
        fits_u32(m.members@.len() as int) && s == #[trigger] vault_metadata_bytes(m);
    let ghost canon = fits_u32(target.members@.len() as int) && s == vault_metadata_bytes(target);
    proof {
        assert forall|m: VaultMetadata|
            fits_u32(m.members@.len() as int) && s == #[trigger] vault_metadata_bytes(m) implies canon
                && m.members@ == target.members@ by {
            law_vault_metadata_bytes_injective(m, target);
        }
    }
    let ghost tm = target.members@;
    proof {
        if canon {
            let m = target;
            let tail = be32(tm.len() as u32) + ids_bytes(tm);
            lemma_take_bytes(vault_magic(), seq![LOCAL_FORMAT_VERSION] + (m.vault_id@ + (m.join_code@ + (be64(m.issued_at) + tail))));
            lemma_take_bytes(m.vault_id@, m.join_code@ + (be64(m.issued_at) + tail));
            lemma_take_bytes(m.join_code@, be64(m.issued_at) + tail);
            lemma_take_u64(m.issued_at, tail);
            lemma_take_u32(tm.len() as u32, ids_bytes(tm));
            lemma_ids_bytes_len(tm, 32);
            let l = ids_bytes(tm).len() as int;
            assert(tm.len() <= l / 32) by (nonlinear_arith)
                requires
                    32 * tm.len() == l,
            ;
        }
    }
    let magic: [u8; 16] = [113, 102, 115, 47, 108, 111, 99, 97, 108, 47, 118, 97, 117, 108, 116, 47];
    assert(magic@ =~= vault_magic());
    let mut reader = Reader::new(bytes);
    reader.require_prefix(&magic)?;
    proof {
        if canon {
            assert(reader.rest() =~= s.skip(16));
            assert(reader.rest() == seq![LOCAL_FORMAT_VERSION] + reader.rest().skip(1));
        }
    }
    let ghost after_magic = reader.rest();
    reader.require_version()?;
    proof {
        if canon {
            assert(reader.rest() =~= after_magic.skip(1));
        }
    }
    let vault_id = VaultId(reader.array32()?);
    let join_code = JoinCode(reader.array16()?);
    let issued_at = reader.u64()?;
    let count = reader.count(32)?;
    proof {
        if canon {
            let m = target;
            let tail = be32(tm.len() as u32) + ids_bytes(tm);
            assert(after_magic == seq![LOCAL_FORMAT_VERSION] + (m.vault_id@ + (m.join_code@ + (be64(m.issued_at) + tail))));
            assert(vault_id@ == m.vault_id@);
            assert(join_code@ == m.join_code@);
            assert(issued_at == m.issued_at);
            assert(count == tm.len());
            assert(reader.rest() == ids_bytes(tm));
        }
    }
    let ghost expected: Option<Seq<PeerId>> = if canon {
        Some(tm)
    } else {
        None
    };
    let members = match read_distinct_peers(&mut reader, count, Ghost(expected)) {
        Ok(members) => members,
        Err(e) => return Err(e),
    };
    reader.finish()?;
    let metadata = VaultMetadata { vault_id, join_code, issued_at, members };
    proof {
        assert(ids_bytes(metadata.members@) + reader.rest() =~= ids_bytes(metadata.members@));
    }
    assert(bytes@ =~= vault_metadata_bytes(metadata));
    Ok(metadata)
}

} // verus!
