//! The key store's durable state: the local identity, known peers, signed
//! pair wraps, pair keys and per-peer epoch watermarks. Stores written before
//! watermarks existed end after the keys and still read back.

use vstd::prelude::*;

use crate::crypto::identity::IdentityDocument;
use crate::encoding::identity::{
    decode_identity_document, encode_identity, encode_wrap, decode_wrap_message, identity_bytes,
    identity_encodable, identity_m_bytes, wrap_bytes, wrap_encodable, wrap_m_bytes,
};
use crate::encoding::replica::{lemma_next_record, lemma_section_step, lemma_take_section, section};
use crate::error::{Error, Result};
use crate::ids::{Epoch, PeerId};
use crate::keystore::{PersistedKey, PersistedPair, PersistedState};
use crate::wire::{
    be32, be64, fits_u32, flat, lemma_be32, lemma_be64, lemma_flat_push, lemma_take_bytes, lemma_take_u64,
    lemma_take_var, push_array32, push_bytes, push_length, push_u64, take_bytes, take_u64, take_var, var, Reader,
    LOCAL_FORMAT_VERSION,
};

verus! {

/// "qfs/local/keys/"
pub open spec fn store_state_magic() -> Seq<u8> {
    seq![113u8, 102, 115, 47, 108, 111, 99, 97, 108, 47, 107, 101, 121, 115, 47]
}

pub open spec fn peer_doc_fn() -> spec_fn(IdentityDocument) -> Seq<u8> {
    |d: IdentityDocument| identity_bytes(d)
}

pub open spec fn pair_fn() -> spec_fn(PersistedPair) -> Seq<u8> {
    |p: PersistedPair| p.peer_id@ + (be64(p.epoch.0) + (p.initiator@ + wrap_bytes(p.wrap)))
}

pub open spec fn key_fn() -> spec_fn(PersistedKey) -> Seq<u8> {
    |k: PersistedKey| be64(k.slot) + (k.peer_id@ + (be64(k.epoch.0) + k.key@))
}

pub open spec fn mark_fn() -> spec_fn((PeerId, Epoch)) -> Seq<u8> {
    |w: (PeerId, Epoch)| w.0@ + be64(w.1.0)
}

/// The stored state followed by `tail`: the watermark section, or nothing
/// in a store written before watermarks.
pub open spec fn store_state_layout(s: PersistedState, tail: Seq<u8>) -> Seq<u8> {
    store_state_magic() + (seq![LOCAL_FORMAT_VERSION] + (s.local_id@ + (be64(s.next_slot) + (section(
        s.peers@,
        peer_doc_fn(),
    ) + (section(s.pairs@, pair_fn()) + (section(s.keys@, key_fn()) + tail))))))
}

pub open spec fn store_state_bytes(s: PersistedState) -> Seq<u8> {
    store_state_layout(s, section(s.epoch_watermarks@, mark_fn()))
}

/// A store without watermarks as early stores wrote it.
pub open spec fn legacy_store_state_bytes(s: PersistedState) -> Seq<u8> {
    store_state_layout(s, Seq::<u8>::empty())
}

pub open spec fn store_state_encodable(s: PersistedState) -> bool {
    &&& fits_u32(s.peers@.len() as int)
    &&& fits_u32(s.pairs@.len() as int)
    &&& fits_u32(s.keys@.len() as int)
    &&& fits_u32(s.epoch_watermarks@.len() as int)
    &&& forall|i: int| 0 <= i < s.peers@.len() ==> identity_encodable(#[trigger] s.peers@[i])
    &&& forall|i: int| 0 <= i < s.pairs@.len() ==> wrap_encodable((#[trigger] s.pairs@[i]).wrap)
}

/// The bytes that read back as `s`: the current layout, or the early one
/// when there are no watermarks.
pub open spec fn stored_as(bytes: Seq<u8>, s: PersistedState) -> bool {
    &&& store_state_encodable(s)
    &&& (bytes == store_state_bytes(s) || (s.epoch_watermarks@.len() == 0 && bytes
        == legacy_store_state_bytes(s)))
}

fn push_peers(out: &mut Vec<u8>, peers: &Vec<IdentityDocument>) -> (r: Result<()>)
    ensures
        match r {
            Ok(()) => final(out)@ == old(out)@ + section(peers@, peer_doc_fn()) && fits_u32(
                peers@.len() as int,
            ) && forall|i: int| 0 <= i < peers@.len() ==> identity_encodable(#[trigger] peers@[i]),
            Err(e) => e is InvalidInput && !(fits_u32(peers@.len() as int) && forall|i: int|
                0 <= i < peers@.len() ==> identity_encodable(#[trigger] peers@[i])),
        },
{
    let ghost s = peers@;
    push_length(out, peers.len())?;
    let ghost head = out@;
    let mut i: usize = 0;
    assert(s.take(0) =~= Seq::<IdentityDocument>::empty());
    while i < peers.len()
        invariant
            i <= s.len(),
            s == peers@,
            fits_u32(s.len() as int),
            out@ == head + flat(s.take(i as int), peer_doc_fn()),
            forall|k: int| 0 <= k < i ==> identity_encodable(#[trigger] s[k]),
        decreases s.len() - i,
    {
        proof {
            lemma_section_step(s, i as int, peer_doc_fn());
        }
        let bytes = encode_identity(&peers[i])?;
        push_bytes(out, bytes.as_slice());
        i = i + 1;
    }
    assert(s.take(s.len() as int) =~= s);
    assert(out@ =~= old(out)@ + section(s, peer_doc_fn()));
    Ok(())
}

fn push_pairs(out: &mut Vec<u8>, pairs: &Vec<PersistedPair>) -> (r: Result<()>)
    ensures
        match r {
            Ok(()) => final(out)@ == old(out)@ + section(pairs@, pair_fn()) && fits_u32(
                pairs@.len() as int,
            ) && forall|i: int| 0 <= i < pairs@.len() ==> wrap_encodable((#[trigger] pairs@[i]).wrap),
            Err(e) => e is InvalidInput && !(fits_u32(pairs@.len() as int) && forall|i: int|
                0 <= i < pairs@.len() ==> wrap_encodable((#[trigger] pairs@[i]).wrap)),
        },
{
    let ghost s = pairs@;
    push_length(out, pairs.len())?;
    let ghost head = out@;
    let mut i: usize = 0;
    assert(s.take(0) =~= Seq::<PersistedPair>::empty());
    while i < pairs.len()
        invariant
            i <= s.len(),
            s == pairs@,
            fits_u32(s.len() as int),
            out@ == head + flat(s.take(i as int), pair_fn()),
            forall|k: int| 0 <= k < i ==> wrap_encodable((#[trigger] s[k]).wrap),
        decreases s.len() - i,
    {
        proof {
            lemma_section_step(s, i as int, pair_fn());
        }
        let pair = &pairs[i];
        let wrap = encode_wrap(&pair.wrap)?;
        let ghost before = out@;
        push_array32(out, &pair.peer_id.0);
        push_u64(out, pair.epoch.0);
        push_array32(out, &pair.initiator.0);
        push_bytes(out, wrap.as_slice());
        assert(out@ =~= before + (pair_fn())(s[i as int]));
        i = i + 1;
    }
    assert(s.take(s.len() as int) =~= s);
    assert(out@ =~= old(out)@ + section(s, pair_fn()));
    Ok(())
}

fn push_keys(out: &mut Vec<u8>, keys: &Vec<PersistedKey>) -> (r: Result<()>)
    ensures
        match r {
            Ok(()) => final(out)@ == old(out)@ + section(keys@, key_fn()) && fits_u32(keys@.len() as int),
            Err(e) => e is InvalidInput && !fits_u32(keys@.len() as int),
        },
{
    let ghost s = keys@;
    push_length(out, keys.len())?;
    let ghost head = out@;
    let mut i: usize = 0;
    assert(s.take(0) =~= Seq::<PersistedKey>::empty());
    while i < keys.len()
        invariant
            i <= s.len(),
            s == keys@,
            out@ == head + flat(s.take(i as int), key_fn()),
        decreases s.len() - i,
    {
        proof {
            lemma_section_step(s, i as int, key_fn());
        }
        let key = &keys[i];
        let ghost before = out@;
        push_u64(out, key.slot);
        push_array32(out, &key.peer_id.0);
        push_u64(out, key.epoch.0);
        push_array32(out, &key.key);
        assert(out@ =~= before + (key_fn())(s[i as int]));
        i = i + 1;
    }
    assert(s.take(s.len() as int) =~= s);
    assert(out@ =~= old(out)@ + section(s, key_fn()));
    Ok(())
}

fn push_marks(out: &mut Vec<u8>, marks: &Vec<(PeerId, Epoch)>) -> (r: Result<()>)
    ensures
        match r {
            Ok(()) => final(out)@ == old(out)@ + section(marks@, mark_fn()) && fits_u32(marks@.len() as int),
            Err(e) => e is InvalidInput && !fits_u32(marks@.len() as int),
        },
{
    let ghost s = marks@;
    push_length(out, marks.len())?;
    let ghost head = out@;
    let mut i: usize = 0;
    assert(s.take(0) =~= Seq::<(PeerId, Epoch)>::empty());
    while i < marks.len()
        invariant
            i <= s.len(),
            s == marks@,
            out@ == head + flat(s.take(i as int), mark_fn()),
        decreases s.len() - i,
    {
        proof {
            lemma_section_step(s, i as int, mark_fn());
        }
        let ghost before = out@;
        push_array32(out, &marks[i].0.0);
        push_u64(out, marks[i].1.0);
        assert(out@ =~= before + (mark_fn())(s[i as int]));
        i = i + 1;
    }
    assert(s.take(s.len() as int) =~= s);
    assert(out@ =~= old(out)@ + section(s, mark_fn()));
    Ok(())
}

/// The stored bytes of the key store's state.
#[verifier::rlimit(30)]
pub fn encode_store_state(state: &PersistedState) -> (r: Result<Vec<u8>>)
    ensures
        match r {
            Ok(v) => v@ == store_state_bytes(*state) && store_state_encodable(*state),
            Err(e) => e is InvalidInput && !store_state_encodable(*state),
        },
{
    let magic: [u8; 15] = [113, 102, 115, 47, 108, 111, 99, 97, 108, 47, 107, 101, 121, 115, 47];
    assert(magic@ =~= store_state_magic());
    let mut out: Vec<u8> = Vec::new();
    push_bytes(&mut out, &magic);
    out.push(LOCAL_FORMAT_VERSION);
    push_array32(&mut out, &state.local_id.0);
    push_u64(&mut out, state.next_slot);
    let ghost head = out@;
    assert(head =~= store_state_magic() + (seq![LOCAL_FORMAT_VERSION] + (state.local_id@ + be64(
        state.next_slot,
    ))));
    push_peers(&mut out, &state.peers)?;
    let ghost p = section(state.peers@, peer_doc_fn());
    push_pairs(&mut out, &state.pairs)?;
    let ghost q = section(state.pairs@, pair_fn());
    push_keys(&mut out, &state.keys)?;
    let ghost k = section(state.keys@, key_fn());
    push_marks(&mut out, &state.epoch_watermarks)?;
    let ghost m = section(state.epoch_watermarks@, mark_fn());
    assert(out@ == head + p + q + k + m);
    assert(out@ =~= store_state_bytes(*state));
    Ok(out)
}

// ---------------------------------------------------------------------------
// Decoding
// ---------------------------------------------------------------------------

fn read_peer_doc(reader: &mut Reader, Ghost(expected): Ghost<Option<(IdentityDocument, Seq<u8>)>>) -> (r:
    Result<IdentityDocument>)
    requires
        old(reader).wf(),
        expected matches Some((d, t)) ==> identity_encodable(d) && old(reader).rest() == identity_bytes(d) + t,
    ensures
        final(reader).wf(),
        match r {
            Ok(d2) => old(reader).rest() == identity_bytes(d2) + final(reader).rest() && identity_encodable(d2)
                && (expected matches Some((d, t)) ==> final(reader).rest() == t),
            Err(e) => e is InvalidInput && expected is None,
        },
{
    proof {
        if let Some((d, t)) = expected {
            assert(identity_bytes(d) + t =~= var(identity_m_bytes(d)) + (var(d.signature@) + t));
            lemma_take_var(identity_m_bytes(d), var(d.signature@) + t);
            lemma_take_var(d.signature@, t);
        }
    }
    let ghost start = reader.rest();
    let message = reader.variable()?;
    let signature = reader.variable()?;
    let document = decode_identity_document(message, signature)?;
    assert(start =~= identity_bytes(document) + reader.rest());
    Ok(document)
}

/// How a stored pair record splits into its fields.
proof fn lemma_pair_layout(p: PersistedPair, t: Seq<u8>)
    requires
        wrap_encodable(p.wrap),
    ensures
        ({
            let w = p.wrap;
            let r4 = var(w.signature@) + t;
            let r3 = var(wrap_m_bytes(w)) + r4;
            let r2 = p.initiator@ + r3;
            let r1 = be64(p.epoch.0) + r2;
            &&& (pair_fn())(p) + t == p.peer_id@ + r1
            &&& take_bytes(p.peer_id@ + r1, 32) == Some((p.peer_id@, r1))
            &&& take_u64(r1) == Some((p.epoch.0, r2))
            &&& take_bytes(r2, 32) == Some((p.initiator@, r3))
            &&& take_var(r3) == Some((wrap_m_bytes(w), r4))
            &&& take_var(r4) == Some((w.signature@, t))
        }),
{
    let w = p.wrap;
    let r4 = var(w.signature@) + t;
    let r3 = var(wrap_m_bytes(w)) + r4;
    let r2 = p.initiator@ + r3;
    let r1 = be64(p.epoch.0) + r2;
    assert((pair_fn())(p) + t =~= p.peer_id@ + r1);
    lemma_take_bytes(p.peer_id@, r1);
    lemma_take_u64(p.epoch.0, r2);
    lemma_take_bytes(p.initiator@, r3);
    lemma_take_var(wrap_m_bytes(w), r4);
    lemma_take_var(w.signature@, t);
}

fn read_pair(reader: &mut Reader, Ghost(expected): Ghost<Option<(PersistedPair, Seq<u8>)>>) -> (r: Result<
    PersistedPair,
>)
    requires
        old(reader).wf(),
        expected matches Some((p, t)) ==> wrap_encodable(p.wrap) && old(reader).rest() == (pair_fn())(p) + t,
    ensures
        final(reader).wf(),
        match r {
            Ok(p2) => old(reader).rest() == (pair_fn())(p2) + final(reader).rest() && wrap_encodable(p2.wrap)
                && (expected matches Some((p, t)) ==> final(reader).rest() == t),
            Err(e) => e is InvalidInput && expected is None,
        },
{
    proof {
        if let Some((p, t)) = expected {
            lemma_pair_layout(p, t);
        }
    }
    let ghost start = reader.rest();
    let peer_id = PeerId(reader.array32()?);
    let epoch = Epoch(reader.u64()?);
    let initiator = PeerId(reader.array32()?);
    let message = reader.variable()?;
    let signature = reader.variable()?;
    let wrap = decode_wrap_message(message, signature)?;
    let pair = PersistedPair { peer_id, epoch, initiator, wrap };
    proof {
        assert(wrap_encodable(pair.wrap));
        lemma_pair_layout(pair, reader.rest());
    }
    Ok(pair)
}

/// How a stored key record splits into its fields.
proof fn lemma_key_layout(k: PersistedKey, t: Seq<u8>)
    ensures
        ({
            let r3 = k.key@ + t;
            let r2 = be64(k.epoch.0) + r3;
            let r1 = k.peer_id@ + r2;
            &&& (key_fn())(k) + t == be64(k.slot) + r1
            &&& take_u64(be64(k.slot) + r1) == Some((k.slot, r1))
            &&& take_bytes(r1, 32) == Some((k.peer_id@, r2))
            &&& take_u64(r2) == Some((k.epoch.0, r3))
            &&& take_bytes(r3, 32) == Some((k.key@, t))
        }),
{
    let r3 = k.key@ + t;
    let r2 = be64(k.epoch.0) + r3;
    let r1 = k.peer_id@ + r2;
    assert((key_fn())(k) + t =~= be64(k.slot) + r1);
    lemma_take_u64(k.slot, r1);
    lemma_take_bytes(k.peer_id@, r2);
    lemma_take_u64(k.epoch.0, r3);
    lemma_take_bytes(k.key@, t);
}

fn read_key(reader: &mut Reader, Ghost(expected): Ghost<Option<(PersistedKey, Seq<u8>)>>) -> (r: Result<
    PersistedKey,
>)
    requires
        old(reader).wf(),
        expected matches Some((k, t)) ==> old(reader).rest() == (key_fn())(k) + t,
    ensures
        final(reader).wf(),
        match r {
            Ok(k2) => old(reader).rest() == (key_fn())(k2) + final(reader).rest() && (expected matches Some(
                (k, t),
            ) ==> final(reader).rest() == t),
            Err(e) => e is InvalidInput && expected is None,
        },
{
    proof {
        if let Some((k, t)) = expected {
            lemma_key_layout(k, t);
        }
    }
    let slot = reader.u64()?;
    let peer_id = PeerId(reader.array32()?);
    let epoch = Epoch(reader.u64()?);
    let key = reader.array32()?;
    let stored = PersistedKey { slot, peer_id, epoch, key };
    proof {
        lemma_key_layout(stored, reader.rest());
    }
    Ok(stored)
}

fn read_mark(reader: &mut Reader, Ghost(expected): Ghost<Option<((PeerId, Epoch), Seq<u8>)>>) -> (r: Result<
    (PeerId, Epoch),
>)
    requires
        old(reader).wf(),
        expected matches Some((w, t)) ==> old(reader).rest() == (mark_fn())(w) + t,
    ensures
        final(reader).wf(),
        match r {
            Ok(w2) => old(reader).rest() == (mark_fn())(w2) + final(reader).rest() && (expected matches Some(
                (w, t),
            ) ==> final(reader).rest() == t),
            Err(e) => e is InvalidInput && expected is None,
        },
{
    proof {
        if let Some((w, t)) = expected {
            assert((mark_fn())(w) + t =~= w.0@ + (be64(w.1.0) + t));
            lemma_take_bytes(w.0@, be64(w.1.0) + t);
            lemma_take_u64(w.1.0, t);
        }
    }
    let ghost start = reader.rest();
    let peer_id = PeerId(reader.array32()?);
    let epoch = Epoch(reader.u64()?);
    assert(start =~= (mark_fn())((peer_id, epoch)) + reader.rest());
    Ok((peer_id, epoch))
}

fn read_peer_docs(reader: &mut Reader, Ghost(expected): Ghost<Option<(Seq<IdentityDocument>, Seq<u8>)>>) -> (r: Result<
    Vec<IdentityDocument>,
>)
    requires
        old(reader).wf(),
        expected matches Some((v, t)) ==> (forall|a: int| 0 <= a < v.len() ==> identity_encodable(#[trigger] v[a])) && fits_u32(v.len() as int) && old(reader).rest()
            == section(v, peer_doc_fn()) + t,
    ensures
        final(reader).wf(),
        match r {
            Ok(xs) => old(reader).rest() == section(xs@, peer_doc_fn()) + final(reader).rest() && fits_u32(
                xs@.len() as int,
            ) && (forall|a: int| 0 <= a < xs@.len() ==> identity_encodable(#[trigger] xs@[a])) && (expected matches Some((v, t)) ==> final(reader).rest() == t),
            Err(e) => e is InvalidInput && expected is None,
        },
{
    proof {
        if let Some((v, t)) = expected {
            assert forall|k: int| 0 <= k < v.len() implies (peer_doc_fn())(#[trigger] v[k]).len() >= 52 by {
                let d = v[k];
                lemma_be32(identity_m_bytes(d).len() as u32);
                lemma_be32(d.signature@.len() as u32);
                lemma_be32(d.ek@.len() as u32);
                lemma_be32(d.vk@.len() as u32);
                lemma_be64(d.created_at);
            }
            lemma_take_section(v, peer_doc_fn(), 52, t);
        }
    }
    let count = reader.count(52)?;
    let ghost start = reader.rest();
    let mut xs: Vec<IdentityDocument> = Vec::new();
    let mut i: usize = 0;
    proof {
        if let Some((v, t)) = expected {
            assert(v.skip(0) =~= v);
        }
        assert(flat(xs@, peer_doc_fn()) + start =~= start);
    }
    while i < count
        invariant
            reader.wf(),
            i <= count,
            count <= u32::MAX,
            xs@.len() == i,
            start == flat(xs@, peer_doc_fn()) + reader.rest(),
            old(reader).rest() == be32(count as u32) + start,
            forall|a: int| 0 <= a < i ==> identity_encodable(#[trigger] xs@[a]),
            expected matches Some((v, t)) ==> (forall|a: int| 0 <= a < v.len() ==> identity_encodable(#[trigger] v[a])) && v.len() == count && reader.rest() == flat(
                v.skip(i as int),
                peer_doc_fn(),
            ) + t,
        decreases count - i,
    {
        let ghost inner: Option<(IdentityDocument, Seq<u8>)> = match expected {
            Some((v, t)) => Some((v[i as int], flat(v.skip(i + 1), peer_doc_fn()) + t)),
            None => None,
        };
        proof {
            if let Some((v, t)) = expected {
                lemma_next_record(v, i as int, peer_doc_fn(), t);
            }
        }
        let x = read_peer_doc(reader, Ghost(inner))?;
        proof {
            lemma_flat_push(xs@, x, peer_doc_fn());
        }
        xs.push(x);
        i = i + 1;
    }
    proof {
        if let Some((v, t)) = expected {
            assert(v.skip(count as int) =~= Seq::<IdentityDocument>::empty());
        }
    }
    Ok(xs)
}

fn read_pairs(reader: &mut Reader, Ghost(expected): Ghost<Option<(Seq<PersistedPair>, Seq<u8>)>>) -> (r: Result<
    Vec<PersistedPair>,
>)
    requires
        old(reader).wf(),
        expected matches Some((v, t)) ==> (forall|a: int| 0 <= a < v.len() ==> wrap_encodable((#[trigger] v[a]).wrap)) && fits_u32(v.len() as int) && old(reader).rest()
            == section(v, pair_fn()) + t,
    ensures
        final(reader).wf(),
        match r {
            Ok(xs) => old(reader).rest() == section(xs@, pair_fn()) + final(reader).rest() && fits_u32(
                xs@.len() as int,
            ) && (forall|a: int| 0 <= a < xs@.len() ==> wrap_encodable((#[trigger] xs@[a]).wrap)) && (expected matches Some((v, t)) ==> final(reader).rest() == t),
            Err(e) => e is InvalidInput && expected is None,
        },
{
    proof {
        if let Some((v, t)) = expected {
            assert forall|k: int| 0 <= k < v.len() implies (pair_fn())(#[trigger] v[k]).len() >= 160 by {
                let p = v[k];
                let w = p.wrap;
                lemma_be32(wrap_m_bytes(w).len() as u32);
                lemma_be32(w.signature@.len() as u32);
                lemma_be32(w.kem_ct@.len() as u32);
                lemma_be32(w.wrap_ct@.len() as u32);
                lemma_be64(p.epoch.0);
                lemma_be64(w.epoch.0);
            }
            lemma_take_section(v, pair_fn(), 160, t);
        }
    }
    let count = reader.count(160)?;
    let ghost start = reader.rest();
    let mut xs: Vec<PersistedPair> = Vec::new();
    let mut i: usize = 0;
    proof {
        if let Some((v, t)) = expected {
            assert(v.skip(0) =~= v);
        }
        assert(flat(xs@, pair_fn()) + start =~= start);
    }
    while i < count
        invariant
            reader.wf(),
            i <= count,
            count <= u32::MAX,
            xs@.len() == i,
            start == flat(xs@, pair_fn()) + reader.rest(),
            old(reader).rest() == be32(count as u32) + start,
            forall|a: int| 0 <= a < i ==> wrap_encodable((#[trigger] xs@[a]).wrap),
            expected matches Some((v, t)) ==> (forall|a: int| 0 <= a < v.len() ==> wrap_encodable((#[trigger] v[a]).wrap)) && v.len() == count && reader.rest() == flat(
                v.skip(i as int),
                pair_fn(),
            ) + t,
        decreases count - i,
    {
        let ghost inner: Option<(PersistedPair, Seq<u8>)> = match expected {
            Some((v, t)) => Some((v[i as int], flat(v.skip(i + 1), pair_fn()) + t)),
            None => None,
        };
        proof {
            if let Some((v, t)) = expected {
                lemma_next_record(v, i as int, pair_fn(), t);
            }
        }
        let x = read_pair(reader, Ghost(inner))?;
        proof {
            lemma_flat_push(xs@, x, pair_fn());
        }
        xs.push(x);
        i = i + 1;
    }
    proof {
        if let Some((v, t)) = expected {
            assert(v.skip(count as int) =~= Seq::<PersistedPair>::empty());
        }
    }
    Ok(xs)
}

fn read_keys(reader: &mut Reader, Ghost(expected): Ghost<Option<(Seq<PersistedKey>, Seq<u8>)>>) -> (r: Result<
    Vec<PersistedKey>,
>)
    requires
        old(reader).wf(),
        expected matches Some((v, t)) ==> fits_u32(v.len() as int) && old(reader).rest()
            == section(v, key_fn()) + t,
    ensures
        final(reader).wf(),
        match r {
            Ok(xs) => old(reader).rest() == section(xs@, key_fn()) + final(reader).rest() && fits_u32(
                xs@.len() as int,
            ) && (expected matches Some((v, t)) ==> final(reader).rest() == t),
            Err(e) => e is InvalidInput && expected is None,
        },
{
    proof {
        if let Some((v, t)) = expected {
            assert forall|k: int| 0 <= k < v.len() implies (key_fn())(#[trigger] v[k]).len() >= 80 by {
                lemma_be64(v[k].slot);
                lemma_be64(v[k].epoch.0);
            }
            lemma_take_section(v, key_fn(), 80, t);
        }
    }
    let count = reader.count(80)?;
    let ghost start = reader.rest();
    let mut xs: Vec<PersistedKey> = Vec::new();
    let mut i: usize = 0;
    proof {
        if let Some((v, t)) = expected {
            assert(v.skip(0) =~= v);
        }
        assert(flat(xs@, key_fn()) + start =~= start);
    }
    while i < count
        invariant
            reader.wf(),
            i <= count,
            count <= u32::MAX,
            xs@.len() == i,
            start == flat(xs@, key_fn()) + reader.rest(),
            old(reader).rest() == be32(count as u32) + start,

            expected matches Some((v, t)) ==> v.len() == count && reader.rest() == flat(
                v.skip(i as int),
                key_fn(),
            ) + t,
        decreases count - i,
    {
        let ghost inner: Option<(PersistedKey, Seq<u8>)> = match expected {
            Some((v, t)) => Some((v[i as int], flat(v.skip(i + 1), key_fn()) + t)),
            None => None,
        };
        proof {
            if let Some((v, t)) = expected {
                lemma_next_record(v, i as int, key_fn(), t);
            }
        }
        let x = read_key(reader, Ghost(inner))?;
        proof {
            lemma_flat_push(xs@, x, key_fn());
        }
        xs.push(x);
        i = i + 1;
    }
    proof {
        if let Some((v, t)) = expected {
            assert(v.skip(count as int) =~= Seq::<PersistedKey>::empty());
        }
    }
    Ok(xs)
}

fn read_marks(reader: &mut Reader, Ghost(expected): Ghost<Option<(Seq<(PeerId, Epoch)>, Seq<u8>)>>) -> (r: Result<
    Vec<(PeerId, Epoch)>,
>)
    requires
        old(reader).wf(),
        expected matches Some((v, t)) ==> fits_u32(v.len() as int) && old(reader).rest()
            == section(v, mark_fn()) + t,
    ensures
        final(reader).wf(),
        match r {
            Ok(xs) => old(reader).rest() == section(xs@, mark_fn()) + final(reader).rest() && fits_u32(
                xs@.len() as int,
            ) && (expected matches Some((v, t)) ==> final(reader).rest() == t),
            Err(e) => e is InvalidInput && expected is None,
        },
{
    proof {
        if let Some((v, t)) = expected {
            assert forall|k: int| 0 <= k < v.len() implies (mark_fn())(#[trigger] v[k]).len() >= 40 by {
                lemma_be64(v[k].1.0);
            }
            lemma_take_section(v, mark_fn(), 40, t);
        }
    }
    let count = reader.count(40)?;
    let ghost start = reader.rest();
    let mut xs: Vec<(PeerId, Epoch)> = Vec::new();
    let mut i: usize = 0;
    proof {
        if let Some((v, t)) = expected {
            assert(v.skip(0) =~= v);
        }
        assert(flat(xs@, mark_fn()) + start =~= start);
    }
    while i < count
        invariant
            reader.wf(),
            i <= count,
            count <= u32::MAX,
            xs@.len() == i,
            start == flat(xs@, mark_fn()) + reader.rest(),
            old(reader).rest() == be32(count as u32) + start,

            expected matches Some((v, t)) ==> v.len() == count && reader.rest() == flat(
                v.skip(i as int),
                mark_fn(),
            ) + t,
        decreases count - i,
    {
        let ghost inner: Option<((PeerId, Epoch), Seq<u8>)> = match expected {
            Some((v, t)) => Some((v[i as int], flat(v.skip(i + 1), mark_fn()) + t)),
            None => None,
        };
        proof {
            if let Some((v, t)) = expected {
                lemma_next_record(v, i as int, mark_fn(), t);
            }
        }
        let x = read_mark(reader, Ghost(inner))?;
        proof {
            lemma_flat_push(xs@, x, mark_fn());
        }
        xs.push(x);
        i = i + 1;
    }
    proof {
        if let Some((v, t)) = expected {
            assert(v.skip(count as int) =~= Seq::<(PeerId, Epoch)>::empty());
        }
    }
    Ok(xs)
}

/// Reads a stored key-store state. A store written before watermarks ends
/// after the keys and reads back without watermarks; anything else that is
/// not exactly the encoding of a state is refused.
#[verifier::rlimit(40)]
pub fn decode_store_state(bytes: &[u8]) -> (r: Result<PersistedState>)
    ensures
        match r {
            Ok(st) => stored_as(bytes@, st),
            Err(e) => e is InvalidInput && forall|st: PersistedState| !#[trigger] stored_as(bytes@, st),
        },
{
    let ghost s = bytes@;
    let ghost target = choose|st: PersistedState| #[trigger] stored_as(s, st);
    let ghost canon = stored_as(s, target);
    let ghost legacy = canon && s != store_state_bytes(target);
    let ghost tail: Seq<u8> = if legacy {
        Seq::<u8>::empty()
    } else {
        section(target.epoch_watermarks@, mark_fn())
    };
    let ghost t3: Seq<u8> = section(target.keys@, key_fn()) + tail;
    let ghost t2: Seq<u8> = section(target.pairs@, pair_fn()) + t3;
    let ghost t1: Seq<u8> = section(target.peers@, peer_doc_fn()) + t2;
    proof {
        if canon {
            assert(s == store_state_layout(target, tail));
            lemma_take_bytes(target.local_id@, be64(target.next_slot) + t1);
            lemma_take_u64(target.next_slot, t1);
        }
    }
    let magic: [u8; 15] = [113, 102, 115, 47, 108, 111, 99, 97, 108, 47, 107, 101, 121, 115, 47];
    assert(magic@ =~= store_state_magic());
    let mut reader = Reader::new(bytes);
    proof {
        if canon {
            assert(reader.rest() == magic@ + (seq![LOCAL_FORMAT_VERSION] + (target.local_id@ + (be64(
                target.next_slot,
            ) + t1))));
        }
    }
    let ghost after_magic = seq![LOCAL_FORMAT_VERSION] + (target.local_id@ + (be64(target.next_slot) + t1));
    reader.require_prefix(&magic)?;
    proof {
        if canon {
            assert((magic@ + after_magic).skip(15) =~= after_magic);
            assert(reader.rest() =~= (magic@ + reader.rest()).skip(15));
        }
    }
    reader.require_version()?;
    proof {
        if canon {
            let after_version = target.local_id@ + (be64(target.next_slot) + t1);
            assert((seq![LOCAL_FORMAT_VERSION] + after_version).skip(1) =~= after_version);
            assert(reader.rest() =~= (seq![LOCAL_FORMAT_VERSION] + reader.rest()).skip(1));
        }
    }
    let local_id = PeerId(reader.array32()?);
    let next_slot = reader.u64()?;
    let ghost r0 = reader.rest();
    let peers = read_peer_docs(
        &mut reader,
        Ghost(
            if canon {
                Some((target.peers@, t2))
            } else {
                None
            },
        ),
    )?;
    let ghost r1 = reader.rest();
    assert(canon ==> r1 == t2);
    let pairs = read_pairs(
        &mut reader,
        Ghost(
            if canon {
                Some((target.pairs@, t3))
            } else {
                None
            },
        ),
    )?;
    let ghost r2 = reader.rest();
    assert(canon ==> r2 == t3);
    let keys = read_keys(
        &mut reader,
        Ghost(
            if canon {
                Some((target.keys@, tail))
            } else {
                None
            },
        ),
    )?;
    let ghost r3 = reader.rest();
    let mut epoch_watermarks: Vec<(PeerId, Epoch)> = Vec::new();
    if reader.remaining() != 0 {
        proof {
            if canon && legacy {
                assert(reader.rest() == tail);
            }
        }
        epoch_watermarks = read_marks(
            &mut reader,
            Ghost(
                if canon {
                    Some((target.epoch_watermarks@, Seq::<u8>::empty()))
                } else {
                    None
                },
            ),
        )?;
        proof {
            if canon {
                assert(section(target.epoch_watermarks@, mark_fn()) + Seq::<u8>::empty() =~= section(
                    target.epoch_watermarks@,
                    mark_fn(),
                ));
            }
        }
    } else {
        proof {
            if canon && !legacy {
                lemma_be32(target.epoch_watermarks@.len() as u32);
            }
        }
    }
    let ghost r4 = reader.rest();
    reader.finish()?;
    let state = PersistedState { local_id, next_slot, peers, pairs, keys, epoch_watermarks };
    proof {
        let st = state;
        if r3.len() == 0 {
            assert(st.epoch_watermarks@.len() == 0);
            assert(s =~= legacy_store_state_bytes(st));
        } else {
            assert(r3 == section(st.epoch_watermarks@, mark_fn()) + r4);
            assert(r4.len() == 0);
            assert(r3 =~= section(st.epoch_watermarks@, mark_fn()));
            assert(s =~= store_state_bytes(st));
        }
        assert(stored_as(s, st));
    }
    Ok(state)
}

} // verus!
