//! Identity documents, wrap messages, directory forget requests and join
//! requests: each a canonical message M followed by its detached signature.

use vstd::prelude::*;

use crate::crypto::identity::{same_identity, IdentityDocument};
use crate::crypto::wrap::WrapMessage;
use crate::error::{Error, Result};
use crate::ids::{lex_lt, Epoch, PeerId};
use crate::net::directory::DirForget;
use crate::net::join::JoinRequest;
use crate::net::{JoinCode, VaultId};
use crate::wire::{
    be64, bytes_eq, fits_u32, lemma_be64, lemma_take_bytes, lemma_take_u64, lemma_take_var,
    push_array32, push_bytes, push_u64, push_variable, take_var, var, Reader,
};

verus! {

// ---------------------------------------------------------------------------
// Identity documents
// ---------------------------------------------------------------------------

/// The signed part of an identity document.
pub open spec fn identity_m_bytes(d: IdentityDocument) -> Seq<u8> {
    d.peer_id@ + (var(d.ek@) + (var(d.vk@) + be64(d.created_at)))
}

pub open spec fn identity_fits(d: IdentityDocument) -> bool {
    fits_u32(d.ek@.len() as int) && fits_u32(d.vk@.len() as int)
}

/// The transported document: its message, then its signature.
pub open spec fn identity_bytes(d: IdentityDocument) -> Seq<u8> {
    var(identity_m_bytes(d)) + var(d.signature@)
}

pub open spec fn identity_encodable(d: IdentityDocument) -> bool {
    &&& identity_fits(d)
    &&& fits_u32(identity_m_bytes(d).len() as int)
    &&& fits_u32(d.signature@.len() as int)
}

/// The signed part of an identity document determines everything but the
/// signature.
pub proof fn lemma_identity_m_injective(a: IdentityDocument, b: IdentityDocument)
    requires
        identity_fits(a),
        identity_fits(b),
        identity_m_bytes(a) == identity_m_bytes(b),
    ensures
        a.peer_id@ == b.peer_id@,
        a.ek@ == b.ek@,
        a.vk@ == b.vk@,
        a.created_at == b.created_at,
{
    let (ra, rb) = (var(a.ek@) + (var(a.vk@) + be64(a.created_at)), var(b.ek@) + (var(b.vk@) + be64(b.created_at)));
    assert(a.peer_id@.len() == 32 && b.peer_id@.len() == 32);
    lemma_take_bytes(a.peer_id@, ra);
    lemma_take_bytes(b.peer_id@, rb);
    assert(a.peer_id@ == b.peer_id@ && ra == rb);
    lemma_take_var(a.ek@, var(a.vk@) + be64(a.created_at));
    lemma_take_var(b.ek@, var(b.vk@) + be64(b.created_at));
    lemma_take_var(a.vk@, be64(a.created_at));
    lemma_take_var(b.vk@, be64(b.created_at));
    lemma_take_u64(a.created_at, Seq::<u8>::empty());
    lemma_take_u64(b.created_at, Seq::<u8>::empty());
    assert(be64(a.created_at) + Seq::<u8>::empty() =~= be64(a.created_at));
    assert(be64(b.created_at) + Seq::<u8>::empty() =~= be64(b.created_at));
}

/// Identity document bytes determine the document: what decodes from an
/// encoded document is that document, field for field.
pub proof fn law_identity_bytes_injective(a: IdentityDocument, b: IdentityDocument)
    requires
        identity_encodable(a),
        identity_encodable(b),
        identity_bytes(a) == identity_bytes(b),
    ensures
        same_identity(a, b),
{
    let (ma, mb) = (identity_m_bytes(a), identity_m_bytes(b));
    lemma_take_var(ma, var(a.signature@));
    lemma_take_var(mb, var(b.signature@));
    assert(var(a.signature@) == var(b.signature@));
    lemma_take_var(a.signature@, Seq::<u8>::empty());
    lemma_take_var(b.signature@, Seq::<u8>::empty());
    assert(var(a.signature@) + Seq::<u8>::empty() =~= var(a.signature@));
    assert(var(b.signature@) + Seq::<u8>::empty() =~= var(b.signature@));
    assert(ma == mb);
    lemma_identity_m_injective(a, b);
}

pub fn identity_m(document: &IdentityDocument) -> (r: Result<Vec<u8>>)
    ensures
        match r {
            Ok(v) => v@ == identity_m_bytes(*document) && identity_fits(*document),
            Err(e) => e is InvalidInput && !identity_fits(*document),
        },
{
    let mut out: Vec<u8> = Vec::new();
    push_array32(&mut out, &document.peer_id.0);
    push_variable(&mut out, document.ek.as_slice())?;
    push_variable(&mut out, document.vk.as_slice())?;
    push_u64(&mut out, document.created_at);
    assert(out@ =~= identity_m_bytes(*document));
    Ok(out)
}

pub fn encode_identity(document: &IdentityDocument) -> (r: Result<Vec<u8>>)
    ensures
        match r {
            Ok(v) => v@ == identity_bytes(*document) && identity_encodable(*document),
            Err(e) => e is InvalidInput && !identity_encodable(*document),
        },
{
    let m = identity_m(document)?;
    let mut out: Vec<u8> = Vec::new();
    push_variable(&mut out, m.as_slice())?;
    push_variable(&mut out, document.signature.as_slice())?;
    assert(out@ =~= identity_bytes(*document));
    Ok(out)
}

/// Parses the signed part of an identity document and attaches `signature`.
pub fn decode_identity_document(message: &[u8], signature: &[u8]) -> (r: Result<IdentityDocument>)
    ensures
        match r {
            Ok(d) => message@ == identity_m_bytes(d) && identity_fits(d) && d.signature@
                == signature@,
            Err(e) => e is InvalidInput && forall|d: IdentityDocument|
                identity_fits(d) ==> message@ != #[trigger] identity_m_bytes(d),
        },
{
    let ghost s = message@;
    let ghost target = choose|d: IdentityDocument|
        identity_fits(d) && s == #[trigger] identity_m_bytes(d);
    let ghost canon = identity_fits(target) && s == identity_m_bytes(target);
    proof {
        if canon {
            let d = target;
            lemma_take_bytes(d.peer_id@, var(d.ek@) + (var(d.vk@) + be64(d.created_at)));
            lemma_take_var(d.ek@, var(d.vk@) + be64(d.created_at));
            lemma_take_var(d.vk@, be64(d.created_at));
            lemma_take_u64(d.created_at, Seq::<u8>::empty());
            assert(be64(d.created_at) + Seq::<u8>::empty() =~= be64(d.created_at));
        }
    }
    let mut reader = Reader::new(message);
    let peer_id = PeerId(reader.array32()?);
    let ek = reader.variable()?;
    let vk = reader.variable()?;
    let created_at = reader.u64()?;
    reader.finish()?;
    let document = IdentityDocument {
        peer_id,
        ek: vstd::slice::slice_to_vec(ek),
        vk: vstd::slice::slice_to_vec(vk),
        created_at,
        signature: vstd::slice::slice_to_vec(signature),
    };
    assert(message@ =~= identity_m_bytes(document));
    Ok(document)
}

pub fn decode_identity(bytes: &[u8]) -> (r: Result<IdentityDocument>)
    ensures
        match r {
            Ok(d) => bytes@ == identity_bytes(d) && identity_encodable(d),
            Err(e) => e is InvalidInput && forall|d: IdentityDocument|
                identity_encodable(d) ==> bytes@ != #[trigger] identity_bytes(d),
        },
{
    let ghost s = bytes@;
    let ghost target = choose|d: IdentityDocument|
        identity_encodable(d) && s == #[trigger] identity_bytes(d);
    let ghost canon = identity_encodable(target) && s == identity_bytes(target);
    proof {
        if canon {
            lemma_take_var(identity_m_bytes(target), var(target.signature@));
            lemma_take_var(target.signature@, Seq::<u8>::empty());
            assert(var(target.signature@) + Seq::<u8>::empty() =~= var(target.signature@));
        }
    }
    let mut reader = Reader::new(bytes);
    let message = reader.variable()?;
    let signature = reader.variable()?;
    reader.finish()?;
    let d = decode_identity_document(message, signature)?;
    assert(bytes@ =~= identity_bytes(d));
    Ok(d)
}

// ---------------------------------------------------------------------------
// Wrap messages
// ---------------------------------------------------------------------------

pub open spec fn wrap_m_bytes(w: WrapMessage) -> Seq<u8> {
    var(w.kem_ct@) + (var(w.wrap_ct@) + (be64(w.epoch.0) + (w.min_id@ + w.max_id@)))
}

pub open spec fn wrap_wf(w: WrapMessage) -> bool {
    &&& lex_lt(w.min_id@, w.max_id@)
    &&& fits_u32(w.kem_ct@.len() as int)
    &&& fits_u32(w.wrap_ct@.len() as int)
}

pub open spec fn wrap_bytes(w: WrapMessage) -> Seq<u8> {
    var(wrap_m_bytes(w)) + var(w.signature@)
}

/// Two encodable wraps with the same bytes are the same wrap.
pub proof fn lemma_wrap_bytes_injective(a: WrapMessage, b: WrapMessage)
    requires
        wrap_encodable(a),
        wrap_encodable(b),
        wrap_bytes(a) == wrap_bytes(b),
    ensures
        a.kem_ct@ == b.kem_ct@,
        a.wrap_ct@ == b.wrap_ct@,
        a.epoch == b.epoch,
        a.min_id@ == b.min_id@,
        a.max_id@ == b.max_id@,
        a.signature@ == b.signature@,
{
    lemma_take_var(wrap_m_bytes(a), var(a.signature@));
    lemma_take_var(wrap_m_bytes(b), var(b.signature@));
    let e = Seq::<u8>::empty();
    lemma_take_var(a.signature@, e);
    lemma_take_var(b.signature@, e);
    assert(var(a.signature@) + e =~= var(a.signature@));
    assert(var(b.signature@) + e =~= var(b.signature@));
    let ta = var(a.wrap_ct@) + (be64(a.epoch.0) + (a.min_id@ + a.max_id@));
    let tb = var(b.wrap_ct@) + (be64(b.epoch.0) + (b.min_id@ + b.max_id@));
    lemma_take_var(a.kem_ct@, ta);
    lemma_take_var(b.kem_ct@, tb);
    lemma_take_var(a.wrap_ct@, be64(a.epoch.0) + (a.min_id@ + a.max_id@));
    lemma_take_var(b.wrap_ct@, be64(b.epoch.0) + (b.min_id@ + b.max_id@));
    lemma_take_u64(a.epoch.0, a.min_id@ + a.max_id@);
    lemma_take_u64(b.epoch.0, b.min_id@ + b.max_id@);
    lemma_take_bytes(a.min_id@, a.max_id@);
    lemma_take_bytes(b.min_id@, b.max_id@);
}

pub open spec fn wrap_encodable(w: WrapMessage) -> bool {
    wrap_wf(w) && fits_u32(wrap_m_bytes(w).len() as int) && fits_u32(w.signature@.len() as int)
}

/// A pair is named by its smaller and its larger peer id, in that order.
fn require_sorted_pair(min_id: &PeerId, max_id: &PeerId) -> (r: Result<()>)
    ensures
        r is Ok <==> lex_lt(min_id@, max_id@),
        r matches Err(e) ==> e is InvalidInput,
{
    if !min_id.less_than(max_id) {
        return Err(Error::InvalidInput("wrap requires min_id < max_id as unsigned bytes"));
    }
    Ok(())
}

pub fn wrap_m(message: &WrapMessage) -> (r: Result<Vec<u8>>)
    ensures
        match r {
            Ok(v) => v@ == wrap_m_bytes(*message) && wrap_wf(*message),
            Err(e) => e is InvalidInput && !wrap_wf(*message),
        },
{
    require_sorted_pair(&message.min_id, &message.max_id)?;
    let mut out: Vec<u8> = Vec::new();
    push_variable(&mut out, message.kem_ct.as_slice())?;
    push_variable(&mut out, message.wrap_ct.as_slice())?;
    push_u64(&mut out, message.epoch.0);
    push_array32(&mut out, &message.min_id.0);
    push_array32(&mut out, &message.max_id.0);
    assert(out@ =~= wrap_m_bytes(*message));
    Ok(out)
}

pub fn encode_wrap(message: &WrapMessage) -> (r: Result<Vec<u8>>)
    ensures
        match r {
            Ok(v) => v@ == wrap_bytes(*message) && wrap_encodable(*message),
            Err(e) => e is InvalidInput && !wrap_encodable(*message),
        },
{
    let m = wrap_m(message)?;
    let mut out: Vec<u8> = Vec::new();
    push_variable(&mut out, m.as_slice())?;
    push_variable(&mut out, message.signature.as_slice())?;
    assert(out@ =~= wrap_bytes(*message));
    Ok(out)
}

pub fn decode_wrap_message(message: &[u8], signature: &[u8]) -> (r: Result<WrapMessage>)
    ensures
        match r {
            Ok(w) => message@ == wrap_m_bytes(w) && wrap_wf(w) && w.signature@ == signature@,
            Err(e) => e is InvalidInput && forall|w: WrapMessage|
                wrap_wf(w) ==> message@ != #[trigger] wrap_m_bytes(w),
        },
{
    let ghost s = message@;
    let ghost target = choose|w: WrapMessage| wrap_wf(w) && s == #[trigger] wrap_m_bytes(w);
    let ghost canon = wrap_wf(target) && s == wrap_m_bytes(target);
    proof {
        if canon {
            let w = target;
            lemma_take_var(w.kem_ct@, var(w.wrap_ct@) + (be64(w.epoch.0) + (w.min_id@ + w.max_id@)));
            lemma_take_var(w.wrap_ct@, be64(w.epoch.0) + (w.min_id@ + w.max_id@));
            lemma_take_u64(w.epoch.0, w.min_id@ + w.max_id@);
            lemma_take_bytes(w.min_id@, w.max_id@);
            lemma_take_bytes(w.max_id@, Seq::<u8>::empty());
            assert(w.max_id@ + Seq::<u8>::empty() =~= w.max_id@);
        }
    }
    let mut reader = Reader::new(message);
    let kem_ct = reader.variable()?;
    let wrap_ct = reader.variable()?;
    let epoch = Epoch(reader.u64()?);
    let min_id = PeerId(reader.array32()?);
    let max_id = PeerId(reader.array32()?);
    reader.finish()?;
    require_sorted_pair(&min_id, &max_id)?;
    let w = WrapMessage {
        kem_ct: vstd::slice::slice_to_vec(kem_ct),
        wrap_ct: vstd::slice::slice_to_vec(wrap_ct),
        epoch,
        min_id,
        max_id,
        signature: vstd::slice::slice_to_vec(signature),
    };
    assert(message@ =~= wrap_m_bytes(w));
    Ok(w)
}

pub fn decode_wrap(bytes: &[u8]) -> (r: Result<WrapMessage>)
    ensures
        match r {
            Ok(w) => bytes@ == wrap_bytes(w) && wrap_encodable(w),
            Err(e) => e is InvalidInput && forall|w: WrapMessage|
                wrap_encodable(w) ==> bytes@ != #[trigger] wrap_bytes(w),
        },
{
    let ghost s = bytes@;
    let ghost target = choose|w: WrapMessage| wrap_encodable(w) && s == #[trigger] wrap_bytes(w);
    let ghost canon = wrap_encodable(target) && s == wrap_bytes(target);
    proof {
        if canon {
            lemma_take_var(wrap_m_bytes(target), var(target.signature@));
            lemma_take_var(target.signature@, Seq::<u8>::empty());
            assert(var(target.signature@) + Seq::<u8>::empty() =~= var(target.signature@));
        }
    }
    let mut reader = Reader::new(bytes);
    let message = reader.variable()?;
    let signature = reader.variable()?;
    reader.finish()?;
    let w = decode_wrap_message(message, signature)?;
    assert(bytes@ =~= wrap_bytes(w));
    Ok(w)
}

/// Wrap AAD: the ordered pair and the epoch.
pub open spec fn wrap_aad_bytes(min_id: PeerId, max_id: PeerId, epoch: Epoch) -> Seq<u8> {
    min_id@ + max_id@ + be64(epoch.0)
}

pub fn wrap_aad(min_id: &PeerId, max_id: &PeerId, epoch: Epoch) -> (r: Result<Vec<u8>>)
    ensures
        match r {
            Ok(v) => lex_lt(min_id@, max_id@) && v@ == wrap_aad_bytes(*min_id, *max_id, epoch),
            Err(e) => e is InvalidInput && !lex_lt(min_id@, max_id@),
        },
{
    require_sorted_pair(min_id, max_id)?;
    let mut out: Vec<u8> = Vec::with_capacity(72);
    push_array32(&mut out, &min_id.0);
    push_array32(&mut out, &max_id.0);
    push_u64(&mut out, epoch.0);
    Ok(out)
}

/// "qfs/v1/wrap/pair/"
pub open spec fn wrap_pair_domain() -> Seq<u8> {
    seq![113u8, 102, 115, 47, 118, 49, 47, 119, 114, 97, 112, 47, 112, 97, 105, 114, 47]
}

/// HKDF info: domain, smaller id, ':', larger id, '/', epoch.
pub open spec fn wrap_hkdf_info_bytes(min_id: PeerId, max_id: PeerId, epoch: Epoch) -> Seq<u8> {
    wrap_pair_domain() + min_id@ + seq![0x3au8] + max_id@ + seq![0x2fu8] + be64(epoch.0)
}

pub fn wrap_hkdf_info(min_id: &PeerId, max_id: &PeerId, epoch: Epoch) -> (r: Result<Vec<u8>>)
    ensures
        match r {
            Ok(v) => lex_lt(min_id@, max_id@) && v@ == wrap_hkdf_info_bytes(
                *min_id,
                *max_id,
                epoch,
            ),
            Err(e) => e is InvalidInput && !lex_lt(min_id@, max_id@),
        },
{
    require_sorted_pair(min_id, max_id)?;
    let domain: [u8; 17] = [113, 102, 115, 47, 118, 49, 47, 119, 114, 97, 112, 47, 112, 97, 105, 114, 47];
    assert(domain@ =~= wrap_pair_domain());
    let mut out: Vec<u8> = Vec::with_capacity(91);
    push_bytes(&mut out, &domain);
    push_array32(&mut out, &min_id.0);
    out.push(0x3a);
    push_array32(&mut out, &max_id.0);
    out.push(0x2f);
    push_u64(&mut out, epoch.0);
    assert(out@ =~= wrap_hkdf_info_bytes(*min_id, *max_id, epoch));
    Ok(out)
}

// ---------------------------------------------------------------------------
// Directory forget requests
// ---------------------------------------------------------------------------

pub open spec fn dir_forget_m_bytes(f: DirForget) -> Seq<u8> {
    f.peer_id@ + (f.vault_id@ + (f.join_code@ + be64(f.issued_at)))
}

pub open spec fn dir_forget_bytes(f: DirForget) -> Seq<u8> {
    var(dir_forget_m_bytes(f)) + var(f.signature@)
}

pub proof fn lemma_dir_forget_m_len(f: DirForget)
    ensures
        dir_forget_m_bytes(f).len() == 88,
{
    lemma_be64(f.issued_at);
}

pub fn dir_forget_m(request: &DirForget) -> (r: Vec<u8>)
    ensures
        r@ == dir_forget_m_bytes(*request),
{
    let mut out: Vec<u8> = Vec::with_capacity(88);
    push_array32(&mut out, &request.peer_id.0);
    push_array32(&mut out, &request.vault_id.0);
    push_bytes(&mut out, &request.join_code.0);
    push_u64(&mut out, request.issued_at);
    assert(out@ =~= dir_forget_m_bytes(*request));
    out
}

pub fn encode_dir_forget(request: &DirForget) -> (r: Result<Vec<u8>>)
    ensures
        match r {
            Ok(v) => v@ == dir_forget_bytes(*request) && fits_u32(request.signature@.len() as int),
            Err(e) => e is InvalidInput && !fits_u32(request.signature@.len() as int),
        },
{
    let m = dir_forget_m(request);
    proof {
        lemma_dir_forget_m_len(*request);
    }
    let mut out: Vec<u8> = Vec::new();
    push_variable(&mut out, m.as_slice())?;
    push_variable(&mut out, request.signature.as_slice())?;
    assert(out@ =~= dir_forget_bytes(*request));
    Ok(out)
}

pub fn decode_dir_forget(bytes: &[u8]) -> (r: Result<DirForget>)
    ensures
        match r {
            Ok(f) => bytes@ == dir_forget_bytes(f) && fits_u32(f.signature@.len() as int),
            Err(e) => e is InvalidInput && forall|f: DirForget|
                fits_u32(f.signature@.len() as int) ==> bytes@ != #[trigger] dir_forget_bytes(f),
        },
{
    let ghost s = bytes@;
    let ghost target = choose|f: DirForget|
        fits_u32(f.signature@.len() as int) && s == #[trigger] dir_forget_bytes(f);
    let ghost canon = fits_u32(target.signature@.len() as int) && s == dir_forget_bytes(target);
    proof {
        if canon {
            let f = target;
            lemma_dir_forget_m_len(f);
            lemma_take_var(dir_forget_m_bytes(f), var(f.signature@));
            lemma_take_var(f.signature@, Seq::<u8>::empty());
            assert(var(f.signature@) + Seq::<u8>::empty() =~= var(f.signature@));
            lemma_take_bytes(f.peer_id@, f.vault_id@ + (f.join_code@ + be64(f.issued_at)));
            lemma_take_bytes(f.vault_id@, f.join_code@ + be64(f.issued_at));
            lemma_take_bytes(f.join_code@, be64(f.issued_at));
            lemma_take_u64(f.issued_at, Seq::<u8>::empty());
            assert(be64(f.issued_at) + Seq::<u8>::empty() =~= be64(f.issued_at));
        }
    }
    let mut reader = Reader::new(bytes);
    let message = reader.variable()?;
    let signature = reader.variable()?;
    reader.finish()?;
    let mut m = Reader::new(message);
    let peer_id = PeerId(m.array32()?);
    let vault_id = VaultId(m.array32()?);
    let join_code = JoinCode(m.array16()?);
    let issued_at = m.u64()?;
    m.finish()?;
    let request = DirForget {
        peer_id,
        vault_id,
        join_code,
        issued_at,
        signature: vstd::slice::slice_to_vec(signature),
    };
    assert(message@ =~= dir_forget_m_bytes(request));
    assert(bytes@ =~= dir_forget_bytes(request));
    Ok(request)
}

// ---------------------------------------------------------------------------
// Join requests
// ---------------------------------------------------------------------------

/// Join M: vault, join code, then the requester's identity message.
pub open spec fn join_request_m_bytes(r: JoinRequest) -> Seq<u8> {
    r.vault_id@ + (r.join_code@ + identity_m_bytes(r.document))
}

pub open spec fn join_request_bytes(r: JoinRequest) -> Seq<u8> {
    var(join_request_m_bytes(r)) + var(r.signature@)
}

pub open spec fn join_request_encodable(r: JoinRequest) -> bool {
    &&& identity_fits(r.document)
    &&& fits_u32(join_request_m_bytes(r).len() as int)
    &&& fits_u32(r.signature@.len() as int)
}

/// The framed message of a join request: a variable message of at least 48
/// bytes, a variable signature, and nothing after them.
pub open spec fn join_framing(bytes: Seq<u8>) -> Option<(Seq<u8>, Seq<u8>)> {
    match take_var(bytes) {
        Some((m, rest)) => match take_var(rest) {
            Some((sig, tail)) => if tail.len() == 0 && m.len() >= 48 {
                Some((m, sig))
            } else {
                None
            },
            None => None,
        },
        None => None,
    }
}

pub fn join_request_m(request: &JoinRequest) -> (r: Result<Vec<u8>>)
    ensures
        match r {
            Ok(v) => v@ == join_request_m_bytes(*request) && identity_fits(request.document),
            Err(e) => e is InvalidInput && !identity_fits(request.document),
        },
{
    let identity = identity_m(&request.document)?;
    let mut out: Vec<u8> = Vec::new();
    push_array32(&mut out, &request.vault_id.0);
    push_bytes(&mut out, &request.join_code.0);
    push_bytes(&mut out, identity.as_slice());
    assert(out@ =~= join_request_m_bytes(*request));
    Ok(out)
}

/// Join request bytes determine the request's vault, join code, signature
/// and the signed part of its identity document, which a reader takes from
/// the identity exchanged before: decoding an encoded request gives it back
/// with the exchanged document in place of its own.
pub proof fn law_join_request_bytes_injective(a: JoinRequest, b: JoinRequest)
    requires
        join_request_encodable(a),
        join_request_encodable(b),
        join_request_bytes(a) == join_request_bytes(b),
    ensures
        a.vault_id == b.vault_id,
        a.join_code == b.join_code,
        a.signature@ == b.signature@,
        identity_m_bytes(a.document) == identity_m_bytes(b.document),
{
    let e = Seq::<u8>::empty();
    lemma_take_var(join_request_m_bytes(a), var(a.signature@));
    lemma_take_var(join_request_m_bytes(b), var(b.signature@));
    lemma_take_var(a.signature@, e);
    lemma_take_var(b.signature@, e);
    assert(var(a.signature@) + e =~= var(a.signature@));
    assert(var(b.signature@) + e =~= var(b.signature@));
    let (ta, tb) = (a.join_code@ + identity_m_bytes(a.document), b.join_code@ + identity_m_bytes(b.document));
    lemma_take_bytes(a.vault_id@, ta);
    lemma_take_bytes(b.vault_id@, tb);
    lemma_take_bytes(a.join_code@, identity_m_bytes(a.document));
    lemma_take_bytes(b.join_code@, identity_m_bytes(b.document));
    assert(a.vault_id.0 =~= b.vault_id.0);
    assert(a.join_code.0 =~= b.join_code.0);
}

pub fn encode_join_request(request: &JoinRequest) -> (r: Result<Vec<u8>>)
    ensures
        match r {
            Ok(v) => v@ == join_request_bytes(*request) && join_request_encodable(*request),
            Err(e) => e is InvalidInput && !join_request_encodable(*request),
        },
{
    let m = join_request_m(request)?;
    let mut out: Vec<u8> = Vec::new();
    push_variable(&mut out, m.as_slice())?;
    push_variable(&mut out, request.signature.as_slice())?;
    assert(out@ =~= join_request_bytes(*request));
    Ok(out)
}

/// The identity signature was verified during the preceding identity
/// exchange and is not repeated in Join M; the request must carry the exact
/// canonical bytes of that exchanged document.
pub fn decode_join_request(bytes: &[u8], exchanged: &IdentityDocument) -> (r: Result<JoinRequest>)
    ensures
        match r {
            Ok(req) => {
                &&& same_identity(req.document, *exchanged)
                &&& bytes@ == join_request_bytes(req)
                &&& join_request_encodable(req)
            },
            Err(e) => match join_framing(bytes@) {
                None => e is InvalidInput,
                Some((m, sig)) => if !identity_fits(*exchanged) {
                    e is InvalidInput
                } else {
                    e is AuthenticationFailed && m.skip(48) != identity_m_bytes(*exchanged)
                },
            },
        },
{
    let mut reader = Reader::new(bytes);
    let message = reader.variable()?;
    let signature = reader.variable()?;
    reader.finish()?;
    if message.len() < 48 {
        return Err(Error::InvalidInput("truncated local encoding"));
    }
    let mut m = Reader::new(message);
    let vault_id = VaultId(m.array32()?);
    let join_code = JoinCode(m.array16()?);
    let identity = m.take(m.remaining())?;
    let expected = identity_m(exchanged)?;
    if !bytes_eq(identity, expected.as_slice()) {
        proof {
            assert(identity@ =~= message@.skip(48));
        }
        return Err(Error::AuthenticationFailed);
    }
    m.finish()?;
    let request = JoinRequest {
        vault_id,
        join_code,
        document: exchanged.duplicate(),
        signature: vstd::slice::slice_to_vec(signature),
    };
    assert(message@ =~= join_request_m_bytes(request));
    assert(bytes@ =~= join_request_bytes(request));
    Ok(request)
}

} // verus!
