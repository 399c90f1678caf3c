//! Directory advertisements and the directory's stored state.

use vstd::prelude::*;

use crate::encoding::replica::{lemma_next_record, lemma_section_step, lemma_take_section, section};
use crate::error::{Error, Result};
use crate::ids::PeerId;
use crate::net::directory::{DirectoryAd, DirectoryState, DirectoryWatermark};
use crate::net::{JoinCode, VaultId};
use crate::text::{string_bytes, string_from_utf8, utf8_bytes};
use crate::wire::{
    be32, be64, fits_u32, flat, lemma_be32, lemma_be64, lemma_flat_push, lemma_take_bytes, lemma_take_u64,
    lemma_take_var, push_array32, push_bytes, push_length, push_u64, push_variable, var, Reader,
    LOCAL_FORMAT_VERSION,
};

verus! {

/// Directory ad M: member, vault, address text, the two public keys, time.
pub open spec fn directory_ad_m_bytes(ad: DirectoryAd) -> Seq<u8> {
    ad.peer_id@ + (ad.vault_id@ + (var(utf8_bytes(ad.addr@)) + (var(ad.ek@) + (var(ad.vk@) + be64(
        ad.issued_at,
    )))))
}

/// Whether every variable field of ad M has a 32-bit length.
pub open spec fn directory_ad_m_fits(ad: DirectoryAd) -> bool {
    &&& fits_u32(utf8_bytes(ad.addr@).len() as int)
    &&& fits_u32(ad.ek@.len() as int)
    &&& fits_u32(ad.vk@.len() as int)
}

/// A stored or sent ad: M, then the signature.
pub open spec fn directory_ad_bytes(ad: DirectoryAd) -> Seq<u8> {
    var(directory_ad_m_bytes(ad)) + var(ad.signature@)
}

pub open spec fn directory_ad_encodable(ad: DirectoryAd) -> bool {
    &&& directory_ad_m_fits(ad)
    &&& fits_u32(directory_ad_m_bytes(ad).len() as int)
    &&& fits_u32(ad.signature@.len() as int)
}

pub fn directory_ad_m(ad: &DirectoryAd) -> (r: Result<Vec<u8>>)
    ensures
        match r {
            Ok(v) => v@ == directory_ad_m_bytes(*ad) && directory_ad_m_fits(*ad),
            Err(e) => e is InvalidInput && !directory_ad_m_fits(*ad),
        },
{
    let mut out: Vec<u8> = Vec::new();
    push_array32(&mut out, &ad.peer_id.0);
    push_array32(&mut out, &ad.vault_id.0);
    let addr = string_bytes(&ad.addr);
    push_variable(&mut out, addr)?;
    push_variable(&mut out, ad.ek.as_slice())?;
    push_variable(&mut out, ad.vk.as_slice())?;
    push_u64(&mut out, ad.issued_at);
    assert(out@ =~= directory_ad_m_bytes(*ad));
    Ok(out)
}

pub fn encode_directory_ad(ad: &DirectoryAd) -> (r: Result<Vec<u8>>)
    ensures
        match r {
            Ok(v) => v@ == directory_ad_bytes(*ad) && directory_ad_encodable(*ad),
            Err(e) => e is InvalidInput && !directory_ad_encodable(*ad),
        },
{
    let m = directory_ad_m(ad)?;
    let mut out: Vec<u8> = Vec::new();
    push_variable(&mut out, m.as_slice())?;
    push_variable(&mut out, ad.signature.as_slice())?;
    assert(out@ =~= directory_ad_bytes(*ad));
    Ok(out)
}

/// Parses ad M and attaches `signature`. The address must be UTF-8.
pub fn decode_directory_ad_message(message: &[u8], signature: &[u8]) -> (r: Result<DirectoryAd>)
    ensures
        match r {
            Ok(ad) => message@ == directory_ad_m_bytes(ad) && directory_ad_m_fits(ad) && ad.signature@
                == signature@,
            Err(e) => e is InvalidInput && forall|ad: DirectoryAd|
                directory_ad_m_fits(ad) ==> message@ != #[trigger] directory_ad_m_bytes(ad),
        },
{
    let ghost s = message@;
    let ghost target = choose|ad: DirectoryAd|
        directory_ad_m_fits(ad) && s == #[trigger] directory_ad_m_bytes(ad);
    let ghost canon = directory_ad_m_fits(target) && s == directory_ad_m_bytes(target);
    proof {
        if canon {
            let d = target;
            let a = utf8_bytes(d.addr@);
            lemma_take_bytes(d.peer_id@, d.vault_id@ + (var(a) + (var(d.ek@) + (var(d.vk@) + be64(d.issued_at)))));
            lemma_take_bytes(d.vault_id@, var(a) + (var(d.ek@) + (var(d.vk@) + be64(d.issued_at))));
            lemma_take_var(a, var(d.ek@) + (var(d.vk@) + be64(d.issued_at)));
            lemma_take_var(d.ek@, var(d.vk@) + be64(d.issued_at));
            lemma_take_var(d.vk@, be64(d.issued_at));
            lemma_take_u64(d.issued_at, Seq::<u8>::empty());
            assert(be64(d.issued_at) + Seq::<u8>::empty() =~= be64(d.issued_at));
        }
    }
    let mut reader = Reader::new(message);
    let peer_id = PeerId(reader.array32()?);
    let vault_id = VaultId(reader.array32()?);
    let addr_bytes = reader.variable()?;
    let addr = match string_from_utf8(addr_bytes) {
        Some(a) => a,
        None => {
            return Err(Error::InvalidInput("directory address is not UTF-8"));
        },
    };
    let ek = reader.variable()?;
    let vk = reader.variable()?;
    let issued_at = reader.u64()?;
    reader.finish()?;
    let ad = DirectoryAd {
        peer_id,
        vault_id,
        addr,
        ek: vstd::slice::slice_to_vec(ek),
        vk: vstd::slice::slice_to_vec(vk),
        issued_at,
        signature: vstd::slice::slice_to_vec(signature),
    };
    assert(message@ =~= directory_ad_m_bytes(ad));
    Ok(ad)
}

pub fn decode_directory_ad(bytes: &[u8]) -> (r: Result<DirectoryAd>)
    ensures
        match r {
            Ok(ad) => bytes@ == directory_ad_bytes(ad) && directory_ad_encodable(ad),
            Err(e) => e is InvalidInput && forall|ad: DirectoryAd|
                directory_ad_encodable(ad) ==> bytes@ != #[trigger] directory_ad_bytes(ad),
        },
{
    let ghost s = bytes@;
    let ghost target = choose|ad: DirectoryAd|
        directory_ad_encodable(ad) && s == #[trigger] directory_ad_bytes(ad);
    let ghost canon = directory_ad_encodable(target) && s == directory_ad_bytes(target);
    proof {
        if canon {
            lemma_take_var(directory_ad_m_bytes(target), var(target.signature@));
            lemma_take_var(target.signature@, Seq::<u8>::empty());
            assert(var(target.signature@) + Seq::<u8>::empty() =~= var(target.signature@));
        }
    }
    let mut reader = Reader::new(bytes);
    let message = reader.variable()?;
    let signature = reader.variable()?;
    reader.finish()?;
    let ad = decode_directory_ad_message(message, signature)?;
    assert(bytes@ =~= directory_ad_bytes(ad));
    Ok(ad)
}

// ---------------------------------------------------------------------------
// The directory's stored state
// ---------------------------------------------------------------------------

/// The most ads, and the most watermarks, a stored directory may hold.
pub const MAX_DIRECTORY_RECORDS: usize = 10000;

/// "qfs/local/directory/"
pub open spec fn directory_state_magic() -> Seq<u8> {
    seq![113u8, 102, 115, 47, 108, 111, 99, 97, 108, 47, 100, 105, 114, 101, 99, 116, 111, 114, 121, 47]
}

pub open spec fn ad_record_fn() -> spec_fn((JoinCode, DirectoryAd)) -> Seq<u8> {
    |e: (JoinCode, DirectoryAd)| e.0@ + var(directory_ad_bytes(e.1))
}

pub open spec fn watermark_fn() -> spec_fn(DirectoryWatermark) -> Seq<u8> {
    |w: DirectoryWatermark| w.peer_id@ + (w.vault_id@ + (be64(w.issued_at) + var(w.vk@)))
}

pub open spec fn directory_state_bytes(st: DirectoryState) -> Seq<u8> {
    directory_state_magic() + (seq![LOCAL_FORMAT_VERSION] + (section(st.ads@, ad_record_fn()) + section(
        st.watermarks@,
        watermark_fn(),
    )))
}

pub open spec fn ad_record_encodable(e: (JoinCode, DirectoryAd)) -> bool {
    directory_ad_encodable(e.1) && fits_u32(directory_ad_bytes(e.1).len() as int)
}

pub open spec fn directory_state_encodable(st: DirectoryState) -> bool {
    &&& fits_u32(st.ads@.len() as int)
    &&& fits_u32(st.watermarks@.len() as int)
    &&& forall|i: int| 0 <= i < st.ads@.len() ==> ad_record_encodable(#[trigger] st.ads@[i])
    &&& forall|i: int| 0 <= i < st.watermarks@.len() ==> fits_u32((#[trigger] st.watermarks@[i]).vk@.len() as int)
}

/// The bytes that read back as `st`: its encoding, within the record caps.
pub open spec fn stored_directory(bytes: Seq<u8>, st: DirectoryState) -> bool {
    &&& directory_state_encodable(st)
    &&& bytes == directory_state_bytes(st)
    &&& st.ads@.len() <= MAX_DIRECTORY_RECORDS
    &&& st.watermarks@.len() <= MAX_DIRECTORY_RECORDS
}

fn push_ads(out: &mut Vec<u8>, ads: &Vec<(JoinCode, DirectoryAd)>) -> (r: Result<()>)
    ensures
        match r {
            Ok(()) => final(out)@ == old(out)@ + section(ads@, ad_record_fn()) && fits_u32(ads@.len() as int)
                && forall|i: int| 0 <= i < ads@.len() ==> ad_record_encodable(#[trigger] ads@[i]),
            Err(e) => e is InvalidInput && !(fits_u32(ads@.len() as int) && forall|i: int|
                0 <= i < ads@.len() ==> ad_record_encodable(#[trigger] ads@[i])),
        },
{
    let ghost s = ads@;
    push_length(out, ads.len())?;
    let ghost head = out@;
    let mut i: usize = 0;
    assert(s.take(0) =~= Seq::<(JoinCode, DirectoryAd)>::empty());
    while i < ads.len()
        invariant
            i <= s.len(),
            s == ads@,
            fits_u32(s.len() as int),
            out@ == head + flat(s.take(i as int), ad_record_fn()),
            forall|k: int| 0 <= k < i ==> ad_record_encodable(#[trigger] s[k]),
        decreases s.len() - i,
    {
        proof {
            lemma_section_step(s, i as int, ad_record_fn());
        }
        let bytes = encode_directory_ad(&ads[i].1)?;
        push_bytes(out, &ads[i].0.0);
        push_variable(out, bytes.as_slice())?;
        assert(out@ =~= head + flat(s.take(i + 1), ad_record_fn()));
        i = i + 1;
    }
    assert(s.take(s.len() as int) =~= s);
    assert(out@ =~= old(out)@ + section(s, ad_record_fn()));
    Ok(())
}

fn push_watermarks(out: &mut Vec<u8>, marks: &Vec<DirectoryWatermark>) -> (r: Result<()>)
    ensures
        match r {
            Ok(()) => final(out)@ == old(out)@ + section(marks@, watermark_fn()) && fits_u32(marks@.len() as int)
                && forall|i: int| 0 <= i < marks@.len() ==> fits_u32((#[trigger] marks@[i]).vk@.len() as int),
            Err(e) => e is InvalidInput && !(fits_u32(marks@.len() as int) && forall|i: int|
                0 <= i < marks@.len() ==> fits_u32((#[trigger] marks@[i]).vk@.len() as int)),
        },
{
    let ghost s = marks@;
    push_length(out, marks.len())?;
    let ghost head = out@;
    let mut i: usize = 0;
    assert(s.take(0) =~= Seq::<DirectoryWatermark>::empty());
    while i < marks.len()
        invariant
            i <= s.len(),
            s == marks@,
            fits_u32(s.len() as int),
            out@ == head + flat(s.take(i as int), watermark_fn()),
            forall|k: int| 0 <= k < i ==> fits_u32((#[trigger] s[k]).vk@.len() as int),
        decreases s.len() - i,
    {
        proof {
            lemma_section_step(s, i as int, watermark_fn());
        }
        let w = &marks[i];
        push_array32(out, &w.peer_id.0);
        push_array32(out, &w.vault_id.0);
        push_u64(out, w.issued_at);
        push_variable(out, w.vk.as_slice())?;
        assert(out@ =~= head + flat(s.take(i + 1), watermark_fn()));
        i = i + 1;
    }
    assert(s.take(s.len() as int) =~= s);
    assert(out@ =~= old(out)@ + section(s, watermark_fn()));
    Ok(())
}

pub fn encode_directory_state(state: &DirectoryState) -> (r: Result<Vec<u8>>)
    ensures
        match r {
            Ok(v) => v@ == directory_state_bytes(*state) && directory_state_encodable(*state),
            Err(e) => e is InvalidInput && !directory_state_encodable(*state),
        },
{
    let magic: [u8; 20] = [113, 102, 115, 47, 108, 111, 99, 97, 108, 47, 100, 105, 114, 101, 99, 116, 111, 114, 121, 47];
    assert(magic@ =~= directory_state_magic());
    let mut out: Vec<u8> = Vec::new();
    push_bytes(&mut out, &magic);
    out.push(LOCAL_FORMAT_VERSION);
    let ghost head = out@;
    push_ads(&mut out, &state.ads)?;
    let ghost a = section(state.ads@, ad_record_fn());
    push_watermarks(&mut out, &state.watermarks)?;
    let ghost w = section(state.watermarks@, watermark_fn());
    assert(out@ == head + a + w);
    assert(out@ =~= directory_state_bytes(*state));
    Ok(out)
}

fn read_ad_record(reader: &mut Reader, Ghost(expected): Ghost<Option<((JoinCode, DirectoryAd), Seq<u8>)>>) -> (r:
    Result<(JoinCode, DirectoryAd)>)
    requires
        old(reader).wf(),
        expected matches Some((e, t)) ==> ad_record_encodable(e) && old(reader).rest() == (ad_record_fn())(e) + t,
    ensures
        final(reader).wf(),
        match r {
            Ok(e2) => old(reader).rest() == (ad_record_fn())(e2) + final(reader).rest() && ad_record_encodable(e2)
                && (expected matches Some((e, t)) ==> final(reader).rest() == t),
            Err(e) => e is InvalidInput && expected is None,
        },
{
    proof {
        if let Some((e, t)) = expected {
            assert((ad_record_fn())(e) + t =~= e.0@ + (var(directory_ad_bytes(e.1)) + t));
            lemma_take_bytes(e.0@, var(directory_ad_bytes(e.1)) + t);
            lemma_take_var(directory_ad_bytes(e.1), t);
        }
    }
    let ghost start = reader.rest();
    let code = JoinCode(reader.array16()?);
    let bytes = reader.variable()?;
    let ad = decode_directory_ad(bytes)?;
    assert(start =~= (ad_record_fn())((code, ad)) + reader.rest());
    Ok((code, ad))
}

fn read_watermark(reader: &mut Reader, Ghost(expected): Ghost<Option<(DirectoryWatermark, Seq<u8>)>>) -> (r:
    Result<DirectoryWatermark>)
    requires
        old(reader).wf(),
        expected matches Some((w, t)) ==> fits_u32(w.vk@.len() as int) && old(reader).rest() == (watermark_fn())(w) + t,
    ensures
        final(reader).wf(),
        match r {
            Ok(w2) => old(reader).rest() == (watermark_fn())(w2) + final(reader).rest() && fits_u32(w2.vk@.len() as int)
                && (expected matches Some((w, t)) ==> final(reader).rest() == t),
            Err(e) => e is InvalidInput && expected is None,
        },
{
    proof {
        if let Some((w, t)) = expected {
            assert((watermark_fn())(w) + t =~= w.peer_id@ + (w.vault_id@ + (be64(w.issued_at) + (var(w.vk@) + t))));
            lemma_take_bytes(w.peer_id@, w.vault_id@ + (be64(w.issued_at) + (var(w.vk@) + t)));
            lemma_take_bytes(w.vault_id@, be64(w.issued_at) + (var(w.vk@) + t));
            lemma_take_u64(w.issued_at, var(w.vk@) + t);
            lemma_take_var(w.vk@, t);
        }
    }
    let ghost start = reader.rest();
    let peer_id = PeerId(reader.array32()?);
    let vault_id = VaultId(reader.array32()?);
    let issued_at = reader.u64()?;
    let vk = reader.variable()?;
    let w = DirectoryWatermark { peer_id, vault_id, issued_at, vk: vstd::slice::slice_to_vec(vk) };
    assert(start =~= (watermark_fn())(w) + reader.rest());
    Ok(w)
}

fn read_ads(reader: &mut Reader, Ghost(expected): Ghost<Option<(Seq<(JoinCode, DirectoryAd)>, Seq<u8>)>>) -> (r: Result<
    Vec<(JoinCode, DirectoryAd)>,
>)
    requires
        old(reader).wf(),
        expected matches Some((v, t)) ==> (forall|a: int| 0 <= a < v.len() ==> ad_record_encodable(#[trigger] v[a]))
            && fits_u32(v.len() as int) && v.len() <= MAX_DIRECTORY_RECORDS && old(reader).rest() == section(
            v,
            ad_record_fn(),
        ) + t,
    ensures
        final(reader).wf(),
        match r {
            Ok(xs) => old(reader).rest() == section(xs@, ad_record_fn()) + final(reader).rest() && fits_u32(
                xs@.len() as int,
            ) && xs@.len() <= MAX_DIRECTORY_RECORDS && (forall|a: int| 0 <= a < xs@.len() ==> ad_record_encodable(
                #[trigger] xs@[a],
            )) && (expected matches Some((v, t)) ==> final(reader).rest() == t),
            Err(e) => e is InvalidInput && expected is None,
        },
{
    proof {
        if let Some((v, t)) = expected {
            assert forall|k: int| 0 <= k < v.len() implies (ad_record_fn())(#[trigger] v[k]).len() >= 20 by {
                lemma_be32(directory_ad_bytes(v[k].1).len() as u32);
            }
            lemma_take_section(v, ad_record_fn(), 20, t);
        }
    }
    let count = reader.count(20)?;
    if count > MAX_DIRECTORY_RECORDS {
        return Err(Error::InvalidInput("directory ad count exceeds cap"));
    }
    let ghost start = reader.rest();
    let mut xs: Vec<(JoinCode, DirectoryAd)> = Vec::new();
    let mut i: usize = 0;
    proof {
        if let Some((v, t)) = expected {
            assert(v.skip(0) =~= v);
        }
        assert(flat(xs@, ad_record_fn()) + start =~= start);
    }
    while i < count
        invariant
            reader.wf(),
            i <= count,
            count <= MAX_DIRECTORY_RECORDS,
            xs@.len() == i,
            start == flat(xs@, ad_record_fn()) + reader.rest(),
            old(reader).rest() == be32(count as u32) + start,
            forall|a: int| 0 <= a < i ==> ad_record_encodable(#[trigger] xs@[a]),
            expected matches Some((v, t)) ==> (forall|a: int| 0 <= a < v.len() ==> ad_record_encodable(#[trigger] v[a]))
                && v.len() == count && reader.rest() == flat(v.skip(i as int), ad_record_fn()) + t,
        decreases count - i,
    {
        let ghost inner: Option<((JoinCode, DirectoryAd), Seq<u8>)> = match expected {
            Some((v, t)) => Some((v[i as int], flat(v.skip(i + 1), ad_record_fn()) + t)),
            None => None,
        };
        proof {
            if let Some((v, t)) = expected {
                lemma_next_record(v, i as int, ad_record_fn(), t);
            }
        }
        let x = read_ad_record(reader, Ghost(inner))?;
        proof {
            lemma_flat_push(xs@, x, ad_record_fn());
        }
        xs.push(x);
        i = i + 1;
    }
    proof {
        if let Some((v, t)) = expected {
            assert(v.skip(count as int) =~= Seq::<(JoinCode, DirectoryAd)>::empty());
        }
    }
    Ok(xs)
}

fn read_watermarks(reader: &mut Reader, Ghost(expected): Ghost<Option<(Seq<DirectoryWatermark>, Seq<u8>)>>) -> (r: Result<
    Vec<DirectoryWatermark>,
>)
    requires
        old(reader).wf(),
        expected matches Some((v, t)) ==> (forall|a: int| 0 <= a < v.len() ==> fits_u32((#[trigger] v[a]).vk@.len() as int))
            && fits_u32(v.len() as int) && v.len() <= MAX_DIRECTORY_RECORDS && old(reader).rest() == section(
            v,
            watermark_fn(),
        ) + t,
    ensures
        final(reader).wf(),
        match r {
            Ok(xs) => old(reader).rest() == section(xs@, watermark_fn()) + final(reader).rest() && fits_u32(
                xs@.len() as int,
            ) && xs@.len() <= MAX_DIRECTORY_RECORDS && (forall|a: int| 0 <= a < xs@.len() ==> fits_u32(
                (#[trigger] xs@[a]).vk@.len() as int,
            )) && (expected matches Some((v, t)) ==> final(reader).rest() == t),
            Err(e) => e is InvalidInput && expected is None,
        },
{
    proof {
        if let Some((v, t)) = expected {
            assert forall|k: int| 0 <= k < v.len() implies (watermark_fn())(#[trigger] v[k]).len() >= 76 by {
                lemma_be32(v[k].vk@.len() as u32);
                lemma_be64(v[k].issued_at);
            }
            lemma_take_section(v, watermark_fn(), 76, t);
        }
    }
    let count = reader.count(76)?;
    if count > MAX_DIRECTORY_RECORDS {
        return Err(Error::InvalidInput("directory watermark count exceeds cap"));
    }
    let ghost start = reader.rest();
    let mut xs: Vec<DirectoryWatermark> = Vec::new();
    let mut i: usize = 0;
    proof {
        if let Some((v, t)) = expected {
            assert(v.skip(0) =~= v);
        }
        assert(flat(xs@, watermark_fn()) + start =~= start);
    }
    while i < count
        invariant
            reader.wf(),
            i <= count,
            count <= MAX_DIRECTORY_RECORDS,
            xs@.len() == i,
            start == flat(xs@, watermark_fn()) + reader.rest(),
            old(reader).rest() == be32(count as u32) + start,
            forall|a: int| 0 <= a < i ==> fits_u32((#[trigger] xs@[a]).vk@.len() as int),
            expected matches Some((v, t)) ==> (forall|a: int| 0 <= a < v.len() ==> fits_u32((#[trigger] v[a]).vk@.len() as int))
                && v.len() == count && reader.rest() == flat(v.skip(i as int), watermark_fn()) + t,
        decreases count - i,
    {
        let ghost inner: Option<(DirectoryWatermark, Seq<u8>)> = match expected {
            Some((v, t)) => Some((v[i as int], flat(v.skip(i + 1), watermark_fn()) + t)),
            None => None,
        };
        proof {
            if let Some((v, t)) = expected {
                lemma_next_record(v, i as int, watermark_fn(), t);
            }
        }
        let x = read_watermark(reader, Ghost(inner))?;
        proof {
            lemma_flat_push(xs@, x, watermark_fn());
        }
        xs.push(x);
        i = i + 1;
    }
    proof {
        if let Some((v, t)) = expected {
            assert(v.skip(count as int) =~= Seq::<DirectoryWatermark>::empty());
        }
    }
    Ok(xs)
}

/// Reads a stored directory: exactly the encoding of a state within the
/// record caps, and nothing else.
pub fn decode_directory_state(bytes: &[u8]) -> (r: Result<DirectoryState>)
    ensures
        match r {
            Ok(st) => stored_directory(bytes@, st),
            Err(e) => e is InvalidInput && forall|st: DirectoryState| !#[trigger] stored_directory(bytes@, st),
        },
{
    let ghost s = bytes@;
    let ghost target = choose|st: DirectoryState| #[trigger] stored_directory(s, st);
    let ghost canon = stored_directory(s, target);
    let ghost t2: Seq<u8> = section(target.watermarks@, watermark_fn());
    let ghost t1: Seq<u8> = section(target.ads@, ad_record_fn()) + t2;
    let magic: [u8; 20] = [113, 102, 115, 47, 108, 111, 99, 97, 108, 47, 100, 105, 114, 101, 99, 116, 111, 114, 121, 47];
    assert(magic@ =~= directory_state_magic());
    let mut reader = Reader::new(bytes);
    let ghost after_magic = seq![LOCAL_FORMAT_VERSION] + t1;
    proof {
        if canon {
            assert(reader.rest() == magic@ + after_magic);
        }
    }
    reader.require_prefix(&magic)?;
    proof {
        if canon {
            assert((magic@ + after_magic).skip(20) =~= after_magic);
            assert(reader.rest() =~= (magic@ + reader.rest()).skip(20));
        }
    }
    reader.require_version()?;
    proof {
        if canon {
            assert((seq![LOCAL_FORMAT_VERSION] + t1).skip(1) =~= t1);
            assert(reader.rest() =~= (seq![LOCAL_FORMAT_VERSION] + reader.rest()).skip(1));
        }
    }
    let ads = read_ads(
        &mut reader,
        Ghost(
            if canon {
                Some((target.ads@, t2))
            } else {
                None
            },
        ),
    )?;
    let ghost r1 = reader.rest();
    let watermarks = read_watermarks(
        &mut reader,
        Ghost(
            if canon {
                Some((target.watermarks@, Seq::<u8>::empty()))
            } else {
                None
            },
        ),
    )?;
    proof {
        if canon {
            assert(t2 + Seq::<u8>::empty() =~= t2);
        }
    }
    let ghost r2 = reader.rest();
    reader.finish()?;
    let state = DirectoryState { ads, watermarks };
    proof {
        assert(r2.len() == 0);
        assert(r1 =~= section(state.watermarks@, watermark_fn()));
        assert(s =~= directory_state_bytes(state));
    }
    Ok(state)
}

} // verus!
