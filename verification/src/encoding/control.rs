//! Signed manifests and the host's instruction-log records.

use vstd::prelude::*;

use crate::encoding::locate::{lemma_chunk_ids_len, read_chunk_ids};
use crate::error::{Error, Result};
use crate::ids::{ChunkId, FileId, PeerId};
use crate::protocol::manifest::Manifest;
use crate::sync::host::{ControlRecord, ControlUpdate};
use crate::text::{string_bytes, string_from_utf8, utf8_bytes};
use crate::wire::{push_bytes, 
    be32, be64, fits_u32, ids_bytes, lemma_ids_bytes_push, lemma_take_bytes, lemma_take_u32,
    lemma_take_u64, lemma_take_u8, lemma_take_var, push_array32, push_length, push_u64,
    push_variable, var, Reader,
};

verus! {

/// Manifest M: file, version, size, writer, then the chunk ids in file order.
pub open spec fn manifest_m_bytes(m: Manifest) -> Seq<u8> {
    m.file_id@ + (be64(m.version) + (be64(m.size) + (m.writer_id@ + (be32(
        m.chunk_ids@.len() as u32,
    ) + ids_bytes(m.chunk_ids@)))))
}

pub open spec fn manifest_fits(m: Manifest) -> bool {
    fits_u32(m.chunk_ids@.len() as int)
}

pub fn manifest_m(manifest: &Manifest) -> (r: Result<Vec<u8>>)
    ensures
        match r {
            Ok(v) => v@ == manifest_m_bytes(*manifest) && manifest_fits(*manifest),
            Err(e) => e is InvalidInput && !manifest_fits(*manifest),
        },
{
    let mut out: Vec<u8> = Vec::new();
    push_array32(&mut out, &manifest.file_id.0);
    push_u64(&mut out, manifest.version);
    push_u64(&mut out, manifest.size);
    push_array32(&mut out, &manifest.writer_id.0);
    push_length(&mut out, manifest.chunk_ids.len())?;
    let ids = manifest.chunk_ids.as_slice();
    let mut i: usize = 0;
    while i < ids.len()
        invariant
            i <= ids@.len(),
            ids@ == manifest.chunk_ids@,
            out@ == manifest.file_id@ + be64(manifest.version) + be64(manifest.size)
                + manifest.writer_id@ + be32(ids@.len() as u32) + ids_bytes(ids@.take(i as int)),
        decreases ids@.len() - i,
    {
        proof {
            lemma_ids_bytes_push(ids@.take(i as int), ids@[i as int]);
            assert(ids@.take(i + 1) =~= ids@.take(i as int).push(ids@[i as int]));
        }
        push_array32(&mut out, &ids[i].0);
        i = i + 1;
    }
    assert(ids@.take(ids@.len() as int) =~= ids@);
    assert(out@ =~= manifest_m_bytes(*manifest));
    Ok(out)
}

/// Parses Manifest M and attaches its detached signature.
pub fn decode_manifest_message(message: &[u8], signature: &[u8]) -> (r: Result<Manifest>)
    ensures
        match r {
            Ok(m) => message@ == manifest_m_bytes(m) && manifest_fits(m) && m.signature@
                == signature@,
            Err(e) => e is InvalidInput && forall|m: Manifest|
                manifest_fits(m) ==> message@ != #[trigger] manifest_m_bytes(m),
        },
{
    let ghost s = message@;
    let ghost target = choose|m: Manifest| manifest_fits(m) && s == #[trigger] manifest_m_bytes(m);
    let ghost canon = manifest_fits(target) && s == manifest_m_bytes(target);
    proof {
        if canon {
            let m = target;
            let ids = ids_bytes(m.chunk_ids@);
            let n = m.chunk_ids@.len() as u32;
            lemma_take_bytes(m.file_id@, be64(m.version) + (be64(m.size) + (m.writer_id@ + (be32(n)
                + ids))));
            lemma_take_u64(m.version, be64(m.size) + (m.writer_id@ + (be32(n) + ids)));
            lemma_take_u64(m.size, m.writer_id@ + (be32(n) + ids));
            lemma_take_bytes(m.writer_id@, be32(n) + ids);
            lemma_take_u32(n, ids);
            lemma_chunk_ids_len(m.chunk_ids@);
        }
    }
    let mut reader = Reader::new(message);
    let file_id = FileId(reader.array32()?);
    let version = reader.u64()?;
    let size = reader.u64()?;
    let writer_id = PeerId(reader.array32()?);
    let count = reader.count(32)?;
    let ghost before = reader.rest();
    let chunk_ids = read_chunk_ids(&mut reader, count);
    proof {
        lemma_chunk_ids_len(chunk_ids@);
        assert(before =~= ids_bytes(chunk_ids@) + reader.rest());
    }
    reader.finish()?;
    let manifest = Manifest {
        file_id,
        chunk_ids,
        size,
        writer_id,
        version,
        signature: vstd::slice::slice_to_vec(signature),
    };
    assert(message@ =~= manifest_m_bytes(manifest));
    Ok(manifest)
}

// ---------------------------------------------------------------------------
// Control records
// ---------------------------------------------------------------------------

pub open spec fn update_bytes(u: ControlUpdate) -> Seq<u8> {
    match u {
        ControlUpdate::NewManifest(m) => seq![0u8] + (var(manifest_m_bytes(m)) + var(
            m.signature@,
        )),
        ControlUpdate::Add(f) => seq![1u8] + f@,
        ControlUpdate::Clear(f) => seq![2u8] + f@,
        ControlUpdate::Remove(f) => seq![3u8] + f@,
        ControlUpdate::Link { parent, name, child, is_dir } => seq![4u8] + (parent@ + (var(
            utf8_bytes(name@),
        ) + (child@ + seq![if is_dir { 1u8 } else { 0u8 }]))),
        ControlUpdate::Unlink { parent, name } => seq![5u8] + (parent@ + var(utf8_bytes(name@))),
        ControlUpdate::Rename { src_parent, src_name, dst_parent, dst_name } => seq![6u8] + (
        src_parent@ + (var(utf8_bytes(src_name@)) + (dst_parent@ + var(utf8_bytes(dst_name@))))),
    }
}

pub open spec fn update_encodable(u: ControlUpdate) -> bool {
    match u {
        ControlUpdate::NewManifest(m) => manifest_fits(m) && fits_u32(
            manifest_m_bytes(m).len() as int,
        ) && fits_u32(m.signature@.len() as int),
        ControlUpdate::Link { name, .. } => fits_u32(utf8_bytes(name@).len() as int),
        ControlUpdate::Unlink { name, .. } => fits_u32(utf8_bytes(name@).len() as int),
        ControlUpdate::Rename { src_name, dst_name, .. } => fits_u32(
            utf8_bytes(src_name@).len() as int,
        ) && fits_u32(utf8_bytes(dst_name@).len() as int),
        _ => true,
    }
}

pub open spec fn record_bytes(r: ControlRecord) -> Seq<u8> {
    be64(r.id) + update_bytes(r.update)
}

pub open spec fn record_encodable(r: ControlRecord) -> bool {
    update_encodable(r.update)
}

/// Appends the kind and payload of `update`.
fn push_update(out: &mut Vec<u8>, update: &ControlUpdate) -> (r: Result<()>)
    ensures
        match r {
            Ok(()) => final(out)@ == old(out)@ + update_bytes(*update) && update_encodable(*update),
            Err(e) => e is InvalidInput && !update_encodable(*update),
        },
{
    let ghost start = out@;
    match update {
        ControlUpdate::NewManifest(manifest) => {
            out.push(0);
            let m = manifest_m(manifest)?;
            push_variable(out, m.as_slice())?;
            push_variable(out, manifest.signature.as_slice())?;
        },
        ControlUpdate::Add(file_id) => {
            out.push(1);
            push_array32(out, &file_id.0);
        },
        ControlUpdate::Clear(file_id) => {
            out.push(2);
            push_array32(out, &file_id.0);
        },
        ControlUpdate::Remove(file_id) => {
            out.push(3);
            push_array32(out, &file_id.0);
        },
        ControlUpdate::Link { parent, name, child, is_dir } => {
            out.push(4);
            push_array32(out, &parent.0);
            push_variable(out, string_bytes(name))?;
            push_array32(out, &child.0);
            out.push(if *is_dir { 1 } else { 0 });
        },
        ControlUpdate::Unlink { parent, name } => {
            out.push(5);
            push_array32(out, &parent.0);
            push_variable(out, string_bytes(name))?;
        },
        ControlUpdate::Rename { src_parent, src_name, dst_parent, dst_name } => {
            out.push(6);
            push_array32(out, &src_parent.0);
            push_variable(out, string_bytes(src_name))?;
            push_array32(out, &dst_parent.0);
            push_variable(out, string_bytes(dst_name))?;
        },
    }
    assert(out@ =~= start + update_bytes(*update));
    Ok(())
}

/// A signed manifest record stores Manifest M followed by its detached
/// signature; decoding only parses, and callers verify the signature.
pub fn encode_control_record(record: &ControlRecord) -> (r: Result<Vec<u8>>)
    ensures
        match r {
            Ok(v) => v@ == record_bytes(*record) && record_encodable(*record),
            Err(e) => e is InvalidInput && !record_encodable(*record),
        },
{
    let mut out: Vec<u8> = Vec::new();
    push_u64(&mut out, record.id);
    push_update(&mut out, &record.update)?;
    assert(out@ =~= record_bytes(*record));
    Ok(out)
}

/// Directory names travel as UTF-8.
pub fn decode_utf8_name(bytes: &[u8]) -> (r: Result<String>)
    ensures
        match r {
            Ok(s) => utf8_bytes(s@) == bytes@,
            Err(e) => e is InvalidInput && forall|c: Seq<char>| #[trigger] utf8_bytes(c) != bytes@,
        },
{
    match string_from_utf8(bytes) {
        Some(s) => Ok(s),
        None => Err(Error::InvalidInput("directory name is not UTF-8")),
    }
}

#[verifier::spinoff_prover]
#[verifier::rlimit(30)]
pub fn decode_control_record(bytes: &[u8]) -> (r: Result<ControlRecord>)
    ensures
        match r {
            Ok(rec) => bytes@ == record_bytes(rec) && record_encodable(rec),
            Err(e) => e is InvalidInput && forall|rec: ControlRecord|
                record_encodable(rec) ==> bytes@ != #[trigger] record_bytes(rec),
        },
{
    let ghost s = bytes@;
    let ghost target = choose|rec: ControlRecord|
        record_encodable(rec) && s == #[trigger] record_bytes(rec);
    let ghost canon = record_encodable(target) && s == record_bytes(target);
    let ghost e = Seq::<u8>::empty();
    proof {
        if canon {
            lemma_take_u64(target.id, update_bytes(target.update));
            match target.update {
                ControlUpdate::NewManifest(m) => {
                    lemma_take_u8(0u8, var(manifest_m_bytes(m)) + var(m.signature@));
                    lemma_take_var(manifest_m_bytes(m), var(m.signature@));
                    lemma_take_var(m.signature@, e);
                    assert(var(m.signature@) + e =~= var(m.signature@));
                },
                ControlUpdate::Add(f) => {
                    lemma_take_u8(1u8, f@);
                    lemma_take_bytes(f@, e);
                    assert(f@ + e =~= f@);
                },
                ControlUpdate::Clear(f) => {
                    lemma_take_u8(2u8, f@);
                    lemma_take_bytes(f@, e);
                    assert(f@ + e =~= f@);
                },
                ControlUpdate::Remove(f) => {
                    lemma_take_u8(3u8, f@);
                    lemma_take_bytes(f@, e);
                    assert(f@ + e =~= f@);
                },
                ControlUpdate::Link { parent, name, child, is_dir } => {
                    let flag = seq![if is_dir { 1u8 } else { 0u8 }];
                    let nb = utf8_bytes(name@);
                    lemma_take_u8(4u8, parent@ + (var(nb) + (child@ + flag)));
                    lemma_take_bytes(parent@, var(nb) + (child@ + flag));
                    lemma_take_var(nb, child@ + flag);
                    lemma_take_bytes(child@, flag);
                    lemma_take_u8(if is_dir { 1u8 } else { 0u8 }, e);
                    assert(flag + e =~= flag);
                },
                ControlUpdate::Unlink { parent, name } => {
                    let nb = utf8_bytes(name@);
                    lemma_take_u8(5u8, parent@ + var(nb));
                    lemma_take_bytes(parent@, var(nb));
                    lemma_take_var(nb, e);
                    assert(var(nb) + e =~= var(nb));
                },
                ControlUpdate::Rename { src_parent, src_name, dst_parent, dst_name } => {
                    let a = utf8_bytes(src_name@);
                    let b = utf8_bytes(dst_name@);
                    lemma_take_u8(6u8, src_parent@ + (var(a) + (dst_parent@ + var(b))));
                    lemma_take_bytes(src_parent@, var(a) + (dst_parent@ + var(b)));
                    lemma_take_var(a, dst_parent@ + var(b));
                    lemma_take_bytes(dst_parent@, var(b));
                    lemma_take_var(b, e);
                    assert(var(b) + e =~= var(b));
                },
            }
        }
    }
    let mut reader = Reader::new(bytes);
    let id = reader.u64()?;
    let kind = reader.byte()?;
    let update = if kind == 0 {
        let message = reader.variable()?;
        let signature = reader.variable()?;
        ControlUpdate::NewManifest(decode_manifest_message(message, signature)?)
    } else if kind == 1 {
        ControlUpdate::Add(FileId(reader.array32()?))
    } else if kind == 2 {
        ControlUpdate::Clear(FileId(reader.array32()?))
    } else if kind == 3 {
        ControlUpdate::Remove(FileId(reader.array32()?))
    } else if kind == 4 {
        let parent = FileId(reader.array32()?);
        let name = decode_utf8_name(reader.variable()?)?;
        let child = FileId(reader.array32()?);
        let flag = reader.byte()?;
        let is_dir = if flag == 0 {
            false
        } else if flag == 1 {
            true
        } else {
            return Err(Error::InvalidInput("invalid Link directory flag"));
        };
        ControlUpdate::Link { parent, name, child, is_dir }
    } else if kind == 5 {
        let parent = FileId(reader.array32()?);
        let name = decode_utf8_name(reader.variable()?)?;
        ControlUpdate::Unlink { parent, name }
    } else if kind == 6 {
        let src_parent = FileId(reader.array32()?);
        let src_name = decode_utf8_name(reader.variable()?)?;
        let dst_parent = FileId(reader.array32()?);
        let dst_name = decode_utf8_name(reader.variable()?)?;
        ControlUpdate::Rename { src_parent, src_name, dst_parent, dst_name }
    } else {
        return Err(Error::InvalidInput("unknown control record kind"));
    };
    reader.finish()?;
    let record = ControlRecord { id, update };
    assert(bytes@ =~= record_bytes(record));
    Ok(record)
}

} // verus!

verus! {

impl ControlUpdate {
    /// The canonical bytes of a committed update: its kind and its payload.
    pub fn encoded(&self) -> (r: Result<Vec<u8>>)
        ensures
            match r {
                Ok(v) => v@ == update_bytes(*self) && update_encodable(*self),
                Err(e) => e is InvalidInput && !update_encodable(*self),
            },
    {
        let mut out: Vec<u8> = Vec::new();
        push_update(&mut out, self)?;
        assert(out@ =~= update_bytes(*self));
        Ok(out)
    }

    /// The update whose canonical bytes are `encoded`.
    pub fn from_encoded(encoded: &[u8]) -> (r: Result<ControlUpdate>)
        ensures
            match r {
                Ok(u) => encoded@ == update_bytes(u) && update_encodable(u),
                Err(e) => e is InvalidInput && forall|u: ControlUpdate|
                    update_encodable(u) ==> encoded@ != #[trigger] update_bytes(u),
            },
    {
        let mut framed: Vec<u8> = Vec::new();
        push_u64(&mut framed, 0);
        push_bytes(&mut framed, encoded);
        assert(framed@ == be64(0) + encoded@);
        match decode_control_record(framed.as_slice()) {
            Ok(record) => {
                proof {
                    assert(be64(record.id).len() == 8 && be64(0).len() == 8);
                    assert((be64(0) + encoded@).skip(8) =~= encoded@);
                    assert((be64(record.id) + update_bytes(record.update)).skip(8) =~= update_bytes(
                        record.update,
                    ));
                }
                Ok(record.update)
            },
            Err(e) => {
                proof {
                    assert forall|u: ControlUpdate| update_encodable(u) implies encoded@
                        != #[trigger] update_bytes(u) by {
                        let rec = ControlRecord { id: 0, update: u };
                        assert(record_encodable(rec));
                        assert(record_bytes(rec) == be64(0) + update_bytes(u));
                    }
                }
                Err(e)
            },
        }
    }
}

} // verus!
