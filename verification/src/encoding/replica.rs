//! The authenticated local replica snapshot: a fixed header, the metadata
//! body, and a SHA-256 digest over both. Every keyed collection is stored in
//! strictly ascending key order.

use vstd::prelude::*;

use crate::crypto::hash::{sha256, sha256_digest};
use crate::encoding::control::{
    decode_control_record, decode_manifest_message, decode_utf8_name, encode_control_record,
    manifest_fits, manifest_m, manifest_m_bytes, record_bytes, record_encodable,
};
use crate::error::{Error, Result};
use crate::ids::{bytes32_eq, bytes32_lt, lex_lt, ChunkId, FileId, PeerId};
use crate::protocol::manifest::Manifest;
use crate::store::replica::ReplicaMetadata;
use crate::store::tree::{
    dirent_views, dirents_ok, root_entry, Dirent, DirentV, DirectoryTree,
};
use crate::sync::host::{ControlRecord, QueueContent};
use crate::text::{string_bytes, utf8_bytes};
use crate::wire::{
    be32, be64, bytes_eq, flat, fits_u32, from_be32, lemma_be64, lemma_flat_len, lemma_flat_push, lemma_flat_skip,
    lemma_take_bytes, lemma_take_u32, lemma_take_u64, lemma_take_var, push_array32, push_bytes,
    push_length, push_u64, push_variable, take_count, var, Reader, LOCAL_FORMAT_VERSION,
};

verus! {

pub const MAX_REPLICA_BYTES: usize = 16777216;

/// Magic, version, generation and body length.
pub const REPLICA_HEADER_LEN: usize = 31;

pub open spec fn replica_magic() -> Seq<u8> {
    seq![113u8, 102, 115, 47, 108, 111, 99, 97, 108, 47, 114, 101, 112, 108, 105, 99, 97, 47]
}

// ---------------------------------------------------------------------------
// Records
// ---------------------------------------------------------------------------

pub open spec fn dirent_record(d: DirentV) -> Seq<u8> {
    d.parent + (var(utf8_bytes(d.name)) + (d.child + seq![if d.is_dir { 1u8 } else { 0u8 }]))
}

pub open spec fn dirent_fn() -> spec_fn(DirentV) -> Seq<u8> {
    |d: DirentV| dirent_record(d)
}

pub open spec fn peer_fn() -> spec_fn(PeerId) -> Seq<u8> {
    |p: PeerId| p@
}

pub open spec fn manifest_record(m: Manifest) -> Seq<u8> {
    var(manifest_m_bytes(m)) + var(m.signature@)
}

pub open spec fn manifest_fn() -> spec_fn(Manifest) -> Seq<u8> {
    |m: Manifest| manifest_record(m)
}

pub open spec fn log_fn() -> spec_fn(ControlRecord) -> Seq<u8> {
    |r: ControlRecord| var(record_bytes(r))
}

pub open spec fn content_record(q: QueueContent) -> Seq<u8> {
    match q {
        QueueContent::Control(r) => seq![0u8] + var(record_bytes(r)),
        QueueContent::Chunk { file_id, index, chunk_id } => seq![1u8] + (file_id@ + (be64(index)
            + chunk_id@)),
    }
}

pub open spec fn content_fn() -> spec_fn(QueueContent) -> Seq<u8> {
    |q: QueueContent| content_record(q)
}

pub open spec fn mailbox_record(mb: (PeerId, Vec<QueueContent>)) -> Seq<u8> {
    mb.0@ + section(mb.1@, content_fn())
}

pub open spec fn mailbox_fn() -> spec_fn((PeerId, Vec<QueueContent>)) -> Seq<u8> {
    |mb: (PeerId, Vec<QueueContent>)| mailbox_record(mb)
}

pub open spec fn ack_fn() -> spec_fn((PeerId, u64)) -> Seq<u8> {
    |a: (PeerId, u64)| a.0@ + be64(a.1)
}

pub open spec fn chunk_fn() -> spec_fn((ChunkId, FileId, u64)) -> Seq<u8> {
    |c: (ChunkId, FileId, u64)| c.0@ + (c.1@ + be64(c.2))
}

/// A record count and the records.
pub open spec fn section<T>(s: Seq<T>, f: spec_fn(T) -> Seq<u8>) -> Seq<u8> {
    be32(s.len() as u32) + flat(s, f)
}

// ---------------------------------------------------------------------------
// Validity
// ---------------------------------------------------------------------------

pub open spec fn record_fits(r: ControlRecord) -> bool {
    record_encodable(r) && fits_u32(record_bytes(r).len() as int)
}

pub open spec fn manifest_encodable(m: Manifest) -> bool {
    manifest_fits(m) && fits_u32(manifest_m_bytes(m).len() as int) && fits_u32(
        m.signature@.len() as int,
    )
}

pub open spec fn content_encodable(q: QueueContent) -> bool {
    match q {
        QueueContent::Control(r) => record_fits(r),
        QueueContent::Chunk { .. } => true,
    }
}

pub open spec fn ascending_peers(s: Seq<PeerId>) -> bool {
    forall|i: int, j: int| 0 <= i < j < s.len() ==> lex_lt((#[trigger] s[i])@, (#[trigger] s[j])@)
}

pub open spec fn manifests_ok(s: Seq<Manifest>) -> bool {
    &&& fits_u32(s.len() as int)
    &&& forall|i: int| 0 <= i < s.len() ==> manifest_encodable(#[trigger] s[i])
    &&& forall|i: int, j: int|
        0 <= i < j < s.len() ==> lex_lt((#[trigger] s[i]).file_id@, (#[trigger] s[j]).file_id@)
}

pub open spec fn log_ok(s: Seq<ControlRecord>) -> bool {
    &&& fits_u32(s.len() as int)
    &&& forall|i: int| 0 <= i < s.len() ==> record_fits(#[trigger] s[i])
    &&& forall|i: int, j: int| 0 <= i < j < s.len() ==> (#[trigger] s[i]).id < (#[trigger] s[j]).id
}

pub open spec fn queue_ok(q: Seq<QueueContent>) -> bool {
    fits_u32(q.len() as int) && forall|i: int| 0 <= i < q.len() ==> content_encodable(#[trigger] q[i])
}

pub open spec fn mailboxes_ok(s: Seq<(PeerId, Vec<QueueContent>)>) -> bool {
    &&& fits_u32(s.len() as int)
    &&& forall|i: int| 0 <= i < s.len() ==> queue_ok((#[trigger] s[i]).1@)
    &&& forall|i: int, j: int|
        0 <= i < j < s.len() ==> lex_lt((#[trigger] s[i]).0@, (#[trigger] s[j]).0@)
}

pub open spec fn acks_ok(s: Seq<(PeerId, u64)>) -> bool {
    &&& fits_u32(s.len() as int)
    &&& forall|i: int, j: int|
        0 <= i < j < s.len() ==> lex_lt((#[trigger] s[i]).0@, (#[trigger] s[j]).0@)
}

pub open spec fn chunks_ok(s: Seq<(ChunkId, FileId, u64)>) -> bool {
    &&& fits_u32(s.len() as int)
    &&& forall|i: int, j: int|
        0 <= i < j < s.len() ==> lex_lt((#[trigger] s[i]).0@, (#[trigger] s[j]).0@)
}

/// The stored collections, apart from the directory entries.
pub open spec fn parts_ok(
    members: Seq<PeerId>,
    manifests: Seq<Manifest>,
    log: Seq<ControlRecord>,
    mailboxes: Seq<(PeerId, Vec<QueueContent>)>,
    acks: Seq<(PeerId, u64)>,
    chunks: Seq<(ChunkId, FileId, u64)>,
) -> bool {
    &&& fits_u32(members.len() as int)
    &&& ascending_peers(members)
    &&& manifests_ok(manifests)
    &&& log_ok(log)
    &&& mailboxes_ok(mailboxes)
    &&& acks_ok(acks)
    &&& chunks_ok(chunks)
}

/// Everything but the directory entries can be stored.
pub open spec fn collections_ok(m: ReplicaMetadata) -> bool {
    parts_ok(
        m.members@,
        m.manifests@,
        m.log@,
        m.mailboxes@,
        m.acked_through@,
        m.chunk_index@,
    )
}

/// Entry identities are 32 bytes, as those of every `Dirent`.
pub open spec fn dirent_shapes(ds: Seq<DirentV>) -> bool {
    forall|i: int| 0 <= i < ds.len() ==> (#[trigger] ds[i]).parent.len() == 32 && ds[i].child.len() == 32
}

/// A stored entry list: empty (the root alone) or a valid tree.
pub open spec fn stored_dirents_ok(root: Seq<u8>, ds: Seq<DirentV>) -> bool {
    fits_u32(ds.len() as int) && dirent_shapes(ds) && (ds.len() == 0 || dirents_ok(root, ds))
}

/// The tree a stored entry list stands for.
pub open spec fn canonical_dirents(root: Seq<u8>, ds: Seq<DirentV>) -> Seq<DirentV> {
    if ds.len() == 0 {
        seq![root_entry(root)]
    } else {
        ds
    }
}

// ---------------------------------------------------------------------------
// Layout
// ---------------------------------------------------------------------------

/// Everything after the directory entries.
pub open spec fn tail_parts(
    members: Seq<PeerId>,
    manifests: Seq<Manifest>,
    log: Seq<ControlRecord>,
    next_control: u64,
    mailboxes: Seq<(PeerId, Vec<QueueContent>)>,
    acks: Seq<(PeerId, u64)>,
    chunks: Seq<(ChunkId, FileId, u64)>,
) -> Seq<u8> {
    section(members, peer_fn()) + (section(manifests, manifest_fn()) + (section(log, log_fn()) + (
    be64(next_control) + (section(mailboxes, mailbox_fn()) + (section(acks, ack_fn()) + section(
        chunks,
        chunk_fn(),
    ))))))
}

pub open spec fn tail_bytes(m: ReplicaMetadata) -> Seq<u8> {
    tail_parts(
        m.members@,
        m.manifests@,
        m.log@,
        m.next_control,
        m.mailboxes@,
        m.acked_through@,
        m.chunk_index@,
    )
}

pub open spec fn body_bytes(root: Seq<u8>, ds: Seq<DirentV>, m: ReplicaMetadata) -> Seq<u8> {
    root + (section(ds, dirent_fn()) + tail_bytes(m))
}

/// The header and body that the digest covers.
pub open spec fn replica_head(generation: u64, body: Seq<u8>) -> Seq<u8> {
    replica_magic() + (seq![LOCAL_FORMAT_VERSION] + (be64(generation) + (be32(body.len() as u32)
        + body)))
}

pub open spec fn replica_frame(generation: u64, body: Seq<u8>) -> Seq<u8> {
    replica_head(generation, body) + sha256_digest(replica_head(generation, body))
}

/// A snapshot the decoder accepts: stored entries `ds` and the rest of `m`
/// under root `root`, within the size limit.
pub open spec fn valid_replica(root: Seq<u8>, generation: u64, ds: Seq<DirentV>, m: ReplicaMetadata) -> bool {
    &&& stored_dirents_ok(root, ds)
    &&& collections_ok(m)
    &&& m.expected_root@ == root
    &&& dirent_views(m.dirents@) == canonical_dirents(root, ds)
    &&& sha256_digest(replica_head(generation, body_bytes(root, ds, m))).len() == 32
    &&& replica_frame(generation, body_bytes(root, ds, m)).len() <= MAX_REPLICA_BYTES
}

// ---------------------------------------------------------------------------
// Encoding
// ---------------------------------------------------------------------------

pub(crate) proof fn lemma_section_step<T>(s: Seq<T>, i: int, f: spec_fn(T) -> Seq<u8>)
    requires
        0 <= i < s.len(),
    ensures
        flat(s.take(i + 1), f) == flat(s.take(i), f) + f(s[i]),
{
    lemma_flat_push(s.take(i), s[i], f);
    assert(s.take(i + 1) =~= s.take(i).push(s[i]));
}

fn push_dirents(out: &mut Vec<u8>, ds: &Vec<Dirent>) -> (r: Result<()>)
    requires
        forall|i: int| 0 <= i < ds@.len() ==> utf8_bytes((#[trigger] ds@[i]).name@).len() <= 255,
    ensures
        match r {
            Ok(()) => final(out)@ == old(out)@ + section(dirent_views(ds@), dirent_fn()) && fits_u32(
                ds@.len() as int,
            ),
            Err(e) => e is InvalidInput && !fits_u32(ds@.len() as int),
        },
{
    let ghost s = dirent_views(ds@);
    push_length(out, ds.len())?;
    let ghost head = out@;
    let mut i: usize = 0;
    assert(s.take(0) =~= Seq::<DirentV>::empty());
    while i < ds.len()
        invariant
            i <= ds@.len(),
            s == dirent_views(ds@),
            forall|k: int| 0 <= k < ds@.len() ==> utf8_bytes((#[trigger] ds@[k]).name@).len() <= 255,
            out@ == head + flat(s.take(i as int), dirent_fn()),
        decreases ds@.len() - i,
    {
        let d = &ds[i];
        assert(s[i as int] == d@);
        proof {
            lemma_section_step(s, i as int, dirent_fn());
        }
        let ghost before = out@;
        push_array32(out, &d.parent.0);
        let name = string_bytes(&d.name);
        match push_variable(out, name) {
            Ok(()) => {},
            Err(e) => {
                assert(false);
                return Err(e);
            },
        }
        push_array32(out, &d.child.0);
        out.push(if d.is_dir { 1u8 } else { 0u8 });
        assert(out@ =~= before + dirent_record(d@));
        i = i + 1;
    }
    assert(s.take(ds@.len() as int) =~= s);
    assert(out@ =~= old(out)@ + section(s, dirent_fn()));
    Ok(())
}

fn push_members(out: &mut Vec<u8>, members: &Vec<PeerId>) -> (r: Result<()>)
    ensures
        match r {
            Ok(()) => final(out)@ == old(out)@ + section(members@, peer_fn()) && fits_u32(
                members@.len() as int,
            ) && ascending_peers(members@),
            Err(e) => e is InvalidInput && !(fits_u32(members@.len() as int) && ascending_peers(
                members@,
            )),
        },
{
    let ghost s = members@;
    push_length(out, members.len())?;
    let ghost head = out@;
    let mut i: usize = 0;
    assert(s.take(0) =~= Seq::<PeerId>::empty());
    while i < members.len()
        invariant
            i <= s.len(),
            s == members@,
            fits_u32(s.len() as int),
            out@ == head + flat(s.take(i as int), peer_fn()),
            forall|a: int, b: int| 0 <= a < b < i ==> lex_lt((#[trigger] s[a])@, (#[trigger] s[b])@),
        decreases s.len() - i,
    {
        if i > 0 && !bytes32_lt(&members[i - 1].0, &members[i].0) {
            return Err(Error::InvalidInput("replica members are not canonical"));
        }
        proof {
            lemma_section_step(s, i as int, peer_fn());
            assert forall|a: int| 0 <= a < i implies lex_lt((#[trigger] s[a])@, s[i as int]@) by {
                if a < i - 1 {
                    crate::ids::lemma_lex_transitive(s[a]@, s[i - 1]@, s[i as int]@);
                }
            }
        }
        push_array32(out, &members[i].0);
        i = i + 1;
    }
    assert(s.take(s.len() as int) =~= s);
    assert(out@ =~= old(out)@ + section(s, peer_fn()));
    Ok(())
}

fn push_manifests(out: &mut Vec<u8>, manifests: &Vec<Manifest>) -> (r: Result<()>)
    ensures
        match r {
            Ok(()) => final(out)@ == old(out)@ + section(manifests@, manifest_fn()) && manifests_ok(
                manifests@,
            ),
            Err(e) => e is InvalidInput && !manifests_ok(manifests@),
        },
{
    let ghost s = manifests@;
    push_length(out, manifests.len())?;
    let ghost head = out@;
    let mut i: usize = 0;
    assert(s.take(0) =~= Seq::<Manifest>::empty());
    while i < manifests.len()
        invariant
            i <= s.len(),
            s == manifests@,
            fits_u32(s.len() as int),
            out@ == head + flat(s.take(i as int), manifest_fn()),
            forall|a: int| 0 <= a < i ==> manifest_encodable(#[trigger] s[a]),
            forall|a: int, b: int|
                0 <= a < b < i ==> lex_lt((#[trigger] s[a]).file_id@, (#[trigger] s[b]).file_id@),
        decreases s.len() - i,
    {
        let m = &manifests[i];
        if i > 0 && !bytes32_lt(&manifests[i - 1].file_id.0, &m.file_id.0) {
            return Err(Error::InvalidInput("replica manifests are not canonical"));
        }
        proof {
            lemma_section_step(s, i as int, manifest_fn());
            assert forall|a: int| 0 <= a < i implies lex_lt(
                (#[trigger] s[a]).file_id@,
                s[i as int].file_id@,
            ) by {
                if a < i - 1 {
                    crate::ids::lemma_lex_transitive(
                        s[a].file_id@,
                        s[i - 1].file_id@,
                        s[i as int].file_id@,
                    );
                }
            }
        }
        let ghost before = out@;
        let message = match manifest_m(m) {
            Ok(v) => v,
            Err(e) => {
                assert(!manifest_encodable(s[i as int]));
                return Err(e);
            },
        };
        match push_variable(out, message.as_slice()) {
            Ok(()) => {},
            Err(e) => {
                assert(!manifest_encodable(s[i as int]));
                return Err(e);
            },
        }
        match push_variable(out, m.signature.as_slice()) {
            Ok(()) => {},
            Err(e) => {
                assert(!manifest_encodable(s[i as int]));
                return Err(e);
            },
        }
        assert(out@ =~= before + manifest_record(*m));
        i = i + 1;
    }
    assert(s.take(s.len() as int) =~= s);
    assert(out@ =~= old(out)@ + section(s, manifest_fn()));
    Ok(())
}

fn push_log(out: &mut Vec<u8>, log: &Vec<ControlRecord>) -> (r: Result<()>)
    ensures
        match r {
            Ok(()) => final(out)@ == old(out)@ + section(log@, log_fn()) && log_ok(log@),
            Err(e) => e is InvalidInput && !log_ok(log@),
        },
{
    let ghost s = log@;
    push_length(out, log.len())?;
    let ghost head = out@;
    let mut i: usize = 0;
    assert(s.take(0) =~= Seq::<ControlRecord>::empty());
    while i < log.len()
        invariant
            i <= s.len(),
            s == log@,
            fits_u32(s.len() as int),
            out@ == head + flat(s.take(i as int), log_fn()),
            forall|a: int| 0 <= a < i ==> record_fits(#[trigger] s[a]),
            forall|a: int, b: int| 0 <= a < b < i ==> (#[trigger] s[a]).id < (#[trigger] s[b]).id,
        decreases s.len() - i,
    {
        let record = &log[i];
        if i > 0 && log[i - 1].id >= record.id {
            return Err(Error::InvalidInput("instruction log is not strictly ordered"));
        }
        proof {
            lemma_section_step(s, i as int, log_fn());
        }
        let encoded = match encode_control_record(record) {
            Ok(v) => v,
            Err(e) => {
                assert(!record_fits(s[i as int]));
                return Err(e);
            },
        };
        match push_variable(out, encoded.as_slice()) {
            Ok(()) => {},
            Err(e) => {
                assert(!record_fits(s[i as int]));
                return Err(e);
            },
        }
        i = i + 1;
    }
    assert(s.take(s.len() as int) =~= s);
    assert(out@ =~= old(out)@ + section(s, log_fn()));
    Ok(())
}

fn push_queue(out: &mut Vec<u8>, queue: &Vec<QueueContent>) -> (r: Result<()>)
    ensures
        match r {
            Ok(()) => final(out)@ == old(out)@ + section(queue@, content_fn()) && queue_ok(queue@),
            Err(e) => e is InvalidInput && !queue_ok(queue@),
        },
{
    let ghost s = queue@;
    push_length(out, queue.len())?;
    let ghost head = out@;
    let mut i: usize = 0;
    assert(s.take(0) =~= Seq::<QueueContent>::empty());
    while i < queue.len()
        invariant
            i <= s.len(),
            s == queue@,
            fits_u32(s.len() as int),
            out@ == head + flat(s.take(i as int), content_fn()),
            forall|a: int| 0 <= a < i ==> content_encodable(#[trigger] s[a]),
        decreases s.len() - i,
    {
        proof {
            lemma_section_step(s, i as int, content_fn());
        }
        let ghost before = out@;
        match &queue[i] {
            QueueContent::Control(record) => {
                out.push(0);
                let encoded = match encode_control_record(record) {
                    Ok(v) => v,
                    Err(e) => {
                        assert(!content_encodable(s[i as int]));
                        return Err(e);
                    },
                };
                match push_variable(out, encoded.as_slice()) {
                    Ok(()) => {},
                    Err(e) => {
                        assert(!content_encodable(s[i as int]));
                        return Err(e);
                    },
                }
            },
            QueueContent::Chunk { file_id, index, chunk_id } => {
                out.push(1);
                push_array32(out, &file_id.0);
                push_u64(out, *index);
                push_array32(out, &chunk_id.0);
            },
        }
        assert(out@ =~= before + content_record(s[i as int]));
        i = i + 1;
    }
    assert(s.take(s.len() as int) =~= s);
    assert(out@ =~= old(out)@ + section(s, content_fn()));
    Ok(())
}

fn push_mailboxes(out: &mut Vec<u8>, mailboxes: &Vec<(PeerId, Vec<QueueContent>)>) -> (r: Result<()>)
    ensures
        match r {
            Ok(()) => final(out)@ == old(out)@ + section(mailboxes@, mailbox_fn()) && mailboxes_ok(
                mailboxes@,
            ),
            Err(e) => e is InvalidInput && !mailboxes_ok(mailboxes@),
        },
{
    let ghost s = mailboxes@;
    push_length(out, mailboxes.len())?;
    let ghost head = out@;
    let mut i: usize = 0;
    assert(s.take(0) =~= Seq::<(PeerId, Vec<QueueContent>)>::empty());
    while i < mailboxes.len()
        invariant
            i <= s.len(),
            s == mailboxes@,
            fits_u32(s.len() as int),
            out@ == head + flat(s.take(i as int), mailbox_fn()),
            forall|a: int| 0 <= a < i ==> queue_ok((#[trigger] s[a]).1@),
            forall|a: int, b: int| 0 <= a < b < i ==> lex_lt((#[trigger] s[a]).0@, (#[trigger] s[b]).0@),
        decreases s.len() - i,
    {
        if i > 0 && !bytes32_lt(&mailboxes[i - 1].0.0, &mailboxes[i].0.0) {
            return Err(Error::InvalidInput("replica mailboxes are not canonical"));
        }
        proof {
            lemma_section_step(s, i as int, mailbox_fn());
            assert forall|a: int| 0 <= a < i implies lex_lt((#[trigger] s[a]).0@, s[i as int].0@) by {
                if a < i - 1 {
                    crate::ids::lemma_lex_transitive(s[a].0@, s[i - 1].0@, s[i as int].0@);
                }
            }
        }
        let ghost before = out@;
        push_array32(out, &mailboxes[i].0.0);
        match push_queue(out, &mailboxes[i].1) {
            Ok(()) => {},
            Err(e) => {
                assert(!queue_ok(s[i as int].1@));
                return Err(e);
            },
        }
        assert(out@ =~= before + mailbox_record(s[i as int]));
        i = i + 1;
    }
    assert(s.take(s.len() as int) =~= s);
    assert(out@ =~= old(out)@ + section(s, mailbox_fn()));
    Ok(())
}

fn push_acks(out: &mut Vec<u8>, acks: &Vec<(PeerId, u64)>) -> (r: Result<()>)
    ensures
        match r {
            Ok(()) => final(out)@ == old(out)@ + section(acks@, ack_fn()) && acks_ok(acks@),
            Err(e) => e is InvalidInput && !acks_ok(acks@),
        },
{
    let ghost s = acks@;
    push_length(out, acks.len())?;
    let ghost head = out@;
    let mut i: usize = 0;
    assert(s.take(0) =~= Seq::<(PeerId, u64)>::empty());
    while i < acks.len()
        invariant
            i <= s.len(),
            s == acks@,
            fits_u32(s.len() as int),
            out@ == head + flat(s.take(i as int), ack_fn()),
            forall|a: int, b: int| 0 <= a < b < i ==> lex_lt((#[trigger] s[a]).0@, (#[trigger] s[b]).0@),
        decreases s.len() - i,
    {
        if i > 0 && !bytes32_lt(&acks[i - 1].0.0, &acks[i].0.0) {
            return Err(Error::InvalidInput("replica acknowledgements are not canonical"));
        }
        proof {
            lemma_section_step(s, i as int, ack_fn());
            assert forall|a: int| 0 <= a < i implies lex_lt((#[trigger] s[a]).0@, s[i as int].0@) by {
                if a < i - 1 {
                    crate::ids::lemma_lex_transitive(s[a].0@, s[i - 1].0@, s[i as int].0@);
                }
            }
        }
        let ghost before = out@;
        push_array32(out, &acks[i].0.0);
        push_u64(out, acks[i].1);
        assert(out@ =~= before + (s[i as int].0@ + be64(s[i as int].1)));
        i = i + 1;
    }
    assert(s.take(s.len() as int) =~= s);
    assert(out@ =~= old(out)@ + section(s, ack_fn()));
    Ok(())
}

fn push_chunk_index(out: &mut Vec<u8>, chunks: &Vec<(ChunkId, FileId, u64)>) -> (r: Result<()>)
    ensures
        match r {
            Ok(()) => final(out)@ == old(out)@ + section(chunks@, chunk_fn()) && chunks_ok(chunks@),
            Err(e) => e is InvalidInput && !chunks_ok(chunks@),
        },
{
    let ghost s = chunks@;
    push_length(out, chunks.len())?;
    let ghost head = out@;
    let mut i: usize = 0;
    assert(s.take(0) =~= Seq::<(ChunkId, FileId, u64)>::empty());
    while i < chunks.len()
        invariant
            i <= s.len(),
            s == chunks@,
            fits_u32(s.len() as int),
            out@ == head + flat(s.take(i as int), chunk_fn()),
            forall|a: int, b: int| 0 <= a < b < i ==> lex_lt((#[trigger] s[a]).0@, (#[trigger] s[b]).0@),
        decreases s.len() - i,
    {
        if i > 0 && !bytes32_lt(&chunks[i - 1].0.0, &chunks[i].0.0) {
            return Err(Error::InvalidInput("replica chunk index is not canonical"));
        }
        proof {
            lemma_section_step(s, i as int, chunk_fn());
            assert forall|a: int| 0 <= a < i implies lex_lt((#[trigger] s[a]).0@, s[i as int].0@) by {
                if a < i - 1 {
                    crate::ids::lemma_lex_transitive(s[a].0@, s[i - 1].0@, s[i as int].0@);
                }
            }
        }
        let ghost before = out@;
        push_array32(out, &chunks[i].0.0);
        push_array32(out, &chunks[i].1.0);
        push_u64(out, chunks[i].2);
        assert(out@ =~= before + (s[i as int].0@ + (s[i as int].1@ + be64(s[i as int].2))));
        i = i + 1;
    }
    assert(s.take(s.len() as int) =~= s);
    assert(out@ =~= old(out)@ + section(s, chunk_fn()));
    Ok(())
}

fn copy_dirents(ds: &Vec<Dirent>) -> (r: Vec<Dirent>)
    ensures
        dirent_views(r@) == dirent_views(ds@),
{
    let mut out: Vec<Dirent> = Vec::new();
    let mut i: usize = 0;
    while i < ds.len()
        invariant
            i <= ds@.len(),
            out@.len() == i,
            forall|j: int| 0 <= j < i ==> (#[trigger] out@[j])@ == ds@[j]@,
        decreases ds@.len() - i,
    {
        out.push(ds[i].duplicate());
        i = i + 1;
    }
    assert(dirent_views(out@) =~= dirent_views(ds@));
    out
}

proof fn lemma_dirent_section_len(ds: Seq<DirentV>)
    requires
        dirent_shapes(ds),
    ensures
        flat(ds, dirent_fn()).len() >= 69 * ds.len(),
{
    assert forall|i: int| 0 <= i < ds.len() implies (dirent_fn())(#[trigger] ds[i]).len() >= 69 by {
        let d = ds[i];
        assert((dirent_fn())(d) == dirent_record(d));
    }
    crate::wire::lemma_flat_len(ds, dirent_fn(), 69);
}

#[verifier::rlimit(40)]
fn encode_body(metadata: &ReplicaMetadata, dirents: &Vec<Dirent>) -> (r: Result<Vec<u8>>)
    requires
        forall|i: int|
            0 <= i < dirents@.len() ==> utf8_bytes((#[trigger] dirents@[i]).name@).len() <= 255,
    ensures
        match r {
            Ok(v) => v@ == body_bytes(metadata.expected_root@, dirent_views(dirents@), *metadata)
                && collections_ok(*metadata) && fits_u32(dirents@.len() as int),
            Err(e) => e is InvalidInput && (!fits_u32(dirents@.len() as int) || !collections_ok(
                *metadata,
            )),
        },
{
    let ghost root = metadata.expected_root@;
    let ghost ds = dirent_views(dirents@);
    let ghost m = *metadata;
    let mut body: Vec<u8> = Vec::new();
    push_array32(&mut body, &metadata.expected_root.0);
    match push_dirents(&mut body, dirents) {
        Ok(()) => {},
        Err(e) => {
            return Err(e);
        },
    }
    let ghost b1 = body@;
    push_members(&mut body, &metadata.members)?;
    let ghost b2 = body@;
    push_manifests(&mut body, &metadata.manifests)?;
    let ghost b3 = body@;
    push_log(&mut body, &metadata.log)?;
    let ghost b4 = body@;
    push_u64(&mut body, metadata.next_control);
    let ghost b5 = body@;
    push_mailboxes(&mut body, &metadata.mailboxes)?;
    let ghost b6 = body@;
    push_acks(&mut body, &metadata.acked_through)?;
    let ghost b7 = body@;
    push_chunk_index(&mut body, &metadata.chunk_index)?;
    proof {
        let t7 = section(m.chunk_index@, chunk_fn());
        let t6 = section(m.acked_through@, ack_fn()) + t7;
        let t5 = section(m.mailboxes@, mailbox_fn()) + t6;
        let t4 = be64(m.next_control) + t5;
        let t3 = section(m.log@, log_fn()) + t4;
        let t2 = section(m.manifests@, manifest_fn()) + t3;
        let t1 = section(m.members@, peer_fn()) + t2;
        assert(body@ =~= b7 + t7);
        assert(body@ =~= b6 + t6);
        assert(body@ =~= b5 + t5);
        assert(body@ =~= b4 + t4);
        assert(body@ =~= b3 + t3);
        assert(body@ =~= b2 + t2);
        assert(body@ =~= b1 + t1);
        assert(body@ =~= body_bytes(root, ds, m));
    }
    Ok(body)
}

#[verifier::rlimit(40)]
/// Encodes the authenticated local metadata snapshot. The digest covers the
/// complete header and body so that decoding rejects damage before reading
/// any body field. The entries are written as the tree they stand for.
pub fn encode_replica(metadata: &ReplicaMetadata, generation: u64) -> (r: Result<Vec<u8>>)
    ensures
        match r {
            Ok(v) => {
                let ds = canonical_dirents(metadata.expected_root@, dirent_views(metadata.dirents@));
                &&& stored_dirents_ok(metadata.expected_root@, dirent_views(metadata.dirents@))
                &&& collections_ok(*metadata)
                &&& v@ == replica_frame(generation, body_bytes(metadata.expected_root@, ds, *metadata))
                &&& v@.len() <= MAX_REPLICA_BYTES
                &&& sha256_digest(replica_head(generation, body_bytes(metadata.expected_root@, ds, *metadata))).len() == 32
                &&& replica_header_ok(v@)
                &&& digest_matches(v@)
                &&& (dirent_views(metadata.dirents@).len() > 0 ==> valid_replica(
                    metadata.expected_root@,
                    generation,
                    dirent_views(metadata.dirents@),
                    *metadata,
                ))
            },
            Err(e) => e is InvalidInput && !(stored_dirents_ok(
                metadata.expected_root@,
                dirent_views(metadata.dirents@),
            ) && collections_ok(*metadata) && replica_frame(
                generation,
                body_bytes(
                    metadata.expected_root@,
                    canonical_dirents(metadata.expected_root@, dirent_views(metadata.dirents@)),
                    *metadata,
                ),
            ).len() <= MAX_REPLICA_BYTES),
        },
{
    let ghost root = metadata.expected_root@;
    let ghost stored = dirent_views(metadata.dirents@);
    let ghost ds = canonical_dirents(root, stored);
    let ghost m = *metadata;
    proof {
        assert forall|i: int| 0 <= i < stored.len() implies (#[trigger] stored[i]).parent.len() == 32
            && stored[i].child.len() == 32 by {
            assert(stored[i] == metadata.dirents@[i]@);
        }
    }
    let tree = DirectoryTree::from_dirents(metadata.expected_root, copy_dirents(&metadata.dirents))?;
    let dirents = tree.dirents();
    assert(dirent_views(dirents@) == ds);
    proof {
        assert forall|i: int| 0 <= i < dirents@.len() implies utf8_bytes(
            (#[trigger] dirents@[i]).name@,
        ).len() <= 255 by {
            assert(ds[i] == dirents@[i]@);
            if ds[i].name.len() == 0 {
                assert(ds[i].name =~= Seq::<char>::empty());
                assert(utf8_bytes(Seq::<char>::empty()) =~= Seq::<u8>::empty());
            }
        }
    }
    let body = match encode_body(metadata, &dirents) {
        Ok(b) => b,
        Err(e) => {
            return Err(e);
        },
    };
    if body.len() > MAX_REPLICA_BYTES {
        return Err(Error::InvalidInput("replica metadata is too large"));
    }
    let magic: [u8; 18] = [113, 102, 115, 47, 108, 111, 99, 97, 108, 47, 114, 101, 112, 108, 105, 99, 97, 47];
    assert(magic@ =~= replica_magic());
    let mut out: Vec<u8> = Vec::new();
    push_bytes(&mut out, &magic);
    out.push(LOCAL_FORMAT_VERSION);
    push_u64(&mut out, generation);
    push_length(&mut out, body.len())?;
    push_bytes(&mut out, body.as_slice());
    assert(out@ =~= replica_head(generation, body@));
    let digest = sha256(out.as_slice());
    push_bytes(&mut out, &digest);
    assert(out@ =~= replica_frame(generation, body@));
    if out.len() > MAX_REPLICA_BYTES {
        return Err(Error::InvalidInput("replica metadata is too large"));
    }
    proof {
        assert(digest@.len() == 32);
        assert(body@.len() >= 32);
        lemma_frame_layout(generation, body@);
    }
    Ok(out)
}

// ---------------------------------------------------------------------------
// Decoding: single records
// ---------------------------------------------------------------------------

/// A section's count passes the reader's plausibility check.
pub(crate) proof fn lemma_take_section<T>(v: Seq<T>, f: spec_fn(T) -> Seq<u8>, m: int, t: Seq<u8>)
    requires
        m > 0,
        fits_u32(v.len() as int),
        forall|i: int| 0 <= i < v.len() ==> f(#[trigger] v[i]).len() >= m,
    ensures
        take_count(section(v, f) + t, m) == Some((v.len() as u32, flat(v, f) + t)),
        section(v, f) + t == be32(v.len() as u32) + (flat(v, f) + t),
{
    lemma_flat_len(v, f, m);
    assert(section(v, f) + t =~= be32(v.len() as u32) + (flat(v, f) + t));
    lemma_take_u32(v.len() as u32, flat(v, f) + t);
    let l = (flat(v, f) + t).len() as int;
    let n = v.len() as int;
    assert(n <= l / m) by (nonlinear_arith)
        requires
            m * n <= l,
            m > 0,
    ;
}

/// Splits off the next record of a section.
pub(crate) proof fn lemma_next_record<T>(v: Seq<T>, i: int, f: spec_fn(T) -> Seq<u8>, t: Seq<u8>)
    requires
        0 <= i < v.len(),
    ensures
        flat(v.skip(i), f) + t == f(v[i]) + (flat(v.skip(i + 1), f) + t),
{
    lemma_flat_skip(v, i, f);
    assert(flat(v.skip(i), f) + t =~= f(v[i]) + (flat(v.skip(i + 1), f) + t));
}

#[verifier::rlimit(40)]
fn read_dirent(reader: &mut Reader, Ghost(expected): Ghost<Option<(DirentV, Seq<u8>)>>) -> (r: Result<Dirent>)
    requires
        old(reader).wf(),
        expected matches Some((d, t)) ==> old(reader).rest() == dirent_record(d) + t
            && d.parent.len() == 32 && d.child.len() == 32 && fits_u32(
            utf8_bytes(d.name).len() as int,
        ),
    ensures
        final(reader).wf(),
        match r {
            Ok(e) => old(reader).rest() == dirent_record(e@) + final(reader).rest() && (
            expected matches Some((d, t)) ==> final(reader).rest() == t && e@ == d),
            Err(e) => e is InvalidInput && expected is None,
        },
{
    proof {
        if let Some((d, t)) = expected {
            let flag = seq![if d.is_dir { 1u8 } else { 0u8 }];
            lemma_take_bytes(d.parent, var(utf8_bytes(d.name)) + (d.child + flag + t));
            lemma_take_var(utf8_bytes(d.name), d.child + flag + t);
            lemma_take_bytes(d.child, flag + t);
            assert(dirent_record(d) + t =~= d.parent + (var(utf8_bytes(d.name)) + (d.child + flag + t)));
            assert(d.child + flag + t =~= d.child + (flag + t));
        }
    }
    let parent = FileId(reader.array32()?);
    let name_bytes = reader.variable()?;
    let name = match decode_utf8_name(name_bytes) {
        Ok(n) => n,
        Err(e) => {
            proof {
                if let Some((d, t)) = expected {
                    assert(utf8_bytes(d.name) == name_bytes@);
                }
            }
            return Err(e);
        },
    };
    let child = FileId(reader.array32()?);
    let ghost before_flag = reader.rest();
    let flag = reader.byte()?;
    let is_dir = if flag == 0 {
        false
    } else if flag == 1 {
        true
    } else {
        proof {
            if let Some((d, t)) = expected {
                assert(before_flag[0] == (if d.is_dir { 1u8 } else { 0u8 }));
            }
        }
        return Err(Error::InvalidInput("invalid dirent directory flag"));
    };
    let e = Dirent { parent, name, child, is_dir };
    proof {
        assert(old(reader).rest() =~= dirent_record(e@) + reader.rest());
        if let Some((d, t)) = expected {
            crate::store::tree::lemma_utf8_injective(e.name@, d.name);
            assert(before_flag[0] == (if d.is_dir { 1u8 } else { 0u8 }));
            assert(reader.rest() =~= t);
        }
    }
    Ok(e)
}

fn read_manifest(reader: &mut Reader, Ghost(expected): Ghost<Option<(Manifest, Seq<u8>)>>) -> (r: Result<Manifest>)
    requires
        old(reader).wf(),
        expected matches Some((m, t)) ==> old(reader).rest() == manifest_record(m) + t
            && manifest_encodable(m),
    ensures
        final(reader).wf(),
        match r {
            Ok(m2) => old(reader).rest() == manifest_record(m2) + final(reader).rest()
                && manifest_encodable(m2) && (expected matches Some((m, t)) ==> final(reader).rest()
                == t && m2.file_id@ == m.file_id@),
            Err(e) => e is InvalidInput && expected is None,
        },
{
    proof {
        if let Some((m, t)) = expected {
            lemma_take_var(manifest_m_bytes(m), var(m.signature@) + t);
            lemma_take_var(m.signature@, t);
            assert(manifest_record(m) + t =~= var(manifest_m_bytes(m)) + (var(m.signature@) + t));
        }
    }
    let message = reader.variable()?;
    let signature = reader.variable()?;
    let m2 = decode_manifest_message(message, signature)?;
    proof {
        assert(old(reader).rest() =~= manifest_record(m2) + reader.rest());
        if let Some((m, t)) = expected {
            assert(manifest_m_bytes(m2).take(32) =~= m2.file_id@);
            assert(manifest_m_bytes(m).take(32) =~= m.file_id@);
        }
    }
    Ok(m2)
}

fn read_log_record(reader: &mut Reader, Ghost(expected): Ghost<Option<(ControlRecord, Seq<u8>)>>) -> (r: Result<ControlRecord>)
    requires
        old(reader).wf(),
        expected matches Some((x, t)) ==> old(reader).rest() == var(record_bytes(x)) + t
            && record_fits(x),
    ensures
        final(reader).wf(),
        match r {
            Ok(y) => old(reader).rest() == var(record_bytes(y)) + final(reader).rest()
                && record_fits(y) && (expected matches Some((x, t)) ==> final(reader).rest() == t
                && y.id == x.id),
            Err(e) => e is InvalidInput && expected is None,
        },
{
    proof {
        if let Some((x, t)) = expected {
            lemma_take_var(record_bytes(x), t);
        }
    }
    let bytes = reader.variable()?;
    let y = decode_control_record(bytes)?;
    proof {
        if let Some((x, t)) = expected {
            lemma_be64(x.id);
            lemma_be64(y.id);
            assert(record_bytes(x).take(8) =~= be64(x.id));
            assert(record_bytes(y).take(8) =~= be64(y.id));
        }
    }
    Ok(y)
}

#[verifier::rlimit(40)]
fn read_content(reader: &mut Reader, Ghost(expected): Ghost<Option<(QueueContent, Seq<u8>)>>) -> (r: Result<QueueContent>)
    requires
        old(reader).wf(),
        expected matches Some((q, t)) ==> old(reader).rest() == content_record(q) + t
            && content_encodable(q),
    ensures
        final(reader).wf(),
        match r {
            Ok(q2) => old(reader).rest() == content_record(q2) + final(reader).rest()
                && content_encodable(q2) && (expected matches Some((q, t)) ==> final(reader).rest()
                == t),
            Err(e) => e is InvalidInput && expected is None,
        },
{
    let ghost start = reader.rest();
    let kind = reader.byte()?;
    if kind == 0 {
        let ghost inner: Option<(ControlRecord, Seq<u8>)> = match expected {
            Some((QueueContent::Control(x), t)) => Some((x, t)),
            _ => None,
        };
        proof {
            if let Some((q, t)) = expected {
                match q {
                    QueueContent::Control(x) => {
                        assert(start =~= seq![0u8] + (var(record_bytes(x)) + t));
                        assert(reader.rest() =~= start.skip(1));
                        assert(reader.rest() =~= var(record_bytes(x)) + t);
                    },
                    QueueContent::Chunk { .. } => {
                        assert(start[0] == 1u8);
                    },
                }
            }
        }
        let record = read_log_record(reader, Ghost(inner))?;
        let q2 = QueueContent::Control(record);
        assert(start =~= content_record(q2) + reader.rest());
        Ok(q2)
    } else if kind == 1 {
        proof {
            if let Some((q, t)) = expected {
                match q {
                    QueueContent::Chunk { file_id, index, chunk_id } => {
                        assert(start =~= seq![1u8] + (file_id@ + (be64(index) + (chunk_id@ + t))));
                        lemma_take_bytes(file_id@, be64(index) + (chunk_id@ + t));
                        lemma_take_u64(index, chunk_id@ + t);
                        lemma_take_bytes(chunk_id@, t);
                    },
                    QueueContent::Control(_) => {
                        assert(start[0] == 0u8);
                    },
                }
            }
        }
        let file_id = FileId(reader.array32()?);
        let index = reader.u64()?;
        let chunk_id = ChunkId(reader.array32()?);
        let q2 = QueueContent::Chunk { file_id, index, chunk_id };
        assert(start =~= content_record(q2) + reader.rest());
        Ok(q2)
    } else {
        proof {
            if let Some((q, t)) = expected {
                match q {
                    QueueContent::Chunk { .. } => {
                        assert(start[0] == 1u8);
                    },
                    QueueContent::Control(_) => {
                        assert(start[0] == 0u8);
                    },
                }
            }
        }
        Err(Error::InvalidInput("unknown durable mailbox content kind"))
    }
}


fn read_peer(reader: &mut Reader, Ghost(expected): Ghost<Option<(PeerId, Seq<u8>)>>) -> (r: Result<PeerId>)
    requires
        old(reader).wf(),
        expected matches Some((p, t)) ==> old(reader).rest() == p@ + t,
    ensures
        final(reader).wf(),
        match r {
            Ok(p2) => old(reader).rest() == p2@ + final(reader).rest() && (expected matches Some((p, t))
                ==> final(reader).rest() == t && p2@ == p@),
            Err(e) => e is InvalidInput && expected is None,
        },
{
    proof {
        if let Some((p, t)) = expected {
            lemma_take_bytes(p@, t);
        }
    }
    Ok(PeerId(reader.array32()?))
}

fn read_ack(reader: &mut Reader, Ghost(expected): Ghost<Option<((PeerId, u64), Seq<u8>)>>) -> (r: Result<(PeerId, u64)>)
    requires
        old(reader).wf(),
        expected matches Some((a, t)) ==> old(reader).rest() == (ack_fn())(a) + t,
    ensures
        final(reader).wf(),
        match r {
            Ok(a2) => old(reader).rest() == (ack_fn())(a2) + final(reader).rest() && (
            expected matches Some((a, t)) ==> final(reader).rest() == t && a2.0@ == a.0@),
            Err(e) => e is InvalidInput && expected is None,
        },
{
    proof {
        if let Some((a, t)) = expected {
            assert((ack_fn())(a) + t =~= a.0@ + (be64(a.1) + t));
            lemma_take_bytes(a.0@, be64(a.1) + t);
            lemma_take_u64(a.1, t);
        }
    }
    let ghost start = reader.rest();
    let peer = PeerId(reader.array32()?);
    let n = reader.u64()?;
    assert(start =~= (ack_fn())((peer, n)) + reader.rest());
    Ok((peer, n))
}

fn read_chunk_entry(reader: &mut Reader, Ghost(expected): Ghost<Option<((ChunkId, FileId, u64), Seq<u8>)>>) -> (r: Result<(ChunkId, FileId, u64)>)
    requires
        old(reader).wf(),
        expected matches Some((c, t)) ==> old(reader).rest() == (chunk_fn())(c) + t,
    ensures
        final(reader).wf(),
        match r {
            Ok(c2) => old(reader).rest() == (chunk_fn())(c2) + final(reader).rest() && (
            expected matches Some((c, t)) ==> final(reader).rest() == t && c2.0@ == c.0@),
            Err(e) => e is InvalidInput && expected is None,
        },
{
    proof {
        if let Some((c, t)) = expected {
            assert((chunk_fn())(c) + t =~= c.0@ + (c.1@ + (be64(c.2) + t)));
            lemma_take_bytes(c.0@, c.1@ + (be64(c.2) + t));
            lemma_take_bytes(c.1@, be64(c.2) + t);
            lemma_take_u64(c.2, t);
        }
    }
    let ghost start = reader.rest();
    let chunk_id = ChunkId(reader.array32()?);
    let file_id = FileId(reader.array32()?);
    let index = reader.u64()?;
    assert(start =~= (chunk_fn())((chunk_id, file_id, index)) + reader.rest());
    Ok((chunk_id, file_id, index))
}

fn read_queue(reader: &mut Reader, Ghost(expected): Ghost<Option<(Seq<QueueContent>, Seq<u8>)>>) -> (r: Result<Vec<QueueContent>>)
    requires
        old(reader).wf(),
        expected matches Some((v, t)) ==> queue_ok(v) && old(reader).rest() == section(v, content_fn()) + t,
    ensures
        final(reader).wf(),
        match r {
            Ok(xs) => old(reader).rest() == section(xs@, content_fn()) + final(reader).rest() && queue_ok(xs@)
                && (expected matches Some((v, t)) ==> final(reader).rest() == t),
            Err(e) => e is InvalidInput && expected is None,
        },
{
    proof {
        if let Some((v, t)) = expected {
            assert forall|k: int| 0 <= k < v.len() implies (content_fn())(#[trigger] v[k]).len() >= 1 by {}
            lemma_take_section(v, content_fn(), 1, t);
        }
    }
    let count = reader.count(1)?;
    let ghost start = reader.rest();
    let mut xs: Vec<QueueContent> = Vec::new();
    let mut i: usize = 0;
    proof {
        if let Some((v, t)) = expected {
            assert(v.skip(0) =~= v);
        }
        assert(flat(xs@, content_fn()) + start =~= start);
    }
    while i < count
        invariant
            reader.wf(),
            i <= count,
            count <= u32::MAX,
            xs@.len() == i,
            start == flat(xs@, content_fn()) + reader.rest(),
            old(reader).rest() == be32(count as u32) + start,
            forall|a: int| 0 <= a < i ==> content_encodable(#[trigger] xs@[a]),
            expected matches Some((v, t)) ==> v.len() == count && queue_ok(v) && reader.rest() == flat(v.skip(i as int), content_fn()) + t,
        decreases count - i,
    {
        let ghost inner: Option<(QueueContent, Seq<u8>)> = match expected {
            Some((v, t)) => Some((v[i as int], flat(v.skip(i + 1), content_fn()) + t)),
            None => None,
        };
        proof {
            if let Some((v, t)) = expected {
                lemma_next_record(v, i as int, content_fn(), t);
            }
        }
        let x = read_content(reader, Ghost(inner))?;
        proof {
            lemma_flat_push(xs@, x, content_fn());
        }
        xs.push(x);
        i = i + 1;
    }
    proof {
        if let Some((v, t)) = expected {
            assert(v.skip(count as int) =~= Seq::<QueueContent>::empty());
        }
    }
    Ok(xs)
}

fn read_mailbox(reader: &mut Reader, Ghost(expected): Ghost<Option<((PeerId, Vec<QueueContent>), Seq<u8>)>>) -> (r: Result<(PeerId, Vec<QueueContent>)>)
    requires
        old(reader).wf(),
        expected matches Some((mb, t)) ==> old(reader).rest() == mailbox_record(mb) + t && queue_ok(mb.1@),
    ensures
        final(reader).wf(),
        match r {
            Ok(mb2) => old(reader).rest() == mailbox_record(mb2) + final(reader).rest() && queue_ok(mb2.1@)
                && (expected matches Some((mb, t)) ==> final(reader).rest() == t && mb2.0@ == mb.0@),
            Err(e) => e is InvalidInput && expected is None,
        },
{
    proof {
        if let Some((mb, t)) = expected {
            assert(mailbox_record(mb) + t =~= mb.0@ + (section(mb.1@, content_fn()) + t));
            lemma_take_bytes(mb.0@, section(mb.1@, content_fn()) + t);
        }
    }
    let ghost start = reader.rest();
    let peer = PeerId(reader.array32()?);
    let ghost inner: Option<(Seq<QueueContent>, Seq<u8>)> = match expected {
        Some((mb, t)) => Some((mb.1@, t)),
        None => None,
    };
    let queue = read_queue(reader, Ghost(inner))?;
    let mb2 = (peer, queue);
    assert(start =~= mailbox_record(mb2) + reader.rest());
    Ok(mb2)
}

// ---------------------------------------------------------------------------
// Decoding: sections
// ---------------------------------------------------------------------------

fn read_members(reader: &mut Reader, Ghost(expected): Ghost<Option<(Seq<PeerId>, Seq<u8>)>>) -> (r: Result<Vec<PeerId>>)
    requires
        old(reader).wf(),
        expected matches Some((v, t)) ==> (fits_u32(v.len() as int) && ascending_peers(v)) && old(reader).rest() == section(v, peer_fn()) + t,
    ensures
        final(reader).wf(),
        match r {
            Ok(xs) => old(reader).rest() == section(xs@, peer_fn()) + final(reader).rest() && (fits_u32(xs@.len() as int) && ascending_peers(xs@)) && (expected matches Some((v, t)) ==> final(reader).rest() == t),
            Err(e) => e is InvalidInput && expected is None,
        },
{
    proof {
        if let Some((v, t)) = expected {
            assert forall|k: int| 0 <= k < v.len() implies (peer_fn())(#[trigger] v[k]).len() >= 32 by {}
            lemma_take_section(v, peer_fn(), 32, t);
        }
    }
    let count = reader.count(32)?;
    let ghost start = reader.rest();
    let mut xs: Vec<PeerId> = Vec::new();
    let mut i: usize = 0;
    proof {
        if let Some((v, t)) = expected {
            assert(v.skip(0) =~= v);
        }
        assert(flat(xs@, peer_fn()) + start =~= start);
    }
    while i < count
        invariant
            reader.wf(),
            i <= count,
            count <= u32::MAX,
            xs@.len() == i,
            start == flat(xs@, peer_fn()) + reader.rest(),
            old(reader).rest() == be32(count as u32) + start,
            forall|a: int, b: int| 0 <= a < b < i ==> lex_lt((#[trigger] xs@[a])@, (#[trigger] xs@[b])@),
            expected matches Some((v, t)) ==> v.len() == count && (fits_u32(v.len() as int) && ascending_peers(v)) && reader.rest() == flat(v.skip(i as int), peer_fn()) + t && forall|a: int| 0 <= a < i ==> (#[trigger] xs@[a])@ == v[a]@,
        decreases count - i,
    {
        let ghost inner: Option<(PeerId, Seq<u8>)> = match expected {
            Some((v, t)) => Some((v[i as int], flat(v.skip(i + 1), peer_fn()) + t)),
            None => None,
        };
        proof {
            if let Some((v, t)) = expected {
                lemma_next_record(v, i as int, peer_fn(), t);
            }
        }
        let x = read_peer(reader, Ghost(inner))?;
        if i > 0 && !bytes32_lt(&xs[i - 1].0, &x.0) {
            return Err(Error::InvalidInput("replica members are not canonical"));
        }
        proof {
            lemma_flat_push(xs@, x, peer_fn());
            assert forall|a: int| 0 <= a < i implies lex_lt((#[trigger] xs@[a])@, x@) by {
                if a < i - 1 {
                    crate::ids::lemma_lex_transitive(xs@[a]@, xs@[i - 1]@, x@);
                }
            }
        }
        xs.push(x);
        i = i + 1;
    }
    proof {
        if let Some((v, t)) = expected {
            assert(v.skip(count as int) =~= Seq::<PeerId>::empty());
        }
    }
    Ok(xs)
}

fn read_manifests(reader: &mut Reader, Ghost(expected): Ghost<Option<(Seq<Manifest>, Seq<u8>)>>) -> (r: Result<Vec<Manifest>>)
    requires
        old(reader).wf(),
        expected matches Some((v, t)) ==> manifests_ok(v) && old(reader).rest() == section(v, manifest_fn()) + t,
    ensures
        final(reader).wf(),
        match r {
            Ok(xs) => old(reader).rest() == section(xs@, manifest_fn()) + final(reader).rest() && manifests_ok(xs@) && (expected matches Some((v, t)) ==> final(reader).rest() == t),
            Err(e) => e is InvalidInput && expected is None,
        },
{
    proof {
        if let Some((v, t)) = expected {
            assert forall|k: int| 0 <= k < v.len() implies (manifest_fn())(#[trigger] v[k]).len() >= 8 by {}
            lemma_take_section(v, manifest_fn(), 8, t);
        }
    }
    let count = reader.count(8)?;
    let ghost start = reader.rest();
    let mut xs: Vec<Manifest> = Vec::new();
    let mut i: usize = 0;
    proof {
        if let Some((v, t)) = expected {
            assert(v.skip(0) =~= v);
        }
        assert(flat(xs@, manifest_fn()) + start =~= start);
    }
    while i < count
        invariant
            reader.wf(),
            i <= count,
            count <= u32::MAX,
            xs@.len() == i,
            start == flat(xs@, manifest_fn()) + reader.rest(),
            old(reader).rest() == be32(count as u32) + start,
            forall|a: int| 0 <= a < i ==> manifest_encodable((#[trigger] xs@[a])),
            forall|a: int, b: int| 0 <= a < b < i ==> lex_lt((#[trigger] xs@[a]).file_id@, (#[trigger] xs@[b]).file_id@),
            expected matches Some((v, t)) ==> v.len() == count && manifests_ok(v) && reader.rest() == flat(v.skip(i as int), manifest_fn()) + t && forall|a: int| 0 <= a < i ==> (#[trigger] xs@[a]).file_id@ == v[a].file_id@,
        decreases count - i,
    {
        let ghost inner: Option<(Manifest, Seq<u8>)> = match expected {
            Some((v, t)) => Some((v[i as int], flat(v.skip(i + 1), manifest_fn()) + t)),
            None => None,
        };
        proof {
            if let Some((v, t)) = expected {
                lemma_next_record(v, i as int, manifest_fn(), t);
            }
        }
        let x = read_manifest(reader, Ghost(inner))?;
        if i > 0 && !bytes32_lt(&xs[i - 1].file_id.0, &x.file_id.0) {
            return Err(Error::InvalidInput("replica manifests are not canonical"));
        }
        proof {
            lemma_flat_push(xs@, x, manifest_fn());
            assert forall|a: int| 0 <= a < i implies lex_lt((#[trigger] xs@[a]).file_id@, x.file_id@) by {
                if a < i - 1 {
                    crate::ids::lemma_lex_transitive(xs@[a].file_id@, xs@[i - 1].file_id@, x.file_id@);
                }
            }
        }
        xs.push(x);
        i = i + 1;
    }
    proof {
        if let Some((v, t)) = expected {
            assert(v.skip(count as int) =~= Seq::<Manifest>::empty());
        }
    }
    Ok(xs)
}

fn read_mailboxes(reader: &mut Reader, Ghost(expected): Ghost<Option<(Seq<(PeerId, Vec<QueueContent>)>, Seq<u8>)>>) -> (r: Result<Vec<(PeerId, Vec<QueueContent>)>>)
    requires
        old(reader).wf(),
        expected matches Some((v, t)) ==> mailboxes_ok(v) && old(reader).rest() == section(v, mailbox_fn()) + t,
    ensures
        final(reader).wf(),
        match r {
            Ok(xs) => old(reader).rest() == section(xs@, mailbox_fn()) + final(reader).rest() && mailboxes_ok(xs@) && (expected matches Some((v, t)) ==> final(reader).rest() == t),
            Err(e) => e is InvalidInput && expected is None,
        },
{
    proof {
        if let Some((v, t)) = expected {
            assert forall|k: int| 0 <= k < v.len() implies (mailbox_fn())(#[trigger] v[k]).len() >= 36 by {}
            lemma_take_section(v, mailbox_fn(), 36, t);
        }
    }
    let count = reader.count(36)?;
    let ghost start = reader.rest();
    let mut xs: Vec<(PeerId, Vec<QueueContent>)> = Vec::new();
    let mut i: usize = 0;
    proof {
        if let Some((v, t)) = expected {
            assert(v.skip(0) =~= v);
        }
        assert(flat(xs@, mailbox_fn()) + start =~= start);
    }
    while i < count
        invariant
            reader.wf(),
            i <= count,
            count <= u32::MAX,
            xs@.len() == i,
            start == flat(xs@, mailbox_fn()) + reader.rest(),
            old(reader).rest() == be32(count as u32) + start,
            forall|a: int| 0 <= a < i ==> queue_ok((#[trigger] xs@[a]).1@),
            forall|a: int, b: int| 0 <= a < b < i ==> lex_lt((#[trigger] xs@[a]).0@, (#[trigger] xs@[b]).0@),
            expected matches Some((v, t)) ==> v.len() == count && mailboxes_ok(v) && reader.rest() == flat(v.skip(i as int), mailbox_fn()) + t && forall|a: int| 0 <= a < i ==> (#[trigger] xs@[a]).0@ == v[a].0@,
        decreases count - i,
    {
        let ghost inner: Option<((PeerId, Vec<QueueContent>), Seq<u8>)> = match expected {
            Some((v, t)) => Some((v[i as int], flat(v.skip(i + 1), mailbox_fn()) + t)),
            None => None,
        };
        proof {
            if let Some((v, t)) = expected {
                lemma_next_record(v, i as int, mailbox_fn(), t);
            }
        }
        let x = read_mailbox(reader, Ghost(inner))?;
        if i > 0 && !bytes32_lt(&xs[i - 1].0.0, &x.0.0) {
            return Err(Error::InvalidInput("replica mailboxes are not canonical"));
        }
        proof {
            lemma_flat_push(xs@, x, mailbox_fn());
            assert forall|a: int| 0 <= a < i implies lex_lt((#[trigger] xs@[a]).0@, x.0@) by {
                if a < i - 1 {
                    crate::ids::lemma_lex_transitive(xs@[a].0@, xs@[i - 1].0@, x.0@);
                }
            }
        }
        xs.push(x);
        i = i + 1;
    }
    proof {
        if let Some((v, t)) = expected {
            assert(v.skip(count as int) =~= Seq::<(PeerId, Vec<QueueContent>)>::empty());
        }
    }
    Ok(xs)
}

fn read_acks(reader: &mut Reader, Ghost(expected): Ghost<Option<(Seq<(PeerId, u64)>, Seq<u8>)>>) -> (r: Result<Vec<(PeerId, u64)>>)
    requires
        old(reader).wf(),
        expected matches Some((v, t)) ==> acks_ok(v) && old(reader).rest() == section(v, ack_fn()) + t,
    ensures
        final(reader).wf(),
        match r {
            Ok(xs) => old(reader).rest() == section(xs@, ack_fn()) + final(reader).rest() && acks_ok(xs@) && (expected matches Some((v, t)) ==> final(reader).rest() == t),
            Err(e) => e is InvalidInput && expected is None,
        },
{
    proof {
        if let Some((v, t)) = expected {
            assert forall|k: int| 0 <= k < v.len() implies (ack_fn())(#[trigger] v[k]).len() >= 40 by { lemma_be64(v[k].1); }
            lemma_take_section(v, ack_fn(), 40, t);
        }
    }
    let count = reader.count(40)?;
    let ghost start = reader.rest();
    let mut xs: Vec<(PeerId, u64)> = Vec::new();
    let mut i: usize = 0;
    proof {
        if let Some((v, t)) = expected {
            assert(v.skip(0) =~= v);
        }
        assert(flat(xs@, ack_fn()) + start =~= start);
    }
    while i < count
        invariant
            reader.wf(),
            i <= count,
            count <= u32::MAX,
            xs@.len() == i,
            start == flat(xs@, ack_fn()) + reader.rest(),
            old(reader).rest() == be32(count as u32) + start,
            forall|a: int, b: int| 0 <= a < b < i ==> lex_lt((#[trigger] xs@[a]).0@, (#[trigger] xs@[b]).0@),
            expected matches Some((v, t)) ==> v.len() == count && acks_ok(v) && reader.rest() == flat(v.skip(i as int), ack_fn()) + t && forall|a: int| 0 <= a < i ==> (#[trigger] xs@[a]).0@ == v[a].0@,
        decreases count - i,
    {
        let ghost inner: Option<((PeerId, u64), Seq<u8>)> = match expected {
            Some((v, t)) => Some((v[i as int], flat(v.skip(i + 1), ack_fn()) + t)),
            None => None,
        };
        proof {
            if let Some((v, t)) = expected {
                lemma_next_record(v, i as int, ack_fn(), t);
            }
        }
        let x = read_ack(reader, Ghost(inner))?;
        if i > 0 && !bytes32_lt(&xs[i - 1].0.0, &x.0.0) {
            return Err(Error::InvalidInput("replica acknowledgements are not canonical"));
        }
        proof {
            lemma_flat_push(xs@, x, ack_fn());
            assert forall|a: int| 0 <= a < i implies lex_lt((#[trigger] xs@[a]).0@, x.0@) by {
                if a < i - 1 {
                    crate::ids::lemma_lex_transitive(xs@[a].0@, xs@[i - 1].0@, x.0@);
                }
            }
        }
        xs.push(x);
        i = i + 1;
    }
    proof {
        if let Some((v, t)) = expected {
            assert(v.skip(count as int) =~= Seq::<(PeerId, u64)>::empty());
        }
    }
    Ok(xs)
}

fn read_chunk_index(reader: &mut Reader, Ghost(expected): Ghost<Option<(Seq<(ChunkId, FileId, u64)>, Seq<u8>)>>) -> (r: Result<Vec<(ChunkId, FileId, u64)>>)
    requires
        old(reader).wf(),
        expected matches Some((v, t)) ==> chunks_ok(v) && old(reader).rest() == section(v, chunk_fn()) + t,
    ensures
        final(reader).wf(),
        match r {
            Ok(xs) => old(reader).rest() == section(xs@, chunk_fn()) + final(reader).rest() && chunks_ok(xs@) && (expected matches Some((v, t)) ==> final(reader).rest() == t),
            Err(e) => e is InvalidInput && expected is None,
        },
{
    proof {
        if let Some((v, t)) = expected {
            assert forall|k: int| 0 <= k < v.len() implies (chunk_fn())(#[trigger] v[k]).len() >= 72 by { lemma_be64(v[k].2); }
            lemma_take_section(v, chunk_fn(), 72, t);
        }
    }
    let count = reader.count(72)?;
    let ghost start = reader.rest();
    let mut xs: Vec<(ChunkId, FileId, u64)> = Vec::new();
    let mut i: usize = 0;
    proof {
        if let Some((v, t)) = expected {
            assert(v.skip(0) =~= v);
        }
        assert(flat(xs@, chunk_fn()) + start =~= start);
    }
    while i < count
        invariant
            reader.wf(),
            i <= count,
            count <= u32::MAX,
            xs@.len() == i,
            start == flat(xs@, chunk_fn()) + reader.rest(),
            old(reader).rest() == be32(count as u32) + start,
            forall|a: int, b: int| 0 <= a < b < i ==> lex_lt((#[trigger] xs@[a]).0@, (#[trigger] xs@[b]).0@),
            expected matches Some((v, t)) ==> v.len() == count && chunks_ok(v) && reader.rest() == flat(v.skip(i as int), chunk_fn()) + t && forall|a: int| 0 <= a < i ==> (#[trigger] xs@[a]).0@ == v[a].0@,
        decreases count - i,
    {
        let ghost inner: Option<((ChunkId, FileId, u64), Seq<u8>)> = match expected {
            Some((v, t)) => Some((v[i as int], flat(v.skip(i + 1), chunk_fn()) + t)),
            None => None,
        };
        proof {
            if let Some((v, t)) = expected {
                lemma_next_record(v, i as int, chunk_fn(), t);
            }
        }
        let x = read_chunk_entry(reader, Ghost(inner))?;
        if i > 0 && !bytes32_lt(&xs[i - 1].0.0, &x.0.0) {
            return Err(Error::InvalidInput("replica chunk index is not canonical"));
        }
        proof {
            lemma_flat_push(xs@, x, chunk_fn());
            assert forall|a: int| 0 <= a < i implies lex_lt((#[trigger] xs@[a]).0@, x.0@) by {
                if a < i - 1 {
                    crate::ids::lemma_lex_transitive(xs@[a].0@, xs@[i - 1].0@, x.0@);
                }
            }
        }
        xs.push(x);
        i = i + 1;
    }
    proof {
        if let Some((v, t)) = expected {
            assert(v.skip(count as int) =~= Seq::<(ChunkId, FileId, u64)>::empty());
        }
    }
    Ok(xs)
}


fn read_log(reader: &mut Reader, Ghost(expected): Ghost<Option<(Seq<ControlRecord>, Seq<u8>)>>) -> (r: Result<Vec<ControlRecord>>)
    requires
        old(reader).wf(),
        expected matches Some((v, t)) ==> log_ok(v) && old(reader).rest() == section(v, log_fn()) + t,
    ensures
        final(reader).wf(),
        match r {
            Ok(xs) => old(reader).rest() == section(xs@, log_fn()) + final(reader).rest() && log_ok(xs@)
                && (expected matches Some((v, t)) ==> final(reader).rest() == t),
            Err(e) => e is InvalidInput && expected is None,
        },
{
    proof {
        if let Some((v, t)) = expected {
            assert forall|k: int| 0 <= k < v.len() implies (log_fn())(#[trigger] v[k]).len() >= 4 by {}
            lemma_take_section(v, log_fn(), 4, t);
        }
    }
    let count = reader.count(4)?;
    let ghost start = reader.rest();
    let mut xs: Vec<ControlRecord> = Vec::new();
    let mut i: usize = 0;
    proof {
        if let Some((v, t)) = expected {
            assert(v.skip(0) =~= v);
        }
        assert(flat(xs@, log_fn()) + start =~= start);
    }
    while i < count
        invariant
            reader.wf(),
            i <= count,
            count <= u32::MAX,
            xs@.len() == i,
            start == flat(xs@, log_fn()) + reader.rest(),
            old(reader).rest() == be32(count as u32) + start,
            forall|a: int| 0 <= a < i ==> record_fits(#[trigger] xs@[a]),
            forall|a: int, b: int| 0 <= a < b < i ==> (#[trigger] xs@[a]).id < (#[trigger] xs@[b]).id,
            expected matches Some((v, t)) ==> v.len() == count && log_ok(v) && reader.rest() == flat(
                v.skip(i as int),
                log_fn(),
            ) + t && forall|a: int| 0 <= a < i ==> (#[trigger] xs@[a]).id == v[a].id,
        decreases count - i,
    {
        let ghost inner: Option<(ControlRecord, Seq<u8>)> = match expected {
            Some((v, t)) => Some((v[i as int], flat(v.skip(i + 1), log_fn()) + t)),
            None => None,
        };
        proof {
            if let Some((v, t)) = expected {
                lemma_next_record(v, i as int, log_fn(), t);
            }
        }
        let x = read_log_record(reader, Ghost(inner))?;
        if i > 0 && xs[i - 1].id >= x.id {
            return Err(Error::InvalidInput("instruction log is not strictly ordered"));
        }
        proof {
            lemma_flat_push(xs@, x, log_fn());
        }
        xs.push(x);
        i = i + 1;
    }
    proof {
        if let Some((v, t)) = expected {
            assert(v.skip(count as int) =~= Seq::<ControlRecord>::empty());
        }
    }
    Ok(xs)
}

/// The stored entries of a valid list fit their encoding.
pub open spec fn dirent_names_fit(ds: Seq<DirentV>) -> bool {
    forall|i: int| 0 <= i < ds.len() ==> fits_u32(utf8_bytes((#[trigger] ds[i]).name).len() as int)
}

fn read_dirents(reader: &mut Reader, Ghost(expected): Ghost<Option<(Seq<DirentV>, Seq<u8>)>>) -> (r: Result<Vec<Dirent>>)
    requires
        old(reader).wf(),
        expected matches Some((v, t)) ==> fits_u32(v.len() as int) && dirent_shapes(v)
            && dirent_names_fit(v) && old(reader).rest() == section(v, dirent_fn()) + t,
    ensures
        final(reader).wf(),
        match r {
            Ok(xs) => old(reader).rest() == section(dirent_views(xs@), dirent_fn()) + final(reader).rest() && fits_u32(xs@.len() as int) && dirent_shapes(dirent_views(xs@)) && (expected matches Some((v, t)) ==> final(reader).rest() == t
                && dirent_views(xs@) == v),
            Err(e) => e is InvalidInput && expected is None,
        },
{
    proof {
        if let Some((v, t)) = expected {
            lemma_dirent_section_len(v);
            assert forall|k: int| 0 <= k < v.len() implies (dirent_fn())(#[trigger] v[k]).len() >= 69 by {}
            lemma_take_section(v, dirent_fn(), 69, t);
        }
    }
    let count = reader.count(69)?;
    let ghost start = reader.rest();
    let mut xs: Vec<Dirent> = Vec::new();
    let mut i: usize = 0;
    proof {
        if let Some((v, t)) = expected {
            assert(v.skip(0) =~= v);
        }
        assert(flat(dirent_views(xs@), dirent_fn()) + start =~= start);
    }
    while i < count
        invariant
            reader.wf(),
            i <= count,
            count <= u32::MAX,
            xs@.len() == i,
            start == flat(dirent_views(xs@), dirent_fn()) + reader.rest(),
            old(reader).rest() == be32(count as u32) + start,
            expected matches Some((v, t)) ==> v.len() == count && dirent_shapes(v) && dirent_names_fit(v)
                && reader.rest() == flat(v.skip(i as int), dirent_fn()) + t && dirent_views(xs@)
                == v.take(i as int),
        decreases count - i,
    {
        let ghost inner: Option<(DirentV, Seq<u8>)> = match expected {
            Some((v, t)) => Some((v[i as int], flat(v.skip(i + 1), dirent_fn()) + t)),
            None => None,
        };
        proof {
            if let Some((v, t)) = expected {
                lemma_next_record(v, i as int, dirent_fn(), t);
            }
        }
        let x = read_dirent(reader, Ghost(inner))?;
        proof {
            lemma_flat_push(dirent_views(xs@), x@, dirent_fn());
            assert(dirent_views(xs@.push(x)) =~= dirent_views(xs@).push(x@));
            if let Some((v, t)) = expected {
                assert(v.take(i + 1) =~= v.take(i as int).push(v[i as int]));
            }
        }
        xs.push(x);
        i = i + 1;
    }
    proof {
        if let Some((v, t)) = expected {
            assert(v.skip(count as int) =~= Seq::<DirentV>::empty());
            assert(v.take(count as int) =~= v);
        }
        assert forall|k: int| 0 <= k < xs@.len() implies (#[trigger] dirent_views(xs@)[k]).parent.len()
            == 32 && dirent_views(xs@)[k].child.len() == 32 by {
            assert(dirent_views(xs@)[k] == xs@[k]@);
        }
    }
    Ok(xs)
}


// ---------------------------------------------------------------------------
// Decoding: the snapshot
// ---------------------------------------------------------------------------

/// The collections after the directory entries.
pub struct ReplicaTail {
    pub members: Vec<PeerId>,
    pub manifests: Vec<Manifest>,
    pub log: Vec<ControlRecord>,
    pub next_control: u64,
    pub mailboxes: Vec<(PeerId, Vec<QueueContent>)>,
    pub acked_through: Vec<(PeerId, u64)>,
    pub chunk_index: Vec<(ChunkId, FileId, u64)>,
}

#[verifier::rlimit(40)]
fn read_tail(reader: &mut Reader, Ghost(target): Ghost<Option<ReplicaMetadata>>) -> (r: Result<ReplicaTail>)
    requires
        old(reader).wf(),
        target matches Some(m) ==> collections_ok(m) && old(reader).rest() == tail_bytes(m),
    ensures
        final(reader).wf(),
        match r {
            Ok(t) => old(reader).rest() == tail_parts(
                t.members@,
                t.manifests@,
                t.log@,
                t.next_control,
                t.mailboxes@,
                t.acked_through@,
                t.chunk_index@,
            ) && parts_ok(
                t.members@,
                t.manifests@,
                t.log@,
                t.mailboxes@,
                t.acked_through@,
                t.chunk_index@,
            ) && final(reader).rest().len() == 0,
            Err(e) => e is InvalidInput && target is None,
        },
{
    let ghost t7: Seq<u8> = match target {
        Some(m) => section(m.chunk_index@, chunk_fn()),
        None => Seq::<u8>::empty(),
    };
    let ghost t6: Seq<u8> = match target {
        Some(m) => section(m.acked_through@, ack_fn()) + t7,
        None => Seq::<u8>::empty(),
    };
    let ghost t5: Seq<u8> = match target {
        Some(m) => section(m.mailboxes@, mailbox_fn()) + t6,
        None => Seq::<u8>::empty(),
    };
    let ghost t4: Seq<u8> = match target {
        Some(m) => section(m.log@, log_fn()) + (be64(m.next_control) + t5),
        None => Seq::<u8>::empty(),
    };
    let ghost t3: Seq<u8> = match target {
        Some(m) => section(m.manifests@, manifest_fn()) + t4,
        None => Seq::<u8>::empty(),
    };
    let ghost start = reader.rest();
    let members = read_members(
        reader,
        Ghost(
            match target {
                Some(m) => Some((m.members@, t3)),
                None => None,
            },
        ),
    )?;
    let ghost r1 = reader.rest();
    let manifests = read_manifests(
        reader,
        Ghost(
            match target {
                Some(m) => Some((m.manifests@, t4)),
                None => None,
            },
        ),
    )?;
    let ghost r2 = reader.rest();
    let log = read_log(
        reader,
        Ghost(
            match target {
                Some(m) => Some((m.log@, be64(m.next_control) + t5)),
                None => None,
            },
        ),
    )?;
    let ghost r3 = reader.rest();
    proof {
        if let Some(m) = target {
            lemma_take_u64(m.next_control, t5);
        }
    }
    let next_control = reader.u64()?;
    let ghost r4 = reader.rest();
    let mailboxes = read_mailboxes(
        reader,
        Ghost(
            match target {
                Some(m) => Some((m.mailboxes@, t6)),
                None => None,
            },
        ),
    )?;
    let ghost r5 = reader.rest();
    let acked_through = read_acks(
        reader,
        Ghost(
            match target {
                Some(m) => Some((m.acked_through@, t7)),
                None => None,
            },
        ),
    )?;
    let ghost r6 = reader.rest();
    proof {
        if let Some(m) = target {
            assert(t7 == section(m.chunk_index@, chunk_fn()) + Seq::<u8>::empty());
        }
    }
    let chunk_index = read_chunk_index(
        reader,
        Ghost(
            match target {
                Some(m) => Some((m.chunk_index@, Seq::<u8>::empty())),
                None => None,
            },
        ),
    )?;
    let ghost r7 = reader.rest();
    reader.finish()?;
    let t = ReplicaTail { members, manifests, log, next_control, mailboxes, acked_through, chunk_index };
    proof {
        assert(r7.len() == 0);
        assert(r6 =~= section(t.chunk_index@, chunk_fn()));
        assert(r5 =~= section(t.acked_through@, ack_fn()) + r6);
        assert(r4 =~= section(t.mailboxes@, mailbox_fn()) + r5);
        assert(r2 =~= section(t.log@, log_fn()) + (be64(t.next_control) + r4));
        assert(start =~= tail_parts(
            t.members@,
            t.manifests@,
            t.log@,
            t.next_control,
            t.mailboxes@,
            t.acked_through@,
            t.chunk_index@,
        ));
    }
    Ok(t)
}

/// Whether `body` is the body of `m` under `root` with stored entries `ds`.
pub open spec fn body_of(body: Seq<u8>, root: Seq<u8>, m: ReplicaMetadata) -> bool {
    ||| (stored_dirents_ok(root, dirent_views(m.dirents@)) && dirent_views(m.dirents@).len() > 0
        && body == body_bytes(root, dirent_views(m.dirents@), m))
    ||| (dirent_views(m.dirents@) == seq![root_entry(root)] && body == body_bytes(
        root,
        Seq::<DirentV>::empty(),
        m,
    ))
}

fn decode_body(body: &[u8], expected_root: FileId, Ghost(target): Ghost<Option<(Seq<DirentV>, ReplicaMetadata)>>) -> (r: Result<ReplicaMetadata>)
    requires
        target matches Some((ds, m)) ==> body@ == body_bytes(expected_root@, ds, m)
            && stored_dirents_ok(expected_root@, ds) && collections_ok(m),
    ensures
        match r {
            Ok(m) => m.expected_root == expected_root && collections_ok(m) && body_of(
                body@,
                expected_root@,
                m,
            ) && body@.len() >= 32 && body@.take(32) == expected_root@,
            Err(e) => target is None && (e is InvalidInput || (e is State && body@.len() >= 32
                && body@.take(32) != expected_root@)),
        },
        body@.len() >= 32 && body@.take(32) != expected_root@ ==> (r matches Err(e) && e is State),
{
    let ghost root = expected_root@;
    proof {
        if let Some((ds, m)) = target {
            lemma_take_bytes(root, section(ds, dirent_fn()) + tail_bytes(m));
        }
    }
    let mut reader = Reader::new(body);
    proof {
        if body@.len() >= 32 {
            assert(reader.rest() == body@);
        }
    }
    let stored_root = FileId(reader.array32()?);
    assert(body@.take(32) =~= stored_root@);
    if !bytes32_eq(&stored_root.0, &expected_root.0) {
        return Err(Error::State("replica belongs to a different vault root"));
    }
    let ghost after_root = reader.rest();
    proof {
        if let Some((ds, m)) = target {
            assert forall|i: int| 0 <= i < ds.len() implies fits_u32(
                utf8_bytes((#[trigger] ds[i]).name).len() as int,
            ) by {
                if ds[i].name.len() == 0 {
                    assert(ds[i].name =~= Seq::<char>::empty());
                    assert(utf8_bytes(Seq::<char>::empty()) =~= Seq::<u8>::empty());
                }
            }
        }
    }
    let stored = read_dirents(
        &mut reader,
        Ghost(
            match target {
                Some((ds, m)) => Some((ds, tail_bytes(m))),
                None => None,
            },
        ),
    )?;
    let ghost stored_views = dirent_views(stored@);
    let tree = DirectoryTree::from_dirents(expected_root, stored)?;
    let dirents = tree.dirents();
    let ghost after_dirents = reader.rest();
    let tail = read_tail(
        &mut reader,
        Ghost(
            match target {
                Some((ds, m)) => Some(m),
                None => None,
            },
        ),
    )?;
    let m = ReplicaMetadata {
        expected_root,
        dirents,
        members: tail.members,
        manifests: tail.manifests,
        log: tail.log,
        next_control: tail.next_control,
        mailboxes: tail.mailboxes,
        acked_through: tail.acked_through,
        chunk_index: tail.chunk_index,
    };
    proof {
        assert(after_dirents == tail_bytes(m));
        assert(body@ =~= body_bytes(root, stored_views, m));
        if stored_views.len() > 0 {
            assert(dirent_views(m.dirents@) == stored_views);
        } else {
            assert(stored_views =~= Seq::<DirentV>::empty());
        }
    }
    Ok(m)
}


/// The body of a well-framed snapshot.
pub open spec fn framed_body(s: Seq<u8>) -> Seq<u8> {
    s.subrange(REPLICA_HEADER_LEN as int, s.len() - 32)
}

/// A well-formed snapshot header: size within the limit, magic, version,
/// and a body length that accounts for every byte before the digest.
#[verifier::opaque]
pub open spec fn replica_header_ok(s: Seq<u8>) -> bool {
    &&& 63 <= s.len() <= MAX_REPLICA_BYTES
    &&& s.take(18) == replica_magic()
    &&& s[18] == LOCAL_FORMAT_VERSION
    &&& from_be32(s.subrange(27, 31)) as int + 63 == s.len()
}

/// The stored digest matches the header and body.
pub open spec fn digest_matches(s: Seq<u8>) -> bool {
    sha256_digest(s.take(s.len() - 32)) == s.skip(s.len() - 32)
}

/// How a snapshot frame splits: a well-formed header, the generation, the
/// covered bytes, the digest and the body.
proof fn lemma_frame_layout(generation: u64, body: Seq<u8>)
    requires
        fits_u32(body.len() as int),
        body.len() >= 32,
        sha256_digest(replica_head(generation, body)).len() == 32,
        replica_frame(generation, body).len() <= MAX_REPLICA_BYTES,
    ensures
        ({
            let s = replica_frame(generation, body);
            let head = replica_head(generation, body);
            &&& replica_header_ok(s)
            &&& crate::wire::take_u64(s.skip(19)) == Some((generation, s.skip(27)))
            &&& s.take(s.len() - 32) == head
            &&& s.skip(s.len() - 32) == sha256_digest(head)
            &&& framed_body(s) == body
        }),
{
    reveal(replica_header_ok);
    let s = replica_frame(generation, body);
    let head = replica_head(generation, body);
    let d = sha256_digest(head);
    crate::wire::lemma_be64(generation);
    crate::wire::lemma_be32(body.len() as u32);
    let rest = seq![LOCAL_FORMAT_VERSION] + (be64(generation) + (be32(body.len() as u32) + (body + d)));
    assert(s =~= replica_magic() + rest);
    assert(s.take(18) =~= replica_magic());
    assert(s.skip(19) =~= be64(generation) + (be32(body.len() as u32) + (body + d)));
    lemma_take_u64(generation, be32(body.len() as u32) + (body + d));
    lemma_take_u32(body.len() as u32, body + d);
    assert(s.skip(27) =~= be32(body.len() as u32) + (body + d));
    assert(s.subrange(27, 31) =~= (be32(body.len() as u32) + (body + d)).take(4));
    assert(s.take(s.len() - 32) =~= head);
    assert(s.skip(s.len() - 32) =~= d);
    assert(framed_body(s) =~= body);
}

/// A snapshot written for a valid replica reads back: its header is well
/// formed, its digest matches, it carries the written body under the
/// expected root, and the only generation it can name is the written one.
/// So `decode_replica` refuses none of these bytes, and returns that
/// generation with metadata whose body is the written body.
pub proof fn law_written_snapshot_reads_back(root: Seq<u8>, generation: u64, ds: Seq<DirentV>, m: ReplicaMetadata)
    requires
        valid_replica(root, generation, ds, m),
    ensures
        ({
            let body = body_bytes(root, ds, m);
            let s = replica_frame(generation, body);
            &&& replica_header_ok(s)
            &&& digest_matches(s)
            &&& framed_body(s) == body
            &&& s.len() >= 95
            &&& s.subrange(31, 63) == root
            &&& forall|g: u64| #[trigger] replica_frame(g, body) == s ==> g == generation
        }),
{
    let body = body_bytes(root, ds, m);
    let s = replica_frame(generation, body);
    assert(root.len() == 32);
    assert(body.len() >= 32);
    lemma_frame_layout(generation, body);
    assert(s.subrange(31, 63) =~= body.take(32));
    assert(body.take(32) =~= root);
    assert forall|g: u64| #[trigger] replica_frame(g, body) == s implies g == generation by {
        let h = replica_head(g, body);
        assert(replica_frame(g, body) == h + sha256_digest(h));
        crate::wire::lemma_be64(g);
        crate::wire::lemma_be64(generation);
        assert(s.subrange(19, 27) =~= be64(g)) by {
            assert(h =~= replica_magic() + (seq![LOCAL_FORMAT_VERSION] + (be64(g) + (be32(body.len() as u32) + body))));
        }
        assert(s.subrange(19, 27) =~= be64(generation)) by {
            let h0 = replica_head(generation, body);
            assert(h0 =~= replica_magic() + (seq![LOCAL_FORMAT_VERSION] + (be64(generation) + (be32(body.len() as u32) + body))));
        }
        lemma_take_u64(g, Seq::<u8>::empty());
        lemma_take_u64(generation, Seq::<u8>::empty());
        assert(be64(g) + Seq::<u8>::empty() =~= be64(g));
        assert(be64(generation) + Seq::<u8>::empty() =~= be64(generation));
    }
}

/// Reads and checks a snapshot header: the generation and where the body
/// ends.
fn read_replica_header(bytes: &[u8]) -> (r: Result<(u64, usize)>)
    ensures
        match r {
            Ok((generation, end)) => replica_header_ok(bytes@) && 63 <= bytes@.len() <= MAX_REPLICA_BYTES
                && end == bytes@.len() - 32 && crate::wire::take_u64(
                bytes@.skip(19),
            ) == Some((generation, bytes@.skip(27))) && bytes@.take(bytes@.len() - 32) == replica_head(
                generation,
                framed_body(bytes@),
            ),
            Err(e) => e is InvalidInput && !replica_header_ok(bytes@),
        },
{
    let ghost s = bytes@;
    reveal(replica_header_ok);
    let n = bytes.len();
    if n > MAX_REPLICA_BYTES || n < REPLICA_HEADER_LEN + 32 {
        return Err(Error::InvalidInput("invalid replica metadata length"));
    }
    let magic: [u8; 18] = [113, 102, 115, 47, 108, 111, 99, 97, 108, 47, 114, 101, 112, 108, 105, 99, 97, 47];
    assert(magic@ =~= replica_magic());
    let mut reader = Reader::new(bytes);
    match reader.require_prefix(&magic) {
        Ok(()) => {},
        Err(e) => {
            proof {
                if s.take(18) == replica_magic() {
                    assert(s =~= magic@ + s.skip(18));
                }
            }
            return Err(e);
        },
    }
    proof {
        assert(s.take(18) =~= magic@) by {
            assert(s == magic@ + reader.rest());
        }
    }
    let version = reader.byte()?;
    proof {
        assert(s[18] == version) by {
            assert(s == magic@ + (seq![version] + reader.rest()));
        }
        assert(reader.rest() =~= s.skip(19));
    }
    if version != LOCAL_FORMAT_VERSION {
        return Err(Error::InvalidInput("unsupported replica metadata version"));
    }
    let generation = reader.u64()?;
    let ghost after_generation = reader.rest();
    proof {
        assert(after_generation =~= s.skip(27));
    }
    let body_len = reader.u32()? as usize;
    proof {
        assert(after_generation.take(4) =~= s.subrange(27, 31));
        assert(body_len == from_be32(s.subrange(27, 31)));
    }
    let body_end = match REPLICA_HEADER_LEN.checked_add(body_len) {
        Some(e) => e,
        None => {
            return Err(Error::InvalidInput("replica metadata length overflow"));
        },
    };
    let expected_len = match body_end.checked_add(32) {
        Some(e) => e,
        None => {
            return Err(Error::InvalidInput("replica metadata length overflow"));
        },
    };
    if expected_len != n {
        return Err(Error::InvalidInput("replica metadata length mismatch"));
    }
    proof {
        let b = framed_body(s);
        assert(after_generation == be32(body_len as u32) + reader.rest());
        assert(reader.rest() =~= s.skip(31));
        assert(s.take(s.len() - 32) =~= replica_head(generation, b)) by {
            assert(s.skip(19) == be64(generation) + after_generation);
            assert(s.take(s.len() - 32) =~= magic@ + (seq![version] + (be64(generation) + (be32(body_len as u32) + b))));
        }
    }
    Ok((generation, body_end))
}

/// Decodes a snapshot written for vault root `expected_root`. Nothing in the
/// body is read before the length and digest checks have passed.
#[verifier::spinoff_prover]
#[verifier::rlimit(100)]
pub fn decode_replica(bytes: &[u8], expected_root: FileId) -> (r: Result<(u64, ReplicaMetadata)>)
    ensures
        match r {
            Ok((generation, m)) => {
                &&& m.expected_root == expected_root
                &&& collections_ok(m)
                &&& bytes@.len() <= MAX_REPLICA_BYTES
                &&& replica_header_ok(bytes@)
                &&& digest_matches(bytes@)
                &&& bytes@ == replica_frame(generation, framed_body(bytes@))
                &&& body_of(framed_body(bytes@), expected_root@, m)
            },
            Err(e) => {
                &&& e is InvalidInput || e is AuthenticationFailed || e is State
                &&& forall|g: u64, ds: Seq<DirentV>, m: ReplicaMetadata|
                    valid_replica(expected_root@, g, ds, m) ==> bytes@ != #[trigger] replica_frame(
                        g,
                        body_bytes(expected_root@, ds, m),
                    )
                &&& e is AuthenticationFailed ==> bytes@.len() >= 63 && !digest_matches(bytes@)
                &&& e is State ==> bytes@.len() >= 63 && digest_matches(bytes@) && bytes@.subrange(
                    31,
                    63,
                ) != expected_root@
            },
        },
        replica_header_ok(bytes@) && !digest_matches(bytes@) ==> (r matches Err(e) && e is AuthenticationFailed),
        replica_header_ok(bytes@) && digest_matches(bytes@) && bytes@.len() >= 95 && bytes@.subrange(31, 63)
            != expected_root@ ==> (r matches Err(e) && e is State),
        r matches Err(e) && e is InvalidInput ==> !replica_header_ok(bytes@) || (digest_matches(bytes@) && !(
        bytes@.len() >= 95 && bytes@.subrange(31, 63) != expected_root@)),
{
    let ghost s = bytes@;
    let ghost root = expected_root@;
    let ghost target = choose|g: u64, ds: Seq<DirentV>, m: ReplicaMetadata|
        valid_replica(root, g, ds, m) && s == #[trigger] replica_frame(g, body_bytes(root, ds, m));
    let ghost canon = valid_replica(root, target.0, target.1, target.2) && s == replica_frame(
        target.0,
        body_bytes(root, target.1, target.2),
    );
    let ghost tb = body_bytes(root, target.1, target.2);
    let ghost head = replica_head(target.0, tb);
    proof {
        if canon {
            assert(tb.len() >= 32);
            assert(replica_head(target.0, tb).len() >= 31 + tb.len());
            lemma_frame_layout(target.0, tb);
        }
    }
    let n = bytes.len();
    let (generation, body_end) = read_replica_header(bytes)?;
    proof {
        if canon {
            assert(generation == target.0);
        }
    }
    let digest = sha256(&bytes[0..body_end]);
    let stored_digest = &bytes[body_end..n];
    proof {
        assert(bytes@.subrange(0, body_end as int) =~= s.take(s.len() - 32));
        assert(stored_digest@ =~= s.skip(s.len() - 32));
        if canon {
            assert(s.take(s.len() - 32) =~= head);
            assert(s.skip(s.len() - 32) =~= sha256_digest(head));
        }
    }
    if !bytes_eq(&digest, stored_digest) {
        return Err(Error::AuthenticationFailed);
    }
    let body = &bytes[REPLICA_HEADER_LEN..body_end];
    proof {
        assert(body@ =~= framed_body(s));
        if canon {
            assert(framed_body(s) =~= tb);
        }
    }
    let ghost inner: Option<(Seq<DirentV>, ReplicaMetadata)> = if canon {
        Some((target.1, target.2))
    } else {
        None
    };
    let m = match decode_body(body, expected_root, Ghost(inner)) {
        Ok(m) => m,
        Err(e) => {
            proof {
                reveal(replica_header_ok);
                assert(digest_matches(s));
                assert(body@.len() == s.len() - 63);
                if body@.len() >= 32 {
                    assert(s.subrange(31, 63) =~= body@.take(32));
                }
            }
            return Err(e);
        },
    };
    proof {
        let b = framed_body(s);

        assert(s =~= replica_frame(generation, b));
        assert(s.subrange(31, 63) =~= body@.take(32));
    }
    Ok((generation, m))
}

} // verus!
