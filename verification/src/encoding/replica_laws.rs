//! What a stored replica body determines: every record format of the body
//! is self-delimiting, so the bytes give back the records they were made of.

use vstd::prelude::*;

use crate::encoding::control::{manifest_m_bytes, record_bytes, update_bytes, update_encodable};
use crate::encoding::replica::{
    ack_fn, body_bytes, body_of, canonical_dirents, chunk_fn, collections_ok, content_encodable, content_fn,
    dirent_fn, framed_body, law_written_snapshot_reads_back, log_fn, mailbox_fn, manifest_encodable,
    manifest_fn, peer_fn, queue_ok, record_fits, replica_frame, section, stored_dirents_ok, tail_bytes,
    valid_replica,
};
use crate::ids::{ChunkId, FileId, PeerId};
use crate::protocol::manifest::{same_manifest, Manifest};
use crate::store::replica::ReplicaMetadata;
use crate::store::tree::{dirent_views, root_entry, DirentV};
use crate::sync::host::{ControlRecord, ControlUpdate, QueueContent};
use crate::text::utf8_bytes;
use crate::wire::{
    be32, be64, fits_u32, flat, ids_bytes, lemma_ids_bytes_injective, lemma_take_bytes, lemma_take_u32,
    lemma_take_u64, lemma_take_var, var,
};

verus! {

/// `f` is self-delimiting on the values `ok` admits: an encoding followed by
/// anything parses back to an `eqv` value and the same remainder.
pub open spec fn splits<T>(f: spec_fn(T) -> Seq<u8>, ok: spec_fn(T) -> bool, eqv: spec_fn(T, T) -> bool) -> bool {
    forall|x: T, y: T, s: Seq<u8>, t: Seq<u8>|
        #![trigger f(x) + s, f(y) + t]
        ok(x) && ok(y) && f(x) + s == f(y) + t ==> eqv(x, y) && s == t
}

proof fn lemma_flat_splits<T>(
    xs: Seq<T>,
    ys: Seq<T>,
    s: Seq<u8>,
    t: Seq<u8>,
    f: spec_fn(T) -> Seq<u8>,
    ok: spec_fn(T) -> bool,
    eqv: spec_fn(T, T) -> bool,
)
    requires
        splits(f, ok, eqv),
        xs.len() == ys.len(),
        forall|i: int| 0 <= i < xs.len() ==> ok(#[trigger] xs[i]),
        forall|i: int| 0 <= i < ys.len() ==> ok(#[trigger] ys[i]),
        flat(xs, f) + s == flat(ys, f) + t,
    ensures
        forall|i: int| 0 <= i < xs.len() ==> eqv(#[trigger] xs[i], ys[i]),
        s == t,
    decreases xs.len(),
{
    if xs.len() > 0 {
        let (rx, ry) = (xs.drop_first(), ys.drop_first());
        let (a, b) = (flat(rx, f) + s, flat(ry, f) + t);
        assert(flat(xs, f) + s =~= f(xs[0]) + a);
        assert(flat(ys, f) + t =~= f(ys[0]) + b);
        assert(ok(xs[0]) && ok(ys[0]));
        assert(eqv(xs[0], ys[0]) && a == b);
        assert forall|i: int| 0 <= i < rx.len() implies ok(#[trigger] rx[i]) by {
            assert(rx[i] == xs[i + 1]);
        }
        assert forall|i: int| 0 <= i < ry.len() implies ok(#[trigger] ry[i]) by {
            assert(ry[i] == ys[i + 1]);
        }
        lemma_flat_splits(rx, ry, s, t, f, ok, eqv);
        assert forall|i: int| 0 <= i < xs.len() implies eqv(#[trigger] xs[i], ys[i]) by {
            if i > 0 {
                assert(rx[i - 1] == xs[i] && ry[i - 1] == ys[i]);
            }
        }
    } else {
        assert(flat(xs, f) + s =~= s);
        assert(flat(ys, f) + t =~= t);
    }
}

/// Sections of self-delimiting records parse back record by record.
pub proof fn lemma_section_splits<T>(
    xs: Seq<T>,
    ys: Seq<T>,
    s: Seq<u8>,
    t: Seq<u8>,
    f: spec_fn(T) -> Seq<u8>,
    ok: spec_fn(T) -> bool,
    eqv: spec_fn(T, T) -> bool,
)
    requires
        splits(f, ok, eqv),
        fits_u32(xs.len() as int),
        fits_u32(ys.len() as int),
        forall|i: int| 0 <= i < xs.len() ==> ok(#[trigger] xs[i]),
        forall|i: int| 0 <= i < ys.len() ==> ok(#[trigger] ys[i]),
        section(xs, f) + s == section(ys, f) + t,
    ensures
        xs.len() == ys.len(),
        forall|i: int| 0 <= i < xs.len() ==> eqv(#[trigger] xs[i], ys[i]),
        s == t,
{
    lemma_take_u32(xs.len() as u32, flat(xs, f) + s);
    lemma_take_u32(ys.len() as u32, flat(ys, f) + t);
    assert(section(xs, f) + s =~= be32(xs.len() as u32) + (flat(xs, f) + s));
    assert(section(ys, f) + t =~= be32(ys.len() as u32) + (flat(ys, f) + t));
    lemma_flat_splits(xs, ys, s, t, f, ok, eqv);
}

/// Fixed-width fields: equal concatenations with equally long heads split
/// into equal heads and equal tails.
pub proof fn lemma_split_fixed(a: Seq<u8>, b: Seq<u8>, s: Seq<u8>, t: Seq<u8>)
    requires
        a.len() == b.len(),
        a + s == b + t,
    ensures
        a == b,
        s == t,
{
    lemma_take_bytes(a, s);
    lemma_take_bytes(b, t);
}

pub proof fn lemma_peers_split()
    ensures
        splits(peer_fn(), |p: PeerId| true, |a: PeerId, b: PeerId| a == b),
{
    assert forall|x: PeerId, y: PeerId, s: Seq<u8>, t: Seq<u8>|
        #![trigger (peer_fn())(x) + s, (peer_fn())(y) + t]
        true && true && (peer_fn())(x) + s == (peer_fn())(y) + t implies x == y && s == t by {
        lemma_split_fixed(x@, y@, s, t);
        assert(x.0 =~= y.0);
    }
}

pub proof fn lemma_acks_split()
    ensures
        splits(ack_fn(), |a: (PeerId, u64)| true, |a: (PeerId, u64), b: (PeerId, u64)| a == b),
{
    assert forall|x: (PeerId, u64), y: (PeerId, u64), s: Seq<u8>, t: Seq<u8>|
        #![trigger (ack_fn())(x) + s, (ack_fn())(y) + t]
        true && true && (ack_fn())(x) + s == (ack_fn())(y) + t implies x == y && s == t by {
        assert((ack_fn())(x) + s =~= x.0@ + (be64(x.1) + s));
        assert((ack_fn())(y) + t =~= y.0@ + (be64(y.1) + t));
        lemma_split_fixed(x.0@, y.0@, be64(x.1) + s, be64(y.1) + t);
        lemma_take_u64(x.1, s);
        lemma_take_u64(y.1, t);
        assert(x.0.0 =~= y.0.0);
    }
}

pub proof fn lemma_chunks_split()
    ensures
        splits(
            chunk_fn(),
            |c: (ChunkId, FileId, u64)| true,
            |a: (ChunkId, FileId, u64), b: (ChunkId, FileId, u64)| a == b,
        ),
{
    assert forall|x: (ChunkId, FileId, u64), y: (ChunkId, FileId, u64), s: Seq<u8>, t: Seq<u8>|
        #![trigger (chunk_fn())(x) + s, (chunk_fn())(y) + t]
        true && true && (chunk_fn())(x) + s == (chunk_fn())(y) + t implies x == y && s == t by {
        assert((chunk_fn())(x) + s =~= x.0@ + (x.1@ + (be64(x.2) + s)));
        assert((chunk_fn())(y) + t =~= y.0@ + (y.1@ + (be64(y.2) + t)));
        lemma_split_fixed(x.0@, y.0@, x.1@ + (be64(x.2) + s), y.1@ + (be64(y.2) + t));
        lemma_split_fixed(x.1@, y.1@, be64(x.2) + s, be64(y.2) + t);
        lemma_take_u64(x.2, s);
        lemma_take_u64(y.2, t);
        assert(x.0.0 =~= y.0.0);
        assert(x.1.0 =~= y.1.0);
    }
}

/// Length-prefixed fields split into equal fields and equal tails.
pub proof fn lemma_split_var(a: Seq<u8>, b: Seq<u8>, s: Seq<u8>, t: Seq<u8>)
    requires
        fits_u32(a.len() as int),
        fits_u32(b.len() as int),
        var(a) + s == var(b) + t,
    ensures
        a == b,
        s == t,
{
    lemma_take_var(a, s);
    lemma_take_var(b, t);
}

/// A u64 field followed by anything.
pub proof fn lemma_split_u64(x: u64, y: u64, s: Seq<u8>, t: Seq<u8>)
    requires
        be64(x) + s == be64(y) + t,
    ensures
        x == y,
        s == t,
{
    lemma_take_u64(x, s);
    lemma_take_u64(y, t);
}

/// Text fields: equal UTF-8 bytes are equal text.
pub proof fn lemma_utf8_injective(a: Seq<char>, b: Seq<char>)
    requires
        utf8_bytes(a) == utf8_bytes(b),
    ensures
        a == b,
{
    vstd::utf8::encode_utf8_decode_utf8(a);
    vstd::utf8::encode_utf8_decode_utf8(b);
}

pub open spec fn dirent_storable(d: DirentV) -> bool {
    d.parent.len() == 32 && d.child.len() == 32 && fits_u32(utf8_bytes(d.name).len() as int)
}

pub proof fn lemma_dirents_split()
    ensures
        splits(dirent_fn(), |d: DirentV| dirent_storable(d), |a: DirentV, b: DirentV| a == b),
{
    assert forall|x: DirentV, y: DirentV, s: Seq<u8>, t: Seq<u8>|
        #![trigger (dirent_fn())(x) + s, (dirent_fn())(y) + t]
        dirent_storable(x) && dirent_storable(y) && (dirent_fn())(x) + s == (dirent_fn())(y) + t
        implies x == y && s == t by {
        let fx = seq![if x.is_dir { 1u8 } else { 0u8 }];
        let fy = seq![if y.is_dir { 1u8 } else { 0u8 }];
        assert((dirent_fn())(x) + s =~= x.parent + (var(utf8_bytes(x.name)) + (x.child + (fx + s))));
        assert((dirent_fn())(y) + t =~= y.parent + (var(utf8_bytes(y.name)) + (y.child + (fy + t))));
        lemma_split_fixed(x.parent, y.parent, var(utf8_bytes(x.name)) + (x.child + (fx + s)), var(utf8_bytes(y.name)) + (y.child + (fy + t)));
        lemma_split_var(utf8_bytes(x.name), utf8_bytes(y.name), x.child + (fx + s), y.child + (fy + t));
        lemma_utf8_injective(x.name, y.name);
        lemma_split_fixed(x.child, y.child, fx + s, fy + t);
        lemma_split_fixed(fx, fy, s, t);
        assert(fx[0] == fy[0]);
    }
}

/// Manifest messages determine the manifest.
pub proof fn lemma_manifest_m_injective(a: Manifest, b: Manifest)
    requires
        fits_u32(a.chunk_ids@.len() as int),
        fits_u32(b.chunk_ids@.len() as int),
        manifest_m_bytes(a) == manifest_m_bytes(b),
    ensures
        a.file_id == b.file_id,
        a.version == b.version,
        a.size == b.size,
        a.writer_id == b.writer_id,
        a.chunk_ids@ == b.chunk_ids@,
{
    let ida = be32(a.chunk_ids@.len() as u32) + ids_bytes(a.chunk_ids@);
    let idb = be32(b.chunk_ids@.len() as u32) + ids_bytes(b.chunk_ids@);
    lemma_split_fixed(a.file_id@, b.file_id@, be64(a.version) + (be64(a.size) + (a.writer_id@ + ida)), be64(b.version) + (be64(b.size) + (b.writer_id@ + idb)));
    lemma_split_u64(a.version, b.version, be64(a.size) + (a.writer_id@ + ida), be64(b.size) + (b.writer_id@ + idb));
    lemma_split_u64(a.size, b.size, a.writer_id@ + ida, b.writer_id@ + idb);
    lemma_split_fixed(a.writer_id@, b.writer_id@, ida, idb);
    lemma_take_u32(a.chunk_ids@.len() as u32, ids_bytes(a.chunk_ids@));
    lemma_take_u32(b.chunk_ids@.len() as u32, ids_bytes(b.chunk_ids@));
    lemma_ids_bytes_injective(a.chunk_ids@, b.chunk_ids@, 32);
    assert(a.file_id.0 =~= b.file_id.0);
    assert(a.writer_id.0 =~= b.writer_id.0);
    assert forall|i: int| 0 <= i < a.chunk_ids@.len() implies a.chunk_ids@[i] == b.chunk_ids@[i] by {
        assert(a.chunk_ids@[i]@ == b.chunk_ids@[i]@);
        assert(a.chunk_ids@[i].0 =~= b.chunk_ids@[i].0);
    }
    assert(a.chunk_ids@ =~= b.chunk_ids@);
}

pub proof fn lemma_manifests_split()
    ensures
        splits(manifest_fn(), |m: Manifest| manifest_encodable(m), |a: Manifest, b: Manifest| same_manifest(a, b)),
{
    assert forall|x: Manifest, y: Manifest, s: Seq<u8>, t: Seq<u8>|
        #![trigger (manifest_fn())(x) + s, (manifest_fn())(y) + t]
        manifest_encodable(x) && manifest_encodable(y) && (manifest_fn())(x) + s == (manifest_fn())(y) + t
        implies same_manifest(x, y) && s == t by {
        assert((manifest_fn())(x) + s =~= var(manifest_m_bytes(x)) + (var(x.signature@) + s));
        assert((manifest_fn())(y) + t =~= var(manifest_m_bytes(y)) + (var(y.signature@) + t));
        lemma_split_var(manifest_m_bytes(x), manifest_m_bytes(y), var(x.signature@) + s, var(y.signature@) + t);
        lemma_split_var(x.signature@, y.signature@, s, t);
        lemma_manifest_m_injective(x, y);
    }
}

/// Two control updates of the same kind with the same fields, text and byte
/// fields compared by content.
pub open spec fn same_update(a: ControlUpdate, b: ControlUpdate) -> bool {
    match (a, b) {
        (ControlUpdate::NewManifest(x), ControlUpdate::NewManifest(y)) => same_manifest(x, y),
        (ControlUpdate::Add(x), ControlUpdate::Add(y)) => x == y,
        (ControlUpdate::Clear(x), ControlUpdate::Clear(y)) => x == y,
        (ControlUpdate::Remove(x), ControlUpdate::Remove(y)) => x == y,
        (
            ControlUpdate::Link { parent: p1, name: n1, child: c1, is_dir: d1 },
            ControlUpdate::Link { parent: p2, name: n2, child: c2, is_dir: d2 },
        ) => p1 == p2 && n1@ == n2@ && c1 == c2 && d1 == d2,
        (
            ControlUpdate::Unlink { parent: p1, name: n1 },
            ControlUpdate::Unlink { parent: p2, name: n2 },
        ) => p1 == p2 && n1@ == n2@,
        (
            ControlUpdate::Rename { src_parent: p1, src_name: n1, dst_parent: q1, dst_name: m1 },
            ControlUpdate::Rename { src_parent: p2, src_name: n2, dst_parent: q2, dst_name: m2 },
        ) => p1 == p2 && n1@ == n2@ && q1 == q2 && m1@ == m2@,
        _ => false,
    }
}

/// Two control records with the same id and the same update.
pub open spec fn same_record(a: ControlRecord, b: ControlRecord) -> bool {
    a.id == b.id && same_update(a.update, b.update)
}

proof fn lemma_file_id_bytes(x: FileId, y: FileId)
    requires
        x@ == y@,
    ensures
        x == y,
{
    assert(x.0 =~= y.0);
}

proof fn lemma_update_injective(a: ControlUpdate, b: ControlUpdate)
    requires
        update_encodable(a),
        update_encodable(b),
        update_bytes(a) == update_bytes(b),
    ensures
        same_update(a, b),
{
    let e = Seq::<u8>::empty();
    assert(update_bytes(a)[0] == update_bytes(b)[0]);
    let (ra, rb) = (update_bytes(a).skip(1), update_bytes(b).skip(1));
    assert(ra == rb);
    match (a, b) {
        (ControlUpdate::NewManifest(x), ControlUpdate::NewManifest(y)) => {
            assert(ra =~= var(manifest_m_bytes(x)) + (var(x.signature@) + e));
            assert(rb =~= var(manifest_m_bytes(y)) + (var(y.signature@) + e));
            lemma_split_var(manifest_m_bytes(x), manifest_m_bytes(y), var(x.signature@) + e, var(y.signature@) + e);
            lemma_split_var(x.signature@, y.signature@, e, e);
            lemma_manifest_m_injective(x, y);
        },
        (ControlUpdate::Add(x), ControlUpdate::Add(y)) => {
            assert(ra =~= x@ && rb =~= y@);
            lemma_file_id_bytes(x, y);
        },
        (ControlUpdate::Clear(x), ControlUpdate::Clear(y)) => {
            assert(ra =~= x@ && rb =~= y@);
            lemma_file_id_bytes(x, y);
        },
        (ControlUpdate::Remove(x), ControlUpdate::Remove(y)) => {
            assert(ra =~= x@ && rb =~= y@);
            lemma_file_id_bytes(x, y);
        },
        (
            ControlUpdate::Link { parent: p1, name: n1, child: c1, is_dir: d1 },
            ControlUpdate::Link { parent: p2, name: n2, child: c2, is_dir: d2 },
        ) => {
            let f1 = seq![if d1 { 1u8 } else { 0u8 }];
            let f2 = seq![if d2 { 1u8 } else { 0u8 }];
            assert(ra =~= p1@ + (var(utf8_bytes(n1@)) + (c1@ + (f1 + e))));
            assert(rb =~= p2@ + (var(utf8_bytes(n2@)) + (c2@ + (f2 + e))));
            lemma_split_fixed(p1@, p2@, var(utf8_bytes(n1@)) + (c1@ + (f1 + e)), var(utf8_bytes(n2@)) + (c2@ + (f2 + e)));
            lemma_split_var(utf8_bytes(n1@), utf8_bytes(n2@), c1@ + (f1 + e), c2@ + (f2 + e));
            lemma_utf8_injective(n1@, n2@);
            lemma_split_fixed(c1@, c2@, f1 + e, f2 + e);
            lemma_split_fixed(f1, f2, e, e);
            assert(f1[0] == f2[0]);
            lemma_file_id_bytes(p1, p2);
            lemma_file_id_bytes(c1, c2);
        },
        (
            ControlUpdate::Unlink { parent: p1, name: n1 },
            ControlUpdate::Unlink { parent: p2, name: n2 },
        ) => {
            assert(ra =~= p1@ + (var(utf8_bytes(n1@)) + e));
            assert(rb =~= p2@ + (var(utf8_bytes(n2@)) + e));
            lemma_split_fixed(p1@, p2@, var(utf8_bytes(n1@)) + e, var(utf8_bytes(n2@)) + e);
            lemma_split_var(utf8_bytes(n1@), utf8_bytes(n2@), e, e);
            lemma_utf8_injective(n1@, n2@);
            lemma_file_id_bytes(p1, p2);
        },
        (
            ControlUpdate::Rename { src_parent: p1, src_name: n1, dst_parent: q1, dst_name: m1 },
            ControlUpdate::Rename { src_parent: p2, src_name: n2, dst_parent: q2, dst_name: m2 },
        ) => {
            assert(ra =~= p1@ + (var(utf8_bytes(n1@)) + (q1@ + (var(utf8_bytes(m1@)) + e))));
            assert(rb =~= p2@ + (var(utf8_bytes(n2@)) + (q2@ + (var(utf8_bytes(m2@)) + e))));
            lemma_split_fixed(p1@, p2@, var(utf8_bytes(n1@)) + (q1@ + (var(utf8_bytes(m1@)) + e)), var(utf8_bytes(n2@)) + (q2@ + (var(utf8_bytes(m2@)) + e)));
            lemma_split_var(utf8_bytes(n1@), utf8_bytes(n2@), q1@ + (var(utf8_bytes(m1@)) + e), q2@ + (var(utf8_bytes(m2@)) + e));
            lemma_utf8_injective(n1@, n2@);
            lemma_split_fixed(q1@, q2@, var(utf8_bytes(m1@)) + e, var(utf8_bytes(m2@)) + e);
            lemma_split_var(utf8_bytes(m1@), utf8_bytes(m2@), e, e);
            lemma_utf8_injective(m1@, m2@);
            lemma_file_id_bytes(p1, p2);
            lemma_file_id_bytes(q1, q2);
        },
        _ => {
            lemma_update_tag(a);
            lemma_update_tag(b);
        },
    }
}

pub proof fn lemma_log_split()
    ensures
        splits(log_fn(), |r: ControlRecord| record_fits(r), |a: ControlRecord, b: ControlRecord| same_record(a, b)),
{
    assert forall|x: ControlRecord, y: ControlRecord, s: Seq<u8>, t: Seq<u8>|
        #![trigger (log_fn())(x) + s, (log_fn())(y) + t]
        record_fits(x) && record_fits(y) && (log_fn())(x) + s == (log_fn())(y) + t
        implies same_record(x, y) && s == t by {
        lemma_split_var(record_bytes(x), record_bytes(y), s, t);
        lemma_record_injective(x, y);
    }
}

/// Two queued items of the same kind with the same content.
pub open spec fn same_content(a: QueueContent, b: QueueContent) -> bool {
    match (a, b) {
        (QueueContent::Control(x), QueueContent::Control(y)) => same_record(x, y),
        (
            QueueContent::Chunk { file_id: f1, index: i1, chunk_id: c1 },
            QueueContent::Chunk { file_id: f2, index: i2, chunk_id: c2 },
        ) => f1 == f2 && i1 == i2 && c1 == c2,
        _ => false,
    }
}

pub proof fn lemma_contents_split()
    ensures
        splits(content_fn(), |q: QueueContent| content_encodable(q), |a: QueueContent, b: QueueContent| same_content(a, b)),
{
    assert forall|x: QueueContent, y: QueueContent, s: Seq<u8>, t: Seq<u8>|
        #![trigger (content_fn())(x) + s, (content_fn())(y) + t]
        content_encodable(x) && content_encodable(y) && (content_fn())(x) + s == (content_fn())(y) + t
        implies same_content(x, y) && s == t by {
        let (bx, by) = ((content_fn())(x) + s, (content_fn())(y) + t);
        assert(bx[0] == by[0]);
        let (rx, ry) = (bx.skip(1), by.skip(1));
        assert(rx == ry);
        match (x, y) {
            (QueueContent::Control(a), QueueContent::Control(b)) => {
                assert(rx =~= var(record_bytes(a)) + s);
                assert(ry =~= var(record_bytes(b)) + t);
                lemma_split_var(record_bytes(a), record_bytes(b), s, t);
                lemma_record_injective(a, b);
            },
            (
                QueueContent::Chunk { file_id: f1, index: i1, chunk_id: c1 },
                QueueContent::Chunk { file_id: f2, index: i2, chunk_id: c2 },
            ) => {
                assert(rx =~= f1@ + (be64(i1) + (c1@ + s)));
                assert(ry =~= f2@ + (be64(i2) + (c2@ + t)));
                lemma_split_fixed(f1@, f2@, be64(i1) + (c1@ + s), be64(i2) + (c2@ + t));
                lemma_split_u64(i1, i2, c1@ + s, c2@ + t);
                lemma_split_fixed(c1@, c2@, s, t);
                lemma_file_id_bytes(f1, f2);
                assert(c1.0 =~= c2.0);
            },
            _ => {},
        }
    }
}

/// Two mailboxes of the same recipient holding the same items in order.
pub open spec fn same_mailbox(a: (PeerId, Vec<QueueContent>), b: (PeerId, Vec<QueueContent>)) -> bool {
    &&& a.0 == b.0
    &&& a.1@.len() == b.1@.len()
    &&& forall|i: int| 0 <= i < a.1@.len() ==> same_content(#[trigger] a.1@[i], b.1@[i])
}

pub proof fn lemma_mailboxes_split()
    ensures
        splits(
            mailbox_fn(),
            |mb: (PeerId, Vec<QueueContent>)| queue_ok(mb.1@),
            |a: (PeerId, Vec<QueueContent>), b: (PeerId, Vec<QueueContent>)| same_mailbox(a, b),
        ),
{
    lemma_contents_split();
    assert forall|x: (PeerId, Vec<QueueContent>), y: (PeerId, Vec<QueueContent>), s: Seq<u8>, t: Seq<u8>|
        #![trigger (mailbox_fn())(x) + s, (mailbox_fn())(y) + t]
        queue_ok(x.1@) && queue_ok(y.1@) && (mailbox_fn())(x) + s == (mailbox_fn())(y) + t
        implies same_mailbox(x, y) && s == t by {
        assert((mailbox_fn())(x) + s =~= x.0@ + (section(x.1@, content_fn()) + s));
        assert((mailbox_fn())(y) + t =~= y.0@ + (section(y.1@, content_fn()) + t));
        lemma_split_fixed(x.0@, y.0@, section(x.1@, content_fn()) + s, section(y.1@, content_fn()) + t);
        assert(x.0.0 =~= y.0.0);
        lemma_section_splits(
            x.1@,
            y.1@,
            s,
            t,
            content_fn(),
            |q: QueueContent| content_encodable(q),
            |a: QueueContent, b: QueueContent| same_content(a, b),
        );
    }
}

/// Two replica metadata values that store the same content: the same root,
/// entries, members, acknowledgements and chunk index, and record for record
/// the same manifests, log and mailboxes.
pub open spec fn same_metadata(a: ReplicaMetadata, b: ReplicaMetadata) -> bool {
    &&& a.expected_root == b.expected_root
    &&& dirent_views(a.dirents@) == dirent_views(b.dirents@)
    &&& a.members@ == b.members@
    &&& a.manifests@.len() == b.manifests@.len()
    &&& forall|i: int| 0 <= i < a.manifests@.len() ==> same_manifest(#[trigger] a.manifests@[i], b.manifests@[i])
    &&& a.log@.len() == b.log@.len()
    &&& forall|i: int| 0 <= i < a.log@.len() ==> same_record(#[trigger] a.log@[i], b.log@[i])
    &&& a.next_control == b.next_control
    &&& a.mailboxes@.len() == b.mailboxes@.len()
    &&& forall|i: int| 0 <= i < a.mailboxes@.len() ==> same_mailbox(#[trigger] a.mailboxes@[i], b.mailboxes@[i])
    &&& a.acked_through@ == b.acked_through@
    &&& a.chunk_index@ == b.chunk_index@
}

proof fn lemma_tail_injective(a: ReplicaMetadata, b: ReplicaMetadata)
    requires
        collections_ok(a),
        collections_ok(b),
        tail_bytes(a) == tail_bytes(b),
    ensures
        a.members@ == b.members@,
        a.manifests@.len() == b.manifests@.len(),
        forall|i: int| 0 <= i < a.manifests@.len() ==> same_manifest(#[trigger] a.manifests@[i], b.manifests@[i]),
        a.log@.len() == b.log@.len(),
        forall|i: int| 0 <= i < a.log@.len() ==> same_record(#[trigger] a.log@[i], b.log@[i]),
        a.next_control == b.next_control,
        a.mailboxes@.len() == b.mailboxes@.len(),
        forall|i: int| 0 <= i < a.mailboxes@.len() ==> same_mailbox(#[trigger] a.mailboxes@[i], b.mailboxes@[i]),
        a.acked_through@ == b.acked_through@,
        a.chunk_index@ == b.chunk_index@,
{
    let e = Seq::<u8>::empty();
    let t7a = section(a.chunk_index@, chunk_fn());
    let t7b = section(b.chunk_index@, chunk_fn());
    let t6a = section(a.acked_through@, ack_fn()) + t7a;
    let t6b = section(b.acked_through@, ack_fn()) + t7b;
    let t5a = section(a.mailboxes@, mailbox_fn()) + t6a;
    let t5b = section(b.mailboxes@, mailbox_fn()) + t6b;
    let t4a = be64(a.next_control) + t5a;
    let t4b = be64(b.next_control) + t5b;
    let t3a = section(a.log@, log_fn()) + t4a;
    let t3b = section(b.log@, log_fn()) + t4b;
    let t2a = section(a.manifests@, manifest_fn()) + t3a;
    let t2b = section(b.manifests@, manifest_fn()) + t3b;
    assert(tail_bytes(a) == section(a.members@, peer_fn()) + t2a);
    assert(tail_bytes(b) == section(b.members@, peer_fn()) + t2b);
    lemma_peers_split();
    lemma_section_splits(a.members@, b.members@, t2a, t2b, peer_fn(), |p: PeerId| true, |x: PeerId, y: PeerId| x == y);
    assert(a.members@ =~= b.members@);
    lemma_manifests_split();
    lemma_section_splits(
        a.manifests@,
        b.manifests@,
        t3a,
        t3b,
        manifest_fn(),
        |m: Manifest| manifest_encodable(m),
        |x: Manifest, y: Manifest| same_manifest(x, y),
    );
    lemma_log_split();
    lemma_section_splits(
        a.log@,
        b.log@,
        t4a,
        t4b,
        log_fn(),
        |r: ControlRecord| record_fits(r),
        |x: ControlRecord, y: ControlRecord| same_record(x, y),
    );
    lemma_split_u64(a.next_control, b.next_control, t5a, t5b);
    lemma_mailboxes_split();
    lemma_section_splits(
        a.mailboxes@,
        b.mailboxes@,
        t6a,
        t6b,
        mailbox_fn(),
        |mb: (PeerId, Vec<QueueContent>)| queue_ok(mb.1@),
        |x: (PeerId, Vec<QueueContent>), y: (PeerId, Vec<QueueContent>)| same_mailbox(x, y),
    );
    lemma_acks_split();
    lemma_section_splits(
        a.acked_through@,
        b.acked_through@,
        t7a,
        t7b,
        ack_fn(),
        |p: (PeerId, u64)| true,
        |x: (PeerId, u64), y: (PeerId, u64)| x == y,
    );
    assert(a.acked_through@ =~= b.acked_through@);
    lemma_chunks_split();
    assert(t7a + e =~= t7a && t7b + e =~= t7b);
    lemma_section_splits(
        a.chunk_index@,
        b.chunk_index@,
        e,
        e,
        chunk_fn(),
        |c: (ChunkId, FileId, u64)| true,
        |x: (ChunkId, FileId, u64), y: (ChunkId, FileId, u64)| x == y,
    );
    assert(a.chunk_index@ =~= b.chunk_index@);
}

proof fn lemma_stored_dirents_storable(root: Seq<u8>, ds: Seq<DirentV>)
    requires
        stored_dirents_ok(root, ds),
    ensures
        forall|i: int| 0 <= i < ds.len() ==> dirent_storable(#[trigger] ds[i]),
{
    assert forall|i: int| 0 <= i < ds.len() implies dirent_storable(#[trigger] ds[i]) by {
        if ds[i].name.len() == 0 {
            assert(ds[i].name =~= Seq::<char>::empty());
            assert(utf8_bytes(Seq::<char>::empty()) =~= Seq::<u8>::empty());
        }
    }
}

/// Replica bodies under one root determine their stored entries and the
/// content of their metadata.
pub proof fn lemma_body_injective(root: Seq<u8>, ds1: Seq<DirentV>, m1: ReplicaMetadata, ds2: Seq<DirentV>, m2: ReplicaMetadata)
    requires
        stored_dirents_ok(root, ds1),
        stored_dirents_ok(root, ds2),
        collections_ok(m1),
        collections_ok(m2),
        body_bytes(root, ds1, m1) == body_bytes(root, ds2, m2),
    ensures
        ds1 == ds2,
        tail_bytes(m1) == tail_bytes(m2),
{
    lemma_take_bytes(root, section(ds1, dirent_fn()) + tail_bytes(m1));
    lemma_take_bytes(root, section(ds2, dirent_fn()) + tail_bytes(m2));
    lemma_stored_dirents_storable(root, ds1);
    lemma_stored_dirents_storable(root, ds2);
    lemma_dirents_split();
    lemma_section_splits(
        ds1,
        ds2,
        tail_bytes(m1),
        tail_bytes(m2),
        dirent_fn(),
        |d: DirentV| dirent_storable(d),
        |a: DirentV, b: DirentV| a == b,
    );
    assert(ds1 =~= ds2);
}

/// Reading back a written snapshot gives what was written. When `s` frames
/// the body of `m` at generation `g` and a reader accepts `s` as the
/// generation `g2` and metadata `m2` under the same root (the conditions on
/// `g2` and `m2` are what `decode_replica` ensures of its result), then
/// `g2` is `g` and `m2` stores the same content as `m`.
pub proof fn law_snapshot_round_trip(
    root: Seq<u8>,
    g: u64,
    ds: Seq<DirentV>,
    m: ReplicaMetadata,
    s: Seq<u8>,
    g2: u64,
    m2: ReplicaMetadata,
)
    requires
        valid_replica(root, g, ds, m),
        s == replica_frame(g, body_bytes(root, ds, m)),
        s == replica_frame(g2, framed_body(s)),
        m2.expected_root@ == root,
        collections_ok(m2),
        body_of(framed_body(s), root, m2),
    ensures
        g2 == g,
        same_metadata(m, m2),
{
    law_written_snapshot_reads_back(root, g, ds, m);
    let body = body_bytes(root, ds, m);
    assert(framed_body(s) == body);
    assert(replica_frame(g2, body) == s);
    if dirent_views(m2.dirents@) == seq![root_entry(root)] && body == body_bytes(root, Seq::<DirentV>::empty(), m2) {
        lemma_body_injective(root, ds, m, Seq::<DirentV>::empty(), m2);
        assert(canonical_dirents(root, ds) == seq![root_entry(root)]);
    } else {
        lemma_body_injective(root, ds, m, dirent_views(m2.dirents@), m2);
    }
    lemma_tail_injective(m, m2);
    assert(m.expected_root.0 =~= m2.expected_root.0);
}

spec fn update_tag(u: ControlUpdate) -> u8 {
    match u {
        ControlUpdate::NewManifest(_) => 0,
        ControlUpdate::Add(_) => 1,
        ControlUpdate::Clear(_) => 2,
        ControlUpdate::Remove(_) => 3,
        ControlUpdate::Link { .. } => 4,
        ControlUpdate::Unlink { .. } => 5,
        ControlUpdate::Rename { .. } => 6,
    }
}

proof fn lemma_update_tag(u: ControlUpdate)
    ensures
        update_bytes(u).len() > 0,
        update_bytes(u)[0] == update_tag(u),
{
}

/// Control record bytes determine the record.
pub proof fn lemma_record_injective(a: ControlRecord, b: ControlRecord)
    requires
        update_encodable(a.update),
        update_encodable(b.update),
        record_bytes(a) == record_bytes(b),
    ensures
        same_record(a, b),
{
    lemma_split_u64(a.id, b.id, update_bytes(a.update), update_bytes(b.update));
    lemma_update_injective(a.update, b.update);
}

} // verus!
