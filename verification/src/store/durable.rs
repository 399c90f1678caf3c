//! The durable store's limits, its chunk file names, and the snapshot a
//! persist writes.

use vstd::prelude::*;

use crate::encoding::replica::{
    body_bytes, body_of, canonical_dirents, collections_ok, decode_replica, encode_replica, framed_body,
    replica_frame, stored_dirents_ok, valid_replica, MAX_REPLICA_BYTES,
};
use crate::store::tree::DirentV;
use crate::error::{Error, Result};
use crate::protocol::manifest::{contains_peer, is_member};
use crate::ids::{bytes32_eq, lex_lt, ChunkId, FileId};
use crate::net::admin::{hex, hex_text};
use crate::store::chunks::{content_address, ChunkStore, MemoryChunkStore, StoredChunk};
use crate::encoding::digests::chunk_id;
use crate::store::replica::{ascending_chunks, ids_prefix_has, mailbox_refs, queue_refs, queued_chunk, referenced, ReplicaMetadata};
use crate::store::tree::dirent_views;
use crate::sync::host::QueueContent;

verus! {

/// The largest plaintext chunk a store accepts: 1 MiB.
pub const MAX_CHUNK_BYTES: u64 = 1048576;

/// The file holding a chunk's plaintext: its id in lower-case hex.
pub fn chunk_file_name(chunk_id: &ChunkId) -> (r: String)
    ensures
        r@ == hex_text(chunk_id@),
{
    hex(&chunk_id.0)
}

/// Whether two snapshots agree on everything but the chunk index.
pub open spec fn same_but_index(a: ReplicaMetadata, b: ReplicaMetadata) -> bool {
    &&& a.expected_root == b.expected_root
    &&& a.dirents == b.dirents
    &&& a.members == b.members
    &&& a.manifests == b.manifests
    &&& a.log == b.log
    &&& a.next_control == b.next_control
    &&& a.mailboxes == b.mailboxes
    &&& a.acked_through == b.acked_through
}

/// The chunk index a snapshot of `m` records: in ascending order, exactly
/// the chunks `m` still pins that the store holds, each with the file and
/// position it is stored under.
pub open spec fn index_rebuilt(
    idx: Seq<(ChunkId, FileId, u64)>,
    m: ReplicaMetadata,
    stored: Map<Seq<u8>, StoredChunk>,
) -> bool {
    &&& forall|i: int, j: int| 0 <= i < j < idx.len() ==> lex_lt((#[trigger] idx[i]).0@, (#[trigger] idx[j]).0@)
    &&& forall|i: int|
        0 <= i < idx.len() ==> {
            let c = (#[trigger] idx[i]).0@;
            &&& referenced(m, c)
            &&& stored.contains_key(c)
            &&& stored[c].0 == idx[i].1@
            &&& stored[c].1 == idx[i].2
        }
    &&& forall|c: Seq<u8>|
        #![trigger referenced(m, c)]
        referenced(m, c) && stored.contains_key(c) ==> exists|i: int| 0 <= i < idx.len() && (#[trigger] idx[i]).0@ == c
}

/// Every chunk body a mailbox still owes is held.
pub open spec fn mailbox_chunks_held(m: ReplicaMetadata, stored: Map<Seq<u8>, StoredChunk>) -> bool {
    forall|c: Seq<u8>| #[trigger] mailbox_refs(m.mailboxes@, m.mailboxes@.len() as int, c) ==> stored.contains_key(c)
}

/// Whether the snapshot of `m` at `generation` can be written.
pub open spec fn snapshot_ok(m: ReplicaMetadata, generation: u64) -> bool {
    &&& stored_dirents_ok(m.expected_root@, dirent_views(m.dirents@))
    &&& collections_ok(m)
    &&& snapshot_bytes(m, generation).len() <= MAX_REPLICA_BYTES
}

/// The bytes of the snapshot of `m` at `generation`.
pub open spec fn snapshot_bytes(m: ReplicaMetadata, generation: u64) -> Seq<u8> {
    replica_frame(
        generation,
        body_bytes(m.expected_root@, canonical_dirents(m.expected_root@, dirent_views(m.dirents@)), m),
    )
}

/// The index entries for `retained` that `chunks` holds, in order.
#[verifier::spinoff_prover]
#[verifier::rlimit(40)]
fn rebuild_index(metadata: &ReplicaMetadata, retained: &Vec<ChunkId>, chunks: &MemoryChunkStore) -> (r: Vec<(ChunkId, FileId, u64)>)
    requires
        chunks.wf(),
        ascending_chunks(retained@),
        forall|c: Seq<u8>| #[trigger] ids_prefix_has(retained@, retained@.len() as int, c) <==> referenced(*metadata, c),
    ensures
        index_rebuilt(r@, *metadata, chunks@),
{
    let mut index: Vec<(ChunkId, FileId, u64)> = Vec::new();
    let mut i: usize = 0;
    while i < retained.len()
        invariant
            i <= retained@.len(),
            chunks.wf(),
            ascending_chunks(retained@),
            forall|c: Seq<u8>| #[trigger] ids_prefix_has(retained@, retained@.len() as int, c) <==> referenced(*metadata, c),
            forall|k: int| 0 <= k < index@.len() ==> exists|j: int| 0 <= j < i && (#[trigger] retained@[j])@ == (#[trigger] index@[k]).0@,
            forall|a: int, b: int| 0 <= a < b < index@.len() ==> lex_lt((#[trigger] index@[a]).0@, (#[trigger] index@[b]).0@),
            forall|k: int|
                0 <= k < index@.len() ==> {
                    let c = (#[trigger] index@[k]).0@;
                    &&& referenced(*metadata, c)
                    &&& chunks@.contains_key(c)
                    &&& chunks@[c].0 == index@[k].1@
                    &&& chunks@[c].1 == index@[k].2
                },
            forall|j: int|
                0 <= j < i && chunks@.contains_key((#[trigger] retained@[j])@) ==> exists|k: int|
                    0 <= k < index@.len() && (#[trigger] index@[k]).0@ == retained@[j]@,
        decreases retained@.len() - i,
    {
        let id = retained[i];
        proof {
            assert(ids_prefix_has(retained@, retained@.len() as int, id@));
        }
        match chunks.get_record(&id) {
            Some(record) => {
                let ghost before = index@;
                proof {
                    assert forall|k: int| 0 <= k < before.len() implies lex_lt((#[trigger] before[k]).0@, id@) by {
                        let j = choose|j: int| 0 <= j < i && (#[trigger] retained@[j])@ == before[k].0@;
                    }
                }
                index.push((id, record.file_id, record.index));
                proof {
                    assert(index@[before.len() as int] == (id, record.file_id, record.index));
                    assert forall|k: int| 0 <= k < index@.len() implies exists|j: int|
                        0 <= j < i + 1 && (#[trigger] retained@[j])@ == (#[trigger] index@[k]).0@ by {
                        if k < before.len() {
                            assert(index@[k] == before[k]);
                            let j = choose|j: int| 0 <= j < i && (#[trigger] retained@[j])@ == before[k].0@;
                            assert(retained@[j]@ == index@[k].0@);
                        } else {
                            assert(retained@[i as int]@ == index@[k].0@);
                        }
                    }
                    assert forall|j: int| 0 <= j < i + 1 && chunks@.contains_key((#[trigger] retained@[j])@) implies exists|k: int|
                        0 <= k < index@.len() && (#[trigger] index@[k]).0@ == retained@[j]@ by {
                        if j < i {
                            let k = choose|k: int| 0 <= k < before.len() && (#[trigger] before[k]).0@ == retained@[j]@;
                            assert(index@[k] == before[k]);
                        } else {
                            assert(index@[before.len() as int].0@ == retained@[j]@);
                        }
                    }
                }
            },
            None => {},
        }
        i = i + 1;
    }
    proof {
        assert forall|c: Seq<u8>| #![trigger referenced(*metadata, c)] referenced(*metadata, c) && chunks@.contains_key(c)
            implies exists|k: int| 0 <= k < index@.len() && (#[trigger] index@[k]).0@ == c by {
            assert(ids_prefix_has(retained@, retained@.len() as int, c));
            let j = choose|j: int| 0 <= j < retained@.len() && j < retained@.len() && (#[trigger] retained@[j])@ == c;
        }
    }
    index
}

/// Whether every chunk body a mailbox owes is held, and if not, refuses.
fn check_mailbox_chunks(metadata: &ReplicaMetadata, chunks: &MemoryChunkStore) -> (r: Result<()>)
    requires
        chunks.wf(),
    ensures
        r is Ok <==> mailbox_chunks_held(*metadata, chunks@),
        r matches Err(e) ==> e is State,
{
    let mut a: usize = 0;
    while a < metadata.mailboxes.len()
        invariant
            a <= metadata.mailboxes@.len(),
            chunks.wf(),
            forall|c: Seq<u8>| #[trigger] mailbox_refs(metadata.mailboxes@, a as int, c) ==> chunks@.contains_key(c),
        decreases metadata.mailboxes@.len() - a,
    {
        let queue = &metadata.mailboxes[a].1;
        let mut b: usize = 0;
        while b < queue.len()
            invariant
                b <= queue@.len(),
                a < metadata.mailboxes@.len(),
                queue@ == metadata.mailboxes@[a as int].1@,
                chunks.wf(),
                forall|c: Seq<u8>| #[trigger] mailbox_refs(metadata.mailboxes@, a as int, c) ==> chunks@.contains_key(c),
                forall|c: Seq<u8>| #[trigger] queue_refs(queue@, b as int, c) ==> chunks@.contains_key(c),
            decreases queue@.len() - b,
        {
            if let QueueContent::Chunk { chunk_id, .. } = &queue[b] {
                if chunks.get_record(chunk_id).is_none() {
                    proof {
                        assert(queued_chunk(queue@[b as int], chunk_id@));
                        assert(queue_refs(queue@, queue@.len() as int, chunk_id@));
                        assert(mailbox_refs(metadata.mailboxes@, metadata.mailboxes@.len() as int, chunk_id@));
                    }
                    return Err(Error::State("mailbox references a missing plaintext chunk"));
                }
            }
            proof {
                assert forall|c: Seq<u8>| #[trigger] queue_refs(queue@, b + 1, c) implies chunks@.contains_key(c) by {
                    let x = choose|x: int| 0 <= x < b + 1 && x < queue@.len() && queued_chunk(#[trigger] queue@[x], c);
                    if x < b {
                        assert(queue_refs(queue@, b as int, c));
                    }
                }
            }
            b = b + 1;
        }
        proof {
            assert forall|c: Seq<u8>| #[trigger] mailbox_refs(metadata.mailboxes@, a + 1, c) implies chunks@.contains_key(c) by {
                let x = choose|x: int| 0 <= x < a + 1 && x < metadata.mailboxes@.len() && queue_refs(
                    (#[trigger] metadata.mailboxes@[x]).1@,
                    metadata.mailboxes@[x].1@.len() as int,
                    c,
                );
                if x < a {
                    assert(mailbox_refs(metadata.mailboxes@, a as int, c));
                } else {
                    assert(queue_refs(queue@, queue@.len() as int, c));
                }
            }
        }
        a = a + 1;
    }
    Ok(())
}

/// What a persist of `metadata` writes after `generation`, for a store
/// opened on `expected_root` that holds `chunks`: the snapshot with its
/// chunk index rebuilt, the next generation, and the snapshot's bytes.
/// Every chunk a mailbox owes must be held.
pub fn stage_snapshot(metadata: ReplicaMetadata, expected_root: &FileId, generation: u64, chunks: &MemoryChunkStore) -> (r:
    Result<(ReplicaMetadata, u64, Vec<u8>)>)
    requires
        chunks.wf(),
    ensures
        match r {
            Ok((staged, next, bytes)) => {
                &&& metadata.expected_root@ == expected_root@
                &&& mailbox_chunks_held(metadata, chunks@)
                &&& same_but_index(staged, metadata)
                &&& index_rebuilt(staged.chunk_index@, metadata, chunks@)
                &&& next == generation + 1
                &&& snapshot_ok(staged, next)
                &&& bytes@ == snapshot_bytes(staged, next)
            },
            Err(e) => if metadata.expected_root@ != expected_root@ {
                e is InvalidInput
            } else if !mailbox_chunks_held(metadata, chunks@) {
                e is State
            } else if generation == u64::MAX {
                e is State
            } else {
                e is InvalidInput && exists|st: ReplicaMetadata|
                    same_but_index(st, metadata) && index_rebuilt(st.chunk_index@, metadata, chunks@)
                        && !#[trigger] snapshot_ok(st, (generation + 1) as u64)
            },
        },
{
    if !bytes32_eq(&metadata.expected_root.0, &expected_root.0) {
        return Err(Error::InvalidInput("replica root differs from open store"));
    }
    let retained = metadata.retain_ids();
    let index = rebuild_index(&metadata, &retained, chunks);
    check_mailbox_chunks(&metadata, chunks)?;
    if generation == u64::MAX {
        return Err(Error::State("replica generation exhausted"));
    }
    let next = generation + 1;
    let ghost before_staging = metadata;
    let mut staged = metadata;
    staged.chunk_index = index;
    assert(same_but_index(staged, before_staging));
    match encode_replica(&staged, next) {
        Ok(bytes) => Ok((staged, next, bytes)),
        Err(e) => {
            assert(!snapshot_ok(staged, (generation + 1) as u64));
            Err(e)
        },
    }
}

/// What reading a chunk file gave.
pub enum ChunkFile {
    /// No file.
    Missing,
    /// The file could not be read whole.
    Unreadable,
    /// The file's content.
    Read(Vec<u8>),
}

/// A chunk file that reopening a store keeps: its content is the chunk
/// that its id names.
pub open spec fn chunk_file_good(c: (ChunkId, FileId, u64, ChunkFile)) -> bool {
    c.3 matches ChunkFile::Read(p) && content_address(c.1@, c.2, p@) == c.0@
}

/// A chunk file that reopening a store discards: unreadable, or with content
/// that is not the chunk its id names.
pub open spec fn chunk_file_bad(c: (ChunkId, FileId, u64, ChunkFile)) -> bool {
    c.3 is Unreadable || (c.3 is Read && !chunk_file_good(c))
}

/// The chunks kept from the files read, in reading order.
pub open spec fn kept_chunks(s: Seq<(ChunkId, FileId, u64, ChunkFile)>) -> Map<Seq<u8>, StoredChunk>
    decreases s.len(),
{
    if s.len() == 0 {
        Map::empty()
    } else {
        let c = s.last();
        let rest = kept_chunks(s.drop_last());
        match c.3 {
            ChunkFile::Read(p) => if chunk_file_good(c) {
                rest.insert(c.0@, (c.1@, c.2, p@))
            } else {
                rest
            },
            _ => rest,
        }
    }
}

/// The ids of the files to discard, in reading order.
pub open spec fn discarded_chunks(s: Seq<(ChunkId, FileId, u64, ChunkFile)>) -> Seq<ChunkId>
    decreases s.len(),
{
    if s.len() == 0 {
        Seq::empty()
    } else if chunk_file_bad(s.last()) {
        discarded_chunks(s.drop_last()).push(s.last().0)
    } else {
        discarded_chunks(s.drop_last())
    }
}

/// Reopening a store's chunks: `found` holds, for each chunk the snapshot
/// `metadata` retains, the chunk's id, file and position and what reading
/// its file gave. A file whose content is the chunk its id names is kept;
/// an unreadable or mismatched file is to be discarded, a missing one is
/// skipped. Every chunk a mailbox still owes must be among those kept.
/// Returns the store of kept chunks and the ids of the files to discard.
pub fn admit_chunks(metadata: &ReplicaMetadata, found: &[(ChunkId, FileId, u64, ChunkFile)]) -> (r: Result<(MemoryChunkStore, Vec<ChunkId>)>)
    ensures
        match r {
            Ok((store, discard)) => {
                &&& store.wf()
                &&& store@ == kept_chunks(found@)
                &&& discard@ == discarded_chunks(found@)
                &&& mailbox_chunks_held(*metadata, store@)
            },
            Err(e) => e == Error::State("mailbox references an unavailable plaintext chunk")
                && !mailbox_chunks_held(*metadata, kept_chunks(found@)),
        },
{
    let mut store = MemoryChunkStore::new();
    let mut discard: Vec<ChunkId> = Vec::new();
    let mut i: usize = 0;
    while i < found.len()
        invariant
            i <= found@.len(),
            store.wf(),
            store@ == kept_chunks(found@.take(i as int)),
            discard@ == discarded_chunks(found@.take(i as int)),
        decreases found@.len() - i,
    {
        let ghost pre = found@.take(i as int);
        proof {
            assert(found@.take(i + 1).drop_last() =~= pre);
            assert(found@.take(i + 1).last() == found@[i as int]);
        }
        let (id, file_id, index, file) = &found[i];
        match file {
            ChunkFile::Read(plaintext) => {
                let computed = chunk_id(file_id, *index, plaintext.as_slice());
                if bytes32_eq(&computed.0, &id.0) {
                    proof {
                        store.lemma_valid();
                    }
                    store.put(file_id, *index, crate::wire::copy_bytes(plaintext));
                    proof {
                        store.lemma_valid();
                    }
                } else {
                    discard.push(*id);
                }
            },
            ChunkFile::Unreadable => {
                discard.push(*id);
            },
            ChunkFile::Missing => {},
        }
        i = i + 1;
    }
    proof {
        assert(found@.take(found@.len() as int) =~= found@);
    }
    if check_mailbox_chunks(metadata, &store).is_err() {
        return Err(Error::State("mailbox references an unavailable plaintext chunk"));
    }
    Ok((store, discard))
}

/// Reopening a store's snapshot: no file is a fresh store at generation 0;
/// an empty file is refused; otherwise the file must decode as a snapshot of
/// the store's root.
pub fn open_snapshot(snapshot: Option<&[u8]>, expected_root: FileId) -> (r: Result<(u64, Option<ReplicaMetadata>)>)
    ensures
        snapshot is None ==> r == Ok::<(u64, Option<ReplicaMetadata>), Error>((0, None)),
        snapshot is Some && snapshot.unwrap()@.len() == 0 ==> (r matches Err(e) && e is InvalidInput),
        snapshot is Some && snapshot.unwrap()@.len() > 0 ==> match r {
            Ok((generation, Some(m))) => {
                &&& m.expected_root == expected_root
                &&& collections_ok(m)
                &&& snapshot.unwrap()@ == replica_frame(generation, framed_body(snapshot.unwrap()@))
                &&& body_of(framed_body(snapshot.unwrap()@), expected_root@, m)
            },
            Ok((_, None)) => false,
            Err(_) => forall|g: u64, ds: Seq<DirentV>, m: ReplicaMetadata|
                valid_replica(expected_root@, g, ds, m) ==> snapshot.unwrap()@ != #[trigger] replica_frame(
                    g,
                    body_bytes(expected_root@, ds, m),
                ),
        },
{
    match snapshot {
        None => Ok((0, None)),
        Some(bytes) => {
            if bytes.len() == 0 {
                return Err(Error::InvalidInput("empty replica snapshot"));
            }
            let (generation, metadata) = decode_replica(bytes, expected_root)?;
            Ok((generation, Some(metadata)))
        },
    }
}

/// Some queued item in `mb` is a body of a chunk of file `f`.
pub open spec fn mailbox_pins_file(mb: Seq<(crate::ids::PeerId, Vec<QueueContent>)>, f: Seq<u8>) -> bool {
    exists|a: int, b: int|
        0 <= a < mb.len() && 0 <= b < mb[a].1@.len() && (#[trigger] mb[a].1@[b] matches QueueContent::Chunk {
            file_id,
            ..
        } && file_id@ == f)
}

/// A chunk body of `f` queued at any position of any mailbox pins `f`,
/// whatever is queued before it.
pub proof fn law_queued_chunk_pins_file(
    mb: Seq<(crate::ids::PeerId, Vec<QueueContent>)>,
    f: Seq<u8>,
    a: int,
    b: int,
)
    requires
        0 <= a < mb.len(),
        0 <= b < mb[a].1@.len(),
        mb[a].1@[b] matches QueueContent::Chunk { file_id, .. } && file_id@ == f,
    ensures
        mailbox_pins_file(mb, f),
{
    assert(mb[a].1@[b] matches QueueContent::Chunk { file_id, .. } && file_id@ == f);
}

/// Mailboxes that queue no chunk body of `f` do not pin `f`, whatever other
/// files' chunk bodies or control records they hold.
pub proof fn law_only_own_chunks_pin_file(mb: Seq<(crate::ids::PeerId, Vec<QueueContent>)>, f: Seq<u8>)
    requires
        forall|a: int, b: int|
            0 <= a < mb.len() && 0 <= b < mb[a].1@.len() ==> !(#[trigger] mb[a].1@[b] matches QueueContent::Chunk {
                file_id,
                ..
            } && file_id@ == f),
    ensures
        !mailbox_pins_file(mb, f),
{
}

fn pins_file(metadata: &ReplicaMetadata, file_id: &FileId) -> (r: bool)
    ensures
        r == mailbox_pins_file(metadata.mailboxes@, file_id@),
{
    let mut a: usize = 0;
    while a < metadata.mailboxes.len()
        invariant
            a <= metadata.mailboxes@.len(),
            forall|x: int, y: int|
                0 <= x < a && 0 <= y < metadata.mailboxes@[x].1@.len() ==> !(#[trigger] metadata.mailboxes@[x].1@[y] matches QueueContent::Chunk {
                    file_id: f,
                    ..
                } && f@ == file_id@),
        decreases metadata.mailboxes@.len() - a,
    {
        let queue = &metadata.mailboxes[a].1;
        let mut b: usize = 0;
        while b < queue.len()
            invariant
                a < metadata.mailboxes@.len(),
                queue@ == metadata.mailboxes@[a as int].1@,
                b <= queue@.len(),
                forall|y: int| 0 <= y < b ==> !(#[trigger] queue@[y] matches QueueContent::Chunk { file_id: f, .. } && f@ == file_id@),
            decreases queue@.len() - b,
        {
            if let QueueContent::Chunk { file_id: f, .. } = &queue[b] {
                if bytes32_eq(&f.0, &file_id.0) {
                    proof {
                        assert(metadata.mailboxes@[a as int].1@[b as int] == queue@[b as int]);
                    }
                    return true;
                }
            }
            b = b + 1;
        }
        proof {
            assert forall|x: int, y: int|
                0 <= x < a + 1 && 0 <= y < metadata.mailboxes@[x].1@.len() implies !(#[trigger] metadata.mailboxes@[x].1@[y] matches QueueContent::Chunk {
                    file_id: f,
                    ..
                } && f@ == file_id@) by {
                if x == a {
                    assert(metadata.mailboxes@[x].1@[y] == queue@[y]);
                }
            }
        }
        a = a + 1;
    }
    false
}

/// A member drops its copy of a file's chunks. Only a member other than the
/// host, in a vault that holds both, may; and not while a mailbox still owes a
/// body of the file. Returns how many chunks were dropped. `members` are the
/// replica's members and `metadata` the replica's stored metadata.
pub fn evict_file(
    store: &mut MemoryChunkStore,
    metadata: &ReplicaMetadata,
    local: crate::ids::PeerId,
    host: crate::ids::PeerId,
    members: &[crate::ids::PeerId],
    file_id: FileId,
) -> (r: Result<usize>)
    requires
        old(store).wf(),
    ensures
        final(store).wf(),
        local@ == host@ || !is_member(members@, local@) || !is_member(members@, host@) ==> r == Err::<usize, Error>(
            Error::State("replica is not a live member with H"),
        ) && final(store)@ == old(store)@,
        !(local@ == host@ || !is_member(members@, local@) || !is_member(members@, host@)) && mailbox_pins_file(
            metadata.mailboxes@,
            file_id@,
        ) ==> r == Err::<usize, Error>(Error::State("mailbox pins file chunks")) && final(store)@ == old(store)@,
        r matches Ok(n) ==> {
            &&& n == old(store)@.len() - final(store)@.len()
            &&& forall|k: Seq<u8>|
                #[trigger] final(store)@.contains_key(k) <==> (old(store)@.contains_key(k) && old(store)@[k].0
                    != file_id@)
            &&& forall|k: Seq<u8>| #[trigger] final(store)@.contains_key(k) ==> final(store)@[k] == old(store)@[k]
        },
        !(local@ == host@ || !is_member(members@, local@) || !is_member(members@, host@)) && !mailbox_pins_file(
            metadata.mailboxes@,
            file_id@,
        ) ==> r is Ok,
{
    if bytes32_eq(&local.0, &host.0) || !contains_peer(members, &local) || !contains_peer(members, &host) {
        return Err(Error::State("replica is not a live member with H"));
    }
    if pins_file(metadata, &file_id) {
        return Err(Error::State("mailbox pins file chunks"));
    }
    let before = store.len();
    proof {
        store.lemma_finite();
    }
    let ghost old_view = store@;
    store.remove_file(&file_id);
    let after = store.len();
    proof {
        assert(store@.dom().subset_of(old_view.dom()));
        vstd::set_lib::lemma_len_subset(store@.dom(), old_view.dom());
    }
    Ok(before - after)
}

} // verus!
