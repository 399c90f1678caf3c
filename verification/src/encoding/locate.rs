//! Pull requests and have queries/replies.

use vstd::prelude::*;

use crate::error::{Error, Result};
use crate::ids::{ChunkId, FileId};
use crate::protocol::locate::{
    bitset_len, same_ids, require_count, HaveQuery, HaveReply, MAX_HAVE_CHUNK_IDS,
};
use crate::protocol::pull::{PullRequest, MAX_PULL_CHUNK_IDS};
use crate::wire::{
    be32, have_magic, ids_bytes, lemma_be32, lemma_ids_bytes_injective, lemma_ids_bytes_len, lemma_ids_bytes_push,
    lemma_take_bytes, lemma_take_u32, lemma_take_u8, push_array32, push_bytes, push_have_magic,
    push_length, Reader,
};

verus! {

/// Reads `count` 32-byte chunk identifiers; the caller has checked that they
/// fit in what remains.
pub fn read_chunk_ids(reader: &mut Reader, count: usize) -> (r: Vec<ChunkId>)
    requires
        old(reader).wf(),
        32 * count <= old(reader).rest().len(),
    ensures
        final(reader).wf(),
        r@.len() == count,
        ids_bytes(r@) == old(reader).rest().take(32 * count),
        final(reader).rest() == old(reader).rest().skip(32 * count),
{
    let ghost start = reader.rest();
    let mut ids: Vec<ChunkId> = Vec::with_capacity(count);
    let mut i: usize = 0;
    while i < count
        invariant
            reader.wf(),
            i <= count,
            32 * count <= start.len(),
            ids@.len() == i,
            ids_bytes(ids@) == start.take(32 * i),
            reader.rest() == start.skip(32 * i),
        decreases count - i,
    {
        let ghost before = reader.rest();
        let r = reader.array32();
        match r {
            Ok(id) => {
                proof {
                    lemma_ids_bytes_push(ids@, ChunkId(id));
                    assert(start.take(32 * (i + 1)) =~= start.take(32 * i) + id@);
                    assert(start.skip(32 * (i + 1)) =~= reader.rest());
                }
                ids.push(ChunkId(id));
            },
            Err(_) => {
                proof {
                    assert(before.len() >= 32);
                }
                return ids;
            },
        }
        i = i + 1;
    }
    ids
}

pub proof fn lemma_chunk_ids_len(s: Seq<ChunkId>)
    ensures
        ids_bytes(s).len() == 32 * s.len(),
{
    lemma_ids_bytes_len(s, 32);
}

// ---------------------------------------------------------------------------
// Pull requests
// ---------------------------------------------------------------------------

pub open spec fn pull_bytes(ids: Seq<ChunkId>) -> Seq<u8> {
    be32(ids.len() as u32) + ids_bytes(ids)
}

/// Pull request bytes determine the identifiers they carry: a decoded
/// encoding asks for the same chunks, in the same order.
pub proof fn law_pull_bytes_injective(a: Seq<ChunkId>, b: Seq<ChunkId>)
    requires
        a.len() <= MAX_PULL_CHUNK_IDS,
        b.len() <= MAX_PULL_CHUNK_IDS,
        pull_bytes(a) == pull_bytes(b),
    ensures
        same_ids(a, b),
{
    lemma_take_u32(a.len() as u32, ids_bytes(a));
    lemma_take_u32(b.len() as u32, ids_bytes(b));
    lemma_ids_bytes_injective(a, b, 32);
}

pub fn encode_pull_request(request: &PullRequest) -> (r: Result<Vec<u8>>)
    ensures
        r matches Ok(v) && v@ == pull_bytes(request.ids()),
{
    let ids = request.chunk_ids();
    let mut out: Vec<u8> = Vec::new();
    push_length(&mut out, ids.len())?;
    let mut i: usize = 0;
    while i < ids.len()
        invariant
            i <= ids@.len(),
            out@ == be32(ids@.len() as u32) + ids_bytes(ids@.take(i as int)),
        decreases ids@.len() - i,
    {
        proof {
            lemma_ids_bytes_push(ids@.take(i as int), ids@[i as int]);
            assert(ids@.take(i + 1) =~= ids@.take(i as int).push(ids@[i as int]));
        }
        push_array32(&mut out, &ids[i].0);
        i = i + 1;
    }
    assert(ids@.take(ids@.len() as int) =~= ids@);
    Ok(out)
}

pub fn decode_pull_request(bytes: &[u8]) -> (r: Result<PullRequest>)
    ensures
        match r {
            Ok(p) => bytes@ == pull_bytes(p.ids()),
            Err(e) => e is InvalidInput && forall|ids: Seq<ChunkId>|
                ids.len() <= MAX_PULL_CHUNK_IDS ==> bytes@ != #[trigger] pull_bytes(ids),
        },
{
    let ghost s = bytes@;
    let ghost target = choose|ids: Seq<ChunkId>|
        ids.len() <= MAX_PULL_CHUNK_IDS && s == #[trigger] pull_bytes(ids);
    let ghost canon = target.len() <= MAX_PULL_CHUNK_IDS && s == pull_bytes(target);
    proof {
        if canon {
            lemma_take_u32(target.len() as u32, ids_bytes(target));
            lemma_chunk_ids_len(target);
        }
    }
    let mut reader = Reader::new(bytes);
    let count = reader.u32()? as usize;
    if count > MAX_PULL_CHUNK_IDS {
        return Err(Error::InvalidInput("pull request exceeds the 32 chunk identifier cap"));
    }
    if count > reader.remaining() / 32 {
        return Err(Error::InvalidInput("truncated pull request"));
    }
    let ghost before = reader.rest();
    let chunk_ids = read_chunk_ids(&mut reader, count);
    proof {
        lemma_chunk_ids_len(chunk_ids@);
        assert(before =~= ids_bytes(chunk_ids@) + reader.rest());
    }
    reader.finish()?;
    let request = PullRequest::new(chunk_ids)?;
    assert(bytes@ =~= pull_bytes(request.ids()));
    Ok(request)
}

// ---------------------------------------------------------------------------
// Have queries and replies: strict magic framing, kind 1 and kind 2
// ---------------------------------------------------------------------------

pub open spec fn have_query_bytes(file_id: FileId, ids: Seq<ChunkId>) -> Seq<u8> {
    have_magic() + (seq![1u8] + (file_id@ + (be32(ids.len() as u32) + ids_bytes(ids))))
}

pub open spec fn have_reply_bytes(r: HaveReply) -> Seq<u8> {
    have_magic() + (seq![2u8] + (r.file_id@ + (be32(r.chunk_ids@.len() as u32) + (ids_bytes(
        r.chunk_ids@,
    ) + r.have_bitset@))))
}

pub open spec fn have_reply_sized(r: HaveReply) -> bool {
    &&& 1 <= r.chunk_ids@.len() <= MAX_HAVE_CHUNK_IDS
    &&& r.have_bitset@.len() == bitset_len(r.chunk_ids@.len() as int)
}

fn push_chunk_ids(out: &mut Vec<u8>, ids: &[ChunkId])
    ensures
        final(out)@ == old(out)@ + ids_bytes(ids@),
{
    let mut i: usize = 0;
    while i < ids.len()
        invariant
            i <= ids@.len(),
            out@ == old(out)@ + ids_bytes(ids@.take(i as int)),
        decreases ids@.len() - i,
    {
        proof {
            lemma_ids_bytes_push(ids@.take(i as int), ids@[i as int]);
            assert(ids@.take(i + 1) =~= ids@.take(i as int).push(ids@[i as int]));
        }
        push_array32(out, &ids[i].0);
        i = i + 1;
    }
    assert(ids@.take(ids@.len() as int) =~= ids@);
}

pub fn encode_have_query(query: &HaveQuery) -> (r: Result<Vec<u8>>)
    ensures
        r matches Ok(v) && v@ == have_query_bytes(query.file(), query.ids()),
{
    let ids = query.chunk_ids();
    require_count(ids.len())?;
    let mut out: Vec<u8> = Vec::with_capacity(12 + 1 + 32 + 4 + 32 * ids.len());
    push_have_magic(&mut out);
    out.push(1);
    push_array32(&mut out, &query.get_file_id().0);
    push_length(&mut out, ids.len())?;
    push_chunk_ids(&mut out, ids);
    assert(out@ =~= have_query_bytes(query.file(), query.ids()));
    Ok(out)
}

pub fn decode_have_query(bytes: &[u8]) -> (r: Result<HaveQuery>)
    ensures
        match r {
            Ok(q) => bytes@ == have_query_bytes(q.file(), q.ids()),
            Err(e) => e is InvalidInput && forall|f: FileId, ids: Seq<ChunkId>|
                1 <= ids.len() <= MAX_HAVE_CHUNK_IDS ==> bytes@ != #[trigger] have_query_bytes(
                    f,
                    ids,
                ),
        },
{
    let ghost s = bytes@;
    let ghost target = choose|t: (FileId, Seq<ChunkId>)|
        1 <= t.1.len() <= MAX_HAVE_CHUNK_IDS && s == #[trigger] have_query_bytes(t.0, t.1);
    let ghost canon = 1 <= target.1.len() <= MAX_HAVE_CHUNK_IDS && s == have_query_bytes(
        target.0,
        target.1,
    );
    proof {
        if canon {
            let (f, ids) = target;
            let tail = ids_bytes(ids);
            lemma_take_bytes(have_magic(), seq![1u8] + (f@ + (be32(ids.len() as u32) + tail)));
            lemma_take_u8(1u8, f@ + (be32(ids.len() as u32) + tail));
            lemma_take_bytes(f@, be32(ids.len() as u32) + tail);
            lemma_take_u32(ids.len() as u32, tail);
            lemma_chunk_ids_len(ids);
        }
        assert forall|f: FileId, ids: Seq<ChunkId>|
            1 <= ids.len() <= MAX_HAVE_CHUNK_IDS && s == #[trigger] have_query_bytes(f, ids)
                implies canon by {
            assert(exists|t: (FileId, Seq<ChunkId>)|
                1 <= t.1.len() <= MAX_HAVE_CHUNK_IDS && s == #[trigger] have_query_bytes(t.0, t.1))
                by {
                let t = (f, ids);
                assert(s == have_query_bytes(t.0, t.1));
            }
        }
    }
    let magic: [u8; 12] = [113, 102, 115, 47, 118, 49, 47, 104, 97, 118, 101, 47];
    assert(magic@ =~= have_magic());
    let mut reader = Reader::new(bytes);
    reader.require_prefix(&magic)?;
    let kind = reader.byte()?;
    if kind != 1 {
        return Err(Error::InvalidInput("invalid have query kind"));
    }
    let file_id = FileId(reader.array32()?);
    let count = reader.u32()? as usize;
    require_count(count)?;
    if count > reader.remaining() / 32 {
        return Err(Error::InvalidInput("truncated have query"));
    }
    let ghost before = reader.rest();
    let chunk_ids = read_chunk_ids(&mut reader, count);
    proof {
        lemma_chunk_ids_len(chunk_ids@);
        assert(before =~= ids_bytes(chunk_ids@) + reader.rest());
    }
    reader.finish()?;
    let query = HaveQuery::new(file_id, chunk_ids)?;
    assert(bytes@ =~= have_query_bytes(query.file(), query.ids()));
    Ok(query)
}

pub fn encode_have_reply(reply: &HaveReply) -> (r: Result<Vec<u8>>)
    ensures
        match r {
            Ok(v) => v@ == have_reply_bytes(*reply) && have_reply_sized(*reply),
            Err(e) => e is InvalidInput && !have_reply_sized(*reply),
        },
{
    require_count(reply.chunk_ids.len())?;
    if reply.have_bitset.len() != (reply.chunk_ids.len() + 7) / 8 {
        return Err(Error::InvalidInput("have reply bitset length mismatch"));
    }
    let mut out: Vec<u8> = Vec::new();
    push_have_magic(&mut out);
    out.push(2);
    push_array32(&mut out, &reply.file_id.0);
    push_length(&mut out, reply.chunk_ids.len())?;
    push_chunk_ids(&mut out, reply.chunk_ids.as_slice());
    push_bytes(&mut out, reply.have_bitset.as_slice());
    assert(out@ =~= have_reply_bytes(*reply));
    Ok(out)
}

pub fn decode_have_reply(bytes: &[u8]) -> (r: Result<HaveReply>)
    ensures
        match r {
            Ok(reply) => bytes@ == have_reply_bytes(reply) && have_reply_sized(reply),
            Err(e) => e is InvalidInput && forall|reply: HaveReply|
                have_reply_sized(reply) ==> bytes@ != #[trigger] have_reply_bytes(reply),
        },
{
    let ghost s = bytes@;
    let ghost target = choose|reply: HaveReply|
        have_reply_sized(reply) && s == #[trigger] have_reply_bytes(reply);
    let ghost canon = have_reply_sized(target) && s == have_reply_bytes(target);
    proof {
        if canon {
            let t = target;
            let n = t.chunk_ids@.len() as u32;
            let tail = ids_bytes(t.chunk_ids@) + t.have_bitset@;
            lemma_take_bytes(have_magic(), seq![2u8] + (t.file_id@ + (be32(n) + tail)));
            lemma_take_u8(2u8, t.file_id@ + (be32(n) + tail));
            lemma_take_bytes(t.file_id@, be32(n) + tail);
            lemma_take_u32(n, tail);
            lemma_chunk_ids_len(t.chunk_ids@);
        }
    }
    let magic: [u8; 12] = [113, 102, 115, 47, 118, 49, 47, 104, 97, 118, 101, 47];
    assert(magic@ =~= have_magic());
    let mut reader = Reader::new(bytes);
    reader.require_prefix(&magic)?;
    let kind = reader.byte()?;
    if kind != 2 {
        return Err(Error::InvalidInput("invalid have reply kind"));
    }
    let file_id = FileId(reader.array32()?);
    let count = reader.u32()? as usize;
    require_count(count)?;
    let ids_len = count * 32;
    let bits_len = (count + 7) / 8;
    if reader.remaining() != ids_len + bits_len {
        return Err(Error::InvalidInput("have reply length mismatch"));
    }
    let ghost before = reader.rest();
    let chunk_ids = read_chunk_ids(&mut reader, count);
    let have_bitset = reader.take(bits_len)?;
    proof {
        lemma_chunk_ids_len(chunk_ids@);
    }
    reader.finish()?;
    let reply = HaveReply {
        file_id,
        chunk_ids,
        have_bitset: vstd::slice::slice_to_vec(have_bitset),
    };
    proof {
        assert(before =~= ids_bytes(reply.chunk_ids@) + reply.have_bitset@);
    }
    assert(bytes@ =~= have_reply_bytes(reply));
    Ok(reply)
}

} // verus!
