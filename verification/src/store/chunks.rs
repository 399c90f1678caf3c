//! Plaintext chunk storage keyed by content address. A member is in the
//! trusted base for the plaintext it stores; zeroization is for keys, not
//! file bytes.

use vstd::prelude::*;

use crate::crypto::hash::sha256_digest;
use crate::encoding::digests::chunk_id;
use crate::ids::{bytes32_eq, bytes32_lt, lemma_lex_irreflexive, lemma_lex_total, lemma_lex_transitive, lex_lt, ChunkId, FileId};
use crate::protocol::locate::{bitset_has, bitset_len};
use crate::wire::{be64, copy_bytes};

verus! {

/// What a store holds for one chunk: its file, its index and its plaintext.
pub type StoredChunk = (Seq<u8>, u64, Seq<u8>);

/// The content address of chunk `index` of `file_id` holding `plaintext`.
pub open spec fn content_address(file_id: Seq<u8>, index: u64, plaintext: Seq<u8>) -> Seq<u8> {
    sha256_digest(file_id + be64(index) + plaintext)
}

/// A packed bitset, least-significant bit first, whose bit `i` says whether
/// the `i`th requested chunk is stored, with every other bit clear.
pub open spec fn have_bits(bits: Seq<u8>, ids: Seq<ChunkId>, stored: Map<Seq<u8>, StoredChunk>) -> bool {
    &&& bits.len() == bitset_len(ids.len() as int)
    &&& forall|i: int|
        #![trigger bitset_has(bits, i)]
        #![trigger ids[i]]
        0 <= i < 8 * bits.len() ==> (bitset_has(bits, i) <==> (i < ids.len() && stored.contains_key(
            ids[i]@,
        )))
}

/// The first `done` bits answer the first `done` requests; the rest are clear.
pub open spec fn bits_so_far(bits: Seq<u8>, ids: Seq<ChunkId>, stored: Map<Seq<u8>, StoredChunk>, done: int) -> bool {
    forall|j: int|
        #![trigger bitset_has(bits, j)]
        #![trigger ids[j]]
        0 <= j < 8 * bits.len() ==> (bitset_has(bits, j) <==> (j < done && stored.contains_key(
            ids[j]@,
        )))
}

pub trait ChunkStore {
    /// The stored chunks by content address.
    spec fn stored(&self) -> Map<Seq<u8>, StoredChunk>;

    spec fn valid(&self) -> bool;

    fn put(&mut self, file_id: &FileId, index: u64, plaintext: Vec<u8>) -> (r: ChunkId)
        requires
            old(self).valid(),
        ensures
            final(self).valid(),
            r@ == content_address(file_id@, index, plaintext@),
            final(self).stored() == old(self).stored().insert(r@, (file_id@, index, plaintext@)),
    ;

    fn get(&self, chunk_id: &ChunkId) -> (r: Option<&[u8]>)
        requires
            self.valid(),
        ensures
            match r {
                Some(p) => self.stored().contains_key(chunk_id@) && p@ == self.stored()[chunk_id@].2,
                None => !self.stored().contains_key(chunk_id@),
            },
    ;

    fn has(&self, chunk_id: &ChunkId) -> (r: bool)
        requires
            self.valid(),
        ensures
            r == self.stored().contains_key(chunk_id@),
    ;

    /// A packed bitset in request order, least-significant bit first.
    fn have_bitset(&self, chunk_ids: &[ChunkId]) -> (r: Vec<u8>)
        requires
            self.valid(),
        ensures
            have_bits(r@, chunk_ids@, self.stored()),
    {
        let n = chunk_ids.len();
        let nbytes = n / 8 + if n % 8 == 0 {
            0
        } else {
            1
        };
        let mut bits: Vec<u8> = Vec::new();
        let mut k: usize = 0;
        while k < nbytes
            invariant
                k <= nbytes,
                bits@.len() == k,
                forall|j: int| 0 <= j < k ==> bits@[j] == 0u8,
            decreases nbytes - k,
        {
            bits.push(0u8);
            k = k + 1;
        }
        proof {
            assert forall|i: int| 0 <= i < 8 * bits@.len() implies !bitset_has(bits@, i) by {
                let b = bits@[i / 8];
                let t = (i % 8) as u8;
                assert(b == 0u8);
                assert(0u8 & (1u8 << t) == 0u8) by (bit_vector);
            }
        }
        let mut i: usize = 0;
        while i < n
            invariant
                i <= n,
                n == chunk_ids@.len(),
                nbytes == bitset_len(n as int),
                bits@.len() == nbytes,
                self.valid(),
                bits_so_far(bits@, chunk_ids@, self.stored(), i as int),
            decreases n - i,
        {
            let present = self.has(&chunk_ids[i]);
            let ghost before = bits@;
            if present {
                let q = i / 8;
                let old_byte = bits[q];
                let new_byte = old_byte | (1u8 << ((i % 8) as u8));
                bits.set(q, new_byte);
            }
            proof {
                lemma_bits_step(before, bits@, chunk_ids@, self.stored(), i as int, present);
            }
            i = i + 1;
        }
        bits
    }
}

proof fn lemma_bit_update(b: u8, s: u8, t: u8)
    by (bit_vector)
    requires
        s < 8,
        t < 8,
    ensures
        ((b | (1u8 << s)) & (1u8 << t) != 0) == ((b & (1u8 << t) != 0) || s == t),
{
}

/// Setting bit `i` of a packed bitset changes no other bit.
proof fn lemma_bitset_set(before: Seq<u8>, after: Seq<u8>, i: int)
    requires
        0 <= i,
        i / 8 < before.len(),
        after == before.update(i / 8, before[i / 8] | (1u8 << ((i % 8) as u8))),
    ensures
        forall|j: int|
            0 <= j < 8 * before.len() ==> (#[trigger] bitset_has(after, j) <==> (bitset_has(before, j)
                || j == i)),
{
    assert forall|j: int| 0 <= j < 8 * before.len() implies (#[trigger] bitset_has(after, j) <==> (
    bitset_has(before, j) || j == i)) by {
        let t = (j % 8) as u8;
        if j / 8 == i / 8 {
            lemma_bit_update(before[i / 8], (i % 8) as u8, t);
            assert((i % 8) as u8 == t <==> j == i);
        }
    }
}

proof fn lemma_bits_step(
    before: Seq<u8>,
    after: Seq<u8>,
    ids: Seq<ChunkId>,
    stored: Map<Seq<u8>, StoredChunk>,
    i: int,
    present: bool,
)
    requires
        0 <= i < ids.len(),
        before.len() == bitset_len(ids.len() as int),
        bits_so_far(before, ids, stored, i),
        present == stored.contains_key(ids[i]@),
        present ==> after == before.update(i / 8, before[i / 8] | (1u8 << ((i % 8) as u8))),
        !present ==> after == before,
    ensures
        after.len() == before.len(),
        bits_so_far(after, ids, stored, i + 1),
{
    if present {
        lemma_bitset_set(before, after, i);
    }
    assert forall|j: int| 0 <= j < 8 * after.len() implies #[trigger] bitset_has(after, j) <==> (j < i
        + 1 && stored.contains_key(ids[j]@)) by {
        assert(bitset_has(before, j) <==> (j < i && stored.contains_key(ids[j]@)));
    }
}

/// A stored chunk with the file and position it belongs to.
#[derive(Clone, Debug, PartialEq, Eq)]
pub struct ChunkRecord {
    pub file_id: FileId,
    pub index: u64,
    pub plaintext: Vec<u8>,
}

pub open spec fn record_view(r: ChunkRecord) -> StoredChunk {
    (r.file_id@, r.index, r.plaintext@)
}

/// Entries held in strictly ascending chunk-id order.
pub open spec fn ascending(s: Seq<(ChunkId, ChunkRecord)>) -> bool {
    forall|i: int, j: int| 0 <= i < j < s.len() ==> lex_lt((#[trigger] s[i]).0@, (#[trigger] s[j]).0@)
}

/// The map that a sequence of entries stands for.
pub open spec fn stored_map(s: Seq<(ChunkId, ChunkRecord)>) -> Map<Seq<u8>, StoredChunk>
    decreases s.len(),
{
    if s.len() == 0 {
        Map::empty()
    } else {
        stored_map(s.drop_last()).insert(s.last().0@, record_view(s.last().1))
    }
}

pub open spec fn has_key(s: Seq<(ChunkId, ChunkRecord)>, k: Seq<u8>) -> bool {
    exists|i: int| 0 <= i < s.len() && (#[trigger] s[i]).0@ == k
}

proof fn lemma_stored_map(s: Seq<(ChunkId, ChunkRecord)>)
    requires
        ascending(s),
    ensures
        forall|k: Seq<u8>| #[trigger] stored_map(s).contains_key(k) <==> has_key(s, k),
        forall|i: int| 0 <= i < s.len() ==> stored_map(s)[(#[trigger] s[i]).0@] == record_view(s[i].1),
        stored_map(s).dom().finite(),
        stored_map(s).len() == s.len(),
    decreases s.len(),
{
    if s.len() > 0 {
        let t = s.drop_last();
        let e = s.last();
        assert(ascending(t)) by {
            assert forall|i: int, j: int| 0 <= i < j < t.len() implies lex_lt(
                (#[trigger] t[i]).0@,
                (#[trigger] t[j]).0@,
            ) by {
                assert(t[i] == s[i] && t[j] == s[j]);
            }
        }
        lemma_stored_map(t);
        assert(!has_key(t, e.0@)) by {
            if has_key(t, e.0@) {
                let i = choose|i: int| 0 <= i < t.len() && (#[trigger] t[i]).0@ == e.0@;
                assert(t[i] == s[i]);
                assert(lex_lt(s[i].0@, s[s.len() - 1].0@));
                lemma_lex_irreflexive(e.0@);
            }
        }
        assert forall|k: Seq<u8>| #[trigger] stored_map(s).contains_key(k) <==> has_key(s, k) by {
            if has_key(t, k) {
                let i = choose|i: int| 0 <= i < t.len() && (#[trigger] t[i]).0@ == k;
                assert(s[i] == t[i]);
            }
            if has_key(s, k) {
                let i = choose|i: int| 0 <= i < s.len() && (#[trigger] s[i]).0@ == k;
                if i < t.len() {
                    assert(t[i] == s[i]);
                }
            }
            if k == e.0@ {
                assert(s[s.len() - 1] == e);
            }
        }
        assert forall|i: int| 0 <= i < s.len() implies stored_map(s)[(#[trigger] s[i]).0@] == record_view(
            s[i].1,
        ) by {
            if i < t.len() {
                assert(t[i] == s[i]);
                assert(has_key(t, t[i].0@));
            }
        }
    }
}

/// Two entries with the same key and the same record contents.
pub open spec fn same_entry(x: (ChunkId, ChunkRecord), y: (ChunkId, ChunkRecord)) -> bool {
    x.0@ == y.0@ && record_view(x.1) == record_view(y.1)
}

fn copy_record(r: &ChunkRecord) -> (c: ChunkRecord)
    ensures
        record_view(c) == record_view(*r),
{
    ChunkRecord { file_id: r.file_id, index: r.index, plaintext: copy_bytes(&r.plaintext) }
}

/// The chunks a member holds, in ascending chunk-id order.
#[derive(Clone, Debug)]
pub struct MemoryChunkStore {
    chunks: Vec<(ChunkId, ChunkRecord)>,
}

impl View for MemoryChunkStore {
    type V = Map<Seq<u8>, StoredChunk>;

    closed spec fn view(&self) -> Map<Seq<u8>, StoredChunk> {
        stored_map(self.chunks@)
    }
}

impl MemoryChunkStore {
    pub closed spec fn wf(&self) -> bool {
        ascending(self.chunks@)
    }

    /// A store holds finitely many chunks.
    pub proof fn lemma_finite(&self)
        requires
            self.wf(),
        ensures
            self@.dom().finite(),
    {
        lemma_stored_map(self.chunks@);
    }

    /// The store's own view is the one it exposes as a chunk store.
    pub proof fn lemma_valid(&self)
        ensures
            self.valid() == self.wf(),
            self.stored() == self@,
    {
    }

    pub fn new() -> (r: Self)
        ensures
            r.wf(),
            r@ == Map::<Seq<u8>, StoredChunk>::empty(),
    {
        MemoryChunkStore { chunks: Vec::new() }
    }

    /// The position of `id`: found, or where it would be inserted.
    fn locate(&self, id: &ChunkId) -> (r: (usize, bool))
        requires
            self.wf(),
        ensures
            r.0 <= self.chunks@.len(),
            forall|j: int| 0 <= j < r.0 ==> lex_lt((#[trigger] self.chunks@[j]).0@, id@),
            r.1 ==> r.0 < self.chunks@.len() && self.chunks@[r.0 as int].0@ == id@,
            !r.1 ==> forall|j: int|
                r.0 <= j < self.chunks@.len() ==> lex_lt(id@, (#[trigger] self.chunks@[j]).0@),
    {
        let ghost s = self.chunks@;
        let mut i: usize = 0;
        while i < self.chunks.len() && bytes32_lt(&self.chunks[i].0.0, &id.0)
            invariant
                i <= s.len(),
                self.chunks@ == s,
                ascending(s),
                forall|j: int| 0 <= j < i ==> lex_lt((#[trigger] s[j]).0@, id@),
            decreases s.len() - i,
        {
            i = i + 1;
        }
        if i < self.chunks.len() && bytes32_eq(&self.chunks[i].0.0, &id.0) {
            return (i, true);
        }
        proof {
            if i < s.len() {
                lemma_lex_total(s[i as int].0@, id@);
                assert forall|j: int| i <= j < s.len() implies lex_lt(id@, (#[trigger] s[j]).0@) by {
                    if j > i {
                        lemma_lex_transitive(id@, s[i as int].0@, s[j].0@);
                    }
                }
            }
        }
        (i, false)
    }

    proof fn lemma_absent(&self, id: Seq<u8>, pos: int)
        requires
            self.wf(),
            0 <= pos <= self.chunks@.len(),
            forall|j: int| 0 <= j < pos ==> lex_lt((#[trigger] self.chunks@[j]).0@, id),
            forall|j: int| pos <= j < self.chunks@.len() ==> lex_lt(id, (#[trigger] self.chunks@[j]).0@),
        ensures
            !self@.contains_key(id),
    {
        lemma_stored_map(self.chunks@);
        if has_key(self.chunks@, id) {
            let i = choose|i: int| 0 <= i < self.chunks@.len() && (#[trigger] self.chunks@[i]).0@ == id;
            lemma_lex_irreflexive(id);
        }
    }

    pub fn get_record(&self, chunk_id: &ChunkId) -> (r: Option<&ChunkRecord>)
        requires
            self.wf(),
        ensures
            match r {
                Some(rec) => self@.contains_key(chunk_id@) && record_view(*rec) == self@[chunk_id@],
                None => !self@.contains_key(chunk_id@),
            },
    {
        let (pos, found) = self.locate(chunk_id);
        proof {
            lemma_stored_map(self.chunks@);
        }
        if found {
            proof {
                assert(has_key(self.chunks@, chunk_id@));
            }
            Some(&self.chunks[pos].1)
        } else {
            proof {
                self.lemma_absent(chunk_id@, pos as int);
            }
            None
        }
    }

    /// Drops every chunk of `file_id`.
    pub fn remove_file(&mut self, file_id: &FileId)
        requires
            old(self).wf(),
        ensures
            final(self).wf(),
            forall|k: Seq<u8>|
                #[trigger] final(self)@.contains_key(k) <==> (old(self)@.contains_key(k) && old(
                    self,
                )@[k].0 != file_id@),
            forall|k: Seq<u8>| #[trigger] final(self)@.contains_key(k) ==> final(self)@[k] == old(self)@[k],
    {
        let ghost s = self.chunks@;
        let mut kept: Vec<(ChunkId, ChunkRecord)> = Vec::new();
        let mut source: Vec<(ChunkId, ChunkRecord)> = Vec::new();
        std::mem::swap(&mut source, &mut self.chunks);
        let mut i: usize = 0;
        while i < source.len()
            invariant
                source@ == s,
                ascending(s),
                i <= s.len(),
                ascending(kept@),
                forall|a: int|
                    0 <= a < kept@.len() ==> exists|j: int|
                        0 <= j < i && same_entry(#[trigger] kept@[a], s[j]) && s[j].1.file_id@ != file_id@,
                forall|j: int|
                    0 <= j < i && (#[trigger] s[j]).1.file_id@ != file_id@ ==> exists|a: int|
                        0 <= a < kept@.len() && same_entry(kept@[a], s[j]),
            decreases s.len() - i,
        {
            let keep = !bytes32_eq(&source[i].1.file_id.0, &file_id.0);
            if keep {
                let entry = (source[i].0, copy_record(&source[i].1));
                proof {
                    assert(same_entry(entry, s[i as int]));
                    assert forall|a: int| 0 <= a < kept@.len() implies lex_lt(
                        (#[trigger] kept@[a]).0@,
                        entry.0@,
                    ) by {
                        let j = choose|j: int|
                            0 <= j < i && same_entry(#[trigger] kept@[a], s[j]) && s[j].1.file_id@ != file_id@;
                        assert(lex_lt(s[j].0@, s[i as int].0@));
                    }
                }
                let ghost before = kept@;
                kept.push(entry);
                proof {
                    assert forall|a: int, b: int| 0 <= a < b < kept@.len() implies lex_lt(
                        (#[trigger] kept@[a]).0@,
                        (#[trigger] kept@[b]).0@,
                    ) by {
                        if b < before.len() {
                            assert(kept@[a] == before[a] && kept@[b] == before[b]);
                        } else {
                            assert(kept@[a] == before[a]);
                        }
                    }
                    assert forall|a: int| 0 <= a < kept@.len() implies exists|j: int|
                        0 <= j < i + 1 && same_entry(#[trigger] kept@[a], s[j]) && s[j].1.file_id@ != file_id@ by {
                        if a < before.len() {
                            assert(kept@[a] == before[a]);
                            let j = choose|j: int|
                                0 <= j < i && same_entry(#[trigger] before[a], s[j]) && s[j].1.file_id@ != file_id@;
                            assert(same_entry(kept@[a], s[j]));
                        } else {
                            assert(same_entry(kept@[a], s[i as int]));
                        }
                    }
                    assert forall|j: int|
                        0 <= j < i + 1 && (#[trigger] s[j]).1.file_id@ != file_id@ implies exists|a: int|
                        0 <= a < kept@.len() && same_entry(kept@[a], s[j]) by {
                        if j < i {
                            let a = choose|a: int| 0 <= a < before.len() && same_entry(before[a], s[j]);
                            assert(kept@[a] == before[a]);
                        } else {
                            assert(same_entry(kept@[before.len() as int], s[j]));
                        }
                    }
                }
            } else {
                proof {
                    assert forall|a: int| 0 <= a < kept@.len() implies exists|j: int|
                        0 <= j < i + 1 && same_entry(#[trigger] kept@[a], s[j]) && s[j].1.file_id@ != file_id@ by {
                        let j = choose|j: int|
                            0 <= j < i && same_entry(#[trigger] kept@[a], s[j]) && s[j].1.file_id@ != file_id@;
                    }
                }
            }
            i = i + 1;
        }
        self.chunks = kept;
        proof {
            let t = self.chunks@;
            lemma_stored_map(s);
            lemma_stored_map(t);
            assert forall|k: Seq<u8>|
                #[trigger] stored_map(t).contains_key(k) <==> (stored_map(s).contains_key(k)
                    && stored_map(s)[k].0 != file_id@) by {
                if has_key(t, k) {
                    let a = choose|a: int| 0 <= a < t.len() && (#[trigger] t[a]).0@ == k;
                    let j = choose|j: int| 0 <= j < s.len() && same_entry(#[trigger] t[a], s[j]) && s[j].1.file_id@ != file_id@;
                    assert(has_key(s, k));
                    assert(stored_map(s)[s[j].0@] == record_view(s[j].1));
                }
                if has_key(s, k) && stored_map(s)[k].0 != file_id@ {
                    let j = choose|j: int| 0 <= j < s.len() && (#[trigger] s[j]).0@ == k;
                    assert(stored_map(s)[s[j].0@] == record_view(s[j].1));
                    let a = choose|a: int| 0 <= a < t.len() && same_entry(t[a], s[j]);
                    assert(has_key(t, k));
                }
            }
            assert forall|k: Seq<u8>| #[trigger] stored_map(t).contains_key(k) implies stored_map(t)[k]
                == stored_map(s)[k] by {
                let a = choose|a: int| 0 <= a < t.len() && (#[trigger] t[a]).0@ == k;
                let j = choose|j: int| 0 <= j < s.len() && same_entry(#[trigger] t[a], s[j]) && s[j].1.file_id@ != file_id@;
                assert(stored_map(t)[t[a].0@] == record_view(t[a].1));
                assert(stored_map(s)[s[j].0@] == record_view(s[j].1));
            }
        }
    }

    pub fn len(&self) -> (r: usize)
        requires
            self.wf(),
        ensures
            r == self@.len(),
    {
        proof {
            lemma_stored_map(self.chunks@);
        }
        self.chunks.len()
    }

    pub fn is_empty(&self) -> (r: bool)
        requires
            self.wf(),
        ensures
            r == (self@.len() == 0),
    {
        proof {
            lemma_stored_map(self.chunks@);
        }
        self.chunks.len() == 0
    }
}

impl ChunkStore for MemoryChunkStore {
    closed spec fn stored(&self) -> Map<Seq<u8>, StoredChunk> {
        self@
    }

    closed spec fn valid(&self) -> bool {
        self.wf()
    }

    fn put(&mut self, file_id: &FileId, index: u64, plaintext: Vec<u8>) -> (r: ChunkId) {
        let id = chunk_id(file_id, index, plaintext.as_slice());
        let (pos, found) = self.locate(&id);
        let ghost s = self.chunks@;
        let entry = (id, ChunkRecord { file_id: *file_id, index, plaintext });
        let ghost v = record_view(entry.1);
        proof {
            lemma_stored_map(s);
        }
        if found {
            self.chunks.set(pos, entry);
        } else {
            self.chunks.insert(pos, entry);
        }
        proof {
            let t = self.chunks@;
            assert forall|a: int, b: int| 0 <= a < b < t.len() implies lex_lt(
                (#[trigger] t[a]).0@,
                (#[trigger] t[b]).0@,
            ) by {
                if found {
                    if a == pos {
                        assert(t[b] == s[b]);
                        assert(s[a].0@ == id@);
                    } else if b == pos {
                        assert(t[a] == s[a]);
                        assert(s[b].0@ == id@);
                    } else {
                        assert(t[a] == s[a] && t[b] == s[b]);
                    }
                } else if b < pos {
                    assert(t[a] == s[a] && t[b] == s[b]);
                } else if b == pos {
                    assert(t[a] == s[a]);
                } else if a < pos {
                    assert(t[a] == s[a] && t[b] == s[b - 1]);
                } else if a == pos {
                    assert(t[b] == s[b - 1]);
                } else {
                    assert(t[a] == s[a - 1] && t[b] == s[b - 1]);
                }
            }
            lemma_stored_map(t);
            let m = stored_map(s).insert(id@, v);
            assert forall|k: Seq<u8>| #[trigger] stored_map(t).contains_key(k) <==> m.contains_key(k) by {
                if has_key(t, k) {
                    let a = choose|a: int| 0 <= a < t.len() && (#[trigger] t[a]).0@ == k;
                    if found {
                        if a != pos {
                            assert(t[a] == s[a]);
                            assert(has_key(s, k));
                        }
                    } else if a < pos {
                        assert(t[a] == s[a]);
                        assert(has_key(s, k));
                    } else if a > pos {
                        assert(t[a] == s[a - 1]);
                        assert(has_key(s, k));
                    }
                }
                if has_key(s, k) {
                    let j = choose|j: int| 0 <= j < s.len() && (#[trigger] s[j]).0@ == k;
                    if found {
                        if j != pos {
                            assert(t[j] == s[j]);
                        } else {
                            assert(t[j].0@ == id@);
                        }
                        assert(has_key(t, k));
                    } else if j < pos {
                        assert(t[j] == s[j]);
                        assert(has_key(t, k));
                    } else {
                        assert(t[j + 1] == s[j]);
                        assert(has_key(t, k));
                    }
                }
                if k == id@ {
                    assert(t[pos as int].0@ == id@);
                    assert(has_key(t, k));
                }
            }
            assert forall|k: Seq<u8>| #[trigger] stored_map(t).contains_key(k) implies stored_map(t)[k]
                == m[k] by {
                let a = choose|a: int| 0 <= a < t.len() && (#[trigger] t[a]).0@ == k;
                assert(stored_map(t)[t[a].0@] == record_view(t[a].1));
                if a == pos {
                    assert(t[a] == entry);
                } else if found || a < pos {
                    assert(t[a] == s[a]);
                    assert(stored_map(s)[s[a].0@] == record_view(s[a].1));
                    if found {
                        lemma_lex_total(s[a].0@, id@);
                        if a < pos {
                            assert(lex_lt(s[a].0@, s[pos as int].0@));
                        } else {
                            assert(lex_lt(s[pos as int].0@, s[a].0@));
                        }
                        lemma_lex_irreflexive(id@);
                    } else {
                        lemma_lex_irreflexive(id@);
                    }
                } else {
                    assert(t[a] == s[a - 1]);
                    assert(stored_map(s)[s[a - 1].0@] == record_view(s[a - 1].1));
                    lemma_lex_irreflexive(id@);
                }
            }
            assert(stored_map(t) =~= m);
        }
        id
    }

    fn get(&self, chunk_id: &ChunkId) -> (r: Option<&[u8]>) {
        match self.get_record(chunk_id) {
            Some(record) => Some(record.plaintext.as_slice()),
            None => None,
        }
    }

    fn has(&self, chunk_id: &ChunkId) -> (r: bool) {
        let (pos, found) = self.locate(chunk_id);
        proof {
            lemma_stored_map(self.chunks@);
            if found {
                assert(has_key(self.chunks@, chunk_id@));
            } else {
                self.lemma_absent(chunk_id@, pos as int);
            }
        }
        found
    }
}

} // verus!
