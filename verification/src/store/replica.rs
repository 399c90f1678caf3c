//! Durable replica metadata. Chunk plaintext and pairwise ciphertext are kept
//! outside this snapshot. Every keyed collection is held in strictly
//! ascending key order, the order in which it is stored.

use vstd::prelude::*;

use crate::ids::{bytes32_eq, bytes32_lt, lemma_lex_irreflexive, lemma_lex_total, lemma_lex_transitive, lex_lt, ChunkId, FileId, PeerId};
use crate::error::{Error, Result};
use crate::protocol::manifest::{contains_peer, is_member, Manifest};
use crate::store::tree::{Dirent, DirectoryTree};
use crate::sync::host::{ControlRecord, QueueContent};

verus! {

#[derive(Clone, Debug, PartialEq, Eq)]
pub struct ReplicaMetadata {
    pub expected_root: FileId,
    pub dirents: Vec<Dirent>,
    /// Current members, ascending.
    pub members: Vec<PeerId>,
    /// Live manifests, ascending by file id.
    pub manifests: Vec<Manifest>,
    /// The instruction log, ascending by record id.
    pub log: Vec<ControlRecord>,
    pub next_control: u64,
    /// Durable mailboxes, ascending by recipient.
    pub mailboxes: Vec<(PeerId, Vec<QueueContent>)>,
    /// Inclusive acknowledgement watermarks, ascending by member.
    pub acked_through: Vec<(PeerId, u64)>,
    /// Where each stored chunk belongs, ascending by chunk id.
    pub chunk_index: Vec<(ChunkId, FileId, u64)>,
}

/// The watermark of `p`: its first acknowledgement, or zero.
pub open spec fn ack_for(acks: Seq<(PeerId, u64)>, p: Seq<u8>) -> u64
    decreases acks.len(),
{
    if acks.len() == 0 {
        0
    } else if acks[0].0@ == p {
        acks[0].1
    } else {
        ack_for(acks.drop_first(), p)
    }
}

/// The lowest watermark over `members`; `None` without members.
pub open spec fn min_ack(members: Seq<PeerId>, acks: Seq<(PeerId, u64)>) -> Option<u64>
    decreases members.len(),
{
    if members.len() == 0 {
        None
    } else {
        let a = ack_for(acks, members.last()@);
        match min_ack(members.drop_last(), acks) {
            None => Some(a),
            Some(m) => Some(
                if a < m {
                    a
                } else {
                    m
                },
            ),
        }
    }
}

pub open spec fn newer_than(m: u64) -> spec_fn(ControlRecord) -> bool {
    |r: ControlRecord| r.id > m
}

/// Some of the first `n` identifiers is `c`.
pub open spec fn ids_prefix_has(ids: Seq<ChunkId>, n: int, c: Seq<u8>) -> bool {
    exists|b: int| 0 <= b < n && b < ids.len() && (#[trigger] ids[b])@ == c
}

/// Some of the first `n` manifests lists chunk `c`.
pub open spec fn manifest_refs(ms: Seq<Manifest>, n: int, c: Seq<u8>) -> bool {
    exists|a: int|
        0 <= a < n && a < ms.len() && ids_prefix_has(
            (#[trigger] ms[a]).chunk_ids@,
            ms[a].chunk_ids@.len() as int,
            c,
        )
}

/// Whether a queued item is a chunk body with identity `c`.
pub open spec fn queued_chunk(q: QueueContent, c: Seq<u8>) -> bool {
    match q {
        QueueContent::Chunk { chunk_id, .. } => chunk_id@ == c,
        QueueContent::Control(_) => false,
    }
}

/// Some of the first `n` queued items is a body of chunk `c`.
pub open spec fn queue_refs(q: Seq<QueueContent>, n: int, c: Seq<u8>) -> bool {
    exists|b: int| 0 <= b < n && b < q.len() && queued_chunk(#[trigger] q[b], c)
}

/// Some of the first `n` mailboxes holds a body of chunk `c`.
pub open spec fn mailbox_refs(mb: Seq<(PeerId, Vec<QueueContent>)>, n: int, c: Seq<u8>) -> bool {
    exists|a: int|
        0 <= a < n && a < mb.len() && queue_refs((#[trigger] mb[a]).1@, mb[a].1@.len() as int, c)
}

/// Chunk ids a live manifest or a queued chunk body still refers to.
pub open spec fn referenced(m: ReplicaMetadata, c: Seq<u8>) -> bool {
    manifest_refs(m.manifests@, m.manifests@.len() as int, c) || mailbox_refs(
        m.mailboxes@,
        m.mailboxes@.len() as int,
        c,
    )
}

pub open spec fn ascending_chunks(s: Seq<ChunkId>) -> bool {
    forall|i: int, j: int| 0 <= i < j < s.len() ==> lex_lt((#[trigger] s[i])@, (#[trigger] s[j])@)
}

pub proof fn lemma_min_ack_bound(members: Seq<PeerId>, acks: Seq<(PeerId, u64)>, k: int)
    requires
        0 <= k < members.len(),
    ensures
        min_ack(members, acks) matches Some(m) && m <= ack_for(acks, members[k]@),
    decreases members.len(),
{
    if k < members.len() - 1 {
        lemma_min_ack_bound(members.drop_last(), acks, k);
        assert(members.drop_last()[k] == members[k]);
    }
}

/// Inserts `id` into an ascending list unless it is already there.
fn insert_chunk_id(ids: &mut Vec<ChunkId>, id: ChunkId)
    requires
        ascending_chunks(old(ids)@),
    ensures
        ascending_chunks(final(ids)@),
        forall|c: Seq<u8>|
            #[trigger] ids_prefix_has(final(ids)@, final(ids)@.len() as int, c) <==> (c == id@
                || ids_prefix_has(old(ids)@, old(ids)@.len() as int, c)),
{
    let ghost s = ids@;
    let mut i: usize = 0;
    while i < ids.len() && bytes32_lt(&ids[i].0, &id.0)
        invariant
            i <= ids@.len(),
            ids@ == s,
            ascending_chunks(s),
            forall|j: int| 0 <= j < i ==> lex_lt((#[trigger] s[j])@, id@),
        decreases ids@.len() - i,
    {
        i = i + 1;
    }
    if i < ids.len() && bytes32_eq(&ids[i].0, &id.0) {
        return;
    }
    proof {
        if i < s.len() {
            lemma_lex_total(s[i as int]@, id@);
            assert forall|j: int| i <= j < s.len() implies lex_lt(id@, (#[trigger] s[j])@) by {
                if j > i {
                    lemma_lex_transitive(id@, s[i as int]@, s[j]@);
                }
            }
        }
    }
    ids.insert(i, id);
    proof {
        let t = ids@;
        assert(t == s.insert(i as int, id));
        assert forall|a: int, b: int| 0 <= a < b < t.len() implies lex_lt(
            (#[trigger] t[a])@,
            (#[trigger] t[b])@,
        ) by {
            if b < i {
                assert(t[a] == s[a] && t[b] == s[b]);
            } else if b == i {
                assert(t[a] == s[a]);
            } else if a < i {
                assert(t[a] == s[a] && t[b] == s[b - 1]);
            } else if a == i {
                assert(t[b] == s[b - 1]);
            } else {
                assert(t[a] == s[a - 1] && t[b] == s[b - 1]);
            }
        }
        assert forall|c: Seq<u8>|
            (c == id@ || ids_prefix_has(s, s.len() as int, c)) implies #[trigger] ids_prefix_has(t, t.len() as int, c) by {
            if c == id@ {
                assert(t[i as int] == id);
            } else {
                let k = choose|k: int| 0 <= k < s.len() && k < s.len() && (#[trigger] s[k])@ == c;
                if k < i {
                    assert(t[k] == s[k]);
                } else {
                    assert(t[k + 1] == s[k]);
                }
            }
        }
        assert forall|c: Seq<u8>|
            #[trigger] ids_prefix_has(t, t.len() as int, c) implies (c == id@ || ids_prefix_has(s, s.len() as int, c)) by {
            let k = choose|k: int| 0 <= k < t.len() && k < t.len() && (#[trigger] t[k])@ == c;
            if k < i {
                assert(t[k] == s[k]);
            } else if k > i {
                assert(t[k] == s[k - 1]);
            }
        }
    }
}

impl ReplicaMetadata {
    /// Empty metadata for a new vault: the root alone, no members, and the
    /// instruction log starting at one.
    pub fn new(expected_root: FileId) -> (r: Self)
        ensures
            r.expected_root == expected_root,
            r.dirents@.len() == 1,
            r.dirents@[0]@ == crate::store::tree::root_entry(expected_root@),
            r.members@.len() == 0,
            r.manifests@.len() == 0,
            r.log@.len() == 0,
            r.next_control == 1,
            r.mailboxes@.len() == 0,
            r.acked_through@.len() == 0,
            r.chunk_index@.len() == 0,
    {
        let tree = DirectoryTree::new(expected_root);
        let dirents = tree.dirents();
        proof {
            let v = crate::store::tree::dirent_views(dirents@);
            assert(v == seq![crate::store::tree::root_entry(expected_root@)]);
            assert(v.len() == dirents@.len());
            assert(v[0] == dirents@[0]@);
        }
        ReplicaMetadata {
            expected_root,
            dirents,
            members: Vec::new(),
            manifests: Vec::new(),
            log: Vec::new(),
            next_control: 1,
            mailboxes: Vec::new(),
            acked_through: Vec::new(),
            chunk_index: Vec::new(),
        }
    }

    /// Chunk files stay pinned while referenced by a live manifest or any
    /// undrained mailbox body. Ascending and without repeats.
    pub fn retain_ids(&self) -> (r: Vec<ChunkId>)
        ensures
            ascending_chunks(r@),
            forall|c: Seq<u8>|
                #[trigger] ids_prefix_has(r@, r@.len() as int, c) <==> referenced(*self, c),
    {
        let ghost ms = self.manifests@;
        let ghost mb = self.mailboxes@;
        let mut retained: Vec<ChunkId> = Vec::new();
        let mut i: usize = 0;
        while i < self.manifests.len()
            invariant
                ms == self.manifests@,
                i <= ms.len(),
                ascending_chunks(retained@),
                forall|c: Seq<u8>|
                    #[trigger] ids_prefix_has(retained@, retained@.len() as int, c)
                        <==> manifest_refs(ms, i as int, c),
            decreases ms.len() - i,
        {
            let ids = &self.manifests[i].chunk_ids;
            let mut j: usize = 0;
            while j < ids.len()
                invariant
                    ms == self.manifests@,
                    i < ms.len(),
                    ids@ == ms[i as int].chunk_ids@,
                    j <= ids@.len(),
                    ascending_chunks(retained@),
                    forall|c: Seq<u8>|
                        #[trigger] ids_prefix_has(retained@, retained@.len() as int, c)
                            <==> (manifest_refs(ms, i as int, c) || ids_prefix_has(
                            ids@,
                            j as int,
                            c,
                        )),
                decreases ids@.len() - j,
            {
                insert_chunk_id(&mut retained, ids[j]);
                proof {
                    assert forall|c: Seq<u8>|
                        ids_prefix_has(ids@, j + 1, c) <==> (ids_prefix_has(ids@, j as int, c)
                            || c == ids@[j as int]@) by {
                        if ids_prefix_has(ids@, j + 1, c) {
                            let b = choose|b: int|
                                0 <= b < j + 1 && b < ids@.len() && (#[trigger] ids@[b])@ == c;
                            if b < j {
                            }
                        }
                    }
                }
                j = j + 1;
            }
            proof {
                assert forall|c: Seq<u8>|
                    manifest_refs(ms, i + 1, c) <==> (manifest_refs(ms, i as int, c)
                        || ids_prefix_has(ids@, ids@.len() as int, c)) by {
                    if manifest_refs(ms, i + 1, c) {
                        let a = choose|a: int|
                            0 <= a < i + 1 && a < ms.len() && ids_prefix_has(
                                (#[trigger] ms[a]).chunk_ids@,
                                ms[a].chunk_ids@.len() as int,
                                c,
                            );
                        if a < i {
                        }
                    }
                    if ids_prefix_has(ids@, ids@.len() as int, c) {
                        assert(ids_prefix_has(ms[i as int].chunk_ids@, ms[i as int].chunk_ids@.len() as int, c));
                    }
                }
            }
            i = i + 1;
        }
        let mut i: usize = 0;
        while i < self.mailboxes.len()
            invariant
                ms == self.manifests@,
                mb == self.mailboxes@,
                i <= mb.len(),
                ascending_chunks(retained@),
                forall|c: Seq<u8>|
                    #[trigger] ids_prefix_has(retained@, retained@.len() as int, c) <==> (
                    manifest_refs(ms, ms.len() as int, c) || mailbox_refs(mb, i as int, c)),
            decreases mb.len() - i,
        {
            let queue = &self.mailboxes[i].1;
            let mut j: usize = 0;
            while j < queue.len()
                invariant
                    ms == self.manifests@,
                    mb == self.mailboxes@,
                    i < mb.len(),
                    queue@ == mb[i as int].1@,
                    j <= queue@.len(),
                    ascending_chunks(retained@),
                    forall|c: Seq<u8>|
                        #[trigger] ids_prefix_has(retained@, retained@.len() as int, c) <==> (
                        manifest_refs(ms, ms.len() as int, c) || mailbox_refs(mb, i as int, c)
                            || queue_refs(queue@, j as int, c)),
                decreases queue@.len() - j,
            {
                match &queue[j] {
                    QueueContent::Chunk { chunk_id, .. } => {
                        insert_chunk_id(&mut retained, *chunk_id);
                    },
                    QueueContent::Control(_) => {},
                }
                proof {
                    assert forall|c: Seq<u8>|
                        queue_refs(queue@, j + 1, c) <==> (queue_refs(queue@, j as int, c)
                            || queued_chunk(queue@[j as int], c)) by {
                        if queue_refs(queue@, j + 1, c) {
                            let b = choose|b: int|
                                0 <= b < j + 1 && b < queue@.len() && queued_chunk(
                                    #[trigger] queue@[b],
                                    c,
                                );
                            if b < j {
                            }
                        }
                    }
                }
                j = j + 1;
            }
            proof {
                assert forall|c: Seq<u8>|
                    mailbox_refs(mb, i + 1, c) <==> (mailbox_refs(mb, i as int, c) || queue_refs(
                        queue@,
                        queue@.len() as int,
                        c,
                    )) by {
                    if mailbox_refs(mb, i + 1, c) {
                        let a = choose|a: int|
                            0 <= a < i + 1 && a < mb.len() && queue_refs(
                                (#[trigger] mb[a]).1@,
                                mb[a].1@.len() as int,
                                c,
                            );
                        if a < i {
                        }
                    }
                    if queue_refs(queue@, queue@.len() as int, c) {
                        assert(queue_refs(mb[i as int].1@, mb[i as int].1@.len() as int, c));
                    }
                }
            }
            i = i + 1;
        }
        retained
    }

    /// Acknowledgements are inclusive: once every current member has applied
    /// N, records through N can be removed. A missing watermark is zero and
    /// therefore pins the positive, one-based instruction log.
    pub fn truncate_log(&mut self)
        ensures
            final(self).expected_root == old(self).expected_root,
            final(self).dirents == old(self).dirents,
            final(self).members == old(self).members,
            final(self).manifests == old(self).manifests,
            final(self).next_control == old(self).next_control,
            final(self).mailboxes == old(self).mailboxes,
            final(self).acked_through == old(self).acked_through,
            final(self).chunk_index == old(self).chunk_index,
            match min_ack(old(self).members@, old(self).acked_through@) {
                None => final(self).log@ == old(self).log@,
                Some(m) => final(self).log@ == old(self).log@.filter(newer_than(m)),
            },
    {
        let minimum = match self.minimum_ack() {
            None => {
                return;
            },
            Some(m) => m,
        };
        let mut old_log: Vec<ControlRecord> = Vec::new();
        std::mem::swap(&mut old_log, &mut self.log);
        let ghost s = old_log@;
        let ghost pred = newer_than(minimum);
        let mut kept: Vec<ControlRecord> = Vec::new();
        let n = old_log.len();
        let mut i: usize = 0;
        proof {
            reveal(Seq::filter);
            assert(s.take(0) =~= Seq::<ControlRecord>::empty());
            assert(kept@ =~= s.take(0).filter(pred));
            assert(s.skip(0) =~= s);
        }
        while old_log.len() > 0
            invariant
                i <= s.len(),
                n == s.len(),
                old_log@ == s.skip(i as int),
                kept@ == s.take(i as int).filter(pred),
                pred == newer_than(minimum),
            decreases old_log@.len(),
        {
            assert(old_log@.len() == s.len() - i);
            let record = old_log.remove(0);
            proof {
                reveal(Seq::filter);
                assert(record == s[i as int]);
                assert(s.take(i + 1).drop_last() =~= s.take(i as int));
                assert(s.skip(i + 1) =~= s.skip(i as int).remove(0));
            }
            if record.id > minimum {
                kept.push(record);
            }
            i = i + 1;
        }
        assert(s.take(i as int) =~= s);
        self.log = kept;
    }

    /// The lowest acknowledgement over the current members.
    fn minimum_ack(&self) -> (r: Option<u64>)
        ensures
            r == min_ack(self.members@, self.acked_through@),
    {
        let mut result: Option<u64> = None;
        let mut i: usize = 0;
        assert(self.members@.take(0) =~= Seq::<PeerId>::empty());
        while i < self.members.len()
            invariant
                i <= self.members@.len(),
                result == min_ack(self.members@.take(i as int), self.acked_through@),
            decreases self.members@.len() - i,
        {
            let a = self.ack_of(&self.members[i]);
            assert(self.members@.take(i + 1).drop_last() =~= self.members@.take(i as int));
            result = match result {
                None => Some(a),
                Some(m) => Some(
                    if a < m {
                        a
                    } else {
                        m
                    },
                ),
            };
            i = i + 1;
        }
        assert(self.members@.take(i as int) =~= self.members@);
        result
    }

    /// The watermark recorded for `member`, or zero.
    pub fn ack_of(&self, member: &PeerId) -> (r: u64)
        ensures
            r == ack_for(self.acked_through@, member@),
    {
        let mut i: usize = 0;
        assert(self.acked_through@.skip(0) =~= self.acked_through@);
        while i < self.acked_through.len()
            invariant
                i <= self.acked_through@.len(),
                ack_for(self.acked_through@, member@) == ack_for(
                    self.acked_through@.skip(i as int),
                    member@,
                ),
            decreases self.acked_through@.len() - i,
        {
            assert(self.acked_through@.skip(i as int)[0] == self.acked_through@[i as int]);
            assert(self.acked_through@.skip(i as int).drop_first() =~= self.acked_through@.skip(
                i + 1,
            ));
            if bytes32_eq(&self.acked_through[i].0.0, &member.0) {
                return self.acked_through[i].1;
            }
            i = i + 1;
        }
        0
    }
}

/// A record leaves the log only once every current member has acknowledged
/// it; a member with no watermark pins every record.
pub proof fn law_truncation_waits_for_every_member(
    log: Seq<ControlRecord>,
    members: Seq<PeerId>,
    acks: Seq<(PeerId, u64)>,
    k: int,
    r: ControlRecord,
)
    requires
        0 <= k < members.len(),
        log.contains(r),
        r.id > ack_for(acks, members[k]@),
    ensures
        min_ack(members, acks) matches Some(m) && log.filter(newer_than(m)).contains(r),
{
    lemma_min_ack_bound(members, acks, k);
    let m = min_ack(members, acks).unwrap();
    let i = choose|i: int| 0 <= i < log.len() && log[i] == r;
    log.lemma_filter_contains(newer_than(m), i);
}

/// Watermarks held in strictly ascending member order.
pub open spec fn acks_ascending(s: Seq<(PeerId, u64)>) -> bool {
    forall|i: int, j: int| 0 <= i < j < s.len() ==> lex_lt((#[trigger] s[i]).0@, (#[trigger] s[j]).0@)
}

proof fn lemma_ack_at(s: Seq<(PeerId, u64)>, i: int)
    requires
        acks_ascending(s),
        0 <= i < s.len(),
    ensures
        ack_for(s, s[i].0@) == s[i].1,
    decreases i,
{
    if i > 0 {
        assert(s[0].0@ != s[i].0@) by {
            lemma_lex_irreflexive(s[i].0@);
        }
        let t = s.drop_first();
        assert forall|a: int, b: int| 0 <= a < b < t.len() implies lex_lt((#[trigger] t[a]).0@, (#[trigger] t[b]).0@) by {
            assert(t[a] == s[a + 1] && t[b] == s[b + 1]);
        }
        assert(t[i - 1] == s[i]);
        lemma_ack_at(t, i - 1);
    }
}

proof fn lemma_ack_absent(s: Seq<(PeerId, u64)>, q: Seq<u8>)
    requires
        forall|i: int| 0 <= i < s.len() ==> (#[trigger] s[i]).0@ != q,
    ensures
        ack_for(s, q) == 0,
    decreases s.len(),
{
    if s.len() > 0 {
        let t = s.drop_first();
        assert forall|i: int| 0 <= i < t.len() implies (#[trigger] t[i]).0@ != q by {
            assert(t[i] == s[i + 1]);
        }
        lemma_ack_absent(t, q);
    }
}

/// The watermark of `q`, read by position.
proof fn lemma_ack_value(s: Seq<(PeerId, u64)>, q: Seq<u8>)
    requires
        acks_ascending(s),
    ensures
        (exists|i: int| 0 <= i < s.len() && (#[trigger] s[i]).0@ == q) ==> ack_for(s, q) == s[choose|i: int|
            0 <= i < s.len() && (#[trigger] s[i]).0@ == q].1,
        !(exists|i: int| 0 <= i < s.len() && (#[trigger] s[i]).0@ == q) ==> ack_for(s, q) == 0,
{
    if exists|i: int| 0 <= i < s.len() && (#[trigger] s[i]).0@ == q {
        let i = choose|i: int| 0 <= i < s.len() && (#[trigger] s[i]).0@ == q;
        lemma_ack_at(s, i);
    } else {
        lemma_ack_absent(s, q);
    }
}

/// Sets the watermark of `peer` to `through`, keeping member order.
fn set_ack(acks: &mut Vec<(PeerId, u64)>, peer: PeerId, through: u64)
    requires
        acks_ascending(old(acks)@),
    ensures
        acks_ascending(final(acks)@),
        forall|q: Seq<u8>| #[trigger] ack_for(final(acks)@, q) == if q == peer@ {
            through
        } else {
            ack_for(old(acks)@, q)
        },
{
    let ghost s = acks@;
    let mut i: usize = 0;
    while i < acks.len() && bytes32_lt(&acks[i].0.0, &peer.0)
        invariant
            acks@ == s,
            i <= s.len(),
            acks_ascending(s),
            forall|j: int| 0 <= j < i ==> lex_lt((#[trigger] s[j]).0@, peer@),
        decreases s.len() - i,
    {
        i = i + 1;
    }
    proof {
        if i < s.len() {
            lemma_lex_total(s[i as int].0@, peer@);
            assert forall|j: int| i < j < s.len() implies lex_lt(peer@, (#[trigger] s[j]).0@) by {
                if s[i as int].0@ != peer@ {
                    lemma_lex_transitive(peer@, s[i as int].0@, s[j].0@);
                } else {
                    assert(lex_lt(s[i as int].0@, s[j].0@));
                }
            }
        }
    }
    if i < acks.len() && bytes32_eq(&acks[i].0.0, &peer.0) {
        acks.set(i, (peer, through));
        proof {
            let t = acks@;
            assert(t =~= s.update(i as int, (peer, through)));
            assert forall|a: int, b: int| 0 <= a < b < t.len() implies lex_lt((#[trigger] t[a]).0@, (#[trigger] t[b]).0@) by {
                assert(t[a].0@ == s[a].0@ && t[b].0@ == s[b].0@);
            }
            assert forall|q: Seq<u8>| #[trigger] ack_for(t, q) == if q == peer@ { through } else { ack_for(s, q) } by {
                lemma_ack_value(t, q);
                lemma_ack_value(s, q);
                if q == peer@ {
                    lemma_ack_at(t, i as int);
                } else if exists|j: int| 0 <= j < s.len() && (#[trigger] s[j]).0@ == q {
                    let j = choose|j: int| 0 <= j < s.len() && (#[trigger] s[j]).0@ == q;
                    lemma_ack_at(s, j);
                    lemma_ack_at(t, j);
                } else {
                    assert forall|j: int| 0 <= j < t.len() implies (#[trigger] t[j]).0@ != q by {
                        assert(t[j].0@ == s[j].0@);
                    }
                    lemma_ack_absent(t, q);
                }
            }
        }
    } else {
        acks.insert(i, (peer, through));
        proof {
            let t = acks@;
            assert(t =~= s.insert(i as int, (peer, through)));
            assert forall|j: int| i <= j < s.len() implies lex_lt(peer@, (#[trigger] s[j]).0@) by {
                if j == i {
                    lemma_lex_total(s[i as int].0@, peer@);
                }
            }
            assert forall|a: int, b: int| 0 <= a < b < t.len() implies lex_lt((#[trigger] t[a]).0@, (#[trigger] t[b]).0@) by {
                let sa = if a < i { a } else { a - 1 };
                let sb = if b < i { b } else { b - 1 };
                if a != i && b != i {
                    assert(t[a] == s[sa] && t[b] == s[sb]);
                } else if a == i {
                    assert(t[b] == s[sb]);
                } else {
                    assert(t[a] == s[sa]);
                }
            }
            assert forall|j: int| 0 <= j < s.len() implies (#[trigger] s[j]).0@ != peer@ by {
                if j < i {
                    lemma_lex_irreflexive(peer@);
                } else {
                    lemma_lex_irreflexive(peer@);
                }
            }
            assert forall|q: Seq<u8>| #[trigger] ack_for(t, q) == if q == peer@ { through } else { ack_for(s, q) } by {
                if q == peer@ {
                    assert(t[i as int] == (peer, through));
                    lemma_ack_at(t, i as int);
                } else if exists|j: int| 0 <= j < s.len() && (#[trigger] s[j]).0@ == q {
                    let j = choose|j: int| 0 <= j < s.len() && (#[trigger] s[j]).0@ == q;
                    lemma_ack_at(s, j);
                    let j2 = if j < i { j } else { j + 1 };
                    assert(t[j2] == s[j]);
                    lemma_ack_at(t, j2);
                } else {
                    assert forall|j: int| 0 <= j < t.len() implies (#[trigger] t[j]).0@ != q by {
                        if j < i {
                            assert(t[j] == s[j]);
                        } else if j > i {
                            assert(t[j] == s[j - 1]);
                        }
                    }
                    lemma_ack_absent(t, q);
                    lemma_ack_absent(s, q);
                }
            }
        }
    }
}

impl ReplicaMetadata {
    /// Records that `peer` applied the host's instructions through
    /// `through`. A stopped host refuses; so does one for which `peer` is no
    /// member, or an acknowledgement past the host's log. A watermark only
    /// rises: an older acknowledgement changes nothing.
    pub fn acknowledge_applied(&mut self, running: bool, peer: PeerId, through: u64) -> (r: Result<()>)
        requires
            acks_ascending(old(self).acked_through@),
        ensures
            acks_ascending(final(self).acked_through@),
            !running ==> r == Err::<(), Error>(Error::State("host is not running"))
                && *final(self) == *old(self),
            running && !is_member(old(self).members@, peer@) ==> r == Err::<
                (),
                Error,
            >(Error::AuthenticationFailed) && *final(self) == *old(self),
            running && is_member(old(self).members@, peer@) && through
                >= old(self).next_control ==> r == Err::<(), Error>(
                Error::InvalidInput("ack exceeds host log"),
            ) && *final(self) == *old(self),
            running && is_member(old(self).members@, peer@) && through
                < old(self).next_control ==> r is Ok && {
                &&& final(self).members == old(self).members
                &&& final(self).next_control == old(self).next_control
                &&& final(self).log == old(self).log
                &&& final(self).mailboxes == old(self).mailboxes
                &&& final(self).manifests == old(self).manifests
                &&& final(self).chunk_index == old(self).chunk_index
                &&& final(self).dirents == old(self).dirents
                &&& final(self).expected_root == old(self).expected_root
                &&& forall|q: Seq<u8>| #[trigger] ack_for(final(self).acked_through@, q) == if q == peer@
                    && ack_for(old(self).acked_through@, q) < through {
                    through
                } else {
                    ack_for(old(self).acked_through@, q)
                }
            },
    {
        if !running {
            return Err(Error::State("host is not running"));
        }
        if !contains_peer(self.members.as_slice(), &peer) {
            return Err(Error::AuthenticationFailed);
        }
        if through >= self.next_control {
            return Err(Error::InvalidInput("ack exceeds host log"));
        }
        if self.ack_of(&peer) >= through {
            return Ok(());
        }
        set_ack(&mut self.acked_through, peer, through);
        Ok(())
    }
}

} // verus!
