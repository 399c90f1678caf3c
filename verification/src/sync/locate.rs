//! Holder discovery answers. The directory has no membership or location
//! role; an answer is live pairwise state and is never persisted.

use vstd::prelude::*;

use crate::error::Result;
use crate::ids::{bytes32_eq, PeerId};
use crate::protocol::locate::{bitset_has, reply_matches, HaveQuery, HaveReply};
use crate::store::chunks::{have_bits, ChunkStore};

verus! {

/// A point-in-time answer for exactly the requested identifiers.
pub fn answer_have<S: ChunkStore>(query: &HaveQuery, chunks: &S) -> (r: Result<HaveReply>)
    requires
        chunks.valid(),
    ensures
        match r {
            Ok(reply) => {
                &&& reply.file_id == query.file()
                &&& reply.chunk_ids@ == query.ids()
                &&& reply_matches(reply, *query)
                &&& have_bits(reply.have_bitset@, query.ids(), chunks.stored())
            },
            Err(_) => false,
        },
{
    let bits = chunks.have_bitset(query.chunk_ids());
    HaveReply::new(query, bits)
}

/// The reply marks at least one of the identifiers it answers as held.
pub open spec fn holds_some(reply: HaveReply) -> bool {
    exists|i: int| 0 <= i < reply.chunk_ids@.len() && #[trigger] bitset_has(reply.have_bitset@, i)
}

/// Whether a responder's reply counts as a location for `query`.
pub open spec fn located_by(reply: Option<HaveReply>, query: HaveQuery) -> bool {
    match reply {
        Some(r) => reply_matches(r, query) && holds_some(r),
        None => false,
    }
}

/// The candidates, in order, that are still live after answering and whose
/// reply validates against `query` and holds at least one requested
/// identifier.
pub open spec fn responders(
    candidates: Seq<PeerId>,
    replies: Seq<Option<HaveReply>>,
    still_live: Seq<bool>,
    query: HaveQuery,
) -> Seq<PeerId>
    decreases candidates.len(),
{
    if candidates.len() == 0 {
        Seq::empty()
    } else {
        let n = candidates.len() - 1;
        let earlier = responders(candidates.take(n), replies, still_live, query);
        if still_live[n] && located_by(replies[n], query) {
            earlier.push(candidates[n])
        } else {
            earlier
        }
    }
}

/// Every holder found is one of the candidates that was asked.
pub proof fn law_holders_are_candidates(
    candidates: Seq<PeerId>,
    replies: Seq<Option<HaveReply>>,
    still_live: Seq<bool>,
    query: HaveQuery,
)
    ensures
        forall|i: int|
            0 <= i < responders(candidates, replies, still_live, query).len() ==> candidates.contains(
                #[trigger] responders(candidates, replies, still_live, query)[i],
            ),
    decreases candidates.len(),
{
    if candidates.len() > 0 {
        let n = candidates.len() - 1;
        let earlier = candidates.take(n);
        law_holders_are_candidates(earlier, replies, still_live, query);
        assert forall|i: int|
            0 <= i < responders(candidates, replies, still_live, query).len() implies candidates.contains(
                #[trigger] responders(candidates, replies, still_live, query)[i],
            ) by {
            let r = responders(candidates, replies, still_live, query);
            if i < responders(earlier, replies, still_live, query).len() {
                let p = responders(earlier, replies, still_live, query)[i];
                assert(earlier.contains(p));
                let k = choose|k: int| 0 <= k < earlier.len() && earlier[k] == p;
                assert(candidates[k] == p);
            } else {
                assert(r[i] == candidates[n]);
            }
        }
    }
}

/// The members to ask, in the members' order: those with a live session
/// that are neither the host nor this member. `live[i]` is whether
/// `members[i]` has an installed current session with an open traffic gate.
pub open spec fn candidates_of(
    members: Seq<PeerId>,
    live: Seq<bool>,
    host_id: PeerId,
    local_id: PeerId,
) -> Seq<PeerId>
    decreases members.len(),
{
    if members.len() == 0 {
        Seq::empty()
    } else {
        let n = members.len() - 1;
        let earlier = candidates_of(members.take(n), live, host_id, local_id);
        if live[n] && members[n]@ != host_id@ && members[n]@ != local_id@ {
            earlier.push(members[n])
        } else {
            earlier
        }
    }
}

/// A have query never goes to the host or to this member, and only to
/// members with a live session.
pub proof fn law_candidates_are_live_others(members: Seq<PeerId>, live: Seq<bool>, host_id: PeerId, local_id: PeerId)
    requires
        live.len() == members.len(),
    ensures
        forall|i: int|
            0 <= i < candidates_of(members, live, host_id, local_id).len() ==> {
                let p = #[trigger] candidates_of(members, live, host_id, local_id)[i];
                &&& p@ != host_id@
                &&& p@ != local_id@
                &&& exists|j: int| 0 <= j < members.len() && members[j] == p && live[j]
            },
{
    assert forall|i: int| 0 <= i < candidates_of(members, live, host_id, local_id).len() implies {
        let p = #[trigger] candidates_of(members, live, host_id, local_id)[i];
        &&& p@ != host_id@
        &&& p@ != local_id@
        &&& exists|j: int| 0 <= j < members.len() && members[j] == p && live[j]
    } by {
        lemma_candidates_prefix_live(members, live, host_id, local_id, i);
    }
}

proof fn lemma_candidates_prefix_live(members: Seq<PeerId>, live: Seq<bool>, host_id: PeerId, local_id: PeerId, i: int)
    requires
        live.len() >= members.len(),
        0 <= i < candidates_of(members, live, host_id, local_id).len(),
    ensures
        ({
            let p = candidates_of(members, live, host_id, local_id)[i];
            &&& p@ != host_id@
            &&& p@ != local_id@
            &&& exists|j: int| 0 <= j < members.len() && members[j] == p && live[j]
        }),
    decreases members.len(),
{
    let n = members.len() - 1;
    let t = members.take(n);
    if i < candidates_of(t, live, host_id, local_id).len() {
        lemma_candidates_prefix_live(t, live, host_id, local_id, i);
        let p = candidates_of(t, live, host_id, local_id)[i];
        let j = choose|j: int| 0 <= j < t.len() && t[j] == p && live[j];
        assert(members[j] == t[j]);
    } else {
        assert(members[n] == candidates_of(members, live, host_id, local_id)[i]);
    }
}

/// The live members a have query goes to when the host is unavailable.
pub fn live_member_candidates(members: &[PeerId], live: &[bool], host_id: PeerId, local_id: PeerId) -> (r: Vec<PeerId>)
    requires
        live@.len() == members@.len(),
    ensures
        r@ == candidates_of(members@, live@, host_id, local_id),
{
    let mut out: Vec<PeerId> = Vec::new();
    let mut i: usize = 0;
    while i < members.len()
        invariant
            i <= members@.len(),
            live@.len() == members@.len(),
            out@ == candidates_of(members@.take(i as int), live@, host_id, local_id),
        decreases members@.len() - i,
    {
        proof {
            assert(members@.take(i as int + 1).take(i as int) =~= members@.take(i as int));
        }
        if live[i] && !bytes32_eq(&members[i].0, &host_id.0) && !bytes32_eq(&members[i].0, &local_id.0) {
            out.push(members[i]);
        }
        i = i + 1;
    }
    proof {
        assert(members@.take(members@.len() as int) =~= members@);
    }
    out
}

/// Whether the reply marks any of its first `count` identifiers as held.
fn any_held(reply: &HaveReply, count: usize) -> (r: bool)
    requires
        count == reply.chunk_ids@.len(),
    ensures
        r == holds_some(*reply),
{
    let mut index: usize = 0;
    while index < count
        invariant
            index <= count,
            count == reply.chunk_ids@.len(),
            forall|i: int| 0 <= i < index ==> !#[trigger] bitset_has(reply.have_bitset@, i),
        decreases count - index,
    {
        if reply.has(index) {
            return true;
        }
        index = index + 1;
    }
    false
}

/// Holder discovery over the replies already gathered. The host owns the full
/// replica, so a live host is preferred and no member is asked; otherwise
/// the candidates (see `live_member_candidates`) that answered with a valid
/// reply holding at least one requested identifier, and whose session is
/// still live after answering, are the holders, in candidate order.
/// `replies[i]` is what `candidates[i]` answered, `None` where it did not,
/// and `still_live[i]` whether its session was live after the answer.
pub fn holders_from(
    host_live: bool,
    host_id: PeerId,
    candidates: &[PeerId],
    replies: &[Option<HaveReply>],
    still_live: &[bool],
    query: &HaveQuery,
) -> (r: Vec<PeerId>)
    requires
        replies@.len() == candidates@.len(),
        still_live@.len() == candidates@.len(),
    ensures
        host_live ==> r@ == seq![host_id],
        !host_live ==> r@ == responders(candidates@, replies@, still_live@, *query),
{
    if host_live {
        let mut only = Vec::new();
        only.push(host_id);
        return only;
    }
    let mut holders: Vec<PeerId> = Vec::new();
    let mut i: usize = 0;
    while i < candidates.len()
        invariant
            i <= candidates@.len(),
            replies@.len() == candidates@.len(),
            still_live@.len() == candidates@.len(),
            holders@ == responders(candidates@.take(i as int), replies@, still_live@, *query),
        decreases candidates@.len() - i,
    {
        proof {
            assert(candidates@.take(i as int + 1).take(i as int) =~= candidates@.take(i as int));
        }
        match &replies[i] {
            Some(reply) => {
                if still_live[i] && reply.validate(query).is_ok() && any_held(reply, reply.chunk_ids.len()) {
                    holders.push(candidates[i]);
                }
            },
            None => {},
        }
        i = i + 1;
    }
    proof {
        assert(candidates@.take(candidates@.len() as int) =~= candidates@);
    }
    holders
}

} // verus!
