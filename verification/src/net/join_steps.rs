//! The decisions of joining a vault and of serving joiners, between the
//! network reads and writes that the daemon performs around them.

use vstd::prelude::*;

use crate::crypto::identity::{identity_verified, IdentityDocument};
use crate::encoding::admission::{decode_flush_offer, flush_offer_bytes, MAX_FLUSH_FRAMES};
use crate::error::{Error, Result};
use crate::ids::{bytes32_eq, PeerId};
use crate::net::frame::{Frame, FLUSH_CHALLENGE_KIND, GCM_PACKET_KIND};
use crate::net::join::{FlushOffer, NetControl, MAX_CONNECTIONS, MAX_PROVISIONAL};
use crate::net::VaultId;

verus! {

// ---------------------------------------------------------------------------
// Joining
// ---------------------------------------------------------------------------

/// After its join request, a joiner expects the host's flush offer and
/// nothing else.
pub fn join_offer(frame: &Frame) -> (r: Result<FlushOffer>)
    ensures
        frame.kind != FLUSH_CHALLENGE_KIND ==> r == Err::<FlushOffer, Error>(
            Error::State("expected flush challenge after Join"),
        ),
        frame.kind == FLUSH_CHALLENGE_KIND ==> match r {
            Ok(o) => frame.payload@ == flush_offer_bytes(o.challenge.0@, o.frame_count) && o.frame_count
                <= MAX_FLUSH_FRAMES,
            Err(e) => e is InvalidInput && forall|c: Seq<u8>, n: u32|
                c.len() == 32 && n <= MAX_FLUSH_FRAMES ==> frame.payload@ != #[trigger] flush_offer_bytes(
                    c,
                    n,
                ),
        },
{
    if frame.kind != FLUSH_CHALLENGE_KIND {
        return Err(Error::State("expected flush challenge after Join"));
    }
    decode_flush_offer(frame.payload.as_slice())
}

/// What a failed join attempt undoes and reports: the pair key is discarded
/// once the join request has been sent, and an attempt that ran past the
/// handshake deadline reports that.
pub fn join_failure(request_sent: bool, timed_out: bool, error: Error) -> (r: (bool, Error))
    ensures
        r.0 == request_sent,
        r.1 == if timed_out {
            Error::State("handshake deadline exceeded")
        } else {
            error
        },
{
    if timed_out {
        (request_sent, Error::State("handshake deadline exceeded"))
    } else {
        (request_sent, error)
    }
}

/// A replica that a join fills must follow the host that was joined.
pub fn join_replica_host(replica_host: Option<PeerId>, host: PeerId) -> (r: Result<()>)
    ensures
        match replica_host {
            Some(h) => if h@ == host@ {
                r is Ok
            } else {
                r == Err::<(), Error>(Error::AuthenticationFailed)
            },
            None => r is Ok,
        },
{
    match replica_host {
        Some(h) => {
            if bytes32_eq(&h.0, &host.0) {
                Ok(())
            } else {
                Err(Error::AuthenticationFailed)
            }
        },
        None => Ok(()),
    }
}

/// How many of `ms`, from the first, verify before the first that does not.
pub open spec fn leading_verified(ms: Seq<IdentityDocument>) -> int
    decreases ms.len(),
{
    if ms.len() == 0 {
        0
    } else if leading_verified(ms.drop_last()) == ms.len() - 1 && identity_verified(ms.last()) {
        ms.len() as int
    } else {
        leading_verified(ms.drop_last())
    }
}

/// The positions among the first `n` of `ms` of documents other than the
/// joiner's own, which the joiner imports.
pub open spec fn imported(ms: Seq<IdentityDocument>, local: Seq<u8>, n: int) -> Seq<usize>
    decreases n,
{
    if n <= 0 {
        Seq::empty()
    } else if ms[n - 1].peer_id@ != local {
        imported(ms, local, n - 1).push((n - 1) as usize)
    } else {
        imported(ms, local, n - 1)
    }
}

proof fn lemma_leading_stops(ms: Seq<IdentityDocument>, i: int, k: int)
    requires
        0 <= i < k <= ms.len(),
        leading_verified(ms.take(i)) == i,
        !identity_verified(ms[i]),
    ensures
        leading_verified(ms.take(k)) == i,
    decreases k,
{
    assert(ms.take(k).drop_last() =~= ms.take(k - 1));
    if k > i + 1 {
        lemma_leading_stops(ms, i, k - 1);
    } else {
        assert(ms.take(k).last() == ms[i]);
    }
}

/// The host's welcome, as a joiner takes it: a `JoinAccepted` for the
/// joined vault, whose member identities are checked one by one. Returns the
/// positions of the documents to import, other than the joiner's own, among
/// those checked before the first that fails, and the members' ids when all
/// of them verify. Anything else is refused and nothing is imported.
pub fn accept_welcome(welcome: &NetControl, vault_id: VaultId, local: PeerId) -> (r: (Vec<usize>, Result<Vec<PeerId>>))
    ensures
        match *welcome {
            NetControl::JoinAccepted { vault_id: v, members } => if v@ == vault_id@ {
                let n = leading_verified(members@);
                &&& r.0@ == imported(members@, local@, n)
                &&& (r.1 is Ok <==> n == members@.len())
                &&& (r.1 matches Ok(ids) ==> ids@ == members@.map_values(|d: IdentityDocument| d.peer_id))
            } else {
                r.0@.len() == 0 && r.1 == Err::<Vec<PeerId>, Error>(Error::AuthenticationFailed)
            },
            _ => r.0@.len() == 0 && r.1 == Err::<Vec<PeerId>, Error>(Error::AuthenticationFailed),
        },
{
    match welcome {
        NetControl::JoinAccepted { vault_id: v, members } => {
            if !bytes32_eq(&v.0, &vault_id.0) {
                return (Vec::new(), Err(Error::AuthenticationFailed));
            }
            let ghost ms = members@;
            let mut imports: Vec<usize> = Vec::new();
            let mut ids: Vec<PeerId> = Vec::new();
            let mut i: usize = 0;
            while i < members.len()
                invariant
                    ms == members@,
                    welcome is JoinAccepted,
                    welcome->members@ == ms,
                    welcome->vault_id@ == vault_id@,
                    i <= ms.len(),
                    leading_verified(ms.take(i as int)) == i,
                    imports@ == imported(ms, local@, i as int),
                    ids@ == ms.take(i as int).map_values(|d: IdentityDocument| d.peer_id),
                decreases ms.len() - i,
            {
                proof {
                    assert(ms.take(i + 1).drop_last() =~= ms.take(i as int));
                    assert(ms.take(i + 1).last() == ms[i as int]);
                }
                if let Err(e) = members[i].verify() {
                    proof {
                        lemma_leading_stops(ms, i as int, ms.len() as int);
                        assert(ms.take(ms.len() as int) =~= ms);
                        assert(leading_verified(ms) == i);
                    }
                    return (imports, Err(e));
                }
                if !bytes32_eq(&members[i].peer_id.0, &local.0) {
                    imports.push(i);
                }
                ids.push(members[i].peer_id);
                proof {
                    assert(ids@ =~= ms.take(i + 1).map_values(|d: IdentityDocument| d.peer_id));
                }
                i = i + 1;
            }
            proof {
                assert(ms.take(ms.len() as int) =~= ms);
            }
            (imports, Ok(ids))
        },
        _ => (Vec::new(), Err(Error::AuthenticationFailed)),
    }
}

// ---------------------------------------------------------------------------
// Serving joiners
// ---------------------------------------------------------------------------

/// Whether the host takes one more connection: it needs a free connection
/// slot and a free provisional slot, and takes both or neither. Returns the
/// new counts.
pub fn take_connection(connections: usize, provisional: usize) -> (r: Option<(usize, usize)>)
    ensures
        r is Some <==> connections < MAX_CONNECTIONS && provisional < MAX_PROVISIONAL,
        r matches Some((c, p)) ==> c == connections + 1 && p == provisional + 1,
{
    if connections >= MAX_CONNECTIONS || provisional >= MAX_PROVISIONAL {
        return None;
    }
    Some((connections + 1, provisional + 1))
}

/// A peer is served by one connection at a time: it is added to the active
/// peers, or refused if already there.
pub fn claim_peer(active: &mut Vec<PeerId>, peer: PeerId) -> (r: Result<()>)
    ensures
        (exists|i: int| 0 <= i < old(active)@.len() && (#[trigger] old(active)@[i])@ == peer@) ==> (r
            == Err::<(), Error>(Error::State("peer already connected")) && final(active)@ == old(active)@),
        !(exists|i: int| 0 <= i < old(active)@.len() && (#[trigger] old(active)@[i])@ == peer@) ==> (r is Ok
            && final(active)@ == old(active)@.push(peer)),
{
    let mut i: usize = 0;
    while i < active.len()
        invariant
            i <= active@.len(),
            forall|j: int| 0 <= j < i ==> (#[trigger] active@[j])@ != peer@,
        decreases active@.len() - i,
    {
        if bytes32_eq(&active[i].0, &peer.0) {
            return Err(Error::State("peer already connected"));
        }
        i = i + 1;
    }
    active.push(peer);
    Ok(())
}

/// The first frame after a joiner's handshake must be an encrypted packet;
/// anything else is refused, and the new pair key is discarded.
pub fn admission_frame(frame: &Frame) -> (r: Result<()>)
    ensures
        frame.kind == GCM_PACKET_KIND <==> r is Ok,
        r is Err ==> r == Err::<(), Error>(Error::AuthenticationFailed),
{
    if frame.kind != GCM_PACKET_KIND {
        return Err(Error::AuthenticationFailed);
    }
    Ok(())
}

} // verus!
