//! Pairwise AES-256-GCM through the `aes-gcm` crate. Every packet is bound to
//! its pair, epoch, direction and counter: the nonce is derived from the
//! authenticated header, send counters strictly increase, and received
//! counters pass the replay window before and after authentication.

use vstd::prelude::*;

use crate::encoding::frames::{decode_aad, header_bytes, lemma_header_len, nonce, nonce_bytes};
use crate::error::{Error, Result};
use crate::ids::{bytes32_eq, Epoch, PeerId, SeqNum};
use crate::protocol::packet::{
    Direction, PacketHeader, PayloadType, ReplayWindowKey, ReplayWindowState, PROTOCOL_VERSION,
};
use crate::wire::{be64, bytes_eq, lemma_be64, lemma_be64_injective};

verus! {

// ---------------------------------------------------------------------------
// The cipher
// ---------------------------------------------------------------------------

/// The ciphertext and tag that AES-256-GCM produces for these inputs.
pub uninterp spec fn aes256gcm_encrypt(key: Seq<u8>, nonce: Seq<u8>, aad: Seq<u8>, plaintext: Seq<u8>) -> Seq<u8>;

/// The plaintext that AES-256-GCM recovers from these inputs, if the tag
/// authenticates them.
pub uninterp spec fn aes256gcm_decrypt(key: Seq<u8>, nonce: Seq<u8>, aad: Seq<u8>, ciphertext: Seq<u8>) -> Option<
    Seq<u8>,
>;

/// The message and associated-data limits of AES-GCM (2^36 - 32 and
/// 2^61 - 1 bytes).
pub open spec fn gcm_lengths_ok(message_len: int, aad_len: int) -> bool {
    message_len <= 68719476704 && aad_len <= 2305843009213693951
}

/// `aes_gcm::Aes256Gcm::encrypt`: refuses a plaintext or associated data
/// over the AES-GCM limits, and otherwise returns the ciphertext followed by
/// the 16-byte tag.
#[verifier::external_body]
fn gcm_seal(key: &[u8; 32], nonce: &[u8; 12], aad: &[u8], plaintext: &[u8]) -> (r: Option<Vec<u8>>)
    ensures
        match r {
            Some(c) => {
                &&& gcm_lengths_ok(plaintext@.len() as int, aad@.len() as int)
                &&& c@ == aes256gcm_encrypt(key@, nonce@, aad@, plaintext@)
                &&& c@.len() == plaintext@.len() + 16
            },
            None => !gcm_lengths_ok(plaintext@.len() as int, aad@.len() as int),
        },
{
    let cipher = <aes_gcm::Aes256Gcm as aes_gcm::KeyInit>::new(&(*key).into());
    let payload = aes_gcm::aead::Payload { msg: plaintext, aad };
    <aes_gcm::Aes256Gcm as aes_gcm::aead::Aead>::encrypt(&cipher, &(*nonce).into(), payload).ok()
}

/// `aes_gcm::Aes256Gcm::decrypt`: the plaintext when the tag authenticates
/// key, nonce, associated data and ciphertext. Decrypting what `encrypt`
/// produced under the same key, nonce and associated data gives back the
/// plaintext.
#[verifier::external_body]
fn gcm_open(key: &[u8; 32], nonce: &[u8; 12], aad: &[u8], ciphertext: &[u8]) -> (r: Option<Vec<u8>>)
    ensures
        match r {
            Some(p) => aes256gcm_decrypt(key@, nonce@, aad@, ciphertext@) == Some(p@),
            None => aes256gcm_decrypt(key@, nonce@, aad@, ciphertext@) is None,
        },
        forall|p: Seq<u8>|
            gcm_lengths_ok(p.len() as int, aad@.len() as int) && #[trigger] aes256gcm_encrypt(
                key@,
                nonce@,
                aad@,
                p,
            ) == ciphertext@ ==> r is Some && r->0@ == p,
{
    let cipher = <aes_gcm::Aes256Gcm as aes_gcm::KeyInit>::new(&(*key).into());
    let payload = aes_gcm::aead::Payload { msg: ciphertext, aad };
    <aes_gcm::Aes256Gcm as aes_gcm::aead::Aead>::decrypt(&cipher, &(*nonce).into(), payload).ok()
}

// ---------------------------------------------------------------------------
// Associated data
// ---------------------------------------------------------------------------

/// The header fields that the associated data fixes.
pub open spec fn header_view(h: PacketHeader) -> (u8, Seq<u8>, Seq<u8>, u64, u64) {
    (h.version, h.sender_id@, h.receiver_id@, h.epoch.0, h.seq.0)
}

/// `aad` is a canonical packet or chunk-body AAD for `h` and `t`.
pub open spec fn aad_layout(aad: Seq<u8>, h: PacketHeader, t: PayloadType) -> bool {
    &&& (aad.len() == 81 && t == PayloadType::Packet) || (aad.len() == 121 && t
        == PayloadType::ChunkBody)
    &&& h.version == PROTOCOL_VERSION
    &&& header_bytes(h) == aad.take(81)
}

pub open spec fn aad_ok(aad: Seq<u8>) -> bool {
    exists|h: PacketHeader, t: PayloadType| aad_layout(aad, h, t)
}

/// The header and payload type that a canonical AAD carries.
pub open spec fn aad_header(aad: Seq<u8>) -> (PacketHeader, PayloadType) {
    choose|h: PacketHeader, t: PayloadType| aad_layout(aad, h, t)
}

/// An AAD names one header and one payload type.
pub proof fn lemma_aad_unique(aad: Seq<u8>, h: PacketHeader, t: PayloadType)
    requires
        aad_layout(aad, h, t),
    ensures
        aad_ok(aad),
        header_view(aad_header(aad).0) == header_view(h),
        aad_header(aad).1 == t,
{
    let (g, u) = aad_header(aad);
    assert(aad_layout(aad, g, u));
    lemma_header_len(h);
    lemma_header_len(g);
    let a = header_bytes(h);
    let b = header_bytes(g);
    assert(a == b);
    lemma_be64(h.epoch.0);
    lemma_be64(h.seq.0);
    lemma_be64(g.epoch.0);
    lemma_be64(g.seq.0);
    assert(a.subrange(1, 33) =~= h.sender_id@);
    assert(b.subrange(1, 33) =~= g.sender_id@);
    assert(a.subrange(33, 65) =~= h.receiver_id@);
    assert(b.subrange(33, 65) =~= g.receiver_id@);
    assert(a.subrange(65, 73) =~= be64(h.epoch.0));
    assert(b.subrange(65, 73) =~= be64(g.epoch.0));
    assert(a.subrange(73, 81) =~= be64(h.seq.0));
    assert(b.subrange(73, 81) =~= be64(g.seq.0));
    lemma_be64_injective(h.epoch.0, g.epoch.0);
    lemma_be64_injective(h.seq.0, g.seq.0);
}

// ---------------------------------------------------------------------------
// Pair state
// ---------------------------------------------------------------------------

/// A reference to a pair key held by a key store.
#[derive(Clone)]
pub struct PairKeyHandle {
    pub slot: u64,
    pub store_id: [u8; 32],
}

/// Two replay keys naming the same counter space.
pub open spec fn same_space(a: ReplayWindowKey, b: ReplayWindowKey) -> bool {
    &&& a.peer_id@ == b.peer_id@
    &&& a.epoch == b.epoch
    &&& a.direction == b.direction
    &&& a.payload_type == b.payload_type
}

fn same_space_exec(a: &ReplayWindowKey, b: &ReplayWindowKey) -> (r: bool)
    ensures
        r == same_space(*a, *b),
{
    bytes32_eq(&a.peer_id.0, &b.peer_id.0) && a.epoch.0 == b.epoch.0 && a.direction == b.direction
        && a.payload_type == b.payload_type
}

/// The window of counter space `k`: the first entry for it.
pub open spec fn find_window(s: Seq<(ReplayWindowKey, ReplayWindowState)>, k: ReplayWindowKey) -> Option<
    ReplayWindowState,
>
    decreases s.len(),
{
    if s.len() == 0 {
        None
    } else if same_space(s[0].0, k) {
        Some(s[0].1)
    } else {
        find_window(s.drop_first(), k)
    }
}

/// Whether `seq` may be accepted in a space whose window is `w` (a space
/// without a window accepts everything).
pub open spec fn window_fresh(w: Option<ReplayWindowState>, seq: u64) -> bool {
    match w {
        None => true,
        Some(w) => w.fresh(seq),
    }
}

/// The window that accepting `seq` leaves, from `w`.
pub open spec fn window_after(w: Option<ReplayWindowState>, seq: u64, new: ReplayWindowState) -> bool {
    match w {
        None => new.highest_seen == Some(seq) && forall|d: int|
            0 <= d < 1024 ==> #[trigger] new.bit(d) == (d == 0),
        Some(w) => ReplayWindowState::accepted(w, seq, new),
    }
}

/// The last counter sent for a payload type, if any.
pub open spec fn send_allowed(last: Option<u64>, seq: u64) -> bool {
    match last {
        None => true,
        Some(l) => seq > l,
    }
}

/// The key and counters of one live pair session.
pub struct PairKeyState {
    pub(crate) key: [u8; 32],
    pub(crate) peer_id: PeerId,
    pub(crate) epoch: Epoch,
    send_packet: Option<u64>,
    send_chunk: Option<u64>,
    replay: Vec<(ReplayWindowKey, ReplayWindowState)>,
}

impl PairKeyState {
    pub closed spec fn key_view(self) -> Seq<u8> {
        self.key@
    }

    pub closed spec fn peer(self) -> PeerId {
        self.peer_id
    }

    pub closed spec fn pair_epoch(self) -> Epoch {
        self.epoch
    }

    /// The last counter sent for payload type `t`.
    pub closed spec fn last_sent(self, t: PayloadType) -> Option<u64> {
        match t {
            PayloadType::Packet => self.send_packet,
            PayloadType::ChunkBody => self.send_chunk,
        }
    }

    /// The receive window of counter space `k`, if one was opened.
    pub closed spec fn window(self, k: ReplayWindowKey) -> Option<ReplayWindowState> {
        find_window(self.replay@, k)
    }

    pub fn new(key: [u8; 32], peer_id: PeerId, epoch: Epoch) -> (r: Self)
        ensures
            r.key_view() == key@,
            r.peer() == peer_id,
            r.pair_epoch() == epoch,
            forall|t: PayloadType| #[trigger] r.last_sent(t) is None,
            forall|k: ReplayWindowKey| #[trigger] r.window(k) is None,
    {
        let r = Self { key, peer_id, epoch, send_packet: None, send_chunk: None, replay: Vec::new() };
        r
    }

    /// Reserves counter `seq` for sending `payload_type`: counters strictly
    /// increase per payload type.
    pub fn reserve_send(&mut self, payload_type: PayloadType, seq: SeqNum) -> (r: Result<()>)
        ensures
            final(self).key_view() == old(self).key_view(),
            final(self).peer() == old(self).peer(),
            final(self).pair_epoch() == old(self).pair_epoch(),
            forall|k: ReplayWindowKey| #[trigger] final(self).window(k) == old(self).window(k),
            forall|t: PayloadType|
                t != payload_type ==> #[trigger] final(self).last_sent(t) == old(self).last_sent(t),
            match r {
                Ok(()) => send_allowed(old(self).last_sent(payload_type), seq.0) && final(self).last_sent(
                    payload_type,
                ) == Some(seq.0),
                Err(e) => !send_allowed(old(self).last_sent(payload_type), seq.0) && e is State
                    && final(self).last_sent(payload_type) == old(self).last_sent(payload_type),
            },
    {
        let last = match payload_type {
            PayloadType::Packet => self.send_packet,
            PayloadType::ChunkBody => self.send_chunk,
        };
        if let Some(l) = last {
            if seq.0 <= l {
                return Err(Error::State("AEAD send counter must strictly increase"));
            }
        }
        match payload_type {
            PayloadType::Packet => self.send_packet = Some(seq.0),
            PayloadType::ChunkBody => self.send_chunk = Some(seq.0),
        }
        Ok(())
    }

    /// The position of the first window of space `k`.
    fn window_index(&self, k: &ReplayWindowKey) -> (r: Option<usize>)
        ensures
            match r {
                Some(i) => i < self.replay@.len() && same_space(self.replay@[i as int].0, *k)
                    && self.window(*k) == Some(self.replay@[i as int].1) && forall|j: int|
                    0 <= j < i ==> !same_space((#[trigger] self.replay@[j]).0, *k),
                None => self.window(*k) is None && forall|j: int|
                    0 <= j < self.replay@.len() ==> !same_space((#[trigger] self.replay@[j]).0, *k),
            },
    {
        let ghost s = self.replay@;
        let mut i: usize = 0;
        assert(s.skip(0) =~= s);
        while i < self.replay.len()
            invariant
                self.replay@ == s,
                i <= s.len(),
                find_window(s, *k) == find_window(s.skip(i as int), *k),
                forall|j: int| 0 <= j < i ==> !same_space((#[trigger] s[j]).0, *k),
            decreases s.len() - i,
        {
            if same_space_exec(&self.replay[i].0, k) {
                assert(s.skip(i as int)[0] == s[i as int]);
                return Some(i);
            }
            assert(s.skip(i as int).drop_first() =~= s.skip(i + 1));
            i = i + 1;
        }
        None
    }

    /// Whether `seq` is still fresh in counter space `k`.
    pub fn replay_check(&self, k: &ReplayWindowKey, seq: SeqNum) -> (r: Result<()>)
        ensures
            match r {
                Ok(()) => window_fresh(self.window(*k), seq.0),
                Err(e) => !window_fresh(self.window(*k), seq.0) && e is ReplayRejected,
            },
    {
        match self.window_index(k) {
            Some(i) => self.replay[i].1.check(seq),
            None => Ok(()),
        }
    }

    /// Records `seq` in counter space `k`, opening its window if needed.
    pub fn replay_accept(&mut self, k: &ReplayWindowKey, seq: SeqNum) -> (r: Result<()>)
        ensures
            final(self).key_view() == old(self).key_view(),
            final(self).peer() == old(self).peer(),
            final(self).pair_epoch() == old(self).pair_epoch(),
            forall|t: PayloadType| #[trigger] final(self).last_sent(t) == old(self).last_sent(t),
            forall|k2: ReplayWindowKey|
                !same_space(k2, *k) ==> #[trigger] final(self).window(k2) == old(self).window(k2),
            match r {
                Ok(()) => window_fresh(old(self).window(*k), seq.0) && (final(self).window(*k) matches Some(w) && window_after(old(self).window(*k), seq.0, w)),
                Err(e) => !window_fresh(old(self).window(*k), seq.0) && e is ReplayRejected && final(self).window(*k) == old(self).window(*k),
            },
    {
        let ghost s = self.replay@;
        match self.window_index(k) {
            Some(i) => {
                let mut w = self.replay[i].1;
                let entry_key = self.replay[i].0;
                w.accept(seq)?;
                self.replay.set(i, (entry_key, w));
                proof {
                    lemma_find_update(s, i as int, (entry_key, w), *k);
                }
                Ok(())
            },
            None => {
                let mut w = ReplayWindowState::default();
                w.accept(seq)?;
                self.replay.push((*k, w));
                proof {
                    lemma_find_push(s, (*k, w), *k);
                }
                Ok(())
            },
        }
    }
}

/// The endpoints a header must name in `direction` for the pair of `local`
/// and `peer`.
pub open spec fn endpoints_ok(local: Seq<u8>, peer: Seq<u8>, h: PacketHeader, direction: Direction) -> bool {
    match direction {
        Direction::Outbound => h.sender_id@ == local && h.receiver_id@ == peer,
        Direction::Inbound => h.sender_id@ == peer && h.receiver_id@ == local,
    }
}

/// A header fits the pair session and the nonce comes from the header.
pub open spec fn header_ok(
    local: Seq<u8>,
    peer: Seq<u8>,
    epoch: Epoch,
    h: PacketHeader,
    t: PayloadType,
    nonce: Seq<u8>,
    direction: Direction,
) -> bool {
    &&& h.version == PROTOCOL_VERSION
    &&& endpoints_ok(local, peer, h, direction)
    &&& h.epoch == epoch
    &&& nonce == nonce_bytes(h, t)
}

/// The counter space of a pair, epoch, direction and payload type.
pub open spec fn space_of(peer: PeerId, epoch: Epoch, direction: Direction, t: PayloadType) -> ReplayWindowKey {
    ReplayWindowKey { peer_id: peer, epoch, direction, payload_type: t }
}

/// A header the sender accepts for sealing is one the receiver accepts for
/// opening: the same bytes name the same pair from the other side.
pub proof fn law_outbound_header_is_inbound_for_peer(
    local: Seq<u8>,
    peer: Seq<u8>,
    epoch: Epoch,
    h: PacketHeader,
    t: PayloadType,
    nonce: Seq<u8>,
)
    requires
        header_ok(local, peer, epoch, h, t, nonce, Direction::Outbound),
    ensures
        header_ok(peer, local, epoch, h, t, nonce, Direction::Inbound),
{
}

/// What sealing `plaintext` from `local` does to a pair state and returns.
pub open spec fn sealed(
    before: PairKeyState,
    after: PairKeyState,
    local: Seq<u8>,
    nonce: Seq<u8>,
    aad: Seq<u8>,
    plaintext: Seq<u8>,
    r: Result<Vec<u8>>,
) -> bool {
    let (h, t) = aad_header(aad);
    let ok = aad_ok(aad) && header_ok(local, before.peer()@, before.pair_epoch(), h, t, nonce, Direction::Outbound);
    let allowed = send_allowed(before.last_sent(t), h.seq.0);
    let reserved = forall|u: PayloadType|
        #[trigger] after.last_sent(u) == (if u == t {
            Some(h.seq.0)
        } else {
            before.last_sent(u)
        });
    let unchanged = forall|u: PayloadType| #[trigger] after.last_sent(u) == before.last_sent(u);
    &&& after.key_view() == before.key_view()
    &&& after.peer() == before.peer()
    &&& after.pair_epoch() == before.pair_epoch()
    &&& forall|k: ReplayWindowKey| #[trigger] after.window(k) == before.window(k)
    &&& match r {
        Ok(c) => ok && allowed && reserved && gcm_lengths_ok(plaintext.len() as int, aad.len() as int)
            && c@ == aes256gcm_encrypt(before.key_view(), nonce, aad, plaintext),
        Err(e) => (e is InvalidInput && !ok && unchanged) || (e is State && ok && !allowed && unchanged)
            || (e is AuthenticationFailed && ok && allowed && reserved && !gcm_lengths_ok(
            plaintext.len() as int,
            aad.len() as int,
        )),
    }
}

/// What opening `ciphertext` at `local` does to a pair state and returns.
pub open spec fn opened(
    before: PairKeyState,
    after: PairKeyState,
    local: Seq<u8>,
    nonce: Seq<u8>,
    aad: Seq<u8>,
    ciphertext: Seq<u8>,
    r: Result<Vec<u8>>,
) -> bool {
    let (h, t) = aad_header(aad);
    let k = space_of(before.peer(), before.pair_epoch(), Direction::Inbound, t);
    let ok = aad_ok(aad) && header_ok(local, before.peer()@, before.pair_epoch(), h, t, nonce, Direction::Inbound);
    let fresh = window_fresh(before.window(k), h.seq.0);
    let decrypted = aes256gcm_decrypt(before.key_view(), nonce, aad, ciphertext);
    &&& after.key_view() == before.key_view()
    &&& after.peer() == before.peer()
    &&& after.pair_epoch() == before.pair_epoch()
    &&& forall|u: PayloadType| #[trigger] after.last_sent(u) == before.last_sent(u)
    &&& forall|k2: ReplayWindowKey| !same_space(k2, k) ==> #[trigger] after.window(k2) == before.window(k2)
    &&& match r {
        Ok(p) => ok && fresh && decrypted == Some(p@) && (after.window(k) matches Some(w) && window_after(
            before.window(k),
            h.seq.0,
            w,
        )),
        Err(e) => after.window(k) == before.window(k) && ((e is InvalidInput && !ok) || (e is ReplayRejected
            && ok && !fresh) || (e is AuthenticationFailed && ok && fresh && decrypted is None)),
    }
    &&& forall|p: Seq<u8>|
        ok && fresh && gcm_lengths_ok(p.len() as int, aad.len() as int) && #[trigger] aes256gcm_encrypt(
            before.key_view(),
            nonce,
            aad,
            p,
        ) == ciphertext ==> (r matches Ok(q) && q@ == p)
}

/// What one side of a pair seals, the other side opens to the same
/// plaintext, while the counter is fresh in its receive window.
pub proof fn law_sealed_packet_opens_at_peer(
    sender: PairKeyState,
    sender_after: PairKeyState,
    receiver: PairKeyState,
    receiver_after: PairKeyState,
    sender_id: Seq<u8>,
    nonce: Seq<u8>,
    aad: Seq<u8>,
    plaintext: Seq<u8>,
    sealed_result: Result<Vec<u8>>,
    opened_result: Result<Vec<u8>>,
)
    requires
        sealed(sender, sender_after, sender_id, nonce, aad, plaintext, sealed_result),
        sealed_result is Ok,
        receiver.peer()@ == sender_id,
        receiver.pair_epoch() == sender.pair_epoch(),
        receiver.key_view() == sender.key_view(),
        window_fresh(
            receiver.window(
                space_of(receiver.peer(), receiver.pair_epoch(), Direction::Inbound, aad_header(aad).1),
            ),
            aad_header(aad).0.seq.0,
        ),
        opened(
            receiver,
            receiver_after,
            sender.peer()@,
            nonce,
            aad,
            sealed_result->Ok_0@,
            opened_result,
        ),
    ensures
        opened_result matches Ok(p) && p@ == plaintext,
{
    let (h, t) = aad_header(aad);
    law_outbound_header_is_inbound_for_peer(sender_id, sender.peer()@, sender.pair_epoch(), h, t, nonce);
}

/// The two payload types keep separate receive windows: opening one
/// payload type leaves the window of the other as it was, so a counter
/// accepted for one is no less fresh for the other.
pub proof fn law_open_leaves_other_payload_window(
    before: PairKeyState,
    after: PairKeyState,
    local: Seq<u8>,
    nonce: Seq<u8>,
    aad: Seq<u8>,
    ciphertext: Seq<u8>,
    r: Result<Vec<u8>>,
    other: PayloadType,
    seq: u64,
)
    requires
        opened(before, after, local, nonce, aad, ciphertext, r),
        other != aad_header(aad).1,
    ensures
        after.window(space_of(before.peer(), before.pair_epoch(), Direction::Inbound, other)) == before.window(
            space_of(before.peer(), before.pair_epoch(), Direction::Inbound, other),
        ),
        window_fresh(after.window(space_of(before.peer(), before.pair_epoch(), Direction::Inbound, other)), seq)
            == window_fresh(before.window(space_of(before.peer(), before.pair_epoch(), Direction::Inbound, other)), seq),
{
    let k = space_of(before.peer(), before.pair_epoch(), Direction::Inbound, aad_header(aad).1);
    let k2 = space_of(before.peer(), before.pair_epoch(), Direction::Inbound, other);
    assert(!same_space(k2, k));
}

/// A packet that a pair state has opened is refused as a replay when it is
/// presented again, whatever ciphertext accompanies its header.
pub proof fn law_opened_packet_is_refused_again(
    first: PairKeyState,
    second: PairKeyState,
    third: PairKeyState,
    local: Seq<u8>,
    nonce: Seq<u8>,
    aad: Seq<u8>,
    ciphertext: Seq<u8>,
    replayed: Seq<u8>,
    r1: Result<Vec<u8>>,
    r2: Result<Vec<u8>>,
)
    requires
        opened(first, second, local, nonce, aad, ciphertext, r1),
        r1 is Ok,
        opened(second, third, local, nonce, aad, replayed, r2),
    ensures
        r2 matches Err(e) && e is ReplayRejected,
{
    let (h, t) = aad_header(aad);
    let k = space_of(first.peer(), first.pair_epoch(), Direction::Inbound, t);
    let w = second.window(k)->0;
    match first.window(k) {
        None => {
            assert(w.bit(0));
        },
        Some(v) => {
            crate::protocol::packet::law_accepted_counter_is_replay(v, h.seq.0, w);
        },
    }
    assert(!window_fresh(second.window(k), h.seq.0));
}

/// Checks a decoded header against the pair session and returns the
/// counter space it belongs to.
pub fn validate_header(
    local_id: PeerId,
    state: &PairKeyState,
    header: &PacketHeader,
    payload_type: PayloadType,
    nonce: &[u8; 12],
    direction: Direction,
) -> (r: Result<ReplayWindowKey>)
    ensures
        match r {
            Ok(k) => header_ok(
                local_id@,
                state.peer()@,
                state.pair_epoch(),
                *header,
                payload_type,
                nonce@,
                direction,
            ) && k == space_of(state.peer(), state.pair_epoch(), direction, payload_type),
            Err(e) => e is InvalidInput && !header_ok(
                local_id@,
                state.peer()@,
                state.pair_epoch(),
                *header,
                payload_type,
                nonce@,
                direction,
            ),
        },
{
    if header.version != PROTOCOL_VERSION {
        return Err(Error::InvalidInput("unsupported packet version"));
    }
    let endpoints_match = match direction {
        Direction::Outbound => bytes32_eq(&header.sender_id.0, &local_id.0) && bytes32_eq(
            &header.receiver_id.0,
            &state.peer_id.0,
        ),
        Direction::Inbound => bytes32_eq(&header.sender_id.0, &state.peer_id.0) && bytes32_eq(
            &header.receiver_id.0,
            &local_id.0,
        ),
    };
    if !endpoints_match || header.epoch.0 != state.epoch.0 {
        return Err(Error::InvalidInput("AAD does not match pair key"));
    }
    let expected = crate::encoding::frames::nonce(header, payload_type);
    if !bytes_eq(nonce, &expected) {
        return Err(Error::InvalidInput("nonce does not match AAD"));
    }
    Ok(ReplayWindowKey { peer_id: state.peer_id, epoch: state.epoch, direction, payload_type })
}

impl PairKeyState {
    /// Seals `plaintext` under the pair key for the header that `aad`
    /// carries, reserving its counter first.
    pub fn seal(&mut self, local_id: PeerId, nonce: &[u8; 12], aad: &[u8], plaintext: &[u8]) -> (r: Result<
        Vec<u8>,
    >)
        ensures
            sealed(*old(self), *final(self), local_id@, nonce@, aad@, plaintext@, r),
    {
        let (header, payload_type) = match decode_aad(aad) {
            Ok(parsed) => parsed,
            Err(e) => {
                proof {
                    assert(!aad_ok(aad@)) by {
                        if aad_ok(aad@) {
                            let (h, t) = choose|h: PacketHeader, t: PayloadType| aad_layout(aad@, h, t);
                            assert(aad@.take(81)[0] == header_bytes(h)[0]);
                        }
                    }
                }
                return Err(e);
            },
        };
        proof {
            lemma_aad_unique(aad@, header, payload_type);
        }
        validate_header(local_id, self, &header, payload_type, nonce, Direction::Outbound)?;
        self.reserve_send(payload_type, header.seq)?;
        match gcm_seal(&self.key, nonce, aad, plaintext) {
            Some(c) => Ok(c),
            None => Err(Error::AuthenticationFailed),
        }
    }

    /// Opens `ciphertext` for the header that `aad` carries: the counter must
    /// be fresh before decryption and is recorded only after the tag has
    /// authenticated it. What the peer sealed for this pair under a fresh
    /// counter opens to its plaintext.
    pub fn open(&mut self, local_id: PeerId, nonce: &[u8; 12], aad: &[u8], ciphertext: &[u8]) -> (r: Result<
        Vec<u8>,
    >)
        ensures
            opened(*old(self), *final(self), local_id@, nonce@, aad@, ciphertext@, r),
    {
        let (header, payload_type) = match decode_aad(aad) {
            Ok(parsed) => parsed,
            Err(e) => {
                proof {
                    assert(!aad_ok(aad@)) by {
                        if aad_ok(aad@) {
                            let (h, t) = choose|h: PacketHeader, t: PayloadType| aad_layout(aad@, h, t);
                            assert(aad@.take(81)[0] == header_bytes(h)[0]);
                        }
                    }
                }
                return Err(e);
            },
        };
        proof {
            lemma_aad_unique(aad@, header, payload_type);
        }
        let replay_key = validate_header(local_id, self, &header, payload_type, nonce, Direction::Inbound)?;
        self.replay_check(&replay_key, header.seq)?;
        let plaintext = match gcm_open(&self.key, nonce, aad, ciphertext) {
            Some(p) => p,
            None => {
                return Err(Error::AuthenticationFailed);
            },
        };
        self.replay_accept(&replay_key, header.seq)?;
        Ok(plaintext)
    }
}

/// Pairwise AEAD by key handle.
pub trait Aes256Gcm {
    fn seal(&mut self, key: &PairKeyHandle, nonce: &[u8; 12], aad: &[u8], plaintext: &[u8]) -> Result<Vec<u8>>;

    fn open(&mut self, key: &PairKeyHandle, nonce: &[u8; 12], aad: &[u8], ciphertext: &[u8]) -> Result<Vec<u8>>;
}

/// The pair state installed under `slot`: the first entry for it.
pub open spec fn find_pair(s: Seq<(u64, PairKeyState)>, slot: u64) -> Option<PairKeyState>
    decreases s.len(),
{
    if s.len() == 0 {
        None
    } else if s[0].0 == slot {
        Some(s[0].1)
    } else {
        find_pair(s.drop_first(), slot)
    }
}

proof fn lemma_find_pair_update(s: Seq<(u64, PairKeyState)>, i: int, e: (u64, PairKeyState))
    requires
        0 <= i < s.len(),
        s[i].0 == e.0,
        forall|j: int| 0 <= j < i ==> (#[trigger] s[j]).0 != e.0,
    ensures
        find_pair(s.update(i, e), e.0) == Some(e.1),
        forall|slot: u64| slot != e.0 ==> #[trigger] find_pair(s.update(i, e), slot) == find_pair(s, slot),
    decreases s.len(),
{
    let t = s.update(i, e);
    if i == 0 {
        assert(t[0] == e);
        assert(t.drop_first() =~= s.drop_first());
    } else {
        assert(t.drop_first() =~= s.drop_first().update(i - 1, e));
        assert forall|j: int| 0 <= j < i - 1 implies (#[trigger] s.drop_first()[j]).0 != e.0 by {
            assert(s.drop_first()[j] == s[j + 1]);
        }
        lemma_find_pair_update(s.drop_first(), i - 1, e);
        assert(t[0] == s[0]);
    }
    assert forall|slot: u64| slot != e.0 implies #[trigger] find_pair(t, slot) == find_pair(s, slot) by {
        if i == 0 {
            assert(t.drop_first() == s.drop_first());
        } else {
            lemma_find_pair_update(s.drop_first(), i - 1, e);
            assert(find_pair(s.drop_first().update(i - 1, e), slot) == find_pair(s.drop_first(), slot));
            assert(t.drop_first() == s.drop_first().update(i - 1, e));
        }
    }
}

proof fn lemma_find_pair_push(s: Seq<(u64, PairKeyState)>, e: (u64, PairKeyState))
    requires
        forall|j: int| 0 <= j < s.len() ==> (#[trigger] s[j]).0 != e.0,
    ensures
        find_pair(s.push(e), e.0) == Some(e.1),
        forall|slot: u64| slot != e.0 ==> #[trigger] find_pair(s.push(e), slot) == find_pair(s, slot),
    decreases s.len(),
{
    let t = s.push(e);
    if s.len() == 0 {
        assert(t[0] == e);
    } else {
        assert(t.drop_first() =~= s.drop_first().push(e));
        assert forall|j: int| 0 <= j < s.drop_first().len() implies (#[trigger] s.drop_first()[j]).0
            != e.0 by {
            assert(s.drop_first()[j] == s[j + 1]);
        }
        lemma_find_pair_push(s.drop_first(), e);
        assert(t[0] == s[0]);
    }
    assert forall|slot: u64| slot != e.0 implies #[trigger] find_pair(t, slot) == find_pair(s, slot) by {
        if s.len() == 0 {
            assert(t[0] == e);
            assert(t.drop_first() =~= Seq::<(u64, PairKeyState)>::empty());
            assert(find_pair(t.drop_first(), slot) is None);
            assert(find_pair(t, slot) == find_pair(t.drop_first(), slot));
        } else {
            lemma_find_pair_push(s.drop_first(), e);
            assert(find_pair(s.drop_first().push(e), slot) == find_pair(s.drop_first(), slot));
            assert(t.drop_first() == s.drop_first().push(e));
        }
    }
}

/// The `aes-gcm` crate's implementation over the pair keys of one key store,
/// each installed under its own slot.
pub struct RustCryptoAes256Gcm {
    local_id: PeerId,
    store_id: [u8; 32],
    pairs: Vec<(u64, PairKeyState)>,
    next_slot: u64,
}

impl RustCryptoAes256Gcm {
    /// The pair state a handle names: one issued by this store.
    pub closed spec fn pair(self, handle: PairKeyHandle) -> Option<PairKeyState> {
        if handle.store_id@ == self.store_id@ {
            find_pair(self.pairs@, handle.slot)
        } else {
            None
        }
    }

    pub closed spec fn local(self) -> PeerId {
        self.local_id
    }

    /// The member this store seals for.
    pub fn local_id(&self) -> (r: PeerId)
        ensures
            r == self.local(),
    {
        self.local_id
    }

    /// Every slot below the next one, and no slot twice.
    pub closed spec fn wf(self) -> bool {
        forall|j: int| 0 <= j < self.pairs@.len() ==> (#[trigger] self.pairs@[j]).0 < self.next_slot
    }

    pub fn new(local_id: PeerId, store_id: [u8; 32]) -> (r: Self)
        ensures
            r.wf(),
            r.local() == local_id,
            forall|h: PairKeyHandle| #[trigger] r.pair(h) is None,
    {
        RustCryptoAes256Gcm { local_id, store_id, pairs: Vec::new(), next_slot: 0 }
    }

    /// Installs a fresh pair state and returns its handle.
    pub fn install(&mut self, state: PairKeyState) -> (r: Result<PairKeyHandle>)
        requires
            old(self).wf(),
        ensures
            final(self).wf(),
            final(self).local() == old(self).local(),
            match r {
                Ok(h) => old(self).pair(h) is None && final(self).pair(h) == Some(state) && forall|
                    h2: PairKeyHandle,
                | h2.slot != h.slot ==> #[trigger] final(self).pair(h2) == old(self).pair(h2),
                Err(e) => e is State && forall|h2: PairKeyHandle| #[trigger] final(self).pair(h2) == old(
                    self,
                ).pair(h2),
            },
    {
        if self.next_slot == u64::MAX {
            return Err(Error::State("pair key slots exhausted"));
        }
        let slot = self.next_slot;
        let ghost s = self.pairs@;
        self.pairs.push((slot, state));
        self.next_slot = slot + 1;
        proof {
            lemma_find_pair_push(s, (slot, state));
            assert(!(find_pair(s, slot) is Some)) by {
                lemma_find_pair_absent(s, slot);
            }
        }
        Ok(PairKeyHandle { slot, store_id: self.store_id })
    }

    fn pair_index(&self, handle: &PairKeyHandle) -> (r: Option<usize>)
        ensures
            match r {
                Some(i) => i < self.pairs@.len() && self.pairs@[i as int].0 == handle.slot && self.pair(*handle)
                    == Some(self.pairs@[i as int].1) && forall|j: int|
                    0 <= j < i ==> (#[trigger] self.pairs@[j]).0 != handle.slot,
                None => self.pair(*handle) is None,
            },
    {
        if !bytes32_eq(&handle.store_id, &self.store_id) {
            return None;
        }
        let ghost s = self.pairs@;
        let mut i: usize = 0;
        assert(s.skip(0) =~= s);
        while i < self.pairs.len()
            invariant
                self.pairs@ == s,
                handle.store_id@ == self.store_id@,
                i <= s.len(),
                find_pair(s, handle.slot) == find_pair(s.skip(i as int), handle.slot),
                forall|j: int| 0 <= j < i ==> (#[trigger] s[j]).0 != handle.slot,
            decreases s.len() - i,
        {
            if self.pairs[i].0 == handle.slot {
                assert(s.skip(i as int)[0] == s[i as int]);
                assert(find_pair(s.skip(i as int), handle.slot) == Some(s[i as int].1));
                return Some(i);
            }
            assert(s.skip(i as int).drop_first() =~= s.skip(i + 1));
            i = i + 1;
        }
        None
    }
}

proof fn lemma_find_pair_absent(s: Seq<(u64, PairKeyState)>, slot: u64)
    requires
        forall|j: int| 0 <= j < s.len() ==> (#[trigger] s[j]).0 != slot,
    ensures
        find_pair(s, slot) is None,
    decreases s.len(),
{
    if s.len() > 0 {
        assert forall|j: int| 0 <= j < s.drop_first().len() implies (#[trigger] s.drop_first()[j]).0
            != slot by {
            assert(s.drop_first()[j] == s[j + 1]);
        }
        lemma_find_pair_absent(s.drop_first(), slot);
    }
}

impl Aes256Gcm for RustCryptoAes256Gcm {
    fn seal(&mut self, key: &PairKeyHandle, nonce: &[u8; 12], aad: &[u8], plaintext: &[u8]) -> (r: Result<
        Vec<u8>,
    >)
        ensures
            final(self).local() == old(self).local(),
            forall|h2: PairKeyHandle|
                h2.slot != key.slot ==> #[trigger] final(self).pair(h2) == old(self).pair(h2),
            match old(self).pair(*key) {
                None => r matches Err(e) && e is KeyUnavailable && final(self).pair(*key) is None,
                Some(before) => final(self).pair(*key) matches Some(after) && sealed(
                    before,
                    after,
                    old(self).local()@,
                    nonce@,
                    aad@,
                    plaintext@,
                    r,
                ),
            },
    {
        let i = match self.pair_index(key) {
            Some(i) => i,
            None => {
                return Err(Error::KeyUnavailable);
            },
        };
        let ghost s = self.pairs@;
        let (slot, mut state) = self.pairs.remove(i);
        let r = state.seal(self.local_id, nonce, aad, plaintext);
        self.pairs.insert(i, (slot, state));
        proof {
            assert(self.pairs@ =~= s.update(i as int, (slot, state)));
            lemma_find_pair_update(s, i as int, (slot, state));
        }
        r
    }

    fn open(&mut self, key: &PairKeyHandle, nonce: &[u8; 12], aad: &[u8], ciphertext: &[u8]) -> (r: Result<
        Vec<u8>,
    >)
        ensures
            final(self).local() == old(self).local(),
            forall|h2: PairKeyHandle|
                h2.slot != key.slot ==> #[trigger] final(self).pair(h2) == old(self).pair(h2),
            match old(self).pair(*key) {
                None => r matches Err(e) && e is KeyUnavailable && final(self).pair(*key) is None,
                Some(before) => final(self).pair(*key) matches Some(after) && opened(
                    before,
                    after,
                    old(self).local()@,
                    nonce@,
                    aad@,
                    ciphertext@,
                    r,
                ),
            },
    {
        let i = match self.pair_index(key) {
            Some(i) => i,
            None => {
                return Err(Error::KeyUnavailable);
            },
        };
        let ghost s = self.pairs@;
        let (slot, mut state) = self.pairs.remove(i);
        let r = state.open(self.local_id, nonce, aad, ciphertext);
        self.pairs.insert(i, (slot, state));
        proof {
            assert(self.pairs@ =~= s.update(i as int, (slot, state)));
            lemma_find_pair_update(s, i as int, (slot, state));
        }
        r
    }
}

/// Replacing the first entry of a space changes the window of that space
/// only.
proof fn lemma_find_update(
    s: Seq<(ReplayWindowKey, ReplayWindowState)>,
    i: int,
    e: (ReplayWindowKey, ReplayWindowState),
    k: ReplayWindowKey,
)
    requires
        0 <= i < s.len(),
        same_space(s[i].0, k),
        e.0 == s[i].0,
        forall|j: int| 0 <= j < i ==> !same_space((#[trigger] s[j]).0, k),
    ensures
        find_window(s.update(i, e), k) == Some(e.1),
        forall|k2: ReplayWindowKey|
            !same_space(k2, k) ==> #[trigger] find_window(s.update(i, e), k2) == find_window(s, k2),
    decreases s.len(),
{
    let t = s.update(i, e);
    if i == 0 {
        assert(t[0] == e);
        assert(t.drop_first() =~= s.drop_first());
    } else {
        assert(t.drop_first() =~= s.drop_first().update(i - 1, e));
        assert forall|j: int| 0 <= j < i - 1 implies !same_space((#[trigger] s.drop_first()[j]).0, k) by {
            assert(s.drop_first()[j] == s[j + 1]);
        }
        lemma_find_update(s.drop_first(), i - 1, e, k);
        assert(t[0] == s[0]);
    }
    assert forall|k2: ReplayWindowKey| !same_space(k2, k) implies #[trigger] find_window(t, k2)
        == find_window(s, k2) by {
        if i == 0 {
            assert(!same_space(e.0, k2));
            assert(t.drop_first() == s.drop_first());
        } else {
            lemma_find_update(s.drop_first(), i - 1, e, k);
            assert(find_window(s.drop_first().update(i - 1, e), k2) == find_window(s.drop_first(), k2));
            assert(t.drop_first() == s.drop_first().update(i - 1, e));
        }
    }
}

/// Appending an entry for a space without one opens that space only.
proof fn lemma_find_push(
    s: Seq<(ReplayWindowKey, ReplayWindowState)>,
    e: (ReplayWindowKey, ReplayWindowState),
    k: ReplayWindowKey,
)
    requires
        same_space(e.0, k),
        forall|j: int| 0 <= j < s.len() ==> !same_space((#[trigger] s[j]).0, k),
    ensures
        find_window(s.push(e), k) == Some(e.1),
        forall|k2: ReplayWindowKey|
            !same_space(k2, k) ==> #[trigger] find_window(s.push(e), k2) == find_window(s, k2),
    decreases s.len(),
{
    let t = s.push(e);
    if s.len() == 0 {
        assert(t[0] == e);
        assert(t.drop_first() =~= Seq::<(ReplayWindowKey, ReplayWindowState)>::empty());
    } else {
        assert(t.drop_first() =~= s.drop_first().push(e));
        assert forall|j: int| 0 <= j < s.drop_first().len() implies !same_space(
            (#[trigger] s.drop_first()[j]).0,
            k,
        ) by {
            assert(s.drop_first()[j] == s[j + 1]);
        }
        lemma_find_push(s.drop_first(), e, k);
        assert(t[0] == s[0]);
    }
    assert forall|k2: ReplayWindowKey| !same_space(k2, k) implies #[trigger] find_window(t, k2)
        == find_window(s, k2) by {
        if s.len() == 0 {
            assert(t[0] == e);
            assert(!same_space(e.0, k2));
            assert(t.drop_first() =~= Seq::<(ReplayWindowKey, ReplayWindowState)>::empty());
            assert(find_window(t.drop_first(), k2) is None);
            assert(find_window(t, k2) == find_window(t.drop_first(), k2));
        } else {
            lemma_find_push(s.drop_first(), e, k);
            assert(find_window(s.drop_first().push(e), k2) == find_window(s.drop_first(), k2));
            assert(t.drop_first() == s.drop_first().push(e));
        }
    }
}

} // verus!
