//! Packet headers and the per-pair replay window.

use vstd::prelude::*;

use crate::error::{Error, Result};
use crate::ids::{Epoch, PeerId, SeqNum};

verus! {

pub const PROTOCOL_VERSION: u8 = 1;

pub const REPLAY_WINDOW_SIZE: usize = 1024;

/// The authenticated header of every AEAD packet and chunk body.
#[derive(Clone, Copy, Debug, PartialEq, Eq)]
pub struct PacketHeader {
    pub version: u8,
    pub sender_id: PeerId,
    pub receiver_id: PeerId,
    pub epoch: Epoch,
    pub seq: SeqNum,
}

/// One sealed control packet: its header and the AEAD output.
#[derive(Clone, Debug, PartialEq, Eq)]
pub struct ControlPacket {
    pub header: PacketHeader,
    pub ciphertext: Vec<u8>,
}

#[derive(Clone, Copy, Debug, PartialEq, Eq, PartialOrd, Ord, Hash, Structural)]
pub enum Direction {
    Inbound,
    Outbound,
}

#[derive(Clone, Copy, Debug, PartialEq, Eq, PartialOrd, Ord, Hash, Structural)]
pub enum PayloadType {
    Packet,
    ChunkBody,
}

/// Each pair, epoch, direction and payload type has its own counter space.
#[derive(Clone, Copy, Debug, PartialEq, Eq, PartialOrd, Ord, Hash)]
pub struct ReplayWindowKey {
    pub peer_id: PeerId,
    pub epoch: Epoch,
    pub direction: Direction,
    pub payload_type: PayloadType,
}

} // verus!

verus! {

/// Bit `k` of a word.
pub open spec fn word_bit(w: u64, k: int) -> bool {
    (w & (1u64 << (k as u64))) != 0
}

proof fn lemma_set_word_bit(w: u64, k: u64, j: u64)
    requires
        k < 64,
        j < 64,
    ensures
        ((w | (1u64 << k)) & (1u64 << j) != 0) == (j == k || (w & (1u64 << j)) != 0),
{
    assert(((w | (1u64 << k)) & (1u64 << j) != 0) == (j == k || (w & (1u64 << j)) != 0))
        by (bit_vector)
        requires
            k < 64,
            j < 64,
    ;
}

proof fn lemma_zero_word(j: u64)
    requires
        j < 64,
    ensures
        (0u64 & (1u64 << j)) == 0,
{
    assert((0u64 & (1u64 << j)) == 0) by (bit_vector);
}

/// Anti-replay state for one counter space: the highest accepted counter and
/// a bitmap of the 1024 counters at or below it, bit `d` standing for
/// `highest - d`.
#[derive(Clone, Copy, Debug, PartialEq, Eq)]
pub struct ReplayWindowState {
    pub highest_seen: Option<u64>,
    pub seen: [u64; 16],
}

impl Default for ReplayWindowState {
    fn default() -> (r: Self)
        ensures
            r.highest_seen is None,
            forall|d: int| 0 <= d < 1024 ==> !r.bit(d),
    {
        let r = Self { highest_seen: None, seen: [0u64; 16] };
        proof {
            assert forall|d: int| 0 <= d < 1024 implies !r.bit(d) by {
                lemma_zero_word((d % 64) as u64);
            }
        }
        r
    }
}

impl ReplayWindowState {
    /// Whether the counter `highest - d` is recorded as seen.
    pub open spec fn bit(&self, d: int) -> bool {
        word_bit(self.seen[d / 64], d % 64)
    }

    /// Whether `seq` may still be accepted: above the highest counter, or
    /// inside the window and not yet seen.
    pub open spec fn fresh(&self, seq: u64) -> bool {
        match self.highest_seen {
            None => true,
            Some(h) => seq > h || (h - seq < 1024 && !self.bit(h - seq)),
        }
    }

    /// The window after accepting the fresh counter `seq` from `old`.
    pub open spec fn accepted(old: Self, seq: u64, new: Self) -> bool {
        match old.highest_seen {
            None => new.highest_seen == Some(seq) && forall|d: int|
                0 <= d < 1024 ==> #[trigger] new.bit(d) == (d == 0 || old.bit(d)),
            Some(h) => if seq > h {
                new.highest_seen == Some(seq) && forall|d: int|
                    0 <= d < 1024 ==> #[trigger] new.bit(d) == (d == 0 || (d >= seq - h && old.bit(
                        d - (seq - h),
                    )))
            } else {
                new.highest_seen == Some(h) && forall|d: int|
                    0 <= d < 1024 ==> #[trigger] new.bit(d) == (d == h - seq || old.bit(d))
            },
        }
    }

    /// Checks whether `seq` is fresh without changing the window.
    pub fn check(&self, seq: SeqNum) -> (r: Result<()>)
        ensures
            r is Ok <==> self.fresh(seq.0),
            r matches Err(e) ==> e is ReplayRejected,
    {
        match self.highest_seen {
            None => Ok(()),
            Some(highest) => {
                if seq.0 > highest {
                    return Ok(());
                }
                let distance = highest - seq.0;
                if distance >= 1024 || self.bit_is_set(distance as usize) {
                    return Err(Error::ReplayRejected);
                }
                Ok(())
            },
        }
    }

    /// Records `seq` after authentication has succeeded; a replayed or
    /// expired counter is refused and leaves the window unchanged.
    pub fn accept(&mut self, seq: SeqNum) -> (r: Result<()>)
        ensures
            match r {
                Ok(()) => old(self).fresh(seq.0) && Self::accepted(*old(self), seq.0, *final(self)),
                Err(e) => !old(self).fresh(seq.0) && e is ReplayRejected && *final(self) == *old(
                    self,
                ),
            },
    {
        self.check(seq)?;
        match self.highest_seen {
            None => {
                self.highest_seen = Some(seq.0);
                self.set_bit(0);
            },
            Some(highest) => {
                if seq.0 > highest {
                    let advance = seq.0 - highest;
                    self.shift(advance);
                    let ghost shifted = *self;
                    self.highest_seen = Some(seq.0);
                    self.set_bit(0);
                    proof {
                        assert forall|d: int| 0 <= d < 1024 implies #[trigger] self.bit(d) == (d
                            == 0 || (d >= advance && old(self).bit(d - advance))) by {
                            assert(self.bit(d) == (d == 0 || shifted.bit(d)));
                        }
                    }
                } else {
                    self.set_bit((highest - seq.0) as usize);
                }
            },
        }
        Ok(())
    }

    fn bit_is_set(&self, distance: usize) -> (r: bool)
        requires
            distance < 1024,
        ensures
            r == self.bit(distance as int),
    {
        let k = (distance % 64) as u64;
        (self.seen[distance / 64] & (1u64 << k)) != 0
    }

    fn set_bit(&mut self, distance: usize)
        requires
            distance < 1024,
        ensures
            final(self).highest_seen == old(self).highest_seen,
            forall|d: int|
                0 <= d < 1024 ==> #[trigger] final(self).bit(d) == (d == distance || old(self).bit(
                    d,
                )),
    {
        let index = distance / 64;
        let k = (distance % 64) as u64;
        self.seen[index] = self.seen[index] | (1u64 << k);
        proof {
            assert forall|d: int| 0 <= d < 1024 implies #[trigger] self.bit(d) == (d == distance
                || old(self).bit(d)) by {
                if d / 64 == index as int {
                    lemma_set_word_bit(old(self).seen[index as int], k, (d % 64) as u64);
                } else {
                    assert(self.seen[d / 64] == old(self).seen[d / 64]);
                }
            }
        }
    }

    fn shift(&mut self, advance: u64)
        ensures
            final(self).highest_seen == old(self).highest_seen,
            forall|d: int|
                0 <= d < 1024 ==> #[trigger] final(self).bit(d) == (d >= advance && old(self).bit(
                    d - advance,
                )),
    {
        let mut shifted = ReplayWindowState { highest_seen: self.highest_seen, seen: [0u64; 16] };
        proof {
            assert forall|d: int| 0 <= d < 1024 implies !#[trigger] shifted.bit(d) by {
                lemma_zero_word((d % 64) as u64);
            }
        }
        if advance >= 1024 {
            self.seen = shifted.seen;
            return;
        }
        let advance = advance as usize;
        let mut old_distance: usize = 0;
        while old_distance < 1024 - advance
            invariant
                advance < 1024,
                old_distance <= 1024 - advance,
                shifted.highest_seen == self.highest_seen,
                *self == *old(self),
                forall|d: int|
                    0 <= d < 1024 ==> #[trigger] shifted.bit(d) == (d >= advance && d - advance
                        < old_distance && self.bit(d - advance)),
            decreases 1024 - advance - old_distance,
        {
            if self.bit_is_set(old_distance) {
                shifted.set_bit(old_distance + advance);
            }
            old_distance = old_distance + 1;
        }
        self.seen = shifted.seen;
    }
}

/// An accepted counter is never accepted again.
pub proof fn law_accepted_counter_is_replay(old: ReplayWindowState, seq: u64, new: ReplayWindowState)
    requires
        ReplayWindowState::accepted(old, seq, new),
    ensures
        !new.fresh(seq),
{
    match old.highest_seen {
        None => {
            assert(new.bit(0));
        },
        Some(h) => {
            if seq > h {
                assert(new.bit(0));
            } else if h - seq < 1024 {
                assert(new.bit(h - seq));
            }
        },
    }
}

/// A counter that the window refuses stays refused after any later accept.
pub proof fn law_rejection_is_permanent(
    old: ReplayWindowState,
    seq: u64,
    new: ReplayWindowState,
    x: u64,
)
    requires
        ReplayWindowState::accepted(old, seq, new),
        !old.fresh(x),
    ensures
        !new.fresh(x),
{
    match old.highest_seen {
        None => {},
        Some(h) => {
            if seq > h {
                let d = seq - x;
                if d < 1024 {
                    assert(new.bit(d));
                }
            } else if h - x < 1024 {
                assert(new.bit(h - x));
            }
        },
    }
}

/// The window stands for the set `a` of counters accepted so far: none
/// before the first, else the highest of them and, within the window, a bit
/// for each counter below it.
pub open spec fn window_models(w: ReplayWindowState, a: Set<u64>) -> bool {
    match w.highest_seen {
        None => a == Set::<u64>::empty() && forall|d: int| 0 <= d < 1024 ==> !#[trigger] w.bit(d),
        Some(h) => {
            &&& a.contains(h)
            &&& forall|x: u64| #[trigger] a.contains(x) ==> x <= h
            &&& forall|d: int| 0 <= d < 1024 && d <= h ==> (#[trigger] w.bit(d) <==> a.contains((h - d) as u64))
        },
    }
}

/// A new window stands for no accepted counter.
pub proof fn law_new_window_is_empty(w: ReplayWindowState)
    requires
        w.highest_seen is None,
        forall|d: int| 0 <= d < 1024 ==> !#[trigger] w.bit(d),
    ensures
        window_models(w, Set::<u64>::empty()),
{
}

/// A counter is fresh exactly when nothing was accepted yet, or it is above
/// every accepted counter, or it lies within 1024 of the highest one and was
/// not accepted.
pub proof fn law_fresh_from_accepted(w: ReplayWindowState, a: Set<u64>, seq: u64)
    requires
        window_models(w, a),
    ensures
        w.fresh(seq) <==> match w.highest_seen {
            None => a.is_empty(),
            Some(h) => seq > h || (h - seq < 1024 && !a.contains(seq)),
        },
{
    match w.highest_seen {
        None => {
            assert(a.is_empty());
        },
        Some(h) => {
            if seq <= h && h - seq < 1024 {
                assert(w.bit(h - seq) <==> a.contains((h - (h - seq)) as u64));
            }
        },
    }
}

/// Accepting a fresh counter adds it to the counters the window stands for.
pub proof fn law_accept_records_counter(old: ReplayWindowState, a: Set<u64>, seq: u64, new: ReplayWindowState)
    requires
        window_models(old, a),
        old.fresh(seq),
        ReplayWindowState::accepted(old, seq, new),
    ensures
        window_models(new, a.insert(seq)),
{
    let b = a.insert(seq);
    match old.highest_seen {
        None => {
            assert forall|x: u64| #[trigger] b.contains(x) implies x <= seq by {
                assert(!a.contains(x));
            }
            assert forall|d: int| 0 <= d < 1024 && d <= seq implies (#[trigger] new.bit(d) <==> b.contains((seq - d) as u64)) by {
                assert(new.bit(d) == (d == 0 || old.bit(d)));
                assert(!old.bit(d));
                assert(!a.contains((seq - d) as u64));
            }
        },
        Some(h) => {
            if seq > h {
                assert forall|x: u64| #[trigger] b.contains(x) implies x <= seq by {
                    if a.contains(x) {
                        assert(x <= h);
                    }
                }
                assert forall|d: int| 0 <= d < 1024 && d <= seq implies (#[trigger] new.bit(d) <==> b.contains((seq - d) as u64)) by {
                    let k = seq - h;
                    assert(new.bit(d) == (d == 0 || (d >= k && old.bit(d - k))));
                    if d > 0 && d >= k {
                        assert(old.bit(d - k) <==> a.contains((h - (d - k)) as u64));
                        assert((h - (d - k)) as u64 == (seq - d) as u64);
                    }
                    if d > 0 && d < k {
                        assert(seq - d > h);
                        if a.contains((seq - d) as u64) {
                            assert((seq - d) as u64 <= h);
                        }
                    }
                }
            } else {
                assert forall|x: u64| #[trigger] b.contains(x) implies x <= h by {
                    if a.contains(x) {
                        assert(x <= h);
                    }
                }
                assert forall|d: int| 0 <= d < 1024 && d <= h implies (#[trigger] new.bit(d) <==> b.contains((h - d) as u64)) by {
                    assert(new.bit(d) == (d == h - seq || old.bit(d)));
                    assert(old.bit(d) <==> a.contains((h - d) as u64));
                }
            }
        },
    }
}

} // verus!
