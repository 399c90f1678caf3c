//! The vaults one host process serves, and which vault each peer's pair
//! session is bound to. A pair session serves one vault at a time.

use vstd::prelude::*;

use crate::error::{Error, Result};
use crate::ids::{bytes32_eq, bytes32_lt, lemma_lex_irreflexive, lemma_lex_total, lemma_lex_transitive, lex_lt, Epoch, PeerId};
use crate::net::VaultId;

verus! {

/// The vault a peer's pair session serves, and the session epoch that
/// confirmed it, once confirmed.
#[derive(Clone, Copy)]
pub struct PairBinding {
    pub vault_id: VaultId,
    pub confirmed_epoch: Option<Epoch>,
}

pub open spec fn binding_view(b: PairBinding) -> (Seq<u8>, Option<Epoch>) {
    (b.vault_id@, b.confirmed_epoch)
}

/// The binding of `p` in a binding list: its first entry.
pub open spec fn find_binding(s: Seq<(PeerId, PairBinding)>, p: Seq<u8>) -> Option<(Seq<u8>, Option<Epoch>)>
    decreases s.len(),
{
    if s.len() == 0 {
        None
    } else if s[0].0@ == p {
        Some(binding_view(s[0].1))
    } else {
        find_binding(s.drop_first(), p)
    }
}

pub struct VaultSet {
    local_id: PeerId,
    vaults: Vec<VaultId>,
    bindings: Vec<(PeerId, PairBinding)>,
}

proof fn lemma_find_binding_set(s: Seq<(PeerId, PairBinding)>, i: int, e: (PeerId, PairBinding))
    requires
        0 <= i < s.len(),
        s[i].0@ == e.0@,
        forall|j: int| 0 <= j < i ==> (#[trigger] s[j]).0@ != e.0@,
    ensures
        find_binding(s.update(i, e), e.0@) == Some(binding_view(e.1)),
        forall|q: Seq<u8>| q != e.0@ ==> #[trigger] find_binding(s.update(i, e), q) == find_binding(s, q),
    decreases s.len(),
{
    let t = s.update(i, e);
    if i == 0 {
        assert(t[0] == e);
        assert(t.drop_first() =~= s.drop_first());
    } else {
        assert(t.drop_first() =~= s.drop_first().update(i - 1, e));
        assert forall|j: int| 0 <= j < i - 1 implies (#[trigger] s.drop_first()[j]).0@ != e.0@ by {
            assert(s.drop_first()[j] == s[j + 1]);
        }
        lemma_find_binding_set(s.drop_first(), i - 1, e);
        assert(t[0] == s[0]);
    }
    assert forall|q: Seq<u8>| q != e.0@ implies #[trigger] find_binding(t, q) == find_binding(s, q) by {
        if i == 0 {
            assert(t.drop_first() == s.drop_first());
        } else {
            lemma_find_binding_set(s.drop_first(), i - 1, e);
            assert(find_binding(s.drop_first().update(i - 1, e), q) == find_binding(s.drop_first(), q));
            assert(t.drop_first() == s.drop_first().update(i - 1, e));
        }
    }
}

proof fn lemma_find_binding_push(s: Seq<(PeerId, PairBinding)>, e: (PeerId, PairBinding))
    requires
        forall|j: int| 0 <= j < s.len() ==> (#[trigger] s[j]).0@ != e.0@,
    ensures
        find_binding(s.push(e), e.0@) == Some(binding_view(e.1)),
        forall|q: Seq<u8>| q != e.0@ ==> #[trigger] find_binding(s.push(e), q) == find_binding(s, q),
    decreases s.len(),
{
    let t = s.push(e);
    if s.len() == 0 {
        assert(t[0] == e);
        assert(t.drop_first() =~= Seq::<(PeerId, PairBinding)>::empty());
    } else {
        assert(t.drop_first() =~= s.drop_first().push(e));
        assert forall|j: int| 0 <= j < s.drop_first().len() implies (#[trigger] s.drop_first()[j]).0@
            != e.0@ by {
            assert(s.drop_first()[j] == s[j + 1]);
        }
        lemma_find_binding_push(s.drop_first(), e);
        assert(t[0] == s[0]);
    }
    assert forall|q: Seq<u8>| q != e.0@ implies #[trigger] find_binding(t, q) == find_binding(s, q) by {
        if s.len() == 0 {
            assert(t.drop_first() =~= Seq::<(PeerId, PairBinding)>::empty());
            assert(find_binding(t.drop_first(), q) is None);
        } else {
            lemma_find_binding_push(s.drop_first(), e);
            assert(find_binding(s.drop_first().push(e), q) == find_binding(s.drop_first(), q));
            assert(t.drop_first() == s.drop_first().push(e));
        }
    }
}

/// Dropping the only entry of a peer unbinds it and no one else.
proof fn lemma_find_binding_remove(s: Seq<(PeerId, PairBinding)>, i: int)
    requires
        0 <= i < s.len(),
        forall|a: int, b: int| 0 <= a < b < s.len() ==> (#[trigger] s[a]).0@ != (#[trigger] s[b]).0@,
    ensures
        find_binding(s.remove(i), s[i].0@) is None,
        forall|q: Seq<u8>| q != s[i].0@ ==> #[trigger] find_binding(s.remove(i), q) == find_binding(s, q),
    decreases s.len(),
{
    let t = s.remove(i);
    let p = s[i].0@;
    if i == 0 {
        assert(t =~= s.drop_first());
        assert forall|j: int| 0 <= j < t.len() implies (#[trigger] t[j]).0@ != p by {
            assert(t[j] == s[j + 1]);
        }
        lemma_find_binding_absent(t, p);
    } else {
        let d = s.drop_first();
        assert forall|a: int, b: int| 0 <= a < b < d.len() implies (#[trigger] d[a]).0@ != (#[trigger] d[b]).0@ by {
            assert(d[a] == s[a + 1] && d[b] == s[b + 1]);
        }
        lemma_find_binding_remove(d, i - 1);
        assert(t.drop_first() =~= d.remove(i - 1));
        assert(t[0] == s[0]);
        assert(d[i - 1] == s[i]);
        assert(s[0].0@ != p);
    }
    assert forall|q: Seq<u8>| q != p implies #[trigger] find_binding(t, q) == find_binding(s, q) by {
        if i == 0 {
            assert(t == s.drop_first());
        } else {
            let d = s.drop_first();
            assert forall|a: int, b: int| 0 <= a < b < d.len() implies (#[trigger] d[a]).0@ != (#[trigger] d[b]).0@ by {
                assert(d[a] == s[a + 1] && d[b] == s[b + 1]);
            }
            lemma_find_binding_remove(d, i - 1);
            assert(d[i - 1] == s[i]);
            assert(find_binding(d.remove(i - 1), q) == find_binding(d, q));
            assert(t.drop_first() == d.remove(i - 1));
        }
    }
}

proof fn lemma_find_binding_absent(s: Seq<(PeerId, PairBinding)>, p: Seq<u8>)
    requires
        forall|j: int| 0 <= j < s.len() ==> (#[trigger] s[j]).0@ != p,
    ensures
        find_binding(s, p) is None,
    decreases s.len(),
{
    if s.len() > 0 {
        assert forall|j: int| 0 <= j < s.drop_first().len() implies (#[trigger] s.drop_first()[j]).0@
            != p by {
            assert(s.drop_first()[j] == s[j + 1]);
        }
        lemma_find_binding_absent(s.drop_first(), p);
    }
}

/// The position of the first binding of `p`.
fn binding_index(s: &Vec<(PeerId, PairBinding)>, p: &PeerId) -> (r: Option<usize>)
    ensures
        match r {
            Some(i) => i < s@.len() && s@[i as int].0@ == p@ && find_binding(s@, p@) == Some(
                binding_view(s@[i as int].1),
            ) && forall|j: int| 0 <= j < i ==> (#[trigger] s@[j]).0@ != p@,
            None => find_binding(s@, p@) is None && forall|j: int|
                0 <= j < s@.len() ==> (#[trigger] s@[j]).0@ != p@,
        },
{
    let mut i: usize = 0;
    assert(s@.skip(0) =~= s@);
    while i < s.len()
        invariant
            i <= s@.len(),
            find_binding(s@, p@) == find_binding(s@.skip(i as int), p@),
            forall|j: int| 0 <= j < i ==> (#[trigger] s@[j]).0@ != p@,
        decreases s@.len() - i,
    {
        if bytes32_eq(&s[i].0.0, &p.0) {
            assert(s@.skip(i as int)[0] == s@[i as int]);
            return Some(i);
        }
        assert(s@.skip(i as int).drop_first() =~= s@.skip(i + 1));
        i = i + 1;
    }
    proof {
        lemma_find_binding_absent(s@, p@);
    }
    None
}

impl VaultSet {
    /// The peer whose vaults these are.
    pub closed spec fn local(self) -> PeerId {
        self.local_id
    }

    /// The hosted vaults, in ascending order.
    pub closed spec fn hosted(self) -> Seq<VaultId> {
        self.vaults@
    }

    /// The vault each peer's pair session is bound to.
    pub closed spec fn binding(self, p: Seq<u8>) -> Option<(Seq<u8>, Option<Epoch>)> {
        find_binding(self.bindings@, p)
    }

    pub closed spec fn wf(self) -> bool {
        &&& forall|i: int, j: int| 0 <= i < j < self.vaults@.len() ==> lex_lt((#[trigger] self.vaults@[i])@, (#[trigger] self.vaults@[j])@)
        &&& forall|i: int, j: int| 0 <= i < j < self.bindings@.len() ==> (#[trigger] self.bindings@[i]).0@ != (#[trigger] self.bindings@[j]).0@
    }

    pub fn new(local_id: PeerId) -> (r: Self)
        ensures
            r.wf(),
            r.local() == local_id,
            r.hosted().len() == 0,
            forall|p: Seq<u8>| #[trigger] r.binding(p) is None,
    {
        VaultSet { local_id, vaults: Vec::new(), bindings: Vec::new() }
    }

    /// A set serving one vault, with every member that has a current pair
    /// session bound to it, unconfirmed.
    pub fn from_vault(local_id: PeerId, vault_id: VaultId, members: &[(PeerId, bool)]) -> (r: Self)
        ensures
            r.wf(),
            r.local() == local_id,
            r.hosted() == seq![vault_id],
            forall|p: Seq<u8>|
                #[trigger] r.binding(p) == (if exists|i: int| 0 <= i < members@.len() && members@[i].0@ == p && members@[i].1 {
                    Some((vault_id@, None::<Epoch>))
                } else {
                    None
                }),
    {
        let mut set = VaultSet { local_id, vaults: Vec::new(), bindings: Vec::new() };
        set.vaults.push(vault_id);
        let mut k: usize = 0;
        while k < members.len()
            invariant
                k <= members@.len(),
                set.local_id == local_id,
                set.vaults@ == seq![vault_id],
                forall|a: int, b: int| 0 <= a < b < set.bindings@.len() ==> (#[trigger] set.bindings@[a]).0@ != (#[trigger] set.bindings@[b]).0@,
                forall|p: Seq<u8>|
                    #[trigger] find_binding(set.bindings@, p) == (if exists|i: int| 0 <= i < k && members@[i].0@ == p && members@[i].1 {
                        Some((vault_id@, None::<Epoch>))
                    } else {
                        None
                    }),
            decreases members@.len() - k,
        {
            let (peer, live) = members[k];
            let ghost before = set.bindings@;
            if live {
                let e = (peer, PairBinding { vault_id, confirmed_epoch: None });
                match binding_index(&set.bindings, &peer) {
                    Some(i) => {
                        set.bindings.set(i, e);
                        proof {
                            lemma_find_binding_set(before, i as int, e);
                            assert forall|a: int, b: int| 0 <= a < b < set.bindings@.len() implies (#[trigger] set.bindings@[a]).0@
                                != (#[trigger] set.bindings@[b]).0@ by {
                                assert(set.bindings@[a].0@ == before[a].0@ && set.bindings@[b].0@ == before[b].0@);
                            }
                        }
                    },
                    None => {
                        set.bindings.push(e);
                        proof {
                            lemma_find_binding_push(before, e);
                            assert forall|a: int, b: int| 0 <= a < b < set.bindings@.len() implies (#[trigger] set.bindings@[a]).0@
                                != (#[trigger] set.bindings@[b]).0@ by {
                                if b < before.len() {
                                    assert(set.bindings@[a] == before[a] && set.bindings@[b] == before[b]);
                                } else {
                                    assert(set.bindings@[a] == before[a]);
                                }
                            }
                        }
                    },
                }
            }
            proof {
                assert forall|p: Seq<u8>| #[trigger] find_binding(set.bindings@, p) == (if exists|i: int| 0 <= i < k + 1 && members@[i].0@ == p && members@[i].1 {
                    Some((vault_id@, None::<Epoch>))
                } else {
                    None
                }) by {
                    if exists|i: int| 0 <= i < k && members@[i].0@ == p && members@[i].1 {
                        let i = choose|i: int| 0 <= i < k && members@[i].0@ == p && members@[i].1;
                        assert(0 <= i < k + 1 && members@[i].0@ == p && members@[i].1);
                    }
                    if p == peer@ && live {
                        assert(members@[k as int].0@ == p && members@[k as int].1);
                    }
                }
            }
            k = k + 1;
        }
        set
    }

    /// The vault `peer_id`'s pair session is bound to, if any.
    pub fn bound_vault(&self, peer_id: PeerId) -> (r: Option<VaultId>)
        ensures
            match r {
                Some(v) => self.binding(peer_id@) matches Some(b) && b.0 == v@,
                None => self.binding(peer_id@) is None,
            },
    {
        match binding_index(&self.bindings, &peer_id) {
            Some(i) => Some(self.bindings[i].1.vault_id),
            None => None,
        }
    }

    /// A pair session may serve `requested` unless it is bound to another
    /// vault.
    pub fn check_binding(&self, peer_id: PeerId, requested: VaultId) -> (r: Result<()>)
        ensures
            match r {
                Ok(()) => self.binding(peer_id@) matches Some(b) ==> b.0 == requested@,
                Err(Error::VaultSessionConflict { peer_id: p, bound, requested: v }) => p == peer_id && v == requested
                    && (self.binding(peer_id@) matches Some(b) && b.0 == bound@ && b.0 != requested@),
                Err(_) => false,
            },
    {
        if let Some(bound) = self.bound_vault(peer_id) {
            if !bytes32_eq(&bound.0, &requested.0) {
                return Err(Error::VaultSessionConflict { peer_id, bound, requested });
            }
        }
        Ok(())
    }

    /// Whether `vault_id` is hosted here.
    pub fn get(&self, vault_id: VaultId) -> (r: Option<VaultId>)
        ensures
            match r {
                Some(v) => v@ == vault_id@ && exists|i: int| 0 <= i < self.hosted().len() && (#[trigger] self.hosted()[i])@ == vault_id@,
                None => forall|i: int| 0 <= i < self.hosted().len() ==> (#[trigger] self.hosted()[i])@ != vault_id@,
            },
    {
        let mut i: usize = 0;
        while i < self.vaults.len()
            invariant
                i <= self.vaults@.len(),
                forall|j: int| 0 <= j < i ==> (#[trigger] self.vaults@[j])@ != vault_id@,
            decreases self.vaults@.len() - i,
        {
            if bytes32_eq(&self.vaults[i].0, &vault_id.0) {
                assert(self.hosted()[i as int]@ == vault_id@);
                return Some(self.vaults[i]);
            }
            i = i + 1;
        }
        None
    }

    /// The hosted vaults, in ascending order.
    pub fn vaults(&self) -> (r: Vec<VaultId>)
        ensures
            r@ == self.hosted(),
    {
        let mut out: Vec<VaultId> = Vec::new();
        let mut i: usize = 0;
        while i < self.vaults.len()
            invariant
                i <= self.vaults@.len(),
                out@ == self.vaults@.take(i as int),
            decreases self.vaults@.len() - i,
        {
            out.push(self.vaults[i]);
            i = i + 1;
            assert(out@ =~= self.vaults@.take(i as int));
        }
        assert(self.vaults@.take(self.vaults@.len() as int) =~= self.vaults@);
        out
    }

    /// Whether the pair session with `peer_id` was confirmed for its vault
    /// in the epoch now current (`current` is that epoch, if any session).
    pub fn has_confirmed_pair(&self, peer_id: PeerId, current: Option<Epoch>) -> (r: bool)
        ensures
            r == (self.binding(peer_id@) matches Some(b) && b.1 is Some && current is Some && b.1->0 == current->0),
    {
        match binding_index(&self.bindings, &peer_id) {
            Some(i) => match (self.bindings[i].1.confirmed_epoch, current) {
                (Some(confirmed), Some(now)) => confirmed.0 == now.0,
                _ => false,
            },
            None => false,
        }
    }

    /// Binds the pair session with `peer_id`, confirmed in epoch `epoch`,
    /// to `vault_id`, unless it serves another vault.
    pub fn bind(&mut self, peer_id: PeerId, vault_id: VaultId, epoch: Epoch) -> (r: Result<()>)
        requires
            old(self).wf(),
        ensures
            final(self).wf(),
            final(self).local() == old(self).local(),
            final(self).hosted() == old(self).hosted(),
            forall|p: Seq<u8>| p != peer_id@ ==> #[trigger] final(self).binding(p) == old(self).binding(p),
            match r {
                Ok(()) => (old(self).binding(peer_id@) matches Some(b) ==> b.0 == vault_id@) && final(self).binding(peer_id@) == Some((vault_id@, Some(epoch))),
                Err(e) => e is VaultSessionConflict && (old(self).binding(peer_id@) matches Some(b) && b.0 != vault_id@) && final(self).binding(peer_id@) == old(self).binding(peer_id@),
            },
    {
        self.check_binding(peer_id, vault_id)?;
        let e = (peer_id, PairBinding { vault_id, confirmed_epoch: Some(epoch) });
        let ghost before = self.bindings@;
        match binding_index(&self.bindings, &peer_id) {
            Some(i) => {
                self.bindings.set(i, e);
                proof {
                    lemma_find_binding_set(before, i as int, e);
                            assert forall|a: int, b: int| 0 <= a < b < self.bindings@.len() implies (#[trigger] self.bindings@[a]).0@
                                != (#[trigger] self.bindings@[b]).0@ by {
                                assert(self.bindings@[a].0@ == before[a].0@ && self.bindings@[b].0@ == before[b].0@);
                            }
                }
            },
            None => {
                self.bindings.push(e);
                proof {
                    lemma_find_binding_push(before, e);
                            assert forall|a: int, b: int| 0 <= a < b < self.bindings@.len() implies (#[trigger] self.bindings@[a]).0@
                                != (#[trigger] self.bindings@[b]).0@ by {
                                if b < before.len() {
                                    assert(self.bindings@[a] == before[a] && self.bindings@[b] == before[b]);
                                } else {
                                    assert(self.bindings@[a] == before[a]);
                                }
                            }
                }
            },
        }
        Ok(())
    }

    /// Releases the binding of `peer_id` if it serves `vault_id`.
    pub fn unbind(&mut self, peer_id: PeerId, vault_id: VaultId)
        requires
            old(self).wf(),
        ensures
            final(self).wf(),
            final(self).local() == old(self).local(),
            final(self).hosted() == old(self).hosted(),
            forall|p: Seq<u8>| p != peer_id@ ==> #[trigger] final(self).binding(p) == old(self).binding(p),
            final(self).binding(peer_id@) == (if old(self).binding(peer_id@) matches Some(b) && b.0 == vault_id@ {
                None
            } else {
                old(self).binding(peer_id@)
            }),
    {
        let ghost before = self.bindings@;
        if let Some(i) = binding_index(&self.bindings, &peer_id) {
            if bytes32_eq(&self.bindings[i].1.vault_id.0, &vault_id.0) {
                self.bindings.remove(i);
                proof {
                    lemma_find_binding_remove(before, i as int);
                    assert forall|a: int, b: int| 0 <= a < b < self.bindings@.len() implies (#[trigger] self.bindings@[a]).0@
                        != (#[trigger] self.bindings@[b]).0@ by {
                        if a < i {
                            if b < i {
                                assert(self.bindings@[a] == before[a] && self.bindings@[b] == before[b]);
                            } else {
                                assert(self.bindings@[a] == before[a] && self.bindings@[b] == before[b + 1]);
                            }
                        } else {
                            assert(self.bindings@[a] == before[a + 1] && self.bindings@[b] == before[b + 1]);
                        }
                    }
                }
            }
        }
    }

    /// Adds a hosted vault. Each member with a current pair session, other
    /// than this host, becomes bound to it, unconfirmed; a member whose
    /// session serves another vault refuses the whole insert.
    pub fn insert(&mut self, vault_id: VaultId, host_id: PeerId, members: &[(PeerId, bool)]) -> (r: Result<()>)
        requires
            old(self).wf(),
        ensures
            final(self).wf(),
            final(self).local() == old(self).local(),
            match r {
                Ok(()) => {
                    &&& host_id@ == old(self).local()@
                    &&& forall|i: int| 0 <= i < old(self).hosted().len() ==> (#[trigger] old(self).hosted()[i])@ != vault_id@
                    &&& exists|pos: int| 0 <= pos <= old(self).hosted().len() && final(self).hosted() == old(self).hosted().insert(pos, vault_id)
                    &&& forall|p: Seq<u8>|
                        #[trigger] final(self).binding(p) == (if p != host_id@ && exists|i: int| 0 <= i < members@.len() && members@[i].0@ == p && members@[i].1 {
                            Some((vault_id@, None::<Epoch>))
                        } else {
                            old(self).binding(p)
                        })
                    &&& forall|i: int| 0 <= i < members@.len() && members@[i].1 && members@[i].0@ != host_id@ ==> (old(self).binding(members@[i].0@) matches Some(b) ==> b.0 == vault_id@)
                },
                Err(e) => {
                    &&& final(self).hosted() == old(self).hosted()
                    &&& forall|p: Seq<u8>| #[trigger] final(self).binding(p) == old(self).binding(p)
                    &&& (e is InvalidInput && (host_id@ != old(self).local()@ || exists|i: int| 0 <= i < old(self).hosted().len() && (#[trigger] old(self).hosted()[i])@ == vault_id@))
                        || (e is VaultSessionConflict && exists|i: int| 0 <= i < members@.len() && members@[i].1 && members@[i].0@ != host_id@ && (old(self).binding(members@[i].0@) matches Some(b) && b.0 != vault_id@))
                },
            },
    {
        if !bytes32_eq(&host_id.0, &self.local_id.0) {
            return Err(Error::InvalidInput("vault host identity differs from vault set"));
        }
        if self.get(vault_id).is_some() {
            return Err(Error::InvalidInput("vault is already hosted"));
        }
        let ghost start = self.bindings@;
        let ghost v0 = self.vaults@;
        let mut bindings: Vec<(PeerId, PairBinding)> = Vec::new();
        let mut c: usize = 0;
        while c < self.bindings.len()
            invariant
                c <= start.len(),
                self.bindings@ == start,
                self.vaults@ == v0,
                self.wf(),
                bindings@ == start.take(c as int),
            decreases start.len() - c,
        {
            bindings.push(self.bindings[c]);
            c = c + 1;
            assert(bindings@ =~= start.take(c as int));
        }
        assert(start.take(start.len() as int) =~= start);
        let mut k: usize = 0;
        while k < members.len()
            invariant
                k <= members@.len(),
                self.bindings@ == start,
                self.vaults@ == v0,
                self.wf(),
                forall|i: int| 0 <= i < v0.len() ==> (#[trigger] v0[i])@ != vault_id@,
                forall|a: int, b: int| 0 <= a < b < bindings@.len() ==> (#[trigger] bindings@[a]).0@ != (#[trigger] bindings@[b]).0@,
                forall|p: Seq<u8>|
                    #[trigger] find_binding(bindings@, p) == (if p != host_id@ && exists|i: int| 0 <= i < k && members@[i].0@ == p && members@[i].1 {
                        Some((vault_id@, None::<Epoch>))
                    } else {
                        find_binding(start, p)
                    }),
                forall|i: int| 0 <= i < k && members@[i].1 && members@[i].0@ != host_id@ ==> (find_binding(start, members@[i].0@) matches Some(b) ==> b.0 == vault_id@),
            decreases members@.len() - k,
        {
            let (peer, live) = members[k];
            let ghost before = bindings@;
            if live && !bytes32_eq(&peer.0, &host_id.0) {
                let e = (peer, PairBinding { vault_id, confirmed_epoch: None });
                match binding_index(&bindings, &peer) {
                    Some(i) => {
                        let bound = bindings[i].1.vault_id;
                        if !bytes32_eq(&bound.0, &vault_id.0) {
                            proof {
                                if exists|j: int| 0 <= j < k && members@[j].0@ == peer@ && members@[j].1 {
                                    assert(find_binding(bindings@, peer@) == Some((vault_id@, None::<Epoch>)));
                                }
                                assert(members@[k as int].0@ == peer@ && members@[k as int].1);
                            }
                            return Err(Error::VaultSessionConflict { peer_id: peer, bound, requested: vault_id });
                        }
                        bindings.set(i, e);
                        proof {
                            lemma_find_binding_set(before, i as int, e);
                            assert forall|a: int, b: int| 0 <= a < b < bindings@.len() implies (#[trigger] bindings@[a]).0@
                                != (#[trigger] bindings@[b]).0@ by {
                                assert(bindings@[a].0@ == before[a].0@ && bindings@[b].0@ == before[b].0@);
                            }
                        }
                    },
                    None => {
                        bindings.push(e);
                        proof {
                            lemma_find_binding_push(before, e);
                            assert forall|a: int, b: int| 0 <= a < b < bindings@.len() implies (#[trigger] bindings@[a]).0@
                                != (#[trigger] bindings@[b]).0@ by {
                                if b < before.len() {
                                    assert(bindings@[a] == before[a] && bindings@[b] == before[b]);
                                } else {
                                    assert(bindings@[a] == before[a]);
                                }
                            }
                        }
                    },
                }
            }
            proof {
                assert forall|p: Seq<u8>| #[trigger] find_binding(bindings@, p) == (if p != host_id@ && exists|i: int| 0 <= i < k + 1 && members@[i].0@ == p && members@[i].1 {
                    Some((vault_id@, None::<Epoch>))
                } else {
                    find_binding(start, p)
                }) by {
                    if p != host_id@ && exists|i: int| 0 <= i < k && members@[i].0@ == p && members@[i].1 {
                        let i = choose|i: int| 0 <= i < k && members@[i].0@ == p && members@[i].1;
                        assert(0 <= i < k + 1 && members@[i].0@ == p && members@[i].1);
                    }
                    if p == peer@ && live && p != host_id@ {
                        assert(members@[k as int].0@ == p && members@[k as int].1);
                    }
                }
                assert forall|i: int| 0 <= i < k + 1 && members@[i].1 && members@[i].0@ != host_id@ implies (find_binding(start, members@[i].0@) matches Some(b) ==> b.0 == vault_id@) by {
                    if i == k {
                        if exists|j: int| 0 <= j < k && members@[j].0@ == peer@ && members@[j].1 {
                            let j = choose|j: int| 0 <= j < k && members@[j].0@ == peer@ && members@[j].1;
                        }
                    }
                }
            }
            k = k + 1;
        }
        let mut pos: usize = 0;
        while pos < self.vaults.len() && bytes32_lt(&self.vaults[pos].0, &vault_id.0)
            invariant
                pos <= self.vaults@.len(),
                forall|j: int| 0 <= j < pos ==> lex_lt((#[trigger] self.vaults@[j])@, vault_id@),
            decreases self.vaults@.len() - pos,
        {
            pos = pos + 1;
        }
        let ghost old_vaults = self.vaults@;
        proof {
            if pos < old_vaults.len() {
                lemma_lex_total(old_vaults[pos as int]@, vault_id@);
                assert forall|j: int| pos <= j < old_vaults.len() implies lex_lt(vault_id@, (#[trigger] old_vaults[j])@) by {
                    if j > pos {
                        lemma_lex_transitive(vault_id@, old_vaults[pos as int]@, old_vaults[j]@);
                    }
                }
            }
        }
        self.vaults.insert(pos, vault_id);
        self.bindings = bindings;
        proof {
            let t = self.vaults@;
            assert(t == old_vaults.insert(pos as int, vault_id));
            assert forall|a: int, b: int| 0 <= a < b < t.len() implies lex_lt((#[trigger] t[a])@, (#[trigger] t[b])@) by {
                if b < pos {
                    assert(t[a] == old_vaults[a] && t[b] == old_vaults[b]);
                } else if b == pos {
                    assert(t[a] == old_vaults[a]);
                } else if a < pos {
                    assert(t[a] == old_vaults[a] && t[b] == old_vaults[b - 1]);
                } else if a == pos {
                    assert(t[b] == old_vaults[b - 1]);
                } else {
                    assert(t[a] == old_vaults[a - 1] && t[b] == old_vaults[b - 1]);
                }
            }
            assert(0 <= pos <= old_vaults.len() && t == old_vaults.insert(pos as int, vault_id));
        }
        Ok(())
    }
}

} // verus!
