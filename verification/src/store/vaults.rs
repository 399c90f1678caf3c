//! The per-vault directory layout: directories named by vault id, and the
//! checks that discovery applies to what it finds.

use vstd::prelude::*;
use vstd::multiset::Multiset;

use crate::error::{Error, Result};
use crate::ids::{bytes32_eq, bytes32_lt, lemma_lex_total, lemma_lex_transitive, lex_lt};
use crate::net::admin::{hex, hex32_text, hex32_value, hex_text, parse_hex32};
use crate::net::VaultId;
use crate::text::utf8_bytes;

verus! {

/// The name of a vault's directory: its id in lower-case hex.
pub fn vault_directory_name(vault_id: &VaultId) -> (r: String)
    ensures
        r@ == hex_text(vault_id@),
{
    hex(&vault_id.0)
}

/// The vault a directory name stands for: exactly 64 lower-case hex digits.
pub fn parse_hex_vault_id(value: &str) -> (r: Result<VaultId>)
    ensures
        match r {
            Ok(id) => hex32_text(utf8_bytes(value@)) && id@ == hex32_value(utf8_bytes(value@)),
            Err(e) => e is InvalidInput && !hex32_text(utf8_bytes(value@)),
        },
{
    match parse_hex32(value) {
        Ok(bytes) => Ok(VaultId(bytes)),
        Err(_) => Err(Error::InvalidInput("invalid vault directory name")),
    }
}

/// Whether `id` is among `found`.
pub open spec fn already_found(found: Seq<VaultId>, id: Seq<u8>) -> bool {
    exists|i: int| 0 <= i < found.len() && (#[trigger] found[i])@ == id
}

/// A vault directory found during discovery: its name must be a vault id,
/// the admission file inside must be for that vault, and no vault may be
/// found twice. `found` are the vaults found so far.
pub fn admit_vault(found: &[VaultId], name: &str, admission_id: VaultId) -> (r: Result<VaultId>)
    ensures
        match r {
            Ok(id) => hex32_text(utf8_bytes(name@)) && id@ == hex32_value(utf8_bytes(name@)) && admission_id@
                == id@ && !already_found(found@, id@),
            Err(e) => if !hex32_text(utf8_bytes(name@)) {
                e is InvalidInput
            } else if admission_id@ != hex32_value(utf8_bytes(name@)) {
                e is State
            } else {
                e is State && already_found(found@, admission_id@)
            },
        },
{
    let id = parse_hex_vault_id(name)?;
    if !bytes32_eq(&admission_id.0, &id.0) {
        return Err(Error::State("vault directory id differs from admission file"));
    }
    let mut i: usize = 0;
    while i < found.len()
        invariant
            i <= found@.len(),
            hex32_text(utf8_bytes(name@)),
            id@ == hex32_value(utf8_bytes(name@)),
            admission_id@ == id@,
            forall|j: int| 0 <= j < i ==> (#[trigger] found@[j])@ != id@,
        decreases found@.len() - i,
    {
        if bytes32_eq(&found[i].0, &id.0) {
            assert((found@[i as int])@ == id@);
            return Err(Error::State("duplicate vault id on disk"));
        }
        i = i + 1;
    }
    Ok(id)
}

/// Whether `a` orders no later than `b`.
pub open spec fn id_le(a: Seq<u8>, b: Seq<u8>) -> bool {
    a == b || lex_lt(a, b)
}

pub open spec fn sorted_by_id<P>(s: Seq<(VaultId, P)>) -> bool {
    forall|i: int, j: int| 0 <= i < j < s.len() ==> id_le((#[trigger] s[i]).0@, (#[trigger] s[j]).0@)
}

/// The discovered vaults in ascending id order.
pub fn sort_vaults<P>(vaults: Vec<(VaultId, P)>) -> (r: Vec<(VaultId, P)>)
    ensures
        sorted_by_id(r@),
        r@.to_multiset() == vaults@.to_multiset(),
{
    broadcast use vstd::seq_lib::group_to_multiset_ensures;
    broadcast use vstd::multiset::group_multiset_axioms;

    let ghost initial = vaults@;
    let mut rest = vaults;
    let mut out: Vec<(VaultId, P)> = Vec::new();
    assert(out@.to_multiset().add(rest@.to_multiset()) =~= initial.to_multiset());
    while rest.len() > 0
        invariant
            sorted_by_id(out@),
            out@.to_multiset().add(rest@.to_multiset()) == initial.to_multiset(),
        decreases rest@.len(),
    {
        let ghost before = rest@;
        let e = rest.pop().unwrap();
        proof {
            assert(before.remove(before.len() - 1) =~= rest@);
            vstd::seq_lib::to_multiset_remove(before, before.len() - 1);
        }
        let mut pos: usize = 0;
        while pos < out.len() && bytes32_lt(&out[pos].0.0, &e.0.0)
            invariant
                pos <= out@.len(),
                forall|k: int| 0 <= k < pos ==> lex_lt((#[trigger] out@[k]).0@, e.0@),
            decreases out@.len() - pos,
        {
            pos = pos + 1;
        }
        let ghost old_out = out@;
        proof {
            if pos < old_out.len() {
                lemma_lex_total(old_out[pos as int].0@, e.0@);
                assert forall|j: int| pos <= j < old_out.len() implies id_le(e.0@, (#[trigger] old_out[j]).0@) by {
                    if j > pos {
                        assert(id_le(old_out[pos as int].0@, old_out[j].0@));
                        lemma_lex_transitive(e.0@, old_out[pos as int].0@, old_out[j].0@);
                    }
                }
            }
            vstd::seq_lib::to_multiset_insert(old_out, pos as int, e);
        }
        out.insert(pos, e);
        proof {
            let t = out@;
            assert(t == old_out.insert(pos as int, e));
            assert forall|a: int, b: int| 0 <= a < b < t.len() implies id_le((#[trigger] t[a]).0@, (#[trigger] t[b]).0@) by {
                if b < pos {
                    assert(t[a] == old_out[a] && t[b] == old_out[b]);
                } else if b == pos {
                    assert(t[a] == old_out[a]);
                } else if a < pos {
                    assert(t[a] == old_out[a] && t[b] == old_out[b - 1]);
                    lemma_lex_transitive(t[a].0@, e.0@, t[b].0@);
                } else if a == pos {
                    assert(t[b] == old_out[b - 1]);
                } else {
                    assert(t[a] == old_out[a - 1] && t[b] == old_out[b - 1]);
                }
            }
            let a = old_out.to_multiset();
            let b = before.to_multiset();
            assert(before[before.len() - 1] == e);
            assert(rest@.to_multiset() == b.remove(e));
            assert(out@.to_multiset() == a.insert(e));
            assert(before.contains(e));
            before.to_multiset_ensures();
            assert(b.count(e) > 0);
            assert forall|x: (VaultId, P)| #[trigger] a.insert(e).add(b.remove(e)).count(x) == a.add(b).count(x) by {
                if x == e {
                    assert(a.insert(e).count(x) == a.count(x) + 1);
                    assert(b.remove(e).count(x) == b.count(x) - 1);
                } else {
                    assert(a.insert(e).count(x) == a.count(x));
                    assert(b.remove(e).count(x) == b.count(x));
                }
            }
            assert(a.insert(e).add(b.remove(e)) =~= a.add(b));
            assert(out@.to_multiset().add(rest@.to_multiset()) =~= initial.to_multiset());
        }
    }
    assert(rest@.to_multiset() =~= Multiset::<(VaultId, P)>::empty());
    assert(out@.to_multiset() =~= initial.to_multiset());
    out
}

/// What moving one migration entry does, given which side exists.
#[derive(Clone, Copy, Debug, PartialEq, Eq)]
pub enum MoveStep {
    /// Rename the source onto the target, then sync both directories.
    Rename,
    /// An earlier run already moved it: sync both directories.
    AlreadyMoved,
}

/// A migration entry moves once: from a source with no target yet, or it
/// was already moved. Both present or both missing means the layout is
/// damaged.
pub fn move_step(source_exists: bool, target_exists: bool) -> (r: Result<MoveStep>)
    ensures
        match r {
            Ok(MoveStep::Rename) => source_exists && !target_exists,
            Ok(MoveStep::AlreadyMoved) => !source_exists && target_exists,
            Err(e) => e is State && source_exists == target_exists,
        },
{
    if source_exists && !target_exists {
        Ok(MoveStep::Rename)
    } else if !source_exists && target_exists {
        Ok(MoveStep::AlreadyMoved)
    } else if source_exists {
        Err(Error::State("vault migration source and destination both exist"))
    } else {
        Err(Error::State("vault migration source and destination are missing"))
    }
}

/// The entry a migration moves in `phase`: the replica, then the chunk
/// directory, then the admission file; none once all three have moved.
pub fn migration_entry(phase: u8) -> (r: Option<&'static str>)
    ensures
        phase == 0 ==> (r matches Some(n) && n@ == "replica.bin"@),
        phase == 1 ==> (r matches Some(n) && n@ == "chunks"@),
        phase == 2 ==> (r matches Some(n) && n@ == "vault"@),
        phase >= 3 ==> r is None,
{
    if phase == 0 {
        Some("replica.bin")
    } else if phase == 1 {
        Some("chunks")
    } else if phase == 2 {
        Some("vault")
    } else {
        None
    }
}

} // verus!
