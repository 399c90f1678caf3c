//! Trees stay reopenable: every operation that changes a tree keeps its
//! entries a valid stored entry list, which `from_dirents` takes back.

use vstd::prelude::*;

use crate::store::tree::{
    canonical, dirents_ok, find_child, graph_ok, has_children, has_key, is_dir_in, link_outcome, link_path_ok,
    linked, moved, new_entry, path_length, remove_outcome, rename_outcome, renamed, root_entry, unlink_outcome,
    valid_name, walk, DirentV,
};
use vstd::set_lib::{lemma_int_range, lemma_len_subset, set_int_range};
use crate::store::tree::DirectoryTree;
use crate::text::utf8_bytes;

verus! {

/// The root entry alone is a valid entry list.
pub proof fn law_new_tree_reopens(root: Seq<u8>)
    ensures
        dirents_ok(root, seq![root_entry(root)]),
{
    let s = seq![root_entry(root)];
    assert(s[0] == root_entry(root));
    assert(has_key(s, root, Seq::<char>::empty()));
}

/// Where `find_child` stops: the first entry linking `c` from `from` on.
proof fn lemma_find_child(s: Seq<DirentV>, c: Seq<u8>, from: int)
    requires
        0 <= from,
    ensures
        match find_child(s, c, from) {
            Some(i) => from <= i < s.len() && s[i].child == c && forall|j: int| from <= j < i ==> s[j].child != c,
            None => forall|j: int| from <= j < s.len() ==> s[j].child != c,
        },
    decreases s.len() - from,
{
    if from < s.len() && s[from].child != c {
        lemma_find_child(s, c, from + 1);
    }
}

/// The first entry linking `c`, found by position.
proof fn lemma_find_child_at(s: Seq<DirentV>, c: Seq<u8>, i: int)
    requires
        0 <= i < s.len(),
        s[i].child == c,
        forall|j: int| 0 <= j < i ==> s[j].child != c,
    ensures
        find_child(s, c, 0) == Some(i),
{
    lemma_find_child(s, c, 0);
    match find_child(s, c, 0) {
        Some(k) => {
            if k < i {
                assert(s[k].child != c);
            } else if k > i {
                assert(s[i].child != c);
            }
        },
        None => {
            assert(s[i].child != c);
        },
    }
}

/// Adding an entry for a new child `v.child` leaves every walk of the old
/// entries as it was, whatever fuel is added.
proof fn lemma_walk_after_insert(s: Seq<DirentV>, root: Seq<u8>, pos: int, v: DirentV, x: Seq<u8>, f: nat, g: nat)
    requires
        dirents_ok(root, s),
        0 <= pos <= s.len(),
        v.child != root,
        !linked(s, v.child),
        x != v.child,
        f <= g,
        walk(s, root, x, f) is Some,
    ensures
        walk(s.insert(pos, v), root, x, g) == walk(s, root, x, f),
    decreases f,
{
    let t = s.insert(pos, v);
    if x != root {
        lemma_find_child(s, x, 0);
        let i = find_child(s, x, 0).unwrap();
        let i2 = if i < pos { i } else { i + 1 };
        assert(t[i2] == s[i]);
        assert forall|j: int| 0 <= j < i2 implies t[j].child != x by {
            if j < pos {
                assert(t[j] == s[j]);
            } else if j > pos {
                assert(t[j] == s[j - 1]);
            }
        }
        lemma_find_child_at(t, x, i2);
        // the parent of an entry other than the root's is a directory, so not v.child
        let p = s[i].parent;
        assert(s[i].name.len() > 0) by {
            if s[i].name.len() == 0 {
                assert(s[i] == root_entry(root));
            }
        }
        assert(is_dir_in(s, root, p));
        assert(p != v.child) by {
            if p == v.child {
                let w = choose|w: int| 0 <= w < s.len() && (#[trigger] s[w]).child == p && s[w].is_dir;
                assert(linked(s, v.child));
            }
        }
        lemma_walk_after_insert(s, root, pos, v, p, (f - 1) as nat, (g - 1) as nat);
    }
}

/// Linking an entry keeps a tree's entries a valid stored list: reopening
/// them gives the tree back.
pub proof fn law_link_keeps_entries_valid(
    s: Seq<DirentV>,
    root: Seq<u8>,
    parent: Seq<u8>,
    name: Seq<char>,
    child: Seq<u8>,
    is_dir: bool,
    t: Seq<DirentV>,
)
    requires
        dirents_ok(root, s),
        canonical(t),
        link_outcome(s, root, parent, name, child, is_dir, Ok(()), t),
    ensures
        dirents_ok(root, t),
{
    let v = new_entry(parent, name, child, is_dir);
    let pos = choose|pos: int| 0 <= pos <= s.len() && t == s.insert(pos, v);
    assert(0 <= pos <= s.len() && t == s.insert(pos, v));
    assert(t.len() == s.len() + 1);
    assert(t[pos] == v);
    assert forall|j: int| 0 <= j < s.len() implies s[j].child != child by {
        if s[j].child == child {
            assert(linked(s, child));
        }
    }
    // every entry of t is v or an entry of s
    assert forall|i: int| 0 <= i < t.len() && i != pos implies #[trigger] t[i] == s[if i < pos { i } else { i - 1 }] by {}
    assert forall|i: int|
        0 <= i < t.len() && (#[trigger] t[i]).name.len() == 0 implies t[i] == root_entry(root) by {
        if i != pos {
            let j = if i < pos { i } else { i - 1 };
            assert(s[j].name.len() == 0);
        }
    }
    assert forall|i: int|
        0 <= i < t.len() && (#[trigger] t[i]).name.len() > 0 implies valid_name(t[i].name) && t[i].child != root by {
        if i != pos {
            let j = if i < pos { i } else { i - 1 };
            assert(s[j].name.len() > 0);
        }
    }
    assert forall|a: int, b: int|
        0 <= a < b < t.len() && (#[trigger] t[a]).name.len() > 0 && (#[trigger] t[b]).name.len() > 0 implies t[a].child
            != t[b].child by {
        let ja = if a < pos { a } else { a - 1 };
        let jb = if b < pos { b } else { b - 1 };
        if a != pos && b != pos {
            assert(ja < jb);
            assert(s[ja].name.len() > 0 && s[jb].name.len() > 0);
        }
    }
    let m = choose|m: int| 0 <= m < s.len() && (#[trigger] s[m]).parent == root && s[m].name == Seq::<char>::empty();
    let m2 = if m < pos { m } else { m + 1 };
    assert(t[m2] == s[m]);
    assert(has_key(t, root, Seq::<char>::empty()));
    // directories of s stay directories of t
    assert forall|d: Seq<u8>| is_dir_in(s, root, d) implies is_dir_in(t, root, d) by {
        if d != root {
            let w = choose|w: int| 0 <= w < s.len() && (#[trigger] s[w]).child == d && s[w].is_dir;
            let w2 = if w < pos { w } else { w + 1 };
            assert(t[w2] == s[w]);
        }
    }
    assert forall|i: int|
        0 <= i < t.len() && (#[trigger] t[i]).name.len() > 0 implies is_dir_in(t, root, t[i].parent) && (path_length(
            t,
            root,
            t[i].child,
        ) matches Some(l) && l <= crate::store::tree::MAX_PATH_BYTES) by {
        if i != pos {
            let j = if i < pos { i } else { i - 1 };
            assert(s[j].name.len() > 0);
            let c = s[j].child;
            lemma_walk_after_insert(s, root, pos, v, c, s.len(), t.len());
        } else {
            lemma_new_entry_path(s, root, pos, v);
        }
    }
}

/// The path of a newly linked entry: its parent's path and its name.
proof fn lemma_new_entry_path(s: Seq<DirentV>, root: Seq<u8>, pos: int, v: DirentV)
    requires
        dirents_ok(root, s),
        0 <= pos <= s.len(),
        v.child != root,
        !linked(s, v.child),
        valid_name(v.name),
        is_dir_in(s, root, v.parent),
        link_path_ok(s, root, v.parent, v.name),
    ensures
        path_length(s.insert(pos, v), root, v.child) matches Some(l) && l <= crate::store::tree::MAX_PATH_BYTES,
{
    let t = s.insert(pos, v);
    assert(t[pos] == v);
    assert forall|j: int| 0 <= j < pos implies t[j].child != v.child by {
        assert(t[j] == s[j]);
        if s[j].child == v.child {
            assert(linked(s, v.child));
        }
    }
    lemma_find_child_at(t, v.child, pos);
    assert(v.parent != v.child) by {
        if v.parent == v.child {
            let w = choose|w: int| 0 <= w < s.len() && (#[trigger] s[w]).child == v.parent && s[w].is_dir;
            assert(linked(s, v.child));
        }
    }
    lemma_walk_after_insert(s, root, pos, v, v.parent, s.len(), s.len());
    let (b, k) = walk(s, root, v.parent, s.len()).unwrap();
    assert(walk(t, root, v.child, t.len()) == Some((b + utf8_bytes(v.name).len(), k + 1)));
    lemma_walk_root(s, root, v.parent, s.len());
}

/// A walk takes no step exactly at the root.
proof fn lemma_walk_root(s: Seq<DirentV>, root: Seq<u8>, c: Seq<u8>, f: nat)
    requires
        walk(s, root, c, f) is Some,
    ensures
        (walk(s, root, c, f).unwrap().1 == 0) <==> (c == root),
        walk(s, root, c, f).unwrap().0 >= 0,
        walk(s, root, c, f).unwrap().1 >= 0,
    decreases f,
{
    if c != root {
        let i = find_child(s, c, 0).unwrap();
        lemma_walk_root(s, root, s[i].parent, (f - 1) as nat);
    }
}

/// The position in `s` of entry `i` of `renamed(s, k, pos, _)`, for
/// `i != pos`.
spec fn origin(i: int, k: int, pos: int) -> int {
    let j = if i < pos { i } else { i - 1 };
    if j < k { j } else { j + 1 }
}

proof fn lemma_renamed_entry(s: Seq<DirentV>, k: int, pos: int, v: DirentV, i: int)
    requires
        0 <= k < s.len(),
        0 <= pos < s.len(),
        0 <= i < s.len(),
        i != pos,
    ensures
        renamed(s, k, pos, v).len() == s.len(),
        renamed(s, k, pos, v)[i] == s[origin(i, k, pos)],
        0 <= origin(i, k, pos) < s.len(),
        origin(i, k, pos) != k,
{
    let r = s.remove(k);
    let j = if i < pos { i } else { i - 1 };
    assert(r.insert(pos, v)[i] == r[j]);
}

proof fn lemma_origin_order(k: int, pos: int, a: int, b: int)
    requires
        a < b,
        a != pos,
        b != pos,
    ensures
        origin(a, k, pos) < origin(b, k, pos),
{
}

/// Renaming an entry keeps a tree's entries a valid stored list.
#[verifier::rlimit(40)]
pub proof fn law_rename_keeps_entries_valid(
    s: Seq<DirentV>,
    root: Seq<u8>,
    src_parent: Seq<u8>,
    src_name: Seq<char>,
    dst_parent: Seq<u8>,
    dst_name: Seq<char>,
    t: Seq<DirentV>,
)
    requires
        dirents_ok(root, s),
        canonical(t),
        rename_outcome(s, root, src_parent, src_name, dst_parent, dst_name, Ok(()), t),
    ensures
        dirents_ok(root, t),
{
    if !(src_parent == dst_parent && src_name == dst_name) {
        let k = crate::store::tree::key_index(s, src_parent, src_name);
        let v = moved(s[k], dst_parent, dst_name);
        let pos = choose|pos: int| 0 <= pos < s.len() && t == renamed(s, k, pos, v);
        assert(0 <= pos < s.len() && t == renamed(s, k, pos, v));
        assert(0 <= k < s.len() && s[k].parent == src_parent && s[k].name == src_name);
        assert(t[pos] == v) by {
            assert(s.remove(k).insert(pos, v)[pos] == v);
        }
        assert(t.len() == s.len());
        assert(s[k].name.len() > 0);
        assert forall|i: int|
            0 <= i < t.len() && (#[trigger] t[i]).name.len() == 0 implies t[i] == root_entry(root) by {
            if i != pos {
                lemma_renamed_entry(s, k, pos, v, i);
                assert(s[origin(i, k, pos)].name.len() == 0);
            }
        }
        assert forall|i: int|
            0 <= i < t.len() && (#[trigger] t[i]).name.len() > 0 implies valid_name(t[i].name) && t[i].child != root by {
            if i != pos {
                lemma_renamed_entry(s, k, pos, v, i);
                assert(s[origin(i, k, pos)].name.len() > 0);
            }
        }
        assert forall|a: int, b: int|
            0 <= a < b < t.len() && (#[trigger] t[a]).name.len() > 0 && (#[trigger] t[b]).name.len() > 0 implies t[a].child
                != t[b].child by {
            let sa = if a == pos { k } else { origin(a, k, pos) };
            let sb = if b == pos { k } else { origin(b, k, pos) };
            if a != pos {
                lemma_renamed_entry(s, k, pos, v, a);
            }
            if b != pos {
                lemma_renamed_entry(s, k, pos, v, b);
            }
            if a != pos && b != pos {
                lemma_origin_order(k, pos, a, b);
            }
            assert(t[a].child == s[sa].child && t[b].child == s[sb].child);
            assert(s[sa].name.len() > 0 && s[sb].name.len() > 0);
            assert(sa != sb);
            if sa < sb {
                assert(s[sa].child != s[sb].child);
            } else {
                assert(s[sb].child != s[sa].child);
            }
        }
        let m = choose|m: int| 0 <= m < s.len() && (#[trigger] s[m]).parent == root && s[m].name == Seq::<char>::empty();
        assert(m != k);
        let mj = if m < k { m } else { m - 1 };
        let m2 = if mj < pos { mj } else { mj + 1 };
        lemma_renamed_entry(s, k, pos, v, m2);
        assert(origin(m2, k, pos) == m);
        assert(has_key(t, root, Seq::<char>::empty()));
    }
}

/// More fuel changes no walk that reached the root.
proof fn lemma_walk_mono(s: Seq<DirentV>, root: Seq<u8>, x: Seq<u8>, f: nat, g: nat)
    requires
        f <= g,
        walk(s, root, x, f) is Some,
    ensures
        walk(s, root, x, g) == walk(s, root, x, f),
    decreases f,
{
    if x != root {
        let i = find_child(s, x, 0).unwrap();
        lemma_walk_mono(s, root, s[i].parent, (f - 1) as nat, (g - 1) as nat);
    }
}

/// A walk that reached the root in `k` steps needs no more fuel than `k`.
proof fn lemma_walk_min(s: Seq<DirentV>, root: Seq<u8>, x: Seq<u8>, f: nat)
    requires
        walk(s, root, x, f) is Some,
    ensures
        walk(s, root, x, f).unwrap().1 >= 0,
        walk(s, root, x, walk(s, root, x, f).unwrap().1 as nat) == walk(s, root, x, f),
    decreases f,
{
    if x != root {
        let i = find_child(s, x, 0).unwrap();
        lemma_walk_min(s, root, s[i].parent, (f - 1) as nat);
    }
}

/// The entries a walk steps through, in order.
spec fn trail(s: Seq<DirentV>, root: Seq<u8>, x: Seq<u8>, f: nat) -> Seq<int>
    decreases f,
{
    if x == root || f == 0 {
        Seq::empty()
    } else {
        match find_child(s, x, 0) {
            None => Seq::empty(),
            Some(i) => seq![i] + trail(s, root, s[i].parent, (f - 1) as nat),
        }
    }
}

proof fn lemma_trail(s: Seq<DirentV>, root: Seq<u8>, x: Seq<u8>, f: nat)
    requires
        walk(s, root, x, f) is Some,
    ensures
        trail(s, root, x, f).len() == walk(s, root, x, f).unwrap().1,
        forall|j: int|
            0 <= j < trail(s, root, x, f).len() ==> {
                let e = #[trigger] trail(s, root, x, f)[j];
                &&& 0 <= e < s.len()
                &&& s[e].child != root
                &&& j < f
                &&& walk(s, root, s[e].child, (f - j) as nat) is Some
                &&& walk(s, root, s[e].child, (f - j) as nat).unwrap().1 == walk(s, root, x, f).unwrap().1 - j
            },
    decreases f,
{
    if x != root {
        lemma_find_child(s, x, 0);
        let i = find_child(s, x, 0).unwrap();
        let p = s[i].parent;
        lemma_trail(s, root, p, (f - 1) as nat);
        let rest = trail(s, root, p, (f - 1) as nat);
        assert(trail(s, root, x, f) == seq![i] + rest);
        assert forall|j: int| 0 <= j < trail(s, root, x, f).len() implies {
            let e = #[trigger] trail(s, root, x, f)[j];
            &&& 0 <= e < s.len()
            &&& s[e].child != root
            &&& j < f
            &&& walk(s, root, s[e].child, (f - j) as nat) is Some
            &&& walk(s, root, s[e].child, (f - j) as nat).unwrap().1 == walk(s, root, x, f).unwrap().1 - j
        } by {
            if j > 0 {
                assert(trail(s, root, x, f)[j] == rest[j - 1]);
                assert((f - 1 - (j - 1)) as nat == (f - j) as nat);
            }
        }
    }
}

/// A walk that reaches the root passes through no entry twice, so it takes
/// fewer steps than there are entries.
proof fn lemma_walk_short(s: Seq<DirentV>, root: Seq<u8>, x: Seq<u8>)
    requires
        dirents_ok(root, s),
        walk(s, root, x, s.len()) is Some,
    ensures
        walk(s, root, x, (s.len() - 1) as nat) == walk(s, root, x, s.len()),
{
    let f = s.len();
    let tr = trail(s, root, x, f);
    lemma_trail(s, root, x, f);
    assert(tr.no_duplicates()) by {
        assert forall|a: int, b: int| 0 <= a < tr.len() && 0 <= b < tr.len() && a != b implies tr[a] != tr[b] by {
            if tr[a] == tr[b] {
                let n = s[tr[a]].child;
                let (lo, hi) = if a < b { (a, b) } else { (b, a) };
                assert(walk(s, root, n, (f - lo) as nat).unwrap().1 == walk(s, root, x, f).unwrap().1 - lo);
                assert(walk(s, root, n, (f - hi) as nat).unwrap().1 == walk(s, root, x, f).unwrap().1 - hi);
                lemma_walk_mono(s, root, n, (f - hi) as nat, (f - lo) as nat);
            }
        }
    }
    tr.unique_seq_to_set();
    let m = choose|m: int| 0 <= m < s.len() && (#[trigger] s[m]).parent == root && s[m].name == Seq::<char>::empty();
    assert(s[m] == root_entry(root));
    let range = set_int_range(0, s.len() as int).remove(m);
    lemma_int_range(0, s.len() as int);
    assert(tr.to_set().subset_of(range)) by {
        assert forall|e: int| tr.to_set().contains(e) implies range.contains(e) by {
            let j = choose|j: int| 0 <= j < tr.len() && tr[j] == e;
        }
    }
    lemma_len_subset(tr.to_set(), range);
    lemma_walk_min(s, root, x, f);
    let k = walk(s, root, x, f).unwrap().1;
    lemma_walk_mono(s, root, x, k as nat, (s.len() - 1) as nat);
}

/// Dropping a named entry whose child holds nothing leaves every walk that
/// avoids that child as it was.
proof fn lemma_walk_after_remove(s: Seq<DirentV>, root: Seq<u8>, k: int, x: Seq<u8>, f: nat)
    requires
        dirents_ok(root, s),
        0 <= k < s.len(),
        s[k].name.len() > 0,
        !(s[k].is_dir && has_children(s, s[k].child)),
        x != s[k].child,
        walk(s, root, x, f) is Some,
    ensures
        walk(s.remove(k), root, x, f) == walk(s, root, x, f),
    decreases f,
{
    let t = s.remove(k);
    if x != root {
        lemma_find_child(s, x, 0);
        let i = find_child(s, x, 0).unwrap();
        assert(i != k);
        let i2 = if i < k { i } else { i - 1 };
        assert(t[i2] == s[i]);
        assert forall|j: int| 0 <= j < i2 implies t[j].child != x by {
            if j < k {
                assert(t[j] == s[j]);
            } else {
                assert(t[j] == s[j + 1]);
            }
        }
        lemma_find_child_at(t, x, i2);
        let p = s[i].parent;
        assert(s[i].name.len() > 0) by {
            if s[i].name.len() == 0 {
                assert(s[i] == root_entry(root));
            }
        }
        assert(p != s[k].child) by {
            if p == s[k].child {
                assert(has_children(s, s[k].child));
                assert(is_dir_in(s, root, p));
                let w = choose|w: int| 0 <= w < s.len() && (#[trigger] s[w]).child == p && s[w].is_dir;
                assert(s[w].name.len() > 0) by {
                    if s[w].name.len() == 0 {
                        assert(s[w] == root_entry(root));
                    }
                }
                if w < k {
                    assert(s[w].child != s[k].child);
                } else if w > k {
                    assert(s[k].child != s[w].child);
                }
            }
        }
        lemma_walk_after_remove(s, root, k, p, (f - 1) as nat);
    }
}

/// Dropping a named entry whose child holds nothing keeps a tree's entries
/// a valid stored list.
pub proof fn law_drop_keeps_entries_valid(s: Seq<DirentV>, root: Seq<u8>, k: int)
    requires
        dirents_ok(root, s),
        0 <= k < s.len(),
        valid_name(s[k].name),
        !(s[k].is_dir && has_children(s, s[k].child)),
    ensures
        dirents_ok(root, s.remove(k)),
{
    let t = s.remove(k);
    assert forall|i: int| 0 <= i < t.len() implies #[trigger] t[i] == s[if i < k { i } else { i + 1 }] by {}
    assert forall|a: int, b: int| 0 <= a < b < t.len() implies crate::store::tree::key_lt(#[trigger] t[a], #[trigger] t[b]) by {
        let sa = if a < k { a } else { a + 1 };
        let sb = if b < k { b } else { b + 1 };
        assert(t[a] == s[sa] && t[b] == s[sb]);
    }
    assert forall|i: int|
        0 <= i < t.len() && (#[trigger] t[i]).name.len() == 0 implies t[i] == root_entry(root) by {
        assert(t[i] == s[if i < k { i } else { i + 1 }]);
    }
    assert forall|i: int|
        0 <= i < t.len() && (#[trigger] t[i]).name.len() > 0 implies valid_name(t[i].name) && t[i].child != root by {
        assert(t[i] == s[if i < k { i } else { i + 1 }]);
    }
    assert forall|a: int, b: int|
        0 <= a < b < t.len() && (#[trigger] t[a]).name.len() > 0 && (#[trigger] t[b]).name.len() > 0 implies t[a].child
            != t[b].child by {
        let sa = if a < k { a } else { a + 1 };
        let sb = if b < k { b } else { b + 1 };
        assert(t[a] == s[sa] && t[b] == s[sb]);
    }
    let m = choose|m: int| 0 <= m < s.len() && (#[trigger] s[m]).parent == root && s[m].name == Seq::<char>::empty();
    assert(m != k);
    let m2 = if m < k { m } else { m - 1 };
    assert(t[m2] == s[m]);
    assert(has_key(t, root, Seq::<char>::empty()));
    assert forall|i: int|
        0 <= i < t.len() && (#[trigger] t[i]).name.len() > 0 implies is_dir_in(t, root, t[i].parent) && (path_length(
            t,
            root,
            t[i].child,
        ) matches Some(l) && l <= crate::store::tree::MAX_PATH_BYTES) by {
        let j = if i < k { i } else { i + 1 };
        assert(t[i] == s[j]);
        assert(s[j].name.len() > 0);
        let p = s[j].parent;
        assert(is_dir_in(s, root, p));
        if p != root {
            let w = choose|w: int| 0 <= w < s.len() && (#[trigger] s[w]).child == p && s[w].is_dir;
            if w == k {
                assert(has_children(s, s[k].child));
            }
            let w2 = if w < k { w } else { w - 1 };
            assert(t[w2] == s[w]);
        }
        let c = s[j].child;
        assert(c != s[k].child) by {
            if j < k {
                assert(s[j].child != s[k].child);
            } else {
                assert(s[k].child != s[j].child);
            }
        }
        lemma_walk_short(s, root, c);
        lemma_walk_after_remove(s, root, k, c, (s.len() - 1) as nat);
    }
}

/// Unlinking an entry keeps a tree's entries a valid stored list.
pub proof fn law_unlink_keeps_entries_valid(
    s: Seq<DirentV>,
    root: Seq<u8>,
    parent: Seq<u8>,
    name: Seq<char>,
    c: crate::ids::FileId,
    t: Seq<DirentV>,
)
    requires
        dirents_ok(root, s),
        unlink_outcome(s, root, parent, name, Ok(c), t),
    ensures
        dirents_ok(root, t),
{
    let k = crate::store::tree::key_index(s, parent, name);
    law_drop_keeps_entries_valid(s, root, k);
}

/// Removing a file or an empty directory keeps a tree's entries a valid
/// stored list.
pub proof fn law_remove_keeps_entries_valid(s: Seq<DirentV>, root: Seq<u8>, f: Seq<u8>, t: Seq<DirentV>)
    requires
        dirents_ok(root, s),
        remove_outcome(s, root, f, Ok(()), t),
    ensures
        dirents_ok(root, t),
{
    if f != root {
        if let Some(k) = find_child(s, f, 0) {
            lemma_find_child(s, f, 0);
            if valid_name(s[k].name) && !(s[k].is_dir && has_children(s, s[k].child)) {
                law_drop_keeps_entries_valid(s, root, k);
            }
        }
    }
}

/// Every tree reopens from its own entries: they are never empty and form
/// the valid stored list that `DirectoryTree::from_dirents` takes back as
/// the same tree.
pub proof fn law_tree_reopens(t: &DirectoryTree)
    requires
        t.wf(),
    ensures
        t@.len() > 0,
        dirents_ok(t.root(), t@),
{
}

} // verus!
