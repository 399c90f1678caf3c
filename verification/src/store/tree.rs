//! The vault's directory tree: named links from a parent directory to a file
//! or directory identity, kept in canonical (parent, name) order. Paths are
//! strict and byte exact: no normalisation, no case folding.

use vstd::prelude::*;
use vstd::string::{StrSliceExecFns, StringSliceAdditionalSpecFns};

use crate::error::{Error, Result};
use crate::ids::{
    bytes32_eq, bytes32_lt, bytes_lt, lemma_lex_asymmetric, lemma_lex_irreflexive, lemma_lex_total,
    lemma_lex_transitive, lex_lt, FileId,
};
use crate::text::{string_bytes, to_chars, utf8_bytes};
use crate::wire::bytes_eq;

verus! {

pub const MAX_COMPONENT_BYTES: usize = 255;

pub const MAX_PATH_BYTES: usize = 4096;

// ---------------------------------------------------------------------------
// Names and paths
// ---------------------------------------------------------------------------

pub open spec fn is_ascii_alpha(c: char) -> bool {
    ('a' <= c && c <= 'z') || ('A' <= c && c <= 'Z')
}

/// A Windows drive prefix such as `C:`.
pub open spec fn drive_prefix(s: Seq<char>) -> bool {
    s.len() >= 2 && is_ascii_alpha(s[0]) && s[1] == ':'
}

/// A single path component that may name a directory entry.
pub open spec fn valid_name(n: Seq<char>) -> bool {
    &&& n.len() > 0
    &&& n != seq!['.']
    &&& n != seq!['.', '.']
    &&& utf8_bytes(n).len() <= MAX_COMPONENT_BYTES
    &&& !n.contains('/')
    &&& !n.contains('\\')
    &&& !n.contains('\0')
    &&& !drive_prefix(n)
}

/// Splits on every `/`: the pieces contain no `/` and, joined with `/`,
/// give back `s`. The empty string is one empty piece.
pub open spec fn split_slash(s: Seq<char>) -> Seq<Seq<char>>
    decreases s.len(),
{
    if s.len() == 0 {
        seq![Seq::<char>::empty()]
    } else if s[0] == '/' {
        seq![Seq::<char>::empty()] + split_slash(s.drop_first())
    } else {
        let rest = split_slash(s.drop_first());
        rest.update(0, seq![s[0]] + rest[0])
    }
}

/// The vault-relative part of a path: one leading `/` is allowed.
pub open spec fn relative_part(p: Seq<char>) -> Seq<char> {
    if p.len() > 0 && p[0] == '/' {
        p.drop_first()
    } else {
        p
    }
}

/// The components of a well-formed vault path, or `None`.
pub open spec fn path_parts(p: Seq<char>) -> Option<Seq<Seq<char>>> {
    let q = relative_part(p);
    if utf8_bytes(p).len() > MAX_PATH_BYTES || p.contains('\0') || p.contains('\\') {
        None
    } else if (q.len() > 0 && q[0] == '/') || drive_prefix(q) {
        None
    } else if q.len() == 0 {
        Some(Seq::<Seq<char>>::empty())
    } else if forall|i: int|
        0 <= i < split_slash(q).len() ==> valid_name(#[trigger] split_slash(q)[i]) {
        Some(split_slash(q))
    } else {
        None
    }
}

pub proof fn lemma_split_slash_nonempty(s: Seq<char>)
    ensures
        split_slash(s).len() >= 1,
    decreases s.len(),
{
    if s.len() > 0 {
        lemma_split_slash_nonempty(s.drop_first());
    }
}

fn contains_char(s: &Vec<char>, c: char) -> (r: bool)
    ensures
        r == s@.contains(c),
{
    let mut i: usize = 0;
    while i < s.len()
        invariant
            i <= s@.len(),
            forall|j: int| 0 <= j < i ==> s@[j] != c,
        decreases s@.len() - i,
    {
        if s[i] == c {
            assert(s@[i as int] == c);
            return true;
        }
        i = i + 1;
    }
    false
}

fn has_drive_prefix(s: &Vec<char>) -> (r: bool)
    ensures
        r == drive_prefix(s@),
{
    if s.len() < 2 {
        return false;
    }
    let c = s[0];
    (('a' <= c && c <= 'z') || ('A' <= c && c <= 'Z')) && s[1] == ':'
}

fn check_name(name: &str, chars: &Vec<char>) -> (r: Result<()>)
    requires
        chars@ == name@,
    ensures
        r is Ok <==> valid_name(name@),
        r matches Err(e) ==> e is InvalidInput,
{
    let n = chars.len();
    if n == 0 || (n == 1 && chars[0] == '.') || (n == 2 && chars[0] == '.' && chars[1] == '.') {
        proof {
            if n == 1 {
                assert(name@ =~= seq!['.']);
            }
            if n == 2 {
                assert(name@ =~= seq!['.', '.']);
            }
        }
        return Err(Error::InvalidInput("invalid empty or dot path component"));
    }
    let byte_len = name.as_bytes().len();
    if byte_len > MAX_COMPONENT_BYTES {
        return Err(Error::InvalidInput("path component exceeds 255 bytes"));
    }
    if contains_char(chars, '/') || contains_char(chars, '\\') || contains_char(chars, '\0')
        || has_drive_prefix(chars) {
        return Err(Error::InvalidInput("path component contains a forbidden character"));
    }
    proof {
        if name@ == seq!['.'] {
            assert(name@[0] == '.');
        }
        if name@ == seq!['.', '.'] {
            assert(name@[0] == '.' && name@[1] == '.');
        }
        assert(utf8_bytes(name@).len() <= MAX_COMPONENT_BYTES);
        assert(!name@.contains('/'));
        assert(!drive_prefix(name@));
    }
    Ok(())
}

/// Checks one path component.
pub fn validate_name(name: &str) -> (r: Result<()>)
    ensures
        r is Ok <==> valid_name(name@),
        r matches Err(e) ==> e is InvalidInput,
{
    let chars = to_chars(name);
    check_name(name, &chars)
}

/// `x` placed in front of the first piece.
pub open spec fn prepend(x: Seq<char>, ss: Seq<Seq<char>>) -> Seq<Seq<char>> {
    ss.update(0, x + ss[0])
}

pub open spec fn str_views(v: Seq<&str>) -> Seq<Seq<char>> {
    v.map_values(|s: &str| s@)
}

proof fn lemma_split_step(s: Seq<char>, i: int)
    requires
        0 <= i < s.len(),
    ensures
        s[i] == '/' ==> split_slash(s.subrange(i, s.len() as int)) == seq![Seq::<char>::empty()]
            + split_slash(s.subrange(i + 1, s.len() as int)),
        s[i] != '/' ==> split_slash(s.subrange(i, s.len() as int)) == prepend(
            seq![s[i]],
            split_slash(s.subrange(i + 1, s.len() as int)),
        ),
{
    let t = s.subrange(i, s.len() as int);
    assert(t.drop_first() =~= s.subrange(i + 1, s.len() as int));
    assert(t[0] == s[i]);
}

/// Splits `chars[from..]` on `/` into slices of `path`.
fn split_pieces<'a>(path: &'a str, chars: &Vec<char>, from: usize) -> (r: Vec<&'a str>)
    requires
        chars@ == path@,
        from <= chars@.len(),
    ensures
        str_views(r@) == split_slash(chars@.subrange(from as int, chars@.len() as int)),
{
    let n = chars.len();
    let ghost q = chars@.subrange(from as int, n as int);
    let mut pieces: Vec<&'a str> = Vec::new();
    let mut piece_start: usize = from;
    let mut i: usize = from;
    proof {
        lemma_split_slash_nonempty(q);
        assert(chars@.subrange(from as int, from as int) =~= Seq::<char>::empty());
        assert(prepend(Seq::<char>::empty(), split_slash(q)) =~= split_slash(q)) by {
            assert(Seq::<char>::empty() + split_slash(q)[0] =~= split_slash(q)[0]);
        }
        assert(str_views(pieces@) =~= Seq::<Seq<char>>::empty());
        assert(split_slash(q) =~= str_views(pieces@) + prepend(Seq::<char>::empty(), split_slash(q)));
    }
    while i < n
        invariant
            n == chars@.len(),
            chars@ == path@,
            from <= piece_start <= i <= n,
            q == chars@.subrange(from as int, n as int),
            split_slash(q) == str_views(pieces@) + prepend(
                chars@.subrange(piece_start as int, i as int),
                split_slash(chars@.subrange(i as int, n as int)),
            ),
        decreases n - i,
    {
        proof {
            lemma_split_step(chars@, i as int);
            lemma_split_slash_nonempty(chars@.subrange(i + 1, n as int));
        }
        let ghost x = chars@.subrange(piece_start as int, i as int);
        let ghost tail = split_slash(chars@.subrange(i + 1, n as int));
        if chars[i] == '/' {
            let piece = path.substring_char(piece_start, i);
            proof {
                assert(prepend(x, seq![Seq::<char>::empty()] + tail) =~= seq![x] + tail) by {
                    assert(x + Seq::<char>::empty() =~= x);
                }
                assert(str_views(pieces@.push(piece)) =~= str_views(pieces@).push(x));
                assert(prepend(Seq::<char>::empty(), tail) =~= tail) by {
                    assert(Seq::<char>::empty() + tail[0] =~= tail[0]);
                }
                assert(chars@.subrange(i + 1, i + 1) =~= Seq::<char>::empty());
                assert(str_views(pieces@) + (seq![x] + tail) =~= str_views(pieces@).push(x) + tail);
            }
            pieces.push(piece);
            piece_start = i + 1;
        } else {
            proof {
                let c = chars@[i as int];
                assert(prepend(x, prepend(seq![c], tail)) =~= prepend(x + seq![c], tail)) by {
                    assert(x + (seq![c] + tail[0]) =~= (x + seq![c]) + tail[0]);
                }
                assert(x + seq![c] =~= chars@.subrange(piece_start as int, i + 1));
            }
        }
        i = i + 1;
    }
    let piece = path.substring_char(piece_start, n);
    proof {
        let x = chars@.subrange(piece_start as int, n as int);
        assert(chars@.subrange(n as int, n as int) =~= Seq::<char>::empty());
        assert(prepend(x, seq![Seq::<char>::empty()]) =~= seq![x]) by {
            assert(x + Seq::<char>::empty() =~= x);
        }
        assert(str_views(pieces@.push(piece)) =~= str_views(pieces@).push(x));
        assert(str_views(pieces@) + seq![x] =~= str_views(pieces@).push(x));
    }
    pieces.push(piece);
    pieces
}

/// The components of a vault path; the root is the empty list.
pub fn path_components<'a>(path: &'a str) -> (r: Result<Vec<&'a str>>)
    ensures
        match r {
            Ok(v) => path_parts(path@) == Some(str_views(v@)),
            Err(e) => path_parts(path@) is None && e is InvalidInput,
        },
{
    let chars = to_chars(path);
    let n = chars.len();
    if path.as_bytes().len() > MAX_PATH_BYTES {
        return Err(Error::InvalidInput("path exceeds 4096 bytes"));
    }
    if contains_char(&chars, '\0') || contains_char(&chars, '\\') {
        return Err(Error::InvalidInput("path contains a forbidden character"));
    }
    let start: usize = if n > 0 && chars[0] == '/' {
        1
    } else {
        0
    };
    let ghost q = relative_part(path@);
    assert(q =~= chars@.subrange(start as int, n as int));
    if (start < n && chars[start] == '/') || (n - start >= 2 && (('a' <= chars[start] && chars[
        start] <= 'z') || ('A' <= chars[start] && chars[start] <= 'Z')) && chars[start + 1] == ':') {
        return Err(Error::InvalidInput("path is not vault-relative"));
    }
    proof {
        if q.len() >= 2 {
            assert(q[0] == chars@[start as int] && q[1] == chars@[start + 1]);
        }
    }
    if start == n {
        return Ok(Vec::new());
    }
    let pieces = split_pieces(path, &chars, start);
    proof {
        assert(!((q.len() > 0 && q[0] == '/') || drive_prefix(q)));
    }
    let mut i: usize = 0;
    while i < pieces.len()
        invariant
            i <= pieces@.len(),
            str_views(pieces@) == split_slash(q),
            forall|j: int| 0 <= j < i ==> valid_name(#[trigger] split_slash(q)[j]),
            q == relative_part(path@),
            q.len() > 0,
            !(utf8_bytes(path@).len() > MAX_PATH_BYTES || path@.contains('\0') || path@.contains(
                '\\',
            )),
            !((q.len() > 0 && q[0] == '/') || drive_prefix(q)),
        decreases pieces@.len() - i,
    {
        let piece = pieces[i];
        assert(split_slash(q)[i as int] == piece@);
        match validate_name(piece) {
            Ok(()) => {},
            Err(e) => {
                proof {
                    assert(!valid_name(split_slash(q)[i as int]));
                    assert(q.len() > 0);
                    assert(!(forall|j: int|
                        0 <= j < split_slash(q).len() ==> valid_name(#[trigger] split_slash(q)[j])));
                }
                return Err(e);
            },
        }
        i = i + 1;
    }
    Ok(pieces)
}

// ---------------------------------------------------------------------------
// Entries
// ---------------------------------------------------------------------------

/// One named link: `child` appears in directory `parent` under `name`. The
/// root entry links the root to itself under the empty name.
#[derive(Clone, Debug, PartialEq, Eq)]
pub struct Dirent {
    pub parent: FileId,
    pub name: String,
    pub child: FileId,
    pub is_dir: bool,
}

/// The contents of an entry.
pub struct DirentV {
    pub parent: Seq<u8>,
    pub name: Seq<char>,
    pub child: Seq<u8>,
    pub is_dir: bool,
}

impl View for Dirent {
    type V = DirentV;

    open spec fn view(&self) -> DirentV {
        DirentV {
            parent: self.parent@,
            name: self.name@,
            child: self.child@,
            is_dir: self.is_dir,
        }
    }
}

impl Dirent {
    /// A field-by-field copy.
    pub fn duplicate(&self) -> (r: Dirent)
        ensures
            r@ == self@,
    {
        Dirent {
            parent: self.parent,
            name: self.name.clone(),
            child: self.child,
            is_dir: self.is_dir,
        }
    }
}

pub open spec fn dirent_views(s: Seq<Dirent>) -> Seq<DirentV> {
    s.map_values(|d: Dirent| d@)
}

/// The canonical order of entries: by parent, then by the UTF-8 bytes of the
/// name, both as unsigned byte strings.
pub open spec fn key_lt(a: DirentV, b: DirentV) -> bool {
    lex_lt(a.parent, b.parent) || (a.parent == b.parent && lex_lt(
        utf8_bytes(a.name),
        utf8_bytes(b.name),
    ))
}

/// Strictly increasing keys, so no (parent, name) occurs twice.
pub open spec fn canonical(s: Seq<DirentV>) -> bool {
    forall|i: int, j: int| 0 <= i < j < s.len() ==> key_lt(#[trigger] s[i], #[trigger] s[j])
}

pub open spec fn root_entry(root: Seq<u8>) -> DirentV {
    DirentV { parent: root, name: Seq::<char>::empty(), child: root, is_dir: true }
}

pub open spec fn has_key(s: Seq<DirentV>, parent: Seq<u8>, name: Seq<char>) -> bool {
    exists|i: int| 0 <= i < s.len() && (#[trigger] s[i]).parent == parent && s[i].name == name
}

/// The position of the entry named `name` in `parent`.
pub open spec fn key_index(s: Seq<DirentV>, parent: Seq<u8>, name: Seq<char>) -> int {
    choose|i: int| 0 <= i < s.len() && (#[trigger] s[i]).parent == parent && s[i].name == name
}

/// Whether `f` is the root or some entry links it as a directory.
pub open spec fn is_dir_in(s: Seq<DirentV>, root: Seq<u8>, f: Seq<u8>) -> bool {
    f == root || exists|i: int| 0 <= i < s.len() && (#[trigger] s[i]).child == f && s[i].is_dir
}

pub open spec fn is_linked_file_in(s: Seq<DirentV>, f: Seq<u8>) -> bool {
    exists|i: int| 0 <= i < s.len() && (#[trigger] s[i]).child == f && !s[i].is_dir
}

/// Follows `parts` from `current`, one entry per component.
pub open spec fn resolve_from(s: Seq<DirentV>, current: Seq<u8>, parts: Seq<Seq<char>>) -> Option<
    Seq<u8>,
>
    decreases parts.len(),
{
    if parts.len() == 0 {
        Some(current)
    } else if has_key(s, current, parts[0]) {
        resolve_from(s, s[key_index(s, current, parts[0])].child, parts.drop_first())
    } else {
        None
    }
}

/// Like `resolve_from`, but every step must be a directory.
pub open spec fn resolve_dirs(s: Seq<DirentV>, current: Seq<u8>, parts: Seq<Seq<char>>) -> Option<
    Seq<u8>,
>
    decreases parts.len(),
{
    if parts.len() == 0 {
        Some(current)
    } else if has_key(s, current, parts[0]) && s[key_index(s, current, parts[0])].is_dir {
        resolve_dirs(s, s[key_index(s, current, parts[0])].child, parts.drop_first())
    } else {
        None
    }
}

pub proof fn lemma_utf8_injective(a: Seq<char>, b: Seq<char>)
    ensures
        utf8_bytes(a) == utf8_bytes(b) ==> a == b,
{
    vstd::utf8::encode_utf8_decode_utf8(a);
    vstd::utf8::encode_utf8_decode_utf8(b);
}

/// In canonical order a key occurs at most once.
pub proof fn lemma_key_unique(s: Seq<DirentV>, i: int, j: int)
    requires
        canonical(s),
        0 <= i < s.len(),
        0 <= j < s.len(),
        s[i].parent == s[j].parent,
        s[i].name == s[j].name,
    ensures
        i == j,
{
    if i < j {
        assert(key_lt(s[i], s[j]));
        lemma_lex_irreflexive(s[i].parent);
        lemma_lex_irreflexive(utf8_bytes(s[i].name));
    } else if j < i {
        assert(key_lt(s[j], s[i]));
        lemma_lex_irreflexive(s[i].parent);
        lemma_lex_irreflexive(utf8_bytes(s[i].name));
    }
}

/// Whether the entry's name is exactly `name`.
fn name_is(entry: &Dirent, name: &str) -> (r: bool)
    ensures
        r == (entry.name@ == name@),
{
    proof {
        lemma_utf8_injective(entry.name@, name@);
    }
    bytes_eq(string_bytes(&entry.name), name.as_bytes())
}

// ---------------------------------------------------------------------------
// Walking up the tree
// ---------------------------------------------------------------------------

/// The first entry at or after `from` that links `c`.
pub open spec fn find_child(s: Seq<DirentV>, c: Seq<u8>, from: int) -> Option<int>
    decreases s.len() - from,
{
    if from < 0 || from >= s.len() {
        None
    } else if s[from].child == c {
        Some(from)
    } else {
        find_child(s, c, from + 1)
    }
}

/// Walks from `c` towards the root through the first entry linking each
/// node, at most `fuel` steps, summing name bytes and counting components.
pub open spec fn walk(s: Seq<DirentV>, root: Seq<u8>, c: Seq<u8>, fuel: nat) -> Option<(int, int)>
    decreases fuel,
{
    if c == root {
        Some((0, 0))
    } else if fuel == 0 {
        None
    } else {
        match find_child(s, c, 0) {
            None => None,
            Some(i) => match walk(s, root, s[i].parent, (fuel - 1) as nat) {
                None => None,
                Some((b, k)) => Some((b + utf8_bytes(s[i].name).len(), k + 1)),
            },
        }
    }
}

/// The byte length of the path of `c`: its names joined with `/`. A walk
/// that does not reach the root within one step per entry never does, since
/// it has then revisited a node.
pub open spec fn path_length(s: Seq<DirentV>, root: Seq<u8>, c: Seq<u8>) -> Option<int> {
    match walk(s, root, c, s.len()) {
        Some((b, k)) => Some(
            if k == 0 {
                b
            } else {
                b + k - 1
            },
        ),
        None => None,
    }
}

/// Every named entry hangs below a directory and has a path of at most
/// `MAX_PATH_BYTES`.
pub open spec fn graph_ok(s: Seq<DirentV>, root: Seq<u8>) -> bool {
    forall|i: int|
        0 <= i < s.len() && (#[trigger] s[i]).name.len() > 0 ==> is_dir_in(s, root, s[i].parent)
            && (path_length(s, root, s[i].child) matches Some(l) && l <= MAX_PATH_BYTES)
}

pub open spec fn shift_walk(w: Option<(int, int)>, b: int, k: int) -> Option<(int, int)> {
    match w {
        Some((x, y)) => Some((x + b, y + k)),
        None => None,
    }
}

fn find_child_index(entries: &Vec<Dirent>, c: &FileId) -> (r: Option<usize>)
    ensures
        r matches Some(i) ==> find_child(dirent_views(entries@), c@, 0) == Some(i as int) && i
            < entries@.len(),
        r is None ==> find_child(dirent_views(entries@), c@, 0) is None,
{
    let ghost s = dirent_views(entries@);
    let mut i: usize = 0;
    while i < entries.len()
        invariant
            i <= entries@.len(),
            s == dirent_views(entries@),
            find_child(s, c@, 0) == find_child(s, c@, i as int),
        decreases entries@.len() - i,
    {
        assert(s[i as int] == entries@[i as int]@);
        if bytes32_eq(&entries[i].child.0, &c.0) {
            return Some(i);
        }
        i = i + 1;
    }
    None
}

fn is_dir_among(entries: &Vec<Dirent>, root: &FileId, f: &FileId) -> (r: bool)
    ensures
        r == is_dir_in(dirent_views(entries@), root@, f@),
{
    let ghost s = dirent_views(entries@);
    if bytes32_eq(&f.0, &root.0) {
        return true;
    }
    let mut i: usize = 0;
    while i < entries.len()
        invariant
            i <= entries@.len(),
            s == dirent_views(entries@),
            forall|j: int| 0 <= j < i ==> !((#[trigger] s[j]).child == f@ && s[j].is_dir),
        decreases entries@.len() - i,
    {
        assert(s[i as int] == entries@[i as int]@);
        if bytes32_eq(&entries[i].child.0, &f.0) && entries[i].is_dir {
            return true;
        }
        i = i + 1;
    }
    false
}

/// A cap above `MAX_PATH_BYTES` at which byte counting stops.
const LENGTH_CAP: usize = 4097;

/// The byte length of the path of `child`.
fn path_len_among(entries: &Vec<Dirent>, root: &FileId, child: FileId) -> (r: Result<usize>)
    ensures
        match r {
            Ok(n) => path_length(dirent_views(entries@), root@, child@) == Some(n as int) && n
                <= MAX_PATH_BYTES,
            Err(e) => e is InvalidInput && match path_length(
                dirent_views(entries@),
                root@,
                child@,
            ) {
                Some(l) => l > MAX_PATH_BYTES,
                None => true,
            },
        },
{
    let ghost s = dirent_views(entries@);
    if bytes32_eq(&child.0, &root.0) {
        return Ok(0);
    }
    let n = entries.len();
    let mut current = child;
    let mut fuel: usize = n;
    let mut bytes: usize = 0;
    let mut count: usize = 0;
    let ghost mut acc: int = 0;
    while !bytes32_eq(&current.0, &root.0)
        invariant
            s == dirent_views(entries@),
            n == s.len(),
            fuel <= n,
            count == n - fuel,
            child@ != root@,
            count == 0 ==> current@ == child@,
            walk(s, root@, child@, n as nat) == shift_walk(
                walk(s, root@, current@, fuel as nat),
                acc,
                count as int,
            ),
            acc >= 0,
            bytes == if acc > LENGTH_CAP {
                LENGTH_CAP as int
            } else {
                acc
            },
        decreases fuel,
    {
        if fuel == 0 {
            return Err(Error::InvalidInput("directory tree contains a cycle"));
        }
        match find_child_index(entries, &current) {
            None => {
                return Err(Error::InvalidInput("directory entry is unreachable"));
            },
            Some(i) => {
                let len = string_bytes(&entries[i].name).len();
                assert(s[i as int] == entries@[i as int]@);
                proof {
                    acc = acc + len;
                }
                if len > LENGTH_CAP || bytes > LENGTH_CAP - len {
                    bytes = LENGTH_CAP;
                } else {
                    bytes = bytes + len;
                }
                count = count + 1;
                current = entries[i].parent;
                fuel = fuel - 1;
            },
        }
    }
    if bytes > MAX_PATH_BYTES || count - 1 > MAX_PATH_BYTES - bytes {
        return Err(Error::InvalidInput("path exceeds 4096 bytes"));
    }
    Ok(bytes + (count - 1))
}

/// Checks that every named entry hangs below a directory on a finite path
/// of at most `MAX_PATH_BYTES`.
fn validate_graph_among(entries: &Vec<Dirent>, root: &FileId) -> (r: Result<()>)
    ensures
        r is Ok <==> graph_ok(dirent_views(entries@), root@),
        r matches Err(e) ==> e is InvalidInput,
{
    let ghost s = dirent_views(entries@);
    let mut i: usize = 0;
    while i < entries.len()
        invariant
            i <= entries@.len(),
            s == dirent_views(entries@),
            forall|j: int|
                0 <= j < i && (#[trigger] s[j]).name.len() > 0 ==> is_dir_in(s, root@, s[j].parent)
                    && (path_length(s, root@, s[j].child) matches Some(l) && l <= MAX_PATH_BYTES),
        decreases entries@.len() - i,
    {
        assert(s[i as int] == entries@[i as int]@);
        if string_bytes(&entries[i].name).len() != 0 {
            proof {
                crate::text::lemma_utf8_empty(entries@[i as int].name@);
            }
            if !is_dir_among(entries, root, &entries[i].parent) {
                return Err(Error::InvalidInput("dirent parent is not a directory"));
            }
            path_len_among(entries, root, entries[i].child)?;
        } else {
            proof {
                crate::text::lemma_utf8_empty(entries@[i as int].name@);
            }
        }
        i = i + 1;
    }
    Ok(())
}

pub proof fn lemma_key_lt_transitive(a: DirentV, b: DirentV, c: DirentV)
    ensures
        key_lt(a, b) && key_lt(b, c) ==> key_lt(a, c),
{
    lemma_lex_transitive(a.parent, b.parent, c.parent);
    lemma_lex_transitive(utf8_bytes(a.name), utf8_bytes(b.name), utf8_bytes(c.name));
}

pub proof fn lemma_key_lt_irreflexive(a: DirentV, b: DirentV)
    ensures
        key_lt(a, b) ==> !key_lt(b, a),
        key_lt(a, b) ==> !(a.parent == b.parent && a.name == b.name),
{
    lemma_lex_asymmetric(a.parent, b.parent);
    lemma_lex_asymmetric(utf8_bytes(a.name), utf8_bytes(b.name));
    lemma_lex_irreflexive(a.parent);
    lemma_lex_irreflexive(utf8_bytes(a.name));
}

/// Any two distinct keys are ordered one way or the other.
pub proof fn lemma_key_lt_total(a: DirentV, b: DirentV)
    ensures
        !(a.parent == b.parent && a.name == b.name) ==> key_lt(a, b) || key_lt(b, a),
{
    lemma_lex_total(a.parent, b.parent);
    lemma_lex_total(utf8_bytes(a.name), utf8_bytes(b.name));
    lemma_utf8_injective(a.name, b.name);
}

/// The exec form of `key_lt`.
fn dirent_key_lt(a: &Dirent, b: &Dirent) -> (r: bool)
    ensures
        r == key_lt(a@, b@),
{
    if bytes32_lt(&a.parent.0, &b.parent.0) {
        return true;
    }
    bytes32_eq(&a.parent.0, &b.parent.0) && bytes_lt(string_bytes(&a.name), string_bytes(&b.name))
}

fn contains_file(ids: &Vec<FileId>, f: &FileId) -> (r: bool)
    ensures
        r == exists|i: int| 0 <= i < ids@.len() && (#[trigger] ids@[i])@ == f@,
{
    let mut i: usize = 0;
    while i < ids.len()
        invariant
            i <= ids@.len(),
            forall|j: int| 0 <= j < i ==> (#[trigger] ids@[j])@ != f@,
        decreases ids@.len() - i,
    {
        if bytes32_eq(&ids[i].0, &f.0) {
            return true;
        }
        i = i + 1;
    }
    false
}

/// Whether no two named entries link the same child.
fn distinct_children(entries: &Vec<Dirent>) -> (r: bool)
    ensures
        r == forall|i: int, j: int|
            0 <= i < j < entries@.len() && (#[trigger] dirent_views(entries@)[i]).name.len() > 0
                && (#[trigger] dirent_views(entries@)[j]).name.len() > 0 ==> dirent_views(
                entries@,
            )[i].child != dirent_views(entries@)[j].child,
{
    let ghost s = dirent_views(entries@);
    let n = entries.len();
    let mut i: usize = 0;
    while i < n
        invariant
            n == entries@.len(),
            s == dirent_views(entries@),
            i <= n,
            forall|a: int, b: int|
                0 <= a < i && a < b < n && (#[trigger] s[a]).name.len() > 0
                    && (#[trigger] s[b]).name.len() > 0 ==> s[a].child != s[b].child,
        decreases n - i,
    {
        assert(s[i as int] == entries@[i as int]@);
        let named_i = string_bytes(&entries[i].name).len() != 0;
        proof {
            crate::text::lemma_utf8_empty(s[i as int].name);
        }
        let mut j: usize = i + 1;
        while j < n
            invariant
                n == entries@.len(),
                s == dirent_views(entries@),
                i < n,
                i + 1 <= j <= n,
                named_i == (s[i as int].name.len() > 0),
                forall|a: int, b: int|
                    0 <= a < i && a < b < n && (#[trigger] s[a]).name.len() > 0
                        && (#[trigger] s[b]).name.len() > 0 ==> s[a].child != s[b].child,
                forall|b: int|
                    i < b < j && s[i as int].name.len() > 0 && (#[trigger] s[b]).name.len() > 0
                        ==> s[i as int].child != s[b].child,
            decreases n - j,
        {
            assert(s[j as int] == entries@[j as int]@);
            proof {
                crate::text::lemma_utf8_empty(s[j as int].name);
            }
            if named_i && string_bytes(&entries[j].name).len() != 0 && bytes32_eq(
                &entries[i].child.0,
                &entries[j].child.0,
            ) {
                assert(s[i as int].name.len() > 0 && s[j as int].name.len() > 0);
                return false;
            }
            j = j + 1;
        }
        i = i + 1;
    }
    true
}

/// What a stored entry list must satisfy to become a tree.
pub open spec fn dirents_ok(root: Seq<u8>, s: Seq<DirentV>) -> bool {
    &&& canonical(s)
    &&& forall|i: int|
        0 <= i < s.len() && (#[trigger] s[i]).name.len() == 0 ==> s[i] == root_entry(root)
    &&& forall|i: int|
        0 <= i < s.len() && (#[trigger] s[i]).name.len() > 0 ==> valid_name(s[i].name) && s[i].child
            != root
    &&& forall|i: int, j: int|
        0 <= i < j < s.len() && (#[trigger] s[i]).name.len() > 0 && (#[trigger] s[j]).name.len()
            > 0 ==> s[i].child != s[j].child
    &&& has_key(s, root, Seq::<char>::empty())
    &&& graph_ok(s, root)
}

pub open spec fn linked(s: Seq<DirentV>, f: Seq<u8>) -> bool {
    exists|i: int| 0 <= i < s.len() && (#[trigger] s[i]).child == f
}

pub open spec fn has_children(s: Seq<DirentV>, f: Seq<u8>) -> bool {
    exists|i: int| 0 <= i < s.len() && (#[trigger] s[i]).parent == f
}

/// The new path `parent/name` would fit in `MAX_PATH_BYTES`.
pub open spec fn link_path_ok(s: Seq<DirentV>, root: Seq<u8>, parent: Seq<u8>, name: Seq<char>) -> bool {
    path_length(s, root, parent) matches Some(l) && l + (if parent == root {
        0int
    } else {
        1int
    }) + utf8_bytes(name).len() <= MAX_PATH_BYTES
}

pub open spec fn new_entry(parent: Seq<u8>, name: Seq<char>, child: Seq<u8>, is_dir: bool) -> DirentV {
    DirentV { parent, name, child, is_dir }
}

pub proof fn lemma_insert_canonical(s: Seq<DirentV>, pos: int, v: DirentV)
    requires
        canonical(s),
        0 <= pos <= s.len(),
        forall|j: int| 0 <= j < pos ==> key_lt(#[trigger] s[j], v),
        forall|j: int| pos <= j < s.len() ==> key_lt(v, #[trigger] s[j]),
    ensures
        canonical(s.insert(pos, v)),
{
    let t = s.insert(pos, v);
    assert forall|a: int, b: int| 0 <= a < b < t.len() implies key_lt(#[trigger] t[a], #[trigger] t[b]) by {
        if b < pos {
            assert(t[a] == s[a] && t[b] == s[b]);
        } else if b == pos {
            assert(t[a] == s[a]);
        } else if a < pos {
            assert(t[a] == s[a] && t[b] == s[b - 1]);
        } else if a == pos {
            assert(t[b] == s[b - 1]);
        } else {
            assert(t[a] == s[a - 1] && t[b] == s[b - 1]);
        }
    }
}

pub proof fn lemma_remove_canonical(s: Seq<DirentV>, k: int)
    requires
        canonical(s),
        0 <= k < s.len(),
    ensures
        canonical(s.remove(k)),
{
    let t = s.remove(k);
    assert forall|a: int, b: int| 0 <= a < b < t.len() implies key_lt(#[trigger] t[a], #[trigger] t[b]) by {
        let a2 = if a < k { a } else { a + 1 };
        let b2 = if b < k { b } else { b + 1 };
        assert(t[a] == s[a2] && t[b] == s[b2]);
    }
}

/// The sorted position for a new key that does not occur in `entries`.
fn insertion_point(entries: &Vec<Dirent>, d: &Dirent) -> (pos: usize)
    requires
        canonical(dirent_views(entries@)),
        !has_key(dirent_views(entries@), d@.parent, d@.name),
    ensures
        pos <= entries@.len(),
        forall|j: int| 0 <= j < pos ==> key_lt(#[trigger] dirent_views(entries@)[j], d@),
        forall|j: int|
            pos <= j < entries@.len() ==> key_lt(d@, #[trigger] dirent_views(entries@)[j]),
{
    let ghost s = dirent_views(entries@);
    let mut i: usize = 0;
    while i < entries.len() && dirent_key_lt(&entries[i], d)
        invariant
            i <= entries@.len(),
            s == dirent_views(entries@),
            forall|j: int| 0 <= j < i ==> key_lt(#[trigger] s[j], d@),
        decreases entries@.len() - i,
    {
        assert(s[i as int] == entries@[i as int]@);
        i = i + 1;
    }
    proof {
        if i < entries@.len() {
            assert(s[i as int] == entries@[i as int]@);
            lemma_key_lt_total(s[i as int], d@);
            assert forall|j: int| i <= j < s.len() implies key_lt(d@, #[trigger] s[j]) by {
                if j > i {
                    lemma_key_lt_transitive(d@, s[i as int], s[j]);
                }
            }
        }
    }
    i
}

/// Whether walking up from `c` meets `a` before the root, within `fuel`
/// steps.
pub open spec fn descends(s: Seq<DirentV>, root: Seq<u8>, c: Seq<u8>, a: Seq<u8>, fuel: nat) -> bool
    decreases fuel,
{
    if c == root {
        false
    } else if c == a {
        true
    } else if fuel == 0 {
        false
    } else {
        match find_child(s, c, 0) {
            None => false,
            Some(i) => descends(s, root, s[i].parent, a, (fuel - 1) as nat),
        }
    }
}

/// An entry moved to `parent` under `name`.
pub open spec fn moved(e: DirentV, parent: Seq<u8>, name: Seq<char>) -> DirentV {
    DirentV { parent, name, child: e.child, is_dir: e.is_dir }
}

/// The entry list a rename would commit.
pub open spec fn renamed(s: Seq<DirentV>, k: int, pos: int, v: DirentV) -> Seq<DirentV> {
    s.remove(k).insert(pos, v)
}

fn descends_among(entries: &Vec<Dirent>, root: &FileId, candidate: FileId, ancestor: &FileId) -> (r: bool)
    ensures
        r == descends(dirent_views(entries@), root@, candidate@, ancestor@, entries@.len() as nat),
{
    let ghost s = dirent_views(entries@);
    let mut current = candidate;
    let mut fuel: usize = entries.len();
    while !bytes32_eq(&current.0, &root.0)
        invariant
            s == dirent_views(entries@),
            fuel <= entries@.len(),
            descends(s, root@, candidate@, ancestor@, entries@.len() as nat) == descends(
                s,
                root@,
                current@,
                ancestor@,
                fuel as nat,
            ),
        decreases fuel,
    {
        if bytes32_eq(&current.0, &ancestor.0) {
            return true;
        }
        if fuel == 0 {
            return false;
        }
        match find_child_index(entries, &current) {
            None => {
                return false;
            },
            Some(i) => {
                assert(s[i as int] == entries@[i as int]@);
                current = entries[i].parent;
                fuel = fuel - 1;
            },
        }
    }
    false
}

/// Whether two strings are the same characters.
fn same_str(a: &str, b: &str) -> (r: bool)
    ensures
        r == (a@ == b@),
{
    proof {
        lemma_utf8_injective(a@, b@);
    }
    bytes_eq(a.as_bytes(), b.as_bytes())
}

/// What `link` leaves and returns.
pub open spec fn link_outcome(s: Seq<DirentV>, root: Seq<u8>, parent: Seq<u8>, name: Seq<char>, child: Seq<u8>, is_dir: bool, r: Result<()>, t: Seq<DirentV>) -> bool {
            match r {
                Ok(()) => valid_name(name) && is_dir_in(s, root, parent)
                    && child != root && !linked(s, child) && !has_key(
                    s,
                    parent,
                    name,
                ) && link_path_ok(s, root, parent, name) && exists|pos: int|
                    0 <= pos <= s.len() && t == s.insert(
                        pos,
                        new_entry(parent, name, child, is_dir),
                    ),
                Err(e) => t == s && if !valid_name(name) {
                    e is InvalidInput
                } else if !is_dir_in(s, root, parent) {
                    e is State
                } else if child == root || linked(s, child) {
                    e is State
                } else if has_key(s, parent, name) {
                    e is State
                } else {
                    e is InvalidInput && !link_path_ok(s, root, parent, name)
                },
            }
}

/// What `unlink` leaves and returns.
pub open spec fn unlink_outcome(s: Seq<DirentV>, root: Seq<u8>, parent: Seq<u8>, name: Seq<char>, r: Result<FileId>, t: Seq<DirentV>) -> bool {
            match r {
                Ok(c) => valid_name(name) && has_key(s, parent, name) && {
                    let k = key_index(s, parent, name);
                    &&& c@ == s[k].child
                    &&& !(s[k].is_dir && has_children(s, s[k].child))
                    &&& t == s.remove(k)
                },
                Err(e) => t == s && if !valid_name(name) {
                    e is InvalidInput
                } else {
                    e is State && (!has_key(s, parent, name) || {
                        let k = key_index(s, parent, name);
                        s[k].is_dir && has_children(s, s[k].child)
                    })
                },
            }
}

/// What `rename` leaves and returns.
pub open spec fn rename_outcome(s: Seq<DirentV>, root: Seq<u8>, src_parent: Seq<u8>, src_name: Seq<char>, dst_parent: Seq<u8>, dst_name: Seq<char>, r: Result<()>, t: Seq<DirentV>) -> bool {
            match r {
                Ok(()) => valid_name(src_name) && valid_name(dst_name) && is_dir_in(
                    s,
                    root,
                    dst_parent,
                ) && has_key(s, src_parent, src_name) && if src_parent == dst_parent
                    && src_name == dst_name {
                    t == s
                } else {
                    let k = key_index(s, src_parent, src_name);
                    &&& !has_key(s, dst_parent, dst_name)
                    &&& !(s[k].is_dir && descends(
                        s,
                        root,
                        dst_parent,
                        s[k].child,
                        s.len() as nat,
                    ))
                    &&& exists|pos: int|
                        0 <= pos < s.len() && t == renamed(
                            s,
                            k,
                            pos,
                            moved(s[k], dst_parent, dst_name),
                        )
                    &&& graph_ok(t, root)
                },
                Err(e) => t == s && if !valid_name(src_name) || !valid_name(
                    dst_name,
                ) {
                    e is InvalidInput
                } else if !is_dir_in(s, root, dst_parent) {
                    e is State
                } else if src_parent == dst_parent && src_name == dst_name {
                    e is State && !has_key(s, src_parent, src_name)
                } else if has_key(s, dst_parent, dst_name) {
                    e is State
                } else if !has_key(s, src_parent, src_name) {
                    e is State
                } else {
                    let k = key_index(s, src_parent, src_name);
                    if s[k].is_dir && descends(
                        s,
                        root,
                        dst_parent,
                        s[k].child,
                        s.len() as nat,
                    ) {
                        e is State
                    } else {
                        e is InvalidInput && exists|pos: int|
                            canonical(
                                #[trigger] renamed(
                                    s,
                                    k,
                                    pos,
                                    moved(s[k], dst_parent, dst_name),
                                ),
                            ) && !graph_ok(
                                renamed(
                                    s,
                                    k,
                                    pos,
                                    moved(s[k], dst_parent, dst_name),
                                ),
                                root,
                            )
                    }
                },
            }
}

/// What `remove_id` leaves and returns.
pub open spec fn remove_outcome(s: Seq<DirentV>, root: Seq<u8>, f: Seq<u8>, r: Result<()>, t: Seq<DirentV>) -> bool {
            &&& f == root ==> (r matches Err(e) && e is InvalidInput && t
                == s)
            &&& f != root ==> match find_child(s, f, 0) {
                None => r is Ok && t == s,
                Some(k) => {
                    let e = s[k];
                    if valid_name(e.name) && !(e.is_dir && has_children(s, e.child)) {
                        r is Ok && t == s.remove(k)
                    } else {
                        r is Err && t == s
                    }
                },
            }
}

// ---------------------------------------------------------------------------
// The tree
// ---------------------------------------------------------------------------

pub struct DirectoryTree {
    expected_root: FileId,
    entries: Vec<Dirent>,
}

impl View for DirectoryTree {
    type V = Seq<DirentV>;

    closed spec fn view(&self) -> Seq<DirentV> {
        dirent_views(self.entries@)
    }
}

impl DirectoryTree {
    /// The vault root this tree belongs to.
    pub closed spec fn root(&self) -> Seq<u8> {
        self.expected_root@
    }

    /// The entries are in canonical order and form a valid stored list, so
    /// the tree reopens from its own entries.
    pub open spec fn wf(&self) -> bool {
        canonical(self@) && dirents_ok(self.root(), self@)
    }

    proof fn lemma_view(&self)
        ensures
            self@.len() == self.entries@.len(),
            forall|i: int| 0 <= i < self@.len() ==> #[trigger] self@[i] == self.entries@[i]@,
    {
    }

    /// A tree holding only the root entry.
    pub fn new(expected_root: FileId) -> (r: Self)
        ensures
            r.wf(),
            r.root() == expected_root@,
            r@ == seq![root_entry(expected_root@)],
    {
        let root = Dirent {
            parent: expected_root,
            name: String::new(),
            child: expected_root,
            is_dir: true,
        };
        let mut entries: Vec<Dirent> = Vec::new();
        entries.push(root);
        let r = DirectoryTree { expected_root, entries };
        assert(r@ =~= seq![root_entry(expected_root@)]);
        proof {
            crate::store::tree_laws::law_new_tree_reopens(expected_root@);
        }
        r
    }

    /// The root's identity.
    pub fn expected_root(&self) -> (r: FileId)
        ensures
            r@ == self.root(),
    {
        self.expected_root
    }

    /// Every entry, in canonical order.
    pub fn dirents(&self) -> (r: Vec<Dirent>)
        ensures
            dirent_views(r@) == self@,
    {
        let mut out: Vec<Dirent> = Vec::new();
        let mut i: usize = 0;
        while i < self.entries.len()
            invariant
                i <= self.entries@.len(),
                out@.len() == i,
                forall|j: int| 0 <= j < i ==> (#[trigger] out@[j])@ == self.entries@[j]@,
            decreases self.entries@.len() - i,
        {
            let d = self.entries[i].duplicate();
            out.push(d);
            i = i + 1;
        }
        assert(dirent_views(out@) =~= self@);
        out
    }

    /// An independent copy of the tree.
    pub fn duplicate(&self) -> (r: Self)
        ensures
            r@ == self@,
            r.root() == self.root(),
    {
        DirectoryTree { expected_root: self.expected_root, entries: self.dirents() }
    }

    pub fn is_linked_file(&self, file_id: &FileId) -> (r: bool)
        ensures
            r == is_linked_file_in(self@, file_id@),
    {
        let mut i: usize = 0;
        while i < self.entries.len()
            invariant
                i <= self.entries@.len(),
                forall|j: int|
                    0 <= j < i ==> !((#[trigger] self@[j]).child == file_id@ && !self@[j].is_dir),
            decreases self.entries@.len() - i,
        {
            proof {
                self.lemma_view();
            }
            if bytes32_eq(&self.entries[i].child.0, &file_id.0) && !self.entries[i].is_dir {
                assert(self@[i as int].child == file_id@ && !self@[i as int].is_dir);
                return true;
            }
            i = i + 1;
        }
        false
    }

    pub fn is_dir(&self, file_id: &FileId) -> (r: bool)
        ensures
            r == is_dir_in(self@, self.root(), file_id@),
    {
        if bytes32_eq(&file_id.0, &self.expected_root.0) {
            return true;
        }
        let mut i: usize = 0;
        while i < self.entries.len()
            invariant
                i <= self.entries@.len(),
                forall|j: int|
                    0 <= j < i ==> !((#[trigger] self@[j]).child == file_id@ && self@[j].is_dir),
            decreases self.entries@.len() - i,
        {
            proof {
                self.lemma_view();
            }
            if bytes32_eq(&self.entries[i].child.0, &file_id.0) && self.entries[i].is_dir {
                assert(self@[i as int].child == file_id@ && self@[i as int].is_dir);
                return true;
            }
            i = i + 1;
        }
        false
    }

    /// The position of the entry `(parent, name)`, if any.
    fn find_key(&self, parent: &FileId, name: &str) -> (r: Option<usize>)
        requires
            self.wf(),
        ensures
            match r {
                Some(i) => has_key(self@, parent@, name@) && i == key_index(
                    self@,
                    parent@,
                    name@,
                ) && i < self@.len(),
                None => !has_key(self@, parent@, name@),
            },
    {
        let mut i: usize = 0;
        while i < self.entries.len()
            invariant
                self.wf(),
                i <= self.entries@.len(),
                forall|j: int|
                    0 <= j < i ==> !((#[trigger] self@[j]).parent == parent@ && self@[j].name
                        == name@),
            decreases self.entries@.len() - i,
        {
            proof {
                self.lemma_view();
            }
            if bytes32_eq(&self.entries[i].parent.0, &parent.0) && name_is(&self.entries[i], name) {
                proof {
                    assert(self@[i as int].parent == parent@ && self@[i as int].name == name@);
                    let k = key_index(self@, parent@, name@);
                    lemma_key_unique(self@, i as int, k);
                }
                return Some(i);
            }
            i = i + 1;
        }
        None
    }

    /// The identity at `path`.
    pub fn resolve(&self, path: &str) -> (r: Result<FileId>)
        requires
            self.wf(),
        ensures
            match r {
                Ok(f) => path_parts(path@) is Some && resolve_from(
                    self@,
                    self.root(),
                    path_parts(path@).unwrap(),
                ) == Some(f@),
                Err(e) => (path_parts(path@) is None && e is InvalidInput) || (path_parts(
                    path@,
                ) is Some && resolve_from(self@, self.root(), path_parts(path@).unwrap()) is None
                    && e is State),
            },
    {
        let components = path_components(path)?;
        let ghost parts = str_views(components@);
        let mut current = self.expected_root;
        let mut i: usize = 0;
        assert(parts.skip(0) =~= parts);
        while i < components.len()
            invariant
                self.wf(),
                i <= components@.len(),
                parts == str_views(components@),
                path_parts(path@) == Some(parts),
                resolve_from(self@, self.root(), parts) == resolve_from(
                    self@,
                    current@,
                    parts.skip(i as int),
                ),
            decreases components@.len() - i,
        {
            let ghost rest = parts.skip(i as int);
            assert(rest[0] == components@[i as int]@);
            assert(rest.drop_first() =~= parts.skip(i + 1));
            match self.find_key(&current, components[i]) {
                Some(k) => {
                    proof {
                        self.lemma_view();
                    }
                    current = self.entries[k].child;
                },
                None => {
                    return Err(Error::State("path does not exist"));
                },
            }
            i = i + 1;
        }
        assert(parts.skip(components@.len() as int) =~= Seq::<Seq<char>>::empty());
        Ok(current)
    }

    /// The directory that would hold the last component of `path`, and that
    /// component.
    pub fn resolve_parent(&self, path: &str) -> (r: Result<(FileId, String)>)
        requires
            self.wf(),
        ensures
            match r {
                Ok((parent, name)) => path_parts(path@) matches Some(cs) && cs.len() > 0
                    && resolve_dirs(self@, self.root(), cs.drop_last()) == Some(parent@) && name@
                    == cs.last(),
                Err(e) => (path_parts(path@) is None && e is InvalidInput) || (path_parts(
                    path@,
                ) matches Some(cs) && ((cs.len() == 0 && e is InvalidInput) || (cs.len() > 0
                    && resolve_dirs(self@, self.root(), cs.drop_last()) is None && e is State))),
            },
    {
        let components = path_components(path)?;
        let ghost parts = str_views(components@);
        if components.len() == 0 {
            return Err(Error::InvalidInput("root has no parent"));
        }
        let last = components.len() - 1;
        let ghost dirs = parts.drop_last();
        let mut parent = self.expected_root;
        let mut i: usize = 0;
        assert(dirs.skip(0) =~= dirs);
        while i < last
            invariant
                self.wf(),
                last == components@.len() - 1,
                i <= last,
                parts == str_views(components@),
                path_parts(path@) == Some(parts),
                dirs == parts.drop_last(),
                resolve_dirs(self@, self.root(), dirs) == resolve_dirs(
                    self@,
                    parent@,
                    dirs.skip(i as int),
                ),
            decreases last - i,
        {
            let ghost rest = dirs.skip(i as int);
            assert(rest[0] == components@[i as int]@);
            assert(rest.drop_first() =~= dirs.skip(i + 1));
            match self.find_key(&parent, components[i]) {
                Some(k) => {
                    proof {
                        self.lemma_view();
                    }
                    if !self.entries[k].is_dir {
                        return Err(Error::State("path parent is not a directory"));
                    }
                    parent = self.entries[k].child;
                },
                None => {
                    return Err(Error::State("parent path does not exist"));
                },
            }
            i = i + 1;
        }
        assert(dirs.skip(last as int) =~= Seq::<Seq<char>>::empty());
        let name = components[last].to_owned();
        assert(name@ == parts.last());
        Ok((parent, name))
    }

    /// A tree from stored entries. An empty list is the snapshot written
    /// before the tree existed and gives the root alone.
    pub fn from_dirents(expected_root: FileId, dirents: Vec<Dirent>) -> (r: Result<Self>)
        ensures
            match r {
                Ok(t) => t.wf() && t.root() == expected_root@ && if dirents@.len() == 0 {
                    t@ == seq![root_entry(expected_root@)]
                } else {
                    t@ == dirent_views(dirents@) && dirents_ok(expected_root@, t@)
                },
                Err(e) => e is InvalidInput && dirents@.len() > 0 && !dirents_ok(
                    expected_root@,
                    dirent_views(dirents@),
                ),
            },
    {
        if dirents.len() == 0 {
            return Ok(Self::new(expected_root));
        }
        let ghost s = dirent_views(dirents@);
        let ghost root = expected_root@;
        let mut has_root = false;
        let mut i: usize = 0;
        while i < dirents.len()
            invariant
                i <= dirents@.len(),
                s == dirent_views(dirents@),
                root == expected_root@,
                forall|j: int, k: int| 0 <= j < k < i ==> key_lt(#[trigger] s[j], #[trigger] s[k]),
                forall|j: int|
                    0 <= j < i && (#[trigger] s[j]).name.len() == 0 ==> s[j] == root_entry(root),
                forall|j: int|
                    0 <= j < i && (#[trigger] s[j]).name.len() > 0 ==> valid_name(s[j].name)
                        && s[j].child != root,
                has_root <==> exists|j: int| 0 <= j < i && (#[trigger] s[j]).name.len() == 0,
            decreases dirents@.len() - i,
        {
            let ghost si = s[i as int];
            assert(si == dirents@[i as int]@);
            if i > 0 && !dirent_key_lt(&dirents[i - 1], &dirents[i]) {
                assert(!key_lt(s[i - 1], s[i as int]));
                return Err(Error::InvalidInput("dirents are not canonically ordered"));
            }
            proof {
                if i > 0 {
                    assert forall|j: int| 0 <= j < i implies key_lt(#[trigger] s[j], si) by {
                        if j < i - 1 {
                            lemma_key_lt_transitive(s[j], s[i - 1], si);
                        }
                    }
                }
                crate::text::lemma_utf8_empty(si.name);
            }
            let entry = &dirents[i];
            if string_bytes(&entry.name).len() == 0 {
                if !bytes32_eq(&entry.parent.0, &expected_root.0) || !bytes32_eq(
                    &entry.child.0,
                    &expected_root.0,
                ) || !entry.is_dir {
                    return Err(Error::InvalidInput("invalid root dirent"));
                }
                assert(si.name =~= Seq::<char>::empty());
                has_root = true;
            } else {
                validate_name(entry.name.as_str())?;
                if bytes32_eq(&entry.child.0, &expected_root.0) {
                    return Err(Error::InvalidInput("file id has multiple directory links"));
                }
            }
            i = i + 1;
        }
        if !distinct_children(&dirents) {
            return Err(Error::InvalidInput("file id has multiple directory links"));
        }
        if !has_root {
            return Err(Error::InvalidInput("missing root dirent"));
        }
        proof {
            let j = choose|j: int| 0 <= j < s.len() && (#[trigger] s[j]).name.len() == 0;
            assert(s[j] == root_entry(root));
        }
        let tree = DirectoryTree { expected_root, entries: dirents };
        validate_graph_among(&tree.entries, &tree.expected_root)?;
        Ok(tree)
    }

    /// The byte length of the path of `child`.
    pub fn path_len(&self, child: FileId) -> (r: Result<usize>)
        ensures
            match r {
                Ok(n) => path_length(self@, self.root(), child@) == Some(n as int) && n
                    <= MAX_PATH_BYTES,
                Err(e) => e is InvalidInput && match path_length(self@, self.root(), child@) {
                    Some(l) => l > MAX_PATH_BYTES,
                    None => true,
                },
            },
    {
        path_len_among(&self.entries, &self.expected_root, child)
    }

    /// Links `child` into directory `parent` under `name`.
    pub fn link(&mut self, parent: FileId, name: &str, child: FileId, is_dir: bool) -> (r: Result<()>)
        requires
            old(self).wf(),
        ensures
            final(self).wf(),
            final(self).root() == old(self).root(),
            link_outcome(old(self)@, old(self).root(), parent@, name@, child@, is_dir, r, final(self)@),
    {
        let ghost s = self@;
        validate_name(name)?;
        if !self.is_dir(&parent) {
            return Err(Error::State("link parent is not a directory"));
        }
        if bytes32_eq(&child.0, &self.expected_root.0) || linked_among(&self.entries, &child) {
            return Err(Error::State("file id is already linked"));
        }
        if self.find_key(&parent, name).is_some() {
            return Err(Error::State("directory name already exists"));
        }
        let parent_len = self.path_len(parent)?;
        let separator: usize = if bytes32_eq(&parent.0, &self.expected_root.0) {
            0
        } else {
            1
        };
        let name_len = name.as_bytes().len();
        if name_len > MAX_PATH_BYTES || parent_len + separator > MAX_PATH_BYTES - name_len {
            return Err(Error::InvalidInput("path exceeds 4096 bytes"));
        }
        let entry = Dirent { parent, name: name.to_owned(), child, is_dir };
        let pos = insertion_point(&self.entries, &entry);
        proof {
            lemma_insert_canonical(s, pos as int, entry@);
        }
        self.entries.insert(pos, entry);
        assert(self@ =~= s.insert(pos as int, new_entry(parent@, name@, child@, is_dir)));
        proof {
            crate::store::tree_laws::law_link_keeps_entries_valid(
                s,
                self.root(),
                parent@,
                name@,
                child@,
                is_dir,
                self@,
            );
        }
        Ok(())
    }

    /// Removes the entry `(parent, name)` and returns the identity it linked.
    /// A directory must be empty.
    pub fn unlink(&mut self, parent: FileId, name: &str) -> (r: Result<FileId>)
        requires
            old(self).wf(),
        ensures
            final(self).wf(),
            final(self).root() == old(self).root(),
            unlink_outcome(old(self)@, old(self).root(), parent@, name@, r, final(self)@),
    {
        let ghost s = self@;
        validate_name(name)?;
        let k = match self.find_key(&parent, name) {
            Some(k) => k,
            None => {
                return Err(Error::State("directory entry does not exist"));
            },
        };
        proof {
            self.lemma_view();
        }
        if self.entries[k].is_dir && has_children_among(&self.entries, &self.entries[k].child) {
            return Err(Error::State("directory is not empty"));
        }
        let child = self.entries[k].child;
        proof {
            lemma_remove_canonical(s, k as int);
        }
        self.entries.remove(k);
        assert(self@ =~= s.remove(k as int));
        proof {
            crate::store::tree_laws::law_unlink_keeps_entries_valid(s, self.root(), parent@, name@, child, self@);
        }
        Ok(child)
    }

    /// Whether walking up from `candidate` meets `ancestor` before the root.
    pub fn is_descendant(&self, candidate: FileId, ancestor: FileId) -> (r: bool)
        ensures
            r == descends(self@, self.root(), candidate@, ancestor@, self@.len() as nat),
    {
        descends_among(&self.entries, &self.expected_root, candidate, &ancestor)
    }

    /// Moves the entry `(src_parent, src_name)` to `(dst_parent, dst_name)`.
    /// The tree is changed only if the result is still a valid tree.
    pub fn rename(&mut self, src_parent: FileId, src_name: &str, dst_parent: FileId, dst_name: &str) -> (r: Result<()>)
        requires
            old(self).wf(),
        ensures
            final(self).wf(),
            final(self).root() == old(self).root(),
            rename_outcome(old(self)@, old(self).root(), src_parent@, src_name@, dst_parent@, dst_name@, r, final(self)@),
    {
        let ghost s = self@;
        validate_name(src_name)?;
        validate_name(dst_name)?;
        if !self.is_dir(&dst_parent) {
            return Err(Error::State("rename destination is not a directory"));
        }
        if bytes32_eq(&src_parent.0, &dst_parent.0) && same_str(src_name, dst_name) {
            if self.find_key(&src_parent, src_name).is_some() {
                return Ok(());
            }
            return Err(Error::State("rename source does not exist"));
        }
        if self.find_key(&dst_parent, dst_name).is_some() {
            return Err(Error::State("rename destination already exists"));
        }
        let k = match self.find_key(&src_parent, src_name) {
            Some(k) => k,
            None => {
                return Err(Error::State("rename source does not exist"));
            },
        };
        proof {
            self.lemma_view();
        }
        if self.entries[k].is_dir && self.is_descendant(dst_parent, self.entries[k].child) {
            return Err(Error::State("cannot move a directory into its descendant"));
        }
        let mut staged = self.dirents();
        let ghost mv = moved(s[k as int], dst_parent@, dst_name@);
        proof {
            lemma_remove_canonical(s, k as int);
        }
        staged.remove(k);
        assert(dirent_views(staged@) =~= s.remove(k as int));
        let entry = Dirent {
            parent: dst_parent,
            name: dst_name.to_owned(),
            child: self.entries[k].child,
            is_dir: self.entries[k].is_dir,
        };
        assert(entry@ == mv);
        proof {
            if has_key(s.remove(k as int), dst_parent@, dst_name@) {
                let j = choose|j: int|
                    0 <= j < s.remove(k as int).len() && (#[trigger] s.remove(k as int)[j]).parent
                        == dst_parent@ && s.remove(k as int)[j].name == dst_name@;
                let j2 = if j < k { j } else { j + 1 };
                assert(s[j2] == s.remove(k as int)[j]);
            }
        }
        let pos = insertion_point(&staged, &entry);
        proof {
            lemma_insert_canonical(s.remove(k as int), pos as int, mv);
        }
        staged.insert(pos, entry);
        assert(dirent_views(staged@) =~= renamed(s, k as int, pos as int, mv));
        validate_graph_among(&staged, &self.expected_root)?;
        self.entries = staged;
        proof {
            crate::store::tree_laws::law_rename_keeps_entries_valid(
                s,
                self.root(),
                src_parent@,
                src_name@,
                dst_parent@,
                dst_name@,
                self@,
            );
        }
        Ok(())
    }

    /// Unlinks whatever entry links `file_id`, if any.
    pub fn remove_id(&mut self, file_id: &FileId) -> (r: Result<()>)
        requires
            old(self).wf(),
        ensures
            final(self).wf(),
            final(self).root() == old(self).root(),
            remove_outcome(old(self)@, old(self).root(), file_id@, r, final(self)@),
    {
        if bytes32_eq(&file_id.0, &self.expected_root.0) {
            return Err(Error::InvalidInput("cannot remove the vault root"));
        }
        let k = match find_child_index(&self.entries, file_id) {
            None => {
                return Ok(());
            },
            Some(k) => k,
        };
        proof {
            self.lemma_view();
        }
        let parent = self.entries[k].parent;
        let name = self.entries[k].name.clone();
        proof {
            assert(has_key(self@, parent@, name@)) by {
                assert(self@[k as int].parent == parent@ && self@[k as int].name == name@);
            }
            lemma_key_unique(self@, k as int, key_index(self@, parent@, name@));
        }
        self.unlink(parent, name.as_str())?;
        Ok(())
    }
}

fn linked_among(entries: &Vec<Dirent>, f: &FileId) -> (r: bool)
    ensures
        r == linked(dirent_views(entries@), f@),
{
    let ghost s = dirent_views(entries@);
    let mut i: usize = 0;
    while i < entries.len()
        invariant
            i <= entries@.len(),
            s == dirent_views(entries@),
            forall|j: int| 0 <= j < i ==> (#[trigger] s[j]).child != f@,
        decreases entries@.len() - i,
    {
        assert(s[i as int] == entries@[i as int]@);
        if bytes32_eq(&entries[i].child.0, &f.0) {
            return true;
        }
        i = i + 1;
    }
    false
}

fn has_children_among(entries: &Vec<Dirent>, f: &FileId) -> (r: bool)
    ensures
        r == has_children(dirent_views(entries@), f@),
{
    let ghost s = dirent_views(entries@);
    let mut i: usize = 0;
    while i < entries.len()
        invariant
            i <= entries@.len(),
            s == dirent_views(entries@),
            forall|j: int| 0 <= j < i ==> (#[trigger] s[j]).parent != f@,
        decreases entries@.len() - i,
    {
        assert(s[i as int] == entries@[i as int]@);
        if bytes32_eq(&entries[i].parent.0, &f.0) {
            return true;
        }
        i = i + 1;
    }
    false
}

} // verus!
