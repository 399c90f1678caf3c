//! The pieces of the admin line protocol that decide: token comparison,
//! command classes, identifier text and reply sanitising.

use vstd::prelude::*;

use crate::error::{Error, Result};
use crate::ids::PeerId;
use crate::net::VaultId;
use crate::text::{push_char, to_chars, utf8_bytes, white_space, is_white_space};

verus! {

/// Compares every shared byte with no early exit, then the lengths, so a
/// wrong token never reveals how long its correct prefix was.
pub fn constant_time_eq(left: &[u8], right: &[u8]) -> (r: bool)
    ensures
        r == (left@ == right@),
{
    let mut diff: u8 = 0;
    let n = if left.len() < right.len() {
        left.len()
    } else {
        right.len()
    };
    let mut i: usize = 0;
    while i < n
        invariant
            n <= left@.len(),
            n <= right@.len(),
            i <= n,
            (diff == 0) == (forall|j: int| 0 <= j < i ==> left@[j] == right@[j]),
        decreases n - i,
    {
        let a = left[i];
        let b = right[i];
        let d = diff;
        let next = d | (a ^ b);
        assert((next == 0) == (d == 0 && a == b)) by (bit_vector)
            requires
                next == d | (a ^ b),
        ;
        diff = next;
        i = i + 1;
    }
    let same_len = left.len() == right.len();
    let no_difference = diff == 0;
    let equal = same_len && no_difference;
    proof {
        if left@.len() == right@.len() && diff == 0 {
            assert(left@ =~= right@);
        }
    }
    equal
}

/// Whether two character sequences are equal.
fn chars_eq(a: &Vec<char>, b: &[char]) -> (r: bool)
    ensures
        r == (a@ == b@),
{
    if a.len() != b.len() {
        return false;
    }
    let mut i: usize = 0;
    while i < a.len()
        invariant
            i <= a@.len(),
            a@.len() == b@.len(),
            forall|j: int| 0 <= j < i ==> a@[j] == b@[j],
        decreases a@.len() - i,
    {
        if a[i] != b[i] {
            return false;
        }
        i = i + 1;
    }
    assert(a@ =~= b@);
    true
}

/// Commands that answer before, and without, authentication.
pub open spec fn read_only_command(c: Seq<char>) -> bool {
    c == seq!['P', 'I', 'N', 'G'] || c == seq!['S', 'T', 'A', 'T', 'U', 'S'] || c == seq![
        'O',
        'P',
        'S',
    ]
}

/// Read-only commands answer before, and without, AUTH. Everything that
/// changes admission or storage still needs the token.
pub fn is_read_only(command: &str) -> (r: bool)
    ensures
        r == read_only_command(command@),
{
    let chars = to_chars(command);
    let ping: [char; 4] = ['P', 'I', 'N', 'G'];
    let status: [char; 6] = ['S', 'T', 'A', 'T', 'U', 'S'];
    let ops: [char; 3] = ['O', 'P', 'S'];
    assert(ping@ =~= seq!['P', 'I', 'N', 'G']);
    assert(status@ =~= seq!['S', 'T', 'A', 'T', 'U', 'S']);
    assert(ops@ =~= seq!['O', 'P', 'S']);
    chars_eq(&chars, &ping) || chars_eq(&chars, &status) || chars_eq(&chars, &ops)
}

/// Line breaks become spaces, so one reply stays one protocol line.
pub open spec fn one_line_char(c: char) -> char {
    if c == '\n' || c == '\r' {
        ' '
    } else {
        c
    }
}

pub fn one_line(text: &str) -> (r: String)
    ensures
        r@ == text@.map_values(|c: char| one_line_char(c)),
{
    let chars = to_chars(text);
    let mut out = String::new();
    let mut i: usize = 0;
    while i < chars.len()
        invariant
            i <= chars@.len(),
            chars@ == text@,
            out@ == text@.take(i as int).map_values(|c: char| one_line_char(c)),
        decreases chars@.len() - i,
    {
        let c = chars[i];
        push_char(&mut out, if c == '\n' || c == '\r' { ' ' } else { c });
        i = i + 1;
        assert(out@ =~= text@.take(i as int).map_values(|c: char| one_line_char(c)));
    }
    assert(text@.take(chars@.len() as int) =~= text@);
    out
}

// ---------------------------------------------------------------------------
// Lower-case hexadecimal identifiers
// ---------------------------------------------------------------------------

pub open spec fn hex_alphabet() -> Seq<char> {
    seq!['0', '1', '2', '3', '4', '5', '6', '7', '8', '9', 'a', 'b', 'c', 'd', 'e', 'f']
}

/// Two lower-case digits per byte, high nibble first.
pub open spec fn hex_text(b: Seq<u8>) -> Seq<char> {
    Seq::new(
        2 * b.len(),
        |i: int|
            hex_alphabet()[if i % 2 == 0 {
                (b[i / 2] / 16) as int
            } else {
                (b[i / 2] % 16) as int
            }],
    )
}

pub open spec fn hex_value(c: u8) -> Option<u8> {
    if 48 <= c <= 57 {
        Some((c - 48) as u8)
    } else if 97 <= c <= 102 {
        Some((c - 87) as u8)
    } else {
        None
    }
}

/// 64 lower-case hexadecimal digits.
pub open spec fn hex32_text(t: Seq<u8>) -> bool {
    t.len() == 64 && forall|j: int| 0 <= j < 64 ==> hex_value(#[trigger] t[j]) is Some
}

pub open spec fn hex32_value(t: Seq<u8>) -> Seq<u8> {
    Seq::new(32, |i: int| (hex_value(t[2 * i]).unwrap() * 16 + hex_value(t[2 * i + 1]).unwrap()) as u8)
}

pub fn hex_char(n: u8) -> (c: char)
    requires
        n < 16,
    ensures
        c == hex_alphabet()[n as int],
{
    let digits: [char; 16] = ['0', '1', '2', '3', '4', '5', '6', '7', '8', '9', 'a', 'b', 'c', 'd', 'e', 'f'];
    assert(digits@ =~= hex_alphabet());
    digits[n as usize]
}

/// Appends the two digits of `b`.
pub fn push_hex_byte(out: &mut String, b: u8)
    ensures
        final(out)@ == old(out)@ + seq![hex_alphabet()[(b / 16) as int], hex_alphabet()[(b % 16) as int]],
{
    let hi = b >> 4;
    let lo = b & 15;
    assert(hi == b / 16 && lo == b % 16) by (bit_vector)
        requires
            hi == b >> 4,
            lo == b & 15,
    ;
    push_char(out, hex_char(hi));
    push_char(out, hex_char(lo));
}

/// The 64 lower-case hexadecimal digits of an identifier.
pub fn hex(bytes: &[u8; 32]) -> (r: String)
    ensures
        r@ == hex_text(bytes@),
{
    let mut out = String::new();
    let mut i: usize = 0;
    while i < 32
        invariant
            i <= 32,
            out@ == hex_text(bytes@.take(i as int)),
        decreases 32 - i,
    {
        push_hex_byte(&mut out, bytes[i]);
        i = i + 1;
        assert(out@ =~= hex_text(bytes@.take(i as int)));
    }
    assert(bytes@.take(32) =~= bytes@);
    out
}

/// The first twelve digits, for display.
pub fn short(bytes: &[u8; 32]) -> (r: String)
    ensures
        r@ == hex_text(bytes@).take(12),
{
    let mut out = String::new();
    let mut i: usize = 0;
    while i < 6
        invariant
            i <= 6,
            out@ == hex_text(bytes@.take(i as int)),
        decreases 6 - i,
    {
        push_hex_byte(&mut out, bytes[i]);
        i = i + 1;
        assert(out@ =~= hex_text(bytes@.take(i as int)));
    }
    assert(out@ =~= hex_text(bytes@).take(12));
    out
}

pub fn hex_digit(byte: u8) -> (r: Result<u8>)
    ensures
        match r {
            Ok(v) => hex_value(byte) == Some(v),
            Err(e) => e is InvalidInput && hex_value(byte) is None,
        },
{
    if 48 <= byte && byte <= 57 {
        Ok(byte - 48)
    } else if 97 <= byte && byte <= 102 {
        Ok(byte - 87)
    } else {
        Err(Error::InvalidInput("identifier must be lowercase hex"))
    }
}

/// Parses 64 lower-case hexadecimal digits.
pub fn parse_hex32(value: &str) -> (r: Result<[u8; 32]>)
    ensures
        match r {
            Ok(b) => hex32_text(utf8_bytes(value@)) && b@ == hex32_value(utf8_bytes(value@)),
            Err(e) => e is InvalidInput && !hex32_text(utf8_bytes(value@)),
        },
{
    let text = value.as_bytes();
    assert(text@ == utf8_bytes(value@));
    if text.len() != 64 {
        return Err(Error::InvalidInput("identifier must be 64 hex characters"));
    }
    let mut bytes = [0u8; 32];
    let mut i: usize = 0;
    while i < 32
        invariant
            i <= 32,
            text@.len() == 64,
            text@ == utf8_bytes(value@),
            forall|j: int| 0 <= j < 2 * i ==> hex_value(#[trigger] text@[j]) is Some,
            forall|j: int| 0 <= j < i ==> bytes@[j] == hex32_value(text@)[j],
        decreases 32 - i,
    {
        let hi = match hex_digit(text[2 * i]) {
            Ok(v) => v,
            Err(e) => {
                return Err(e);
            },
        };
        let lo = match hex_digit(text[2 * i + 1]) {
            Ok(v) => v,
            Err(e) => {
                return Err(e);
            },
        };
        let v = (hi << 4) | lo;
        assert(v == hi * 16 + lo) by (bit_vector)
            requires
                hi < 16,
                lo < 16,
                v == (hi << 4) | lo,
        ;
        bytes[i] = v;
        proof {
            assert forall|j: int| 0 <= j < 2 * (i + 1) implies hex_value(#[trigger] text@[j]) is Some by {
                if j == 2 * i {
                } else if j == 2 * i + 1 {
                }
            }
        }
        i = i + 1;
    }
    assert(bytes@ =~= hex32_value(text@));
    Ok(bytes)
}

pub fn parse_vault(value: &str) -> (r: Result<VaultId>)
    ensures
        match r {
            Ok(id) => hex32_text(utf8_bytes(value@)) && id@ == hex32_value(utf8_bytes(value@)),
            Err(e) => e is InvalidInput && !hex32_text(utf8_bytes(value@)),
        },
{
    Ok(VaultId(parse_hex32(value)?))
}

pub fn parse_peer(value: &str) -> (r: Result<PeerId>)
    ensures
        match r {
            Ok(id) => hex32_text(utf8_bytes(value@)) && id@ == hex32_value(utf8_bytes(value@)),
            Err(e) => e is InvalidInput && !hex32_text(utf8_bytes(value@)),
        },
{
    Ok(PeerId(parse_hex32(value)?))
}

/// Hex text parses back to the bytes it was made from.
pub proof fn law_hex_round_trip(b: Seq<u8>)
    requires
        b.len() == 32,
    ensures
        hex32_text(utf8_bytes(hex_text(b))),
        hex32_value(utf8_bytes(hex_text(b))) == b,
{
    let t = hex_text(b);
    assert(vstd::utf8::is_ascii_chars(t)) by {
        assert forall|i: int| 0 <= i < t.len() implies '\0' <= #[trigger] t[i] <= '\u{7f}' by {
            let n: int = if i % 2 == 0 { (b[i / 2] / 16) as int } else { (b[i / 2] % 16) as int };
            assert(0 <= n < 16);
        }
    }
    vstd::utf8::is_ascii_chars_encode_utf8(t);
    let u = utf8_bytes(t);
    assert forall|j: int| 0 <= j < 64 implies hex_value(#[trigger] u[j]) is Some
        && hex_value(u[j]).unwrap() == (if j % 2 == 0 { b[j / 2] / 16 } else { b[j / 2] % 16 }) by {
        assert(u[j] == t[j] as u8);
    }
    assert forall|i: int| 0 <= i < 32 implies #[trigger] hex32_value(u)[i] == b[i] by {
        assert(hex_value(u[2 * i]).unwrap() == b[i] / 16);
        assert(hex_value(u[2 * i + 1]).unwrap() == b[i] % 16);
    }
    assert(hex32_value(u) =~= b);
}

// ---------------------------------------------------------------------------
// Request lines
// ---------------------------------------------------------------------------

/// The words of `text` after the word `cur` has been begun: the maximal
/// runs of characters that are not White_Space.
pub open spec fn words_from(text: Seq<char>, cur: Seq<char>) -> Seq<Seq<char>>
    decreases text.len(),
{
    let done = if cur.len() > 0 { seq![cur] } else { Seq::<Seq<char>>::empty() };
    if text.len() == 0 {
        done
    } else if white_space(text[0]) {
        done + words_from(text.drop_first(), Seq::empty())
    } else {
        words_from(text.drop_first(), cur.push(text[0]))
    }
}

/// The words of `text`, as `str::split_whitespace` yields them.
pub open spec fn whitespace_words(text: Seq<char>) -> Seq<Seq<char>> {
    words_from(text, Seq::empty())
}

/// Whether every character of `s` is an ASCII digit.
pub open spec fn all_digits(s: Seq<char>) -> bool {
    forall|i: int| 0 <= i < s.len() ==> '0' <= #[trigger] s[i] <= '9'
}

/// The number the ASCII digits `s` write in decimal.
pub open spec fn digits_value(s: Seq<char>) -> nat
    decreases s.len(),
{
    if s.len() == 0 {
        0
    } else {
        digits_value(s.drop_last()) * 10 + ((s.last() as int - '0' as int) as nat)
    }
}

/// The value of a decimal `u64` as `str::parse::<u64>` reads it: an
/// optional `+`, then one or more ASCII digits whose value fits in a `u64`.
pub open spec fn decimal_u64(text: Seq<char>) -> Option<u64> {
    let digits = if text.len() > 0 && text[0] == '+' {
        text.skip(1)
    } else {
        text
    };
    if digits.len() > 0 && all_digits(digits) && digits_value(digits) <= u64::MAX {
        Some(digits_value(digits) as u64)
    } else {
        None
    }
}

proof fn lemma_digits_grow(s: Seq<char>, i: int, j: int)
    requires
        0 <= i <= j <= s.len(),
        all_digits(s),
    ensures
        digits_value(s.take(i)) <= digits_value(s.take(j)),
    decreases j - i,
{
    if i < j {
        lemma_digits_grow(s, i, j - 1);
        assert(s.take(j).drop_last() =~= s.take(j - 1));
        let v = digits_value(s.take(j - 1));
        let d = (s[j - 1] as int - '0' as int) as nat;
        assert(v <= v * 10 + d) by (nonlinear_arith);
    }
}

/// The words of `text`, each owned, as `str::split_whitespace` yields them.
fn split_words(text: &str) -> (r: Vec<String>)
    ensures
        r@.len() == whitespace_words(text@).len(),
        forall|i: int| 0 <= i < r@.len() ==> (#[trigger] r@[i])@ == whitespace_words(text@)[i],
{
    let cs = to_chars(text);
    let mut words: Vec<String> = Vec::new();
    let mut cur = String::new();
    let mut i: usize = 0;
    assert(cs@.skip(0) =~= cs@);
    while i < cs.len()
        invariant
            cs@ == text@,
            i <= cs@.len(),
            words@.map_values(|w: String| w@) + words_from(cs@.skip(i as int), cur@) == whitespace_words(text@),
        decreases cs@.len() - i,
    {
        let c = cs[i];
        let ghost before = words@.map_values(|w: String| w@);
        let ghost rest = cs@.skip(i as int);
        proof {
            assert(rest[0] == c);
            assert(rest.drop_first() =~= cs@.skip(i + 1));
        }
        if is_white_space(c) {
            if cur.unicode_len() > 0 {
                let word = cur;
                cur = String::new();
                words.push(word);
                proof {
                    assert(words@.map_values(|w: String| w@) =~= before.push(word@));
                    assert(before.push(word@) + words_from(cs@.skip(i + 1), Seq::empty()) =~= before + (seq![word@]
                        + words_from(cs@.skip(i + 1), Seq::empty())));
                }
            } else {
                proof {
                    assert(Seq::<Seq<char>>::empty() + words_from(cs@.skip(i + 1), Seq::empty()) =~= words_from(
                        cs@.skip(i + 1),
                        Seq::empty(),
                    ));
                }
                cur = String::new();
            }
        } else {
            push_char(&mut cur, c);
        }
        i = i + 1;
    }
    if cur.unicode_len() > 0 {
        let ghost before = words@.map_values(|w: String| w@);
        let word = cur;
        words.push(word);
        proof {
            assert(words@.map_values(|w: String| w@) =~= before.push(word@));
            assert(cs@.skip(cs@.len() as int) =~= Seq::<char>::empty());
        }
    } else {
        proof {
            assert(cs@.skip(cs@.len() as int) =~= Seq::<char>::empty());
        }
    }
    proof {
        let m = words@.map_values(|w: String| w@);
        assert(m =~= whitespace_words(text@));
        assert forall|i: int| 0 <= i < words@.len() implies (#[trigger] words@[i])@ == whitespace_words(text@)[i] by {
            assert(m[i] == words@[i]@);
        }
    }
    words
}

/// The decimal value of `text`, read as `str::parse::<u64>` reads it.
fn parse_u64(text: &str) -> (r: Option<u64>)
    ensures
        r == decimal_u64(text@),
{
    let cs = to_chars(text);
    let start: usize = if cs.len() > 0 && cs[0] == '+' { 1 } else { 0 };
    let ghost digits = if text@.len() > 0 && text@[0] == '+' { text@.skip(1) } else { text@ };
    assert(cs@.skip(start as int) =~= digits);
    if start >= cs.len() {
        return None;
    }
    let mut value: u64 = 0;
    let mut i: usize = start;
    while i < cs.len()
        invariant
            start <= i <= cs@.len(),
            cs@ == text@,
            start < cs@.len(),
            digits == cs@.skip(start as int),
            digits == (if text@.len() > 0 && text@[0] == '+' { text@.skip(1) } else { text@ }),
            digits.len() > 0,
            all_digits(digits.take(i - start)),
            value as nat == digits_value(digits.take(i - start)),
        decreases cs@.len() - i,
    {
        let c = cs[i];
        let ghost n = i - start;
        proof {
            assert(digits.take(n + 1).drop_last() =~= digits.take(n as int));
            assert(digits[n as int] == c);
        }
        if !('0' <= c && c <= '9') {
            proof {
                assert(!all_digits(digits));
            }
            return None;
        }
        let d = (c as u32 - '0' as u32) as u64;
        let next = match value.checked_mul(10) {
            Some(v) => v.checked_add(d),
            None => None,
        };
        match next {
            Some(v) => {
                value = v;
            },
            None => {
                proof {
                    assert(digits_value(digits.take(n + 1)) == value * 10 + d);
                    if all_digits(digits) {
                        lemma_digits_grow(digits, n + 1, digits.len() as int);
                        assert(digits.take(digits.len() as int) =~= digits);
                    }
                }
                return None;
            },
        }
        i = i + 1;
        proof {
            assert(all_digits(digits.take(i - start))) by {
                assert forall|k: int| 0 <= k < digits.take(i - start).len() implies '0' <= #[trigger] digits.take(i - start)[k] <= '9' by {
                    if k < n {
                        assert(digits.take(i - start)[k] == digits.take(n as int)[k]);
                    }
                }
            }
        }
    }
    assert(digits.take(cs@.len() - start) =~= digits);
    Some(value)
}

/// A command the admin port carries out.
#[derive(Clone, Debug, PartialEq, Eq)]
pub enum AdminCommand {
    Ping,
    Status,
    /// Create a vault with a byte quota, for the member that asked, if any.
    CreateVault { quota: u64, creator: Option<PeerId> },
    Kick { vault: VaultId, peer: PeerId },
    RotateCode { vault: VaultId },
    ForgetVault { vault: VaultId },
    /// The operations recorded in a vault after record `since`.
    Ops { vault: VaultId, since: u64 },
}

/// What one line of the admin port asks for.
#[derive(Clone, Debug, PartialEq, Eq)]
pub enum AdminLine {
    /// An empty line: nothing to answer.
    Blank,
    /// An AUTH line, and whether its token is the right one.
    Auth { accepted: bool },
    /// A command that needs the token, on an unauthorised connection.
    Unauthorized,
    /// A command word the port does not know.
    Unknown,
    Command(AdminCommand),
}

/// "AUTH "
pub open spec fn auth_prefix() -> Seq<u8> {
    seq![65u8, 85, 84, 72, 32]
}

/// The peer a hex argument names, if it is one.
pub open spec fn hex_peer(text: Seq<char>) -> Option<Seq<u8>> {
    if hex32_text(utf8_bytes(text)) {
        Some(hex32_value(utf8_bytes(text)))
    } else {
        None
    }
}

fn word_eq(word: &String, text: &[char]) -> (r: bool)
    ensures
        r == (word@ == text@),
{
    let chars = to_chars(word.as_str());
    chars_eq(&chars, text)
}

fn argument(words: &Vec<String>, i: usize) -> (r: Result<&String>)
    ensures
        match r {
            Ok(w) => i < words@.len() && *w == words@[i as int],
            Err(e) => e is InvalidInput && i >= words@.len(),
        },
{
    if i < words.len() {
        Ok(&words[i])
    } else {
        Err(Error::InvalidInput("missing argument"))
    }
}

pub open spec fn create_vault_word() -> Seq<char> {
    seq!['C', 'R', 'E', 'A', 'T', 'E', '_', 'V', 'A', 'U', 'L', 'T']
}

pub open spec fn kick_word() -> Seq<char> {
    seq!['K', 'I', 'C', 'K']
}

pub open spec fn rotate_code_word() -> Seq<char> {
    seq!['R', 'O', 'T', 'A', 'T', 'E', '_', 'C', 'O', 'D', 'E']
}

pub open spec fn forget_vault_word() -> Seq<char> {
    seq!['F', 'O', 'R', 'G', 'E', 'T', '_', 'V', 'A', 'U', 'L', 'T']
}

/// The command word of a line: its first word, or nothing.
pub open spec fn command_word(w: Seq<Seq<char>>) -> Seq<char> {
    if w.len() > 0 {
        w[0]
    } else {
        Seq::<char>::empty()
    }
}

/// Reads one admin line on a connection that is `authorized` or not, for
/// the port whose token is `token`. An empty line is skipped; `AUTH `
/// followed by the token authorises; commands other than PING, STATUS and
/// OPS need authorisation. A command's arguments are all taken before the
/// first is read, and a missing or malformed one is refused.
#[verifier::spinoff_prover]
#[verifier::rlimit(40)]
pub fn parse_admin_line(line: &str, token: &str, authorized: bool) -> (r: Result<AdminLine>)
    ensures
        ({
            let w = whitespace_words(line@);
            let c = command_word(w);
            let b = utf8_bytes(line@);
            if line@.len() == 0 {
                r == Ok::<AdminLine, Error>(AdminLine::Blank)
            } else if b.len() >= 5 && b.take(5) == auth_prefix() {
                r == Ok::<AdminLine, Error>(AdminLine::Auth { accepted: b.skip(5) == utf8_bytes(token@) })
            } else if !authorized && !read_only_command(c) {
                r == Ok::<AdminLine, Error>(AdminLine::Unauthorized)
            } else if c == seq!['P', 'I', 'N', 'G'] {
                r == Ok::<AdminLine, Error>(AdminLine::Command(AdminCommand::Ping))
            } else if c == seq!['S', 'T', 'A', 'T', 'U', 'S'] {
                r == Ok::<AdminLine, Error>(AdminLine::Command(AdminCommand::Status))
            } else if c == create_vault_word() {
                if w.len() < 3 || decimal_u64(w[1]) is None || (w[2] != seq!['-'] && hex_peer(w[2]) is None) {
                    r matches Err(e) && e is InvalidInput
                } else {
                    r matches Ok(AdminLine::Command(AdminCommand::CreateVault { quota, creator })) && Some(quota)
                        == decimal_u64(w[1]) && if w[2] == seq!['-'] {
                        creator is None
                    } else {
                        creator matches Some(p) && Some(p@) == hex_peer(w[2])
                    }
                }
            } else if c == kick_word() {
                if w.len() < 3 || hex_peer(w[1]) is None || hex_peer(w[2]) is None {
                    r matches Err(e) && e is InvalidInput
                } else {
                    r matches Ok(AdminLine::Command(AdminCommand::Kick { vault, peer })) && Some(vault@) == hex_peer(w[1])
                        && Some(peer@) == hex_peer(w[2])
                }
            } else if c == rotate_code_word() || c == forget_vault_word() {
                if w.len() < 2 || hex_peer(w[1]) is None {
                    r matches Err(e) && e is InvalidInput
                } else if c == rotate_code_word() {
                    r matches Ok(AdminLine::Command(AdminCommand::RotateCode { vault })) && Some(vault@) == hex_peer(w[1])
                } else {
                    r matches Ok(AdminLine::Command(AdminCommand::ForgetVault { vault })) && Some(vault@) == hex_peer(w[1])
                }
            } else if c == seq!['O', 'P', 'S'] {
                if w.len() < 3 || hex_peer(w[1]) is None || decimal_u64(w[2]) is None {
                    r matches Err(e) && e is InvalidInput
                } else {
                    r matches Ok(AdminLine::Command(AdminCommand::Ops { vault, since })) && Some(vault@) == hex_peer(w[1])
                        && Some(since) == decimal_u64(w[2])
                }
            } else {
                r == Ok::<AdminLine, Error>(AdminLine::Unknown)
            }
        }),
{
    if line.unicode_len() == 0 {
        return Ok(AdminLine::Blank);
    }
    let bytes = line.as_bytes();
    let auth: [u8; 5] = [65, 85, 84, 72, 32];
    assert(auth@ =~= auth_prefix());
    if bytes.len() >= 5 && bytes[0] == 65 && bytes[1] == 85 && bytes[2] == 84 && bytes[3] == 72 && bytes[4] == 32 {
        let presented = vstd::slice::slice_subrange(bytes, 5, bytes.len());
        let accepted = constant_time_eq(presented, token.as_bytes());
        assert(bytes@.take(5) =~= auth_prefix());
        assert(presented@ =~= bytes@.skip(5));
        return Ok(AdminLine::Auth { accepted });
    }
    proof {
        if bytes@.len() >= 5 && bytes@.take(5) == auth_prefix() {
            assert(bytes@[0] == bytes@.take(5)[0]);
            assert(bytes@[1] == bytes@.take(5)[1]);
            assert(bytes@[2] == bytes@.take(5)[2]);
            assert(bytes@[3] == bytes@.take(5)[3]);
            assert(bytes@[4] == bytes@.take(5)[4]);
        }
    }
    let words = split_words(line);
    let command: &String;
    let blank = String::new();
    if words.len() > 0 {
        command = &words[0];
    } else {
        command = &blank;
    }
    assert(command@ == command_word(whitespace_words(line@)));
    if !authorized && !is_read_only(command.as_str()) {
        return Ok(AdminLine::Unauthorized);
    }
    let ping: [char; 4] = ['P', 'I', 'N', 'G'];
    let status: [char; 6] = ['S', 'T', 'A', 'T', 'U', 'S'];
    let create: [char; 12] = ['C', 'R', 'E', 'A', 'T', 'E', '_', 'V', 'A', 'U', 'L', 'T'];
    let kick: [char; 4] = ['K', 'I', 'C', 'K'];
    let rotate: [char; 11] = ['R', 'O', 'T', 'A', 'T', 'E', '_', 'C', 'O', 'D', 'E'];
    let forget: [char; 12] = ['F', 'O', 'R', 'G', 'E', 'T', '_', 'V', 'A', 'U', 'L', 'T'];
    let ops: [char; 3] = ['O', 'P', 'S'];
    let dash: [char; 1] = ['-'];
    assert(ping@ =~= seq!['P', 'I', 'N', 'G']);
    assert(status@ =~= seq!['S', 'T', 'A', 'T', 'U', 'S']);
    assert(create@ =~= create_vault_word());
    assert(kick@ =~= kick_word());
    assert(rotate@ =~= rotate_code_word());
    assert(forget@ =~= forget_vault_word());
    assert(ops@ =~= seq!['O', 'P', 'S']);
    assert(dash@ =~= seq!['-']);
    if word_eq(command, &ping) {
        return Ok(AdminLine::Command(AdminCommand::Ping));
    }
    if word_eq(command, &status) {
        return Ok(AdminLine::Command(AdminCommand::Status));
    }
    if word_eq(command, &create) {
        let quota_text = argument(&words, 1)?;
        let creator_text = argument(&words, 2)?;
        let quota = match parse_u64(quota_text.as_str()) {
            Some(q) => q,
            None => {
                return Err(Error::InvalidInput("quota must be a byte count"));
            },
        };
        let creator = if word_eq(creator_text, &dash) {
            None
        } else {
            Some(parse_peer(creator_text.as_str())?)
        };
        return Ok(AdminLine::Command(AdminCommand::CreateVault { quota, creator }));
    }
    if word_eq(command, &kick) {
        let vault_text = argument(&words, 1)?;
        let peer_text = argument(&words, 2)?;
        let vault = parse_vault(vault_text.as_str())?;
        let peer = parse_peer(peer_text.as_str())?;
        return Ok(AdminLine::Command(AdminCommand::Kick { vault, peer }));
    }
    if word_eq(command, &rotate) {
        let vault = parse_vault(argument(&words, 1)?.as_str())?;
        return Ok(AdminLine::Command(AdminCommand::RotateCode { vault }));
    }
    if word_eq(command, &forget) {
        let vault = parse_vault(argument(&words, 1)?.as_str())?;
        return Ok(AdminLine::Command(AdminCommand::ForgetVault { vault }));
    }
    if word_eq(command, &ops) {
        let vault_text = argument(&words, 1)?;
        let since_text = argument(&words, 2)?;
        let vault = parse_vault(vault_text.as_str())?;
        let since = match parse_u64(since_text.as_str()) {
            Some(n) => n,
            None => {
                return Err(Error::InvalidInput("since must be a record id"));
            },
        };
        return Ok(AdminLine::Command(AdminCommand::Ops { vault, since }));
    }
    Ok(AdminLine::Unknown)
}

} // verus!
