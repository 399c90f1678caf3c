//! UTF-8 text at the edge of byte encodings.

use vstd::prelude::*;
use vstd::string::{StrSliceExecFns, StringSliceAdditionalSpecFns};
use vstd::utf8::{encode_utf8, valid_utf8};

verus! {

/// The UTF-8 bytes of a string.
pub open spec fn utf8_bytes(s: Seq<char>) -> Seq<u8> {
    encode_utf8(s)
}

/// `std::str::from_utf8`: succeeds exactly on well-formed UTF-8, and the
/// string it returns has the input as its bytes.
#[verifier::external_body]
fn str_from_utf8(bytes: &[u8]) -> (r: Option<&str>)
    ensures
        match r {
            Some(s) => valid_utf8(bytes@) && s.spec_bytes() == bytes@,
            None => !valid_utf8(bytes@),
        },
{
    std::str::from_utf8(bytes).ok()
}

/// An owned string whose UTF-8 bytes are exactly `bytes`, if they are valid.
pub fn string_from_utf8(bytes: &[u8]) -> (r: Option<String>)
    ensures
        match r {
            Some(s) => utf8_bytes(s@) == bytes@,
            None => forall|c: Seq<char>| #[trigger] utf8_bytes(c) != bytes@,
        },
{
    proof {
        assert forall|c: Seq<char>| #[trigger] utf8_bytes(c) == bytes@ implies valid_utf8(bytes@) by {
            vstd::utf8::encode_utf8_valid_utf8(c);
        }
    }
    match str_from_utf8(bytes) {
        Some(s) => Some(s.to_owned()),
        None => None,
    }
}

/// Only the empty string has no bytes.
pub proof fn lemma_utf8_empty(s: Seq<char>)
    ensures
        (utf8_bytes(s).len() == 0) <==> (s.len() == 0),
{
    if s.len() > 0 {
        vstd::utf8::encode_utf8_decode_utf8(s);
        if utf8_bytes(s).len() == 0 {
            assert(utf8_bytes(s) =~= Seq::<u8>::empty());
            vstd::utf8::encode_utf8_decode_utf8(Seq::<char>::empty());
            assert(utf8_bytes(Seq::<char>::empty()) =~= Seq::<u8>::empty());
        }
    } else {
        assert(s =~= Seq::<char>::empty());
    }
}

/// The UTF-8 bytes of a string, borrowed.
pub fn string_bytes(s: &String) -> (r: &[u8])
    ensures
        r@ == utf8_bytes(s@),
{
    s.as_str().as_bytes()
}

/// `String::push`: appends one character.
#[verifier::external_body]
pub fn push_char(s: &mut String, c: char)
    ensures
        final(s)@ == old(s)@.push(c),
{
    s.push(c)
}

/// `String::push_str`: appends a string slice.
#[verifier::external_body]
pub fn push_str(s: &mut String, t: &str)
    ensures
        final(s)@ == old(s)@ + t@,
{
    s.push_str(t)
}

/// Unicode White_Space, the property `char::is_whitespace` and `str::trim`
/// go by: tab to carriage return, space, next line, no-break space, ogham
/// space mark, the spaces from en quad to hair space, line and paragraph
/// separators, narrow no-break space, medium mathematical space and
/// ideographic space.
pub open spec fn white_space(c: char) -> bool {
    let u = c as u32;
    ||| 0x09 <= u <= 0x0d
    ||| u == 0x20
    ||| u == 0x85
    ||| u == 0xa0
    ||| u == 0x1680
    ||| 0x2000 <= u <= 0x200a
    ||| u == 0x2028
    ||| u == 0x2029
    ||| u == 0x202f
    ||| u == 0x205f
    ||| u == 0x3000
}

/// `s` without its leading White_Space.
pub open spec fn trim_front(s: Seq<char>) -> Seq<char>
    decreases s.len(),
{
    if s.len() > 0 && white_space(s[0]) {
        trim_front(s.drop_first())
    } else {
        s
    }
}

/// `s` without its trailing White_Space.
pub open spec fn trim_back(s: Seq<char>) -> Seq<char>
    decreases s.len(),
{
    if s.len() > 0 && white_space(s.last()) {
        trim_back(s.drop_last())
    } else {
        s
    }
}

/// What `str::trim` returns for a string: it without leading and trailing
/// White_Space.
pub open spec fn trimmed(s: Seq<char>) -> Seq<char> {
    trim_back(trim_front(s))
}

pub(crate) fn is_white_space(c: char) -> (r: bool)
    ensures
        r == white_space(c),
{
    let u = c as u32;
    (0x09 <= u && u <= 0x0d) || u == 0x20 || u == 0x85 || u == 0xa0 || u == 0x1680 || (0x2000 <= u && u
        <= 0x200a) || u == 0x2028 || u == 0x2029 || u == 0x202f || u == 0x205f || u == 0x3000
}

/// What `str::to_uppercase` returns for a string: its Unicode upper case.
pub uninterp spec fn uppercased(s: Seq<char>) -> Seq<char>;

/// `s` without leading and trailing White_Space, as `str::trim` gives it.
pub(crate) fn trim(s: &str) -> (r: String)
    ensures
        r@ == trimmed(s@),
{
    let cs = to_chars(s);
    let n = cs.len();
    let mut a: usize = 0;
    assert(cs@.skip(0) =~= cs@);
    while a < n && is_white_space(cs[a])
        invariant
            cs@ == s@,
            n == cs@.len(),
            a <= n,
            trim_front(s@) == trim_front(cs@.skip(a as int)),
        decreases n - a,
    {
        proof {
            assert(cs@.skip(a as int)[0] == cs@[a as int]);
            assert(cs@.skip(a as int).drop_first() =~= cs@.skip(a + 1));
        }
        a = a + 1;
    }
    let ghost u = cs@.skip(a as int);
    proof {
        if a < n {
            assert(u[0] == cs@[a as int]);
        }
        assert(trim_front(u) == u);
    }
    let mut b: usize = n;
    while b > a && is_white_space(cs[b - 1])
        invariant
            cs@ == s@,
            n == cs@.len(),
            a <= b <= n,
            u == cs@.skip(a as int),
            trim_back(u) == trim_back(cs@.subrange(a as int, b as int)),
        decreases b - a,
    {
        proof {
            let v = cs@.subrange(a as int, b as int);
            assert(v.last() == cs@[b - 1]);
            assert(v.drop_last() =~= cs@.subrange(a as int, b - 1));
        }
        b = b - 1;
    }
    proof {
        let v = cs@.subrange(a as int, b as int);
        if b > a {
            assert(v.last() == cs@[b - 1]);
        }
        assert(trim_back(v) == v);
        assert(cs@.subrange(a as int, n as int) =~= u);
    }
    let mut out = String::new();
    let mut i: usize = a;
    while i < b
        invariant
            cs@ == s@,
            a <= i <= b <= n,
            n == cs@.len(),
            out@ == cs@.subrange(a as int, i as int),
        decreases b - i,
    {
        push_char(&mut out, cs[i]);
        i = i + 1;
        assert(out@ =~= cs@.subrange(a as int, i as int));
    }
    out
}

/// `str::to_uppercase`; the result is named by `uppercased`.
#[verifier::external_body]
pub(crate) fn to_uppercase(s: &str) -> (r: String)
    ensures
        r@ == uppercased(s@),
{
    s.to_uppercase()
}

/// The characters of a string.
pub(crate) fn to_chars(s: &str) -> (r: Vec<char>)
    ensures
        r@ == s@,
{
    let n = s.unicode_len();
    let mut out: Vec<char> = Vec::new();
    let mut i: usize = 0;
    while i < n
        invariant
            n == s@.len(),
            i <= n,
            out@ == s@.take(i as int),
        decreases n - i,
    {
        out.push(s.get_char(i));
        i = i + 1;
        assert(out@ =~= s@.take(i as int));
    }
    assert(s@.take(n as int) =~= s@);
    out
}

/// Decimal digit `d`.
pub open spec fn digit_char(d: int) -> char {
    seq!['0', '1', '2', '3', '4', '5', '6', '7', '8', '9'][d]
}

/// The decimal text of `n`, without leading zeros.
pub open spec fn decimal(n: nat) -> Seq<char>
    decreases n,
{
    if n < 10 {
        seq![digit_char(n as int)]
    } else {
        decimal(n / 10).push(digit_char((n % 10) as int))
    }
}

/// `n` in at least `width` digits, padded with leading zeros.
pub open spec fn padded(n: nat, width: nat) -> Seq<char> {
    let d = decimal(n);
    if d.len() >= width {
        d
    } else {
        Seq::new((width - d.len()) as nat, |i: int| '0') + d
    }
}

fn digit_of(d: u64) -> (c: char)
    requires
        d < 10,
    ensures
        c == digit_char(d as int),
{
    let digits: [char; 10] = ['0', '1', '2', '3', '4', '5', '6', '7', '8', '9'];
    assert(digits@ =~= seq!['0', '1', '2', '3', '4', '5', '6', '7', '8', '9']);
    digits[d as usize]
}

/// Appends the decimal text of `n`.
pub fn push_decimal(out: &mut String, n: u64)
    ensures
        final(out)@ == old(out)@ + decimal(n as nat),
    decreases n,
{
    if n >= 10 {
        push_decimal(out, n / 10);
    }
    push_char(out, digit_of(n % 10));
    assert(final(out)@ =~= old(out)@ + decimal(n as nat));
}

/// Appends `n` padded with zeros to `width` digits.
pub fn push_padded(out: &mut String, n: u64, width: u64)
    ensures
        final(out)@ == old(out)@ + padded(n as nat, width as nat),
{
    let mut digits = String::new();
    push_decimal(&mut digits, n);
    let ghost d = decimal(n as nat);
    assert(digits@ =~= d);
    let len = to_chars(digits.as_str()).len() as u64;
    let ghost start = out@;
    if len < width {
        let mut i: u64 = 0;
        while i < width - len
            invariant
                i <= width - len,
                len < width,
                out@ == start + Seq::new(i as nat, |k: int| '0'),
            decreases width - len - i,
        {
            push_char(out, '0');
            i = i + 1;
            assert(out@ =~= start + Seq::new(i as nat, |k: int| '0'));
        }
    }
    push_str(out, digits.as_str());
    assert(out@ =~= start + padded(n as nat, width as nat));
}

} // verus!
