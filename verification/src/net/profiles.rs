//! Cosmetic display names keyed by client id, with their line-protocol
//! payloads in standard padded Base64.

use vstd::prelude::*;

use crate::demo_log::{is_control, is_control_char};
use crate::text::{decimal, push_char, push_decimal, to_chars, trim, trimmed};

verus! {

/// The character of Base64 digit `d`.
pub open spec fn b64_code(d: int) -> int {
    if d < 26 {
        65 + d
    } else if d < 52 {
        71 + d
    } else if d < 62 {
        d - 4
    } else if d == 62 {
        43
    } else {
        47
    }
}

pub open spec fn b64_char(d: int) -> char {
    b64_code(d) as char
}

fn b64_char_of(d: u8) -> (c: char)
    requires
        d < 64,
    ensures
        c == b64_char(d as int),
{
    let alphabet: [char; 64] = [
        'A', 'B', 'C', 'D', 'E', 'F', 'G', 'H', 'I', 'J', 'K', 'L', 'M', 'N', 'O', 'P', 'Q', 'R',
        'S', 'T', 'U', 'V', 'W', 'X', 'Y', 'Z', 'a', 'b', 'c', 'd', 'e', 'f', 'g', 'h', 'i', 'j',
        'k', 'l', 'm', 'n', 'o', 'p', 'q', 'r', 's', 't', 'u', 'v', 'w', 'x', 'y', 'z', '0', '1',
        '2', '3', '4', '5', '6', '7', '8', '9', '+', '/',
    ];
    assert(alphabet@ =~= Seq::new(64, |d: int| b64_char(d)));
    alphabet[d as usize]
}

/// The digit a Base64 character stands for.
pub open spec fn b64_value(c: char) -> Option<int> {
    let v = c as int;
    if 65 <= v <= 90 {
        Some(v - 65)
    } else if 97 <= v <= 122 {
        Some(v - 71)
    } else if 48 <= v <= 57 {
        Some(v + 4)
    } else if v == 43 {
        Some(62)
    } else if v == 47 {
        Some(63)
    } else {
        None
    }
}

proof fn lemma_b64_char(d: int)
    requires
        0 <= d < 64,
    ensures
        b64_value(b64_char(d)) == Some(d),
        b64_char(d) != '=',
{
    assert((b64_code(d) as char) as int == b64_code(d));
}

proof fn lemma_b64_value(c: char)
    ensures
        b64_value(c) matches Some(d) ==> 0 <= d < 64 && b64_char(d) == c,
        c == '=' ==> b64_value(c) is None,
{
    if let Some(d) = b64_value(c) {
        assert(((c as int) as char) == c);
    }
}

/// Three bytes as four digits.
pub open spec fn b64_block3(a: int, b: int, c: int) -> Seq<char> {
    seq![
        b64_char(a / 4),
        b64_char((a % 4) * 16 + b / 16),
        b64_char((b % 16) * 4 + c / 64),
        b64_char(c % 64),
    ]
}

/// Two final bytes as three digits and one pad.
pub open spec fn b64_block2(a: int, b: int) -> Seq<char> {
    seq![b64_char(a / 4), b64_char((a % 4) * 16 + b / 16), b64_char((b % 16) * 4), '=']
}

/// One final byte as two digits and two pads.
pub open spec fn b64_block1(a: int) -> Seq<char> {
    seq![b64_char(a / 4), b64_char((a % 4) * 16), '=', '=']
}

/// Standard Base64 (RFC 4648) with padding.
pub open spec fn base64_encode(b: Seq<u8>) -> Seq<char>
    decreases b.len(),
{
    if b.len() == 0 {
        Seq::<char>::empty()
    } else if b.len() == 1 {
        b64_block1(b[0] as int)
    } else if b.len() == 2 {
        b64_block2(b[0] as int, b[1] as int)
    } else {
        b64_block3(b[0] as int, b[1] as int, b[2] as int) + base64_encode(b.skip(3))
    }
}

pub fn encode_base64(bytes: &[u8]) -> (r: String)
    ensures
        r@ == base64_encode(bytes@),
{
    let mut out = String::new();
    let n = bytes.len();
    let mut i: usize = 0;
    assert(bytes@.skip(0) =~= bytes@);
    while n - i >= 3
        invariant
            i <= n,
            n == bytes@.len(),
            out@ + base64_encode(bytes@.skip(i as int)) == base64_encode(bytes@),
        decreases n - i,
    {
        let a = bytes[i];
        let b = bytes[i + 1];
        let c = bytes[i + 2];
        let ghost rest = bytes@.skip(i as int);
        assert(rest[0] == a && rest[1] == b && rest[2] == c);
        assert(rest.skip(3) =~= bytes@.skip(i + 3));
        let ghost before = out@;
        push_char(&mut out, b64_char_of(a / 4));
        push_char(&mut out, b64_char_of((a % 4) * 16 + b / 16));
        push_char(&mut out, b64_char_of((b % 16) * 4 + c / 64));
        push_char(&mut out, b64_char_of(c % 64));
        assert(out@ =~= before + b64_block3(a as int, b as int, c as int));
        i = i + 3;
    }
    let ghost rest = bytes@.skip(i as int);
    if n - i == 1 {
        let a = bytes[i];
        assert(rest[0] == a);
        push_char(&mut out, b64_char_of(a / 4));
        push_char(&mut out, b64_char_of((a % 4) * 16));
        push_char(&mut out, '=');
        push_char(&mut out, '=');
    } else if n - i == 2 {
        let a = bytes[i];
        let b = bytes[i + 1];
        assert(rest[0] == a && rest[1] == b);
        push_char(&mut out, b64_char_of(a / 4));
        push_char(&mut out, b64_char_of((a % 4) * 16 + b / 16));
        push_char(&mut out, b64_char_of((b % 16) * 4));
        push_char(&mut out, '=');
    } else {
        assert(rest.len() == 0);
    }
    assert(out@ =~= base64_encode(bytes@));
    out
}

fn b64_digit(c: char) -> (r: Option<u8>)
    ensures
        match r {
            Some(d) => b64_value(c) == Some(d as int) && d < 64,
            None => b64_value(c) is None,
        },
{
    let v = c as u32;
    if 65 <= v && v <= 90 {
        Some((v - 65) as u8)
    } else if 97 <= v && v <= 122 {
        Some((v - 71) as u8)
    } else if 48 <= v && v <= 57 {
        Some((v + 4) as u8)
    } else if v == 43 {
        Some(62)
    } else if v == 47 {
        Some(63)
    } else {
        None
    }
}

/// Encoding is blockwise: whole three-byte groups encode on their own.
proof fn lemma_encode_append(x: Seq<u8>, y: Seq<u8>)
    requires
        x.len() % 3 == 0,
    ensures
        base64_encode(x + y) == base64_encode(x) + base64_encode(y),
    decreases x.len(),
{
    if x.len() == 0 {
        assert(x + y =~= y);
        assert(base64_encode(x) =~= Seq::<char>::empty());
        assert(Seq::<char>::empty() + base64_encode(y) =~= base64_encode(y));
    } else {
        lemma_encode_append(x.skip(3), y);
        assert((x + y).skip(3) =~= x.skip(3) + y);
        assert((x + y)[0] == x[0] && (x + y)[1] == x[1] && (x + y)[2] == x[2]);
    }
}

proof fn lemma_encode_len(b: Seq<u8>)
    ensures
        base64_encode(b).len() == 4 * ((b.len() + 2) / 3),
    decreases b.len(),
{
    if b.len() >= 3 {
        lemma_encode_len(b.skip(3));
    }
}

/// Digits computed from three bytes give them back.
proof fn lemma_digits_of_bytes(a: int, b: int, c: int)
    requires
        0 <= a < 256,
        0 <= b < 256,
        0 <= c < 256,
    ensures
        ({
            let d0 = a / 4;
            let d1 = (a % 4) * 16 + b / 16;
            let d2 = (b % 16) * 4 + c / 64;
            let d3 = c % 64;
            &&& 0 <= d0 < 64 && 0 <= d1 < 64 && 0 <= d2 < 64 && 0 <= d3 < 64
            &&& d0 * 4 + d1 / 16 == a
            &&& (d1 % 16) * 16 + d2 / 4 == b
            &&& (d2 % 4) * 64 + d3 == c
        }),
{
}

/// Bytes computed from four digits give them back.
proof fn lemma_bytes_of_digits(d0: int, d1: int, d2: int, d3: int)
    requires
        0 <= d0 < 64,
        0 <= d1 < 64,
        0 <= d2 < 64,
        0 <= d3 < 64,
    ensures
        ({
            let a = d0 * 4 + d1 / 16;
            let b = (d1 % 16) * 16 + d2 / 4;
            let c = (d2 % 4) * 64 + d3;
            &&& 0 <= a < 256 && 0 <= b < 256 && 0 <= c < 256
            &&& a / 4 == d0
            &&& (a % 4) * 16 + b / 16 == d1
            &&& (b % 16) * 4 + c / 64 == d2
            &&& c % 64 == d3
        }),
{
}

proof fn lemma_decode_block3(c0: char, c1: char, c2: char, c3: char, d0: u8, d1: u8, d2: u8, d3: u8)
    requires
        b64_value(c0) == Some(d0 as int),
        b64_value(c1) == Some(d1 as int),
        b64_value(c2) == Some(d2 as int),
        b64_value(c3) == Some(d3 as int),
        d0 < 64 && d1 < 64 && d2 < 64 && d3 < 64,
    ensures
        base64_encode(
            seq![(d0 * 4 + d1 / 16) as u8, ((d1 % 16) * 16 + d2 / 4) as u8, ((d2 % 4) * 64 + d3) as u8],
        ) == seq![c0, c1, c2, c3],
{
    let x = seq![(d0 * 4 + d1 / 16) as u8, ((d1 % 16) * 16 + d2 / 4) as u8, ((d2 % 4) * 64 + d3) as u8];
    lemma_bytes_of_digits(d0 as int, d1 as int, d2 as int, d3 as int);
    lemma_b64_value(c0);
    lemma_b64_value(c1);
    lemma_b64_value(c2);
    lemma_b64_value(c3);
    let a = d0 * 4 + d1 / 16;
    let b = (d1 % 16) * 16 + d2 / 4;
    let c = (d2 % 4) * 64 + d3;
    assert(x[0] as int == a && x[1] as int == b && x[2] as int == c);
    assert(x.skip(3) =~= Seq::<u8>::empty());
    assert(base64_encode(x.skip(3)) =~= Seq::<char>::empty());
    assert(base64_encode(x) == b64_block3(a, b, c) + Seq::<char>::empty());
    assert(b64_block3(a, b, c) =~= seq![c0, c1, c2, c3]);
    assert(base64_encode(x) =~= seq![c0, c1, c2, c3]);
}

proof fn lemma_decode_block2(c0: char, c1: char, c2: char, d0: u8, d1: u8, d2: u8)
    requires
        b64_value(c0) == Some(d0 as int),
        b64_value(c1) == Some(d1 as int),
        b64_value(c2) == Some(d2 as int),
        d0 < 64 && d1 < 64 && d2 < 64,
        d2 % 4 == 0,
    ensures
        base64_encode(seq![(d0 * 4 + d1 / 16) as u8, ((d1 % 16) * 16 + d2 / 4) as u8]) == seq![c0, c1, c2, '='],
{
    lemma_bytes_of_digits(d0 as int, d1 as int, d2 as int, 0);
    lemma_b64_value(c0);
    lemma_b64_value(c1);
    lemma_b64_value(c2);
    assert(base64_encode(seq![(d0 * 4 + d1 / 16) as u8, ((d1 % 16) * 16 + d2 / 4) as u8]) =~= seq![
        c0,
        c1,
        c2,
        '=',
    ]);
}

proof fn lemma_decode_block1(c0: char, c1: char, d0: u8, d1: u8)
    requires
        b64_value(c0) == Some(d0 as int),
        b64_value(c1) == Some(d1 as int),
        d0 < 64 && d1 < 64,
        d1 % 16 == 0,
    ensures
        base64_encode(seq![(d0 * 4 + d1 / 16) as u8]) == seq![c0, c1, '=', '='],
{
    lemma_bytes_of_digits(d0 as int, d1 as int, 0, 0);
    lemma_b64_value(c0);
    lemma_b64_value(c1);
    assert(base64_encode(seq![(d0 * 4 + d1 / 16) as u8]) =~= seq![c0, c1, '=', '=']);
}

/// Decodes standard padded Base64 of at least one byte; non-canonical
/// trailing bits are refused.
#[verifier::spinoff_prover]
#[verifier::rlimit(80)]
pub fn decode_base64(value: &str) -> (r: Option<Vec<u8>>)
    ensures
        match r {
            Some(v) => v@.len() > 0 && base64_encode(v@) == value@,
            None => forall|b: Seq<u8>| b.len() > 0 ==> #[trigger] base64_encode(b) != value@,
        },
{
    let cs = to_chars(value);
    let m = cs.len();
    let ghost s = value@;
    let ghost target = choose|b: Seq<u8>| b.len() > 0 && #[trigger] base64_encode(b) == s;
    let ghost canon = target.len() > 0 && base64_encode(target) == s;
    proof {
        if canon {
            lemma_encode_len(target);
        }
    }
    if m == 0 || m % 4 != 0 {
        return None;
    }
    let blocks = m / 4;
    assert(forall|b: Seq<u8>| b.len() > 0 && #[trigger] base64_encode(b) == s ==> canon);
    let mut out: Vec<u8> = Vec::new();
    let mut k: usize = 0;
    proof {
        assert(target.take(0) =~= Seq::<u8>::empty());
        assert(s.take(0) =~= Seq::<char>::empty());
        assert(target.skip(0) =~= target);
        assert(s.skip(0) =~= s);
    }
    while k < blocks
        invariant
            cs@ == s,
            s == value@,
            m == s.len(),
            m == 4 * blocks,
            blocks > 0,
            k <= blocks,
            out@.len() == 3 * k,
            base64_encode(out@) == s.take(4 * k),
            canon == (target.len() > 0 && base64_encode(target) == s),
            canon ==> out@ == target.take(3 * k) && s.skip(4 * k) == base64_encode(target.skip(3 * k)),
            canon && k < blocks ==> 3 * k < target.len(),
            forall|b: Seq<u8>| b.len() > 0 && #[trigger] base64_encode(b) == s ==> canon,
        decreases blocks - k,
    {
        let p = 4 * k;
        let c0 = cs[p];
        let c1 = cs[p + 1];
        let c2 = cs[p + 2];
        let c3 = cs[p + 3];
        let ghost t = target.skip(3 * k);
        let ghost block = s.subrange(4 * k, 4 * k + 4);
        proof {
            lemma_b64_value(c0);
            lemma_b64_value(c1);
            lemma_b64_value(c2);
            lemma_b64_value(c3);
            assert(block =~= seq![c0, c1, c2, c3]);
            if canon {
                lemma_encode_len(t);
                assert(s.skip(4 * k)[0] == c0 && s.skip(4 * k)[1] == c1);
                assert(s.skip(4 * k)[2] == c2 && s.skip(4 * k)[3] == c3);
                if t.len() >= 3 {
                    assert(base64_encode(t)[0] == b64_char(t[0] as int / 4));
                    assert(base64_encode(t)[1] == b64_char((t[0] as int % 4) * 16 + t[1] as int / 16));
                    assert(s.skip(4 * k).take(4) =~= block);
                    lemma_digits_of_bytes(t[0] as int, t[1] as int, t[2] as int);
                    lemma_b64_char(t[0] as int / 4);
                    lemma_b64_char((t[0] as int % 4) * 16 + t[1] as int / 16);
                    lemma_b64_char((t[1] as int % 16) * 4 + t[2] as int / 64);
                    lemma_b64_char(t[2] as int % 64);
                } else if t.len() == 2 {
                    assert(base64_encode(t) == b64_block2(t[0] as int, t[1] as int));
                    lemma_digits_of_bytes(t[0] as int, t[1] as int, 0);
                    lemma_b64_char(t[0] as int / 4);
                    lemma_b64_char((t[0] as int % 4) * 16 + t[1] as int / 16);
                    lemma_b64_char((t[1] as int % 16) * 4);
                } else {
                    assert(base64_encode(t) == b64_block1(t[0] as int));
                    lemma_digits_of_bytes(t[0] as int, 0, 0);
                    lemma_b64_char(t[0] as int / 4);
                    lemma_b64_char((t[0] as int % 4) * 16);
                }
            }
        }
        proof {
            if canon {
                assert(c0 == b64_char(t[0] as int / 4));
                assert(b64_value(c0) is Some && b64_value(c1) is Some);
            }
        }
        let d0 = match b64_digit(c0) {
            Some(d) => d,
            None => {
                return None;
            },
        };
        let d1 = match b64_digit(c1) {
            Some(d) => d,
            None => {
                return None;
            },
        };
        let last = k + 1 == blocks;
        let e2 = b64_digit(c2);
        let e3 = b64_digit(c3);
        let ghost before = out@;
        let b0 = d0 * 4 + d1 / 16;
        if e2.is_some() && e3.is_some() {
            let d2 = e2.unwrap();
            let d3 = e3.unwrap();
            let b1 = (d1 % 16) * 16 + d2 / 4;
            let b2 = (d2 % 4) * 64 + d3;
            out.push(b0);
            out.push(b1);
            out.push(b2);
            proof {
                lemma_decode_block3(c0, c1, c2, c3, d0, d1, d2, d3);
                lemma_encode_append(before, seq![b0, b1, b2]);
                assert(out@ =~= before + seq![b0, b1, b2]);
                assert(s.take(4 * k + 4) =~= s.take(4 * k) + block);
                if canon {
                    assert(target.take(3 * k + 3) =~= target.take(3 * k) + seq![t[0], t[1], t[2]]);
                    assert(t.skip(3) =~= target.skip(3 * k + 3));
                    assert(s.skip(4 * k + 4) =~= s.skip(4 * k).skip(4));
                }
            }
            k = k + 1;
        } else if last && e2.is_some() && c3 == '=' {
            let d2 = e2.unwrap();
            if d2 % 4 != 0 {
                return None;
            }
            let b1 = (d1 % 16) * 16 + d2 / 4;
            out.push(b0);
            out.push(b1);
            proof {
                lemma_decode_block2(c0, c1, c2, d0, d1, d2);
                lemma_encode_append(before, seq![b0, b1]);
                assert(out@ =~= before + seq![b0, b1]);
                assert(s.take(4 * k + 4) =~= s);
                assert(out@ =~= out@.take(3 * k + 2));
            }
            return Some(out);
        } else if last && c2 == '=' && c3 == '=' {
            if d1 % 16 != 0 {
                return None;
            }
            out.push(b0);
            proof {
                lemma_decode_block1(c0, c1, d0, d1);
                lemma_encode_append(before, seq![b0]);
                assert(out@ =~= before + seq![b0]);
                assert(s.take(4 * k + 4) =~= s);
            }
            return Some(out);
        } else {
            return None;
        }
    }
    proof {
        assert(s.take(4 * blocks) =~= s);
    }
    Some(out)
}

/// Different byte strings have different Base64 text.
pub proof fn lemma_base64_injective(x: Seq<u8>, y: Seq<u8>)
    requires
        base64_encode(x) == base64_encode(y),
    ensures
        x == y,
    decreases x.len(),
{
    let e = base64_encode(x);
    lemma_encode_len(x);
    lemma_encode_len(y);
    if x.len() == 0 || y.len() == 0 {
        if x.len() == 0 && y.len() == 0 {
            assert(x =~= y);
        }
    } else {
        lemma_digits_of_bytes(x[0] as int, if x.len() > 1 { x[1] as int } else { 0 }, if x.len() > 2 { x[2] as int } else { 0 });
        lemma_digits_of_bytes(y[0] as int, if y.len() > 1 { y[1] as int } else { 0 }, if y.len() > 2 { y[2] as int } else { 0 });
        let (x0, x1, x2) = (x[0] as int, if x.len() > 1 { x[1] as int } else { 0 }, if x.len() > 2 { x[2] as int } else { 0 });
        let (y0, y1, y2) = (y[0] as int, if y.len() > 1 { y[1] as int } else { 0 }, if y.len() > 2 { y[2] as int } else { 0 });
        lemma_b64_char(x0 / 4);
        lemma_b64_char(y0 / 4);
        lemma_b64_char((x0 % 4) * 16 + x1 / 16);
        lemma_b64_char((y0 % 4) * 16 + y1 / 16);
        lemma_b64_char((x1 % 16) * 4 + x2 / 64);
        lemma_b64_char((y1 % 16) * 4 + y2 / 64);
        lemma_b64_char(x2 % 64);
        lemma_b64_char(y2 % 64);
        assert(e[0] == b64_char(x0 / 4) && e[0] == b64_char(y0 / 4));
        assert(e[1] == b64_char((x0 % 4) * 16 + x1 / 16) && e[1] == b64_char((y0 % 4) * 16 + y1 / 16));
        if x.len() >= 2 {
            assert(e[2] == b64_char((x1 % 16) * 4 + x2 / 64));
        } else {
            assert(e[2] == '=');
        }
        if y.len() >= 2 {
            assert(e[2] == b64_char((y1 % 16) * 4 + y2 / 64));
        } else {
            assert(e[2] == '=');
        }
        if x.len() >= 3 {
            assert(e[3] == b64_char(x2 % 64));
        } else {
            assert(e[3] == '=');
        }
        if y.len() >= 3 {
            assert(e[3] == b64_char(y2 % 64));
        } else {
            assert(e[3] == '=');
        }
        if x.len() >= 3 {
            assert(y.len() >= 3);
            assert(base64_encode(x.skip(3)) =~= e.skip(4));
            assert(base64_encode(y.skip(3)) =~= e.skip(4));
            lemma_base64_injective(x.skip(3), y.skip(3));
            assert(x =~= seq![x[0], x[1], x[2]] + x.skip(3));
            assert(y =~= seq![y[0], y[1], y[2]] + y.skip(3));
        } else {
            assert(x =~= y);
        }
    }
}

/// Base64 text read back gives exactly the bytes it was made from.
pub proof fn law_base64_round_trip(bytes: Seq<u8>, decoded: Seq<u8>)
    requires
        base64_encode(decoded) == base64_encode(bytes),
    ensures
        decoded == bytes,
{
    lemma_base64_injective(decoded, bytes);
}

pub const MAX_PROFILE_CONNECTIONS: usize = 64;

pub const MAX_PROFILE_LINE: usize = 512;

pub const MAX_REQUESTS_PER_CONNECTION: usize = 8;

pub const MAX_PROFILES: usize = 10000;

pub const MAX_NAME_CHARS: usize = 64;

/// A client id is 32 lowercase hexadecimal digits.
pub open spec fn client_id_ok(value: Seq<char>) -> bool {
    value.len() == 32 && forall|i: int|
        0 <= i < 32 ==> ('0' <= #[trigger] value[i] <= '9' || 'a' <= value[i] <= 'f')
}

pub fn is_client_id(value: &str) -> (r: bool)
    ensures
        r == client_id_ok(value@),
{
    let chars = to_chars(value);
    if chars.len() != 32 {
        return false;
    }
    let mut i: usize = 0;
    while i < 32
        invariant
            chars@ == value@,
            chars@.len() == 32,
            i <= 32,
            forall|j: int| 0 <= j < i ==> ('0' <= #[trigger] chars@[j] <= '9' || 'a' <= chars@[j] <= 'f'),
        decreases 32 - i,
    {
        let c = chars[i];
        if !(('0' <= c && c <= '9') || ('a' <= c && c <= 'f')) {
            return false;
        }
        i = i + 1;
    }
    true
}

/// A display name reaches other people's screens: bounded length and no
/// control characters at all.
pub open spec fn name_ok(name: Seq<char>) -> bool {
    &&& 0 < name.len() <= MAX_NAME_CHARS
    &&& forall|i: int| 0 <= i < name.len() ==> !is_control(#[trigger] name[i])
}

/// The stored form of a typed name: trimmed, if it is acceptable then.
pub fn normalize_name(value: &str) -> (r: Option<String>)
    ensures
        match r {
            Some(n) => name_ok(trimmed(value@)) && n@ == trimmed(value@),
            None => !name_ok(trimmed(value@)),
        },
{
    let t = trim(value);
    let chars = to_chars(t.as_str());
    if chars.len() == 0 || chars.len() > MAX_NAME_CHARS {
        return None;
    }
    let mut i: usize = 0;
    while i < chars.len()
        invariant
            chars@ == t@,
            t@ == trimmed(value@),
            i <= chars@.len(),
            forall|j: int| 0 <= j < i ==> !is_control(#[trigger] chars@[j]),
        decreases chars@.len() - i,
    {
        if is_control_char(chars[i]) {
            assert(is_control(trimmed(value@)[i as int]));
            return None;
        }
        i = i + 1;
    }
    Some(t)
}

} // verus!

verus! {

/// A display name and when it was last set.
#[derive(Clone, Debug, PartialEq, Eq)]
pub struct Profile {
    pub name: String,
    pub updated_ms: u64,
}

/// The map a list of entries stands for.
pub open spec fn profile_map(s: Seq<(String, Profile)>) -> Map<Seq<char>, Profile>
    decreases s.len(),
{
    if s.len() == 0 {
        Map::empty()
    } else {
        profile_map(s.drop_last()).insert(s.last().0@, s.last().1)
    }
}

/// No client id occurs twice.
pub open spec fn distinct_clients(s: Seq<(String, Profile)>) -> bool {
    forall|i: int, j: int| 0 <= i < j < s.len() ==> (#[trigger] s[i]).0@ != (#[trigger] s[j]).0@
}

proof fn lemma_profile_map(s: Seq<(String, Profile)>)
    requires
        distinct_clients(s),
    ensures
        forall|k: Seq<char>| #[trigger] profile_map(s).contains_key(k) <==> exists|i: int| 0 <= i < s.len() && s[i].0@ == k,
        forall|i: int| 0 <= i < s.len() ==> #[trigger] profile_map(s)[s[i].0@] == s[i].1,
    decreases s.len(),
{
    if s.len() > 0 {
        let t = s.drop_last();
        assert forall|i: int, j: int| 0 <= i < j < t.len() implies (#[trigger] t[i]).0@ != (#[trigger] t[j]).0@ by {
            assert(t[i] == s[i] && t[j] == s[j]);
        }
        lemma_profile_map(t);
        assert forall|k: Seq<char>| #[trigger] profile_map(s).contains_key(k) implies exists|i: int| 0 <= i < s.len() && s[i].0@ == k by {
            if k != s.last().0@ {
                assert(profile_map(t).contains_key(k));
                let i = choose|i: int| 0 <= i < t.len() && t[i].0@ == k;
                assert(s[i] == t[i]);
            } else {
                assert(s[s.len() - 1].0@ == k);
            }
        }
        assert forall|k: Seq<char>| (exists|i: int| 0 <= i < s.len() && s[i].0@ == k) implies #[trigger] profile_map(s).contains_key(k) by {
            let i = choose|i: int| 0 <= i < s.len() && s[i].0@ == k;
            if i < s.len() - 1 {
                assert(t[i] == s[i]);
                assert(t[i].0@ == k);
                assert(profile_map(t).contains_key(k));
            }
            assert(profile_map(s) == profile_map(t).insert(s.last().0@, s.last().1));
        }
        assert forall|i: int| 0 <= i < s.len() implies #[trigger] profile_map(s)[s[i].0@] == s[i].1 by {
            assert(profile_map(s) == profile_map(t).insert(s.last().0@, s.last().1));
            if i < s.len() - 1 {
                assert(t[i] == s[i]);
                assert(s[i].0@ != s[s.len() - 1].0@);
                assert(profile_map(t)[t[i].0@] == t[i].1);
            }
        }
    }
}

proof fn lemma_profile_remove(s: Seq<(String, Profile)>, j: int)
    requires
        distinct_clients(s),
        0 <= j < s.len(),
    ensures
        distinct_clients(s.remove(j)),
        profile_map(s.remove(j)) == profile_map(s).remove(s[j].0@),
{
    let r = s.remove(j);
    assert forall|a: int, b: int| 0 <= a < b < r.len() implies (#[trigger] r[a]).0@ != (#[trigger] r[b]).0@ by {
        let a2 = if a < j { a } else { a + 1 };
        let b2 = if b < j { b } else { b + 1 };
        assert(r[a] == s[a2] && r[b] == s[b2]);
    }
    lemma_profile_map(s);
    lemma_profile_map(r);
    assert forall|k: Seq<char>| profile_map(r).contains_key(k) <==> profile_map(s).remove(s[j].0@).contains_key(k) by {
        if profile_map(r).contains_key(k) {
            let i = choose|i: int| 0 <= i < r.len() && r[i].0@ == k;
            let i2 = if i < j { i } else { i + 1 };
            assert(r[i] == s[i2]);
        }
        if profile_map(s).remove(s[j].0@).contains_key(k) {
            let i = choose|i: int| 0 <= i < s.len() && s[i].0@ == k;
            assert(i != j);
            let i2 = if i < j { i } else { i - 1 };
            assert(r[i2] == s[i]);
        }
    }
    assert forall|k: Seq<char>| #[trigger] profile_map(r).contains_key(k) implies profile_map(r)[k] == profile_map(s)[k] by {
        let i = choose|i: int| 0 <= i < r.len() && r[i].0@ == k;
        let i2 = if i < j { i } else { i + 1 };
        assert(r[i] == s[i2]);
        assert(profile_map(r)[r[i].0@] == r[i].1);
        assert(profile_map(s)[s[i2].0@] == s[i2].1);
    }
    assert(profile_map(r) =~= profile_map(s).remove(s[j].0@));
}

/// The entries of every client but `key`, in order.
fn others(entries: &Vec<(String, Profile)>, key: &String) -> (out: Vec<(String, Profile)>)
    requires
        distinct_clients(entries@),
    ensures
        distinct_clients(out@),
        out@.len() <= entries@.len(),
        profile_map(out@) == profile_map(entries@).remove(key@),
        forall|a: int| 0 <= a < out@.len() ==> (#[trigger] out@[a]).0@ != key@,
{
    let ghost s = entries@;
    let mut out: Vec<(String, Profile)> = Vec::new();
    let mut i: usize = 0;
    while i < entries.len()
        invariant
            i <= s.len(),
            s == entries@,
            distinct_clients(s),
            distinct_clients(out@),
            out@.len() <= i,
            profile_map(out@) == profile_map(s.take(i as int)).remove(key@),
            forall|a: int| 0 <= a < out@.len() ==> (#[trigger] out@[a]).0@ != key@,
            forall|a: int| 0 <= a < out@.len() ==> exists|b: int| 0 <= b < i && s[b].0@ == (#[trigger] out@[a]).0@,
        decreases s.len() - i,
    {
        proof {
            assert(s.take(i + 1).drop_last() =~= s.take(i as int));
        }
        if !(entries[i].0 == *key) {
            let e = (entries[i].0.clone(), Profile { name: entries[i].1.name.clone(), updated_ms: entries[i].1.updated_ms });
            let ghost prev = out@;
            proof {
                assert(e == s[i as int]);
            }
            out.push(e);
            proof {
                assert(out@.drop_last() =~= prev);
                assert forall|a: int, b: int| 0 <= a < b < out@.len() implies (#[trigger] out@[a]).0@ != (#[trigger] out@[b]).0@ by {
                    assert(out@[a] == prev[a]);
                    if b == out@.len() - 1 {
                        let c = choose|c: int| 0 <= c < i && s[c].0@ == prev[a].0@;
                    } else {
                        assert(out@[b] == prev[b]);
                    }
                }
                assert forall|a: int| 0 <= a < out@.len() implies exists|b: int| 0 <= b < i + 1 && s[b].0@ == (#[trigger] out@[a]).0@ by {
                    if a < out@.len() - 1 {
                        assert(out@[a] == prev[a]);
                        let c = choose|c: int| 0 <= c < i && s[c].0@ == prev[a].0@;
                    } else {
                        assert(s[i as int].0@ == out@[a].0@);
                    }
                }
                assert forall|a: int| 0 <= a < out@.len() implies (#[trigger] out@[a]).0@ != key@ by {
                    if a < out@.len() - 1 {
                        assert(out@[a] == prev[a]);
                    }
                }
                assert(profile_map(out@) =~= profile_map(s.take(i + 1)).remove(key@));
            }
        } else {
            proof {
                assert(profile_map(s.take(i + 1)).remove(key@) =~= profile_map(s.take(i as int)).remove(key@));
            }
        }
        i = i + 1;
    }
    proof {
        assert(s.take(s.len() as int) =~= s);
    }
    out
}

/// The entry at `j`, the oldest of all but the last, which is `client`'s,
/// is the profile of another client with the oldest update.
proof fn lemma_evicted_is_oldest(m: Map<Seq<char>, Profile>, client: Seq<char>, p: Profile, before: Seq<(String, Profile)>, j: int)
    requires
        distinct_clients(before),
        before.len() >= 2,
        0 <= j < before.len() - 1,
        before[before.len() - 1].0@ == client,
        profile_map(before) == m.insert(client, p),
        forall|a: int| 0 <= a < before.len() - 1 ==> before[j].1.updated_ms <= (#[trigger] before[a]).1.updated_ms,
    ensures
        before[j].0@ != client,
        m.contains_key(before[j].0@),
        m[before[j].0@] == before[j].1,
        forall|o: Seq<char>| o != client && #[trigger] m.contains_key(o) ==> m[before[j].0@].updated_ms <= m[o].updated_ms,
{
    lemma_profile_map(before);
    let last = before.len() - 1;
    assert(before[j].0@ != before[last].0@);
    assert(profile_map(before)[before[j].0@] == before[j].1);
    assert(profile_map(before).contains_key(before[j].0@));
    assert(m.insert(client, p).contains_key(before[j].0@));
    assert forall|o: Seq<char>| o != client && #[trigger] m.contains_key(o) implies m[before[j].0@].updated_ms <= m[o].updated_ms by {
        assert(profile_map(before).contains_key(o));
        let a = choose|a: int| 0 <= a < before.len() && before[a].0@ == o;
        assert(profile_map(before)[before[a].0@] == before[a].1);
        assert(a != last);
    }
}

/// Display names by client id. Cosmetic: never an authority on identity.
pub struct ProfileStore {
    entries: Vec<(String, Profile)>,
}

impl View for ProfileStore {
    type V = Map<Seq<char>, Profile>;

    closed spec fn view(&self) -> Map<Seq<char>, Profile> {
        profile_map(self.entries@)
    }
}

impl ProfileStore {
    pub closed spec fn wf(&self) -> bool {
        distinct_clients(self.entries@) && self.entries@.len() <= MAX_PROFILES
    }

    /// How many profiles the store holds.
    pub closed spec fn count(&self) -> int {
        self.entries@.len() as int
    }

    pub fn new() -> (r: Self)
        ensures
            r.wf(),
            r@ == Map::<Seq<char>, Profile>::empty(),
            r.count() == 0,
    {
        ProfileStore { entries: Vec::new() }
    }

    /// The display name stored for `client_id`.
    pub fn get(&self, client_id: &str) -> (r: Option<&str>)
        requires
            self.wf(),
        ensures
            match r {
                Some(n) => self@.contains_key(client_id@) && n@ == self@[client_id@].name@,
                None => !self@.contains_key(client_id@),
            },
    {
        proof {
            lemma_profile_map(self.entries@);
        }
        let key = client_id.to_owned();
        let mut i: usize = 0;
        while i < self.entries.len()
            invariant
                i <= self.entries@.len(),
                key@ == client_id@,
                distinct_clients(self.entries@),
                forall|j: int| 0 <= j < i ==> (#[trigger] self.entries@[j]).0@ != client_id@,
            decreases self.entries@.len() - i,
        {
            if self.entries[i].0 == key {
                proof {
                    lemma_profile_map(self.entries@);
                    assert(profile_map(self.entries@)[self.entries@[i as int].0@] == self.entries@[i as int].1);
                }
                return Some(self.entries[i].1.name.as_str());
            }
            i = i + 1;
        }
        proof {
            lemma_profile_map(self.entries@);
        }
        None
    }

    /// The store after setting `client_id`'s name to `name` at `updated_ms`.
    /// Over the limit, the profile of another client with the oldest update
    /// makes room. The store itself is unchanged: it adopts the result once
    /// the result is written.
    #[verifier::rlimit(40)]
    pub fn staged_put(&self, client_id: &str, name: &str, updated_ms: u64) -> (r: Self)
        requires
            self.wf(),
        ensures
            r.wf(),
            r@.contains_key(client_id@) && r@[client_id@].name@ == name@ && r@[client_id@].updated_ms == updated_ms,
            forall|k: Seq<char>| k != client_id@ && #[trigger] r@.contains_key(k) ==> self@.contains_key(k) && r@[k] == self@[k],
            forall|k: Seq<char>|
                k != client_id@ && #[trigger] self@.contains_key(k) && !r@.contains_key(k) ==> forall|o: Seq<char>|
                    o != client_id@ && #[trigger] self@.contains_key(o) ==> self@[k].updated_ms <= self@[o].updated_ms,
            forall|k: Seq<char>, o: Seq<char>|
                k != client_id@ && o != client_id@ && #[trigger] self@.contains_key(k) && !r@.contains_key(k)
                    && #[trigger] self@.contains_key(o) && !r@.contains_key(o) ==> k == o,
            self.count() < MAX_PROFILES ==> forall|k: Seq<char>| #[trigger] self@.contains_key(k) ==> r@.contains_key(k),
    {
        let key = client_id.to_owned();
        let mut out = others(&self.entries, &key);
        let ghost rest = out@;
        let p = Profile { name: name.to_owned(), updated_ms };
        let ghost fresh = (key, p);
        out.push((key, p));
        proof {
            assert(out@.drop_last() =~= rest);
            assert forall|a: int, b: int| 0 <= a < b < out@.len() implies (#[trigger] out@[a]).0@ != (#[trigger] out@[b]).0@ by {
                if b == out@.len() - 1 {
                    assert(out@[a] == rest[a]);
                } else {
                    assert(out@[a] == rest[a] && out@[b] == rest[b]);
                }
            }
            assert(profile_map(out@) =~= self@.insert(client_id@, p));
        }
        if out.len() > MAX_PROFILES {
            let last = out.len() - 1;
            let mut j: usize = 0;
            let mut k: usize = 1;
            while k < last
                invariant
                    last == out@.len() - 1,
                    last >= 1,
                    j < last,
                    k <= last,
                    forall|a: int| 0 <= a < k ==> out@[j as int].1.updated_ms <= (#[trigger] out@[a]).1.updated_ms,
                decreases last - k,
            {
                if out[k].1.updated_ms < out[j].1.updated_ms {
                    j = k;
                }
                k = k + 1;
            }
            let ghost before = out@;
            proof {
                lemma_profile_remove(before, j as int);
                lemma_evicted_is_oldest(self@, client_id@, p, before, j as int);
            }
            out.remove(j);
        }
        ProfileStore { entries: out }
    }
}

/// `c` as it stands inside a quoted name: a quote or backslash escaped.
pub open spec fn escaped_char(c: char) -> Seq<char> {
    if c == '"' {
        seq!['\\', '"']
    } else if c == '\\' {
        seq!['\\', '\\']
    } else {
        seq![c]
    }
}

/// A name as it stands between quotes.
pub open spec fn escaped(s: Seq<char>) -> Seq<char>
    decreases s.len(),
{
    if s.len() == 0 {
        Seq::empty()
    } else {
        escaped(s.drop_last()) + escaped_char(s.last())
    }
}

/// Reads a quoted string of the profile file from just after its opening
/// quote: the characters up to the first bare quote, with a backslash before
/// a quote or a backslash standing for that character, and what follows the
/// closing quote. A backslash before anything else is not read here.
pub open spec fn read_quoted(t: Seq<char>) -> Option<(Seq<char>, Seq<char>)>
    decreases t.len(),
{
    if t.len() == 0 {
        None
    } else if t[0] == '"' {
        Some((Seq::empty(), t.drop_first()))
    } else if t[0] == '\\' {
        if t.len() >= 2 && (t[1] == '"' || t[1] == '\\') {
            match read_quoted(t.skip(2)) {
                Some((v, rest)) => Some((seq![t[1]] + v, rest)),
                None => None,
            }
        } else {
            None
        }
    } else {
        match read_quoted(t.drop_first()) {
            Some((v, rest)) => Some((seq![t[0]] + v, rest)),
            None => None,
        }
    }
}

proof fn lemma_escaped_concat(x: Seq<char>, y: Seq<char>)
    ensures
        escaped(x + y) == escaped(x) + escaped(y),
    decreases y.len(),
{
    if y.len() == 0 {
        assert(x + y =~= x);
        assert(escaped(x) + escaped(y) =~= escaped(x));
    } else {
        assert((x + y).drop_last() =~= x + y.drop_last());
        assert((x + y).last() == y.last());
        lemma_escaped_concat(x, y.drop_last());
        assert(escaped(x) + escaped(y) =~= escaped(x) + escaped(y.drop_last()) + escaped_char(y.last()));
    }
}

/// A name written between quotes reads back as the same name, and the
/// reading stops at the closing quote, whatever follows it.
pub proof fn law_escaped_name_reads_back(s: Seq<char>, tail: Seq<char>)
    ensures
        read_quoted(escaped(s) + seq!['"'] + tail) == Some((s, tail)),
    decreases s.len(),
{
    let t = escaped(s) + seq!['"'] + tail;
    if s.len() == 0 {
        assert(escaped(s) =~= Seq::<char>::empty());
        assert(t =~= seq!['"'] + tail);
        assert(t.drop_first() =~= tail);
    } else {
        let c = s[0];
        let r = s.drop_first();
        assert(s =~= seq![c] + r);
        lemma_escaped_concat(seq![c], r);
        assert(seq![c].drop_last() =~= Seq::<char>::empty());
        assert(seq![c].last() == c);
        assert(escaped(Seq::<char>::empty()) =~= Seq::<char>::empty());
        assert(escaped(seq![c]) =~= escaped_char(c));
        let u = escaped(r) + seq!['"'] + tail;
        law_escaped_name_reads_back(r, tail);
        assert(t =~= escaped_char(c) + u);
        if c == '"' || c == '\\' {
            assert(t.skip(2) =~= u);
        } else {
            assert(t.drop_first() =~= u);
        }
        assert(seq![c] + r =~= s);
    }
}

/// One stored profile: `"<id>":{"name":"<name>","updatedMs":<ms>}`.
pub open spec fn profile_record(id: Seq<char>, p: Profile) -> Seq<char> {
    seq!['"'] + id + seq!['"', ':', '{', '"', 'n', 'a', 'm', 'e', '"', ':', '"'] + escaped(p.name@)
        + seq!['"', ',', '"', 'u', 'p', 'd', 'a', 't', 'e', 'd', 'M', 's', '"', ':'] + decimal(
        p.updated_ms as nat,
    ) + seq!['}']
}

/// The profile records, separated by commas.
pub open spec fn profile_records(s: Seq<(String, Profile)>) -> Seq<char>
    decreases s.len(),
{
    if s.len() == 0 {
        Seq::empty()
    } else if s.len() == 1 {
        profile_record(s[0].0@, s[0].1)
    } else {
        profile_records(s.drop_last()) + seq![','] + profile_record(s.last().0@, s.last().1)
    }
}

/// The profile file: one JSON object from client id to profile.
pub open spec fn profiles_text(s: Seq<(String, Profile)>) -> Seq<char> {
    seq!['{'] + profile_records(s) + seq!['}']
}

fn push_all(out: &mut String, cs: &[char])
    ensures
        final(out)@ == old(out)@ + cs@,
{
    let mut i: usize = 0;
    while i < cs.len()
        invariant
            i <= cs@.len(),
            out@ == old(out)@ + cs@.take(i as int),
        decreases cs@.len() - i,
    {
        push_char(out, cs[i]);
        i = i + 1;
        assert(out@ =~= old(out)@ + cs@.take(i as int));
    }
    assert(cs@.take(cs@.len() as int) =~= cs@);
}

fn push_escaped(out: &mut String, name: &String)
    ensures
        final(out)@ == old(out)@ + escaped(name@),
{
    let cs = to_chars(name.as_str());
    let mut i: usize = 0;
    while i < cs.len()
        invariant
            i <= cs@.len(),
            cs@ == name@,
            out@ == old(out)@ + escaped(cs@.take(i as int)),
        decreases cs@.len() - i,
    {
        let c = cs[i];
        proof {
            assert(cs@.take(i + 1).drop_last() =~= cs@.take(i as int));
        }
        if c == '"' {
            push_char(out, '\\');
            push_char(out, '"');
        } else if c == '\\' {
            push_char(out, '\\');
            push_char(out, '\\');
        } else {
            push_char(out, c);
        }
        i = i + 1;
        assert(out@ =~= old(out)@ + escaped(cs@.take(i as int)));
    }
    assert(cs@.take(cs@.len() as int) =~= cs@);
}

fn push_record(out: &mut String, id: &String, p: &Profile)
    ensures
        final(out)@ == old(out)@ + profile_record(id@, *p),
{
    let head: [char; 11] = ['"', ':', '{', '"', 'n', 'a', 'm', 'e', '"', ':', '"'];
    let mid: [char; 14] = ['"', ',', '"', 'u', 'p', 'd', 'a', 't', 'e', 'd', 'M', 's', '"', ':'];
    assert(head@ =~= seq!['"', ':', '{', '"', 'n', 'a', 'm', 'e', '"', ':', '"']);
    assert(mid@ =~= seq!['"', ',', '"', 'u', 'p', 'd', 'a', 't', 'e', 'd', 'M', 's', '"', ':']);
    push_char(out, '"');
    push_all(out, to_chars(id.as_str()).as_slice());
    push_all(out, &head);
    push_escaped(out, &p.name);
    push_all(out, &mid);
    push_decimal(out, p.updated_ms);
    push_char(out, '}');
    assert(final(out)@ =~= old(out)@ + profile_record(id@, *p));
}

impl ProfileStore {
    /// The entries in the order the store keeps them.
    pub closed spec fn listed(&self) -> Seq<(String, Profile)> {
        self.entries@
    }

    /// The store's map is that of its listed entries.
    pub proof fn lemma_listed(&self)
        ensures
            self@ == profile_map(self.listed()),
    {
    }

    /// The text of the profile file for this store.
    pub fn encode(&self) -> (r: String)
        ensures
            r@ == profiles_text(self.listed()),
    {
        let mut out = String::new();
        push_char(&mut out, '{');
        let mut i: usize = 0;
        while i < self.entries.len()
            invariant
                i <= self.entries@.len(),
                out@ == seq!['{'] + profile_records(self.entries@.take(i as int)),
            decreases self.entries@.len() - i,
        {
            proof {
                assert(self.entries@.take(i + 1).drop_last() =~= self.entries@.take(i as int));
            }
            let ghost before = out@;
            if i > 0 {
                push_char(&mut out, ',');
            }
            push_record(&mut out, &self.entries[i].0, &self.entries[i].1);
            i = i + 1;
            proof {
                if i == 1 {
                    assert(self.entries@.take(1)[0] == self.entries@[0]);
                    assert(before =~= seq!['{'] + Seq::<char>::empty());
                }
            }
            assert(out@ =~= seq!['{'] + profile_records(self.entries@.take(i as int)));
        }
        push_char(&mut out, '}');
        assert(self.entries@.take(self.entries@.len() as int) =~= self.entries@);
        out
    }
}

} // verus!
