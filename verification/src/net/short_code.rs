//! Human-typable six-character join codes. The wire protocol keeps using the
//! 16-byte join code; a short code is only a typing surface that derives into
//! one deterministically.

use vstd::prelude::*;

use crate::crypto::hash::{sha256, sha256_digest};
use crate::error::{Error, Result};
use crate::net::{base32_alphabet, base32_text, base32_value, JoinCode};
use crate::text::{push_char, to_uppercase, trim, uppercased, trimmed, utf8_bytes};
use crate::wire::push_bytes;

verus! {

pub const SHORT_LEN: usize = 6;

/// Six characters of the Base32 alphabet, which has no 0/1/8/9 to mistype.
pub open spec fn short_code_ok(s: Seq<char>) -> bool {
    utf8_bytes(s).len() == SHORT_LEN && base32_text(utf8_bytes(s))
}

pub open spec fn short_domain() -> Seq<u8> {
    seq![113u8, 102, 115, 47, 118, 49, 47, 115, 104, 111, 114, 116, 45, 99, 111, 100, 101, 47]
}

/// What a typed short code stands for once trimmed and upper-cased.
pub open spec fn typed_form(value: Seq<char>) -> Seq<char> {
    uppercased(trimmed(value))
}

/// Six alphabet characters from operating-system randomness. The alphabet
/// has 32 letters, so masking each byte is unbiased.
pub fn generate() -> (r: Result<String>)
    ensures
        match r {
            Ok(s) => s@.len() == SHORT_LEN && forall|i: int|
                0 <= i < s@.len() ==> base32_alphabet().contains(#[trigger] s@[i]),
            Err(e) => e is State,
        },
{
    let bytes = match crate::crypto::random::random_bytes::<6>() {
        Some(b) => b,
        None => {
            return Err(Error::State("OS entropy unavailable"));
        },
    };
    let mut out = String::new();
    let mut i: usize = 0;
    while i < 6
        invariant
            i <= 6,
            out@.len() == i,
            forall|j: int| 0 <= j < i ==> base32_alphabet().contains(#[trigger] out@[j]),
        decreases 6 - i,
    {
        let b = bytes[i];
        let m = b & 0x1f;
        assert(m < 32) by (bit_vector)
            requires
                m == b & 0x1f,
        ;
        let d = m as u32;
        let c = crate::net::base32_char_of(d);
        push_char(&mut out, c);
        proof {
            assert(out@[i as int] == c);
            assert(base32_alphabet()[d as int] == c);
        }
        i = i + 1;
    }
    Ok(out)
}

/// The canonical form of text that is already trimmed and upper-cased.
pub fn canonical_short(upper: String) -> (r: Option<String>)
    ensures
        match r {
            Some(v) => short_code_ok(upper@) && v@ == upper@,
            None => !short_code_ok(upper@),
        },
{
    let bytes = upper.as_str().as_bytes();
    assert(bytes@ == utf8_bytes(upper@));
    if bytes.len() != SHORT_LEN {
        return None;
    }
    let mut i: usize = 0;
    while i < bytes.len()
        invariant
            i <= bytes@.len(),
            bytes@ == utf8_bytes(upper@),
            forall|j: int| 0 <= j < i ==> base32_value(#[trigger] bytes@[j]) is Some,
        decreases bytes@.len() - i,
    {
        if crate::net::base32_value_of(bytes[i]).is_none() {
            assert(!base32_text(bytes@));
            return None;
        }
        i = i + 1;
    }
    Some(upper)
}

/// Canonical form of what a human typed, or `None` when it is not a short
/// code.
pub fn normalize(value: &str) -> (r: Option<String>)
    ensures
        match r {
            Some(v) => short_code_ok(typed_form(value@)) && v@ == typed_form(value@),
            None => !short_code_ok(typed_form(value@)),
        },
{
    let trimmed_value = trim(value);
    let upper = to_uppercase(trimmed_value.as_str());
    canonical_short(upper)
}

/// The join code a short code stands for: the first 16 bytes of a
/// domain-separated SHA-256 over its canonical ASCII.
pub fn derive(short: &str) -> (r: Result<JoinCode>)
    ensures
        match r {
            Ok(code) => short_code_ok(typed_form(short@)) && code.0@ == sha256_digest(
                short_domain() + utf8_bytes(typed_form(short@)),
            ).take(16),
            Err(e) => e is InvalidInput && !short_code_ok(typed_form(short@)),
        },
{
    let normalized = match normalize(short) {
        Some(n) => n,
        None => {
            return Err(Error::InvalidInput("short code must be 6 characters from A-Z2-7"));
        },
    };
    let domain: [u8; 18] = [113, 102, 115, 47, 118, 49, 47, 115, 104, 111, 114, 116, 45, 99, 111, 100, 101, 47];
    assert(domain@ =~= short_domain());
    let mut input: Vec<u8> = Vec::new();
    push_bytes(&mut input, &domain);
    push_bytes(&mut input, normalized.as_str().as_bytes());
    let digest = sha256(input.as_slice());
    let mut out = [0u8; 16];
    let mut i: usize = 0;
    while i < 16
        invariant
            i <= 16,
            forall|j: int| 0 <= j < i ==> out@[j] == digest@[j],
        decreases 16 - i,
    {
        out[i] = digest[i];
        i = i + 1;
    }
    assert(out@ =~= digest@.take(16));
    Ok(JoinCode(out))
}

} // verus!
