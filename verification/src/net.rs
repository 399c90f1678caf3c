pub mod admin;
pub mod directory;
pub mod frame;
pub mod join;
pub mod join_steps;
pub mod locate;
pub mod profiles;
pub mod session;
pub mod short_code;
pub mod vaults;

use vstd::prelude::*;

use crate::error::{Error, Result};
use crate::text::{push_char, utf8_bytes};

verus! {

/// A 16-byte vault admission secret.
#[derive(Clone, Copy, Eq, PartialOrd, Ord, Hash)]
pub struct JoinCode(pub [u8; 16]);

/// A 32-byte vault identifier.
#[derive(Clone, Copy, Debug, Eq, PartialOrd, Ord, Hash)]
pub struct VaultId(pub [u8; 32]);

impl View for JoinCode {
    type V = Seq<u8>;

    open spec fn view(&self) -> Seq<u8> {
        self.0@
    }
}

impl View for VaultId {
    type V = Seq<u8>;

    open spec fn view(&self) -> Seq<u8> {
        self.0@
    }
}

/// Whether a string is `expected_len` Base32 characters with zero trailing
/// bits.
pub open spec fn base32_token(s: Seq<char>, expected_len: int) -> bool {
    let b = utf8_bytes(s);
    b.len() == expected_len && base32_text(b) && base32_canonical(b)
}

/// Checks the shape of a Base32 token and decodes it.
fn decode_token(value: &str, expected_len: usize) -> (r: Option<Vec<u8>>)
    requires
        expected_len <= 1024,
    ensures
        match r {
            Some(v) => base32_token(value@, expected_len as int) && v@ == base32_decode(
                utf8_bytes(value@),
            ),
            None => !base32_token(value@, expected_len as int),
        },
{
    let bytes = value.as_bytes();
    assert(bytes@ == utf8_bytes(value@));
    if bytes.len() != expected_len {
        return None;
    }
    let mut i: usize = 0;
    while i < bytes.len()
        invariant
            i <= bytes@.len(),
            bytes@ == utf8_bytes(value@),
            forall|j: int| 0 <= j < i ==> base32_value(#[trigger] bytes@[j]) is Some,
        decreases bytes@.len() - i,
    {
        if base32_value_of(bytes[i]).is_none() {
            assert(!base32_text(bytes@));
            return None;
        }
        i = i + 1;
    }
    match decode_base32(bytes) {
        Ok(v) => Some(v),
        Err(_) => None,
    }
}

impl JoinCode {
    /// A fresh random join code; fails only when the operating system's
    /// random source does.
    pub fn generate() -> (r: Result<Self>)
        ensures
            r matches Err(e) ==> e is State,
    {
        match crate::crypto::random::random_bytes::<16>() {
            Some(bytes) => Ok(JoinCode(bytes)),
            None => Err(Error::State("OS entropy unavailable")),
        }
    }

    /// The canonical text: 26 upper-case Base32 characters.
    pub fn to_string(&self) -> (r: String)
        ensures
            r@ == base32_encode(self.0@),
    {
        encode_base32(&self.0)
    }

    /// Parses the canonical text form.
    pub fn from_str(value: &str) -> (r: Result<Self>)
        ensures
            match r {
                Ok(code) => base32_token(value@, 26) && code.0@ == base32_decode(utf8_bytes(value@)),
                Err(e) => e is InvalidInput && !base32_token(value@, 26),
            },
    {
        let decoded = match decode_token(value, 26) {
            Some(v) => v,
            None => {
                return Err(Error::InvalidInput("join code must be 26 uppercase RFC 4648 Base32 characters"));
            },
        };
        let mut out = [0u8; 16];
        let mut i: usize = 0;
        while i < 16
            invariant
                i <= 16,
                decoded@.len() == 16,
                forall|j: int| 0 <= j < i ==> out@[j] == decoded@[j],
            decreases 16 - i,
        {
            out[i] = decoded[i];
            i = i + 1;
        }
        assert(out@ =~= decoded@);
        Ok(JoinCode(out))
    }

    /// The debugging text never shows the code.
    pub fn debug_text(&self) -> (r: &'static str)
        ensures
            r@ == "JoinCode(<redacted>)"@,
    {
        "JoinCode(<redacted>)"
    }
}

impl VaultId {
    /// A fresh random vault identifier; fails only when the operating
    /// system's random source does.
    pub fn generate() -> (r: Result<Self>)
        ensures
            r matches Err(e) ==> e is State,
    {
        match crate::crypto::random::random_bytes::<32>() {
            Some(bytes) => Ok(VaultId(bytes)),
            None => Err(Error::State("OS entropy unavailable")),
        }
    }

    /// The canonical text: 52 upper-case Base32 characters.
    pub fn to_string(&self) -> (r: String)
        ensures
            r@ == base32_encode(self.0@),
    {
        encode_base32(&self.0)
    }

    /// Parses the canonical text form.
    pub fn from_str(value: &str) -> (r: Result<Self>)
        ensures
            match r {
                Ok(id) => base32_token(value@, 52) && id.0@ == base32_decode(utf8_bytes(value@)),
                Err(e) => e is InvalidInput && !base32_token(value@, 52),
            },
    {
        let decoded = match decode_token(value, 52) {
            Some(v) => v,
            None => {
                return Err(Error::InvalidInput("vault id must be 52 uppercase RFC 4648 Base32 characters"));
            },
        };
        let mut out = [0u8; 32];
        let mut i: usize = 0;
        while i < 32
            invariant
                i <= 32,
                decoded@.len() == 32,
                forall|j: int| 0 <= j < i ==> out@[j] == decoded@[j],
            decreases 32 - i,
        {
            out[i] = decoded[i];
            i = i + 1;
        }
        assert(out@ =~= decoded@);
        Ok(VaultId(out))
    }

    /// The debugging text never shows the identifier.
    pub fn debug_text(&self) -> (r: &'static str)
        ensures
            r@ == "VaultId(<redacted>)"@,
    {
        "VaultId(<redacted>)"
    }
}

pub fn bytes16_eq(a: &[u8; 16], b: &[u8; 16]) -> (r: bool)
    ensures
        r == (a@ == b@),
{
    let mut i: usize = 0;
    while i < 16
        invariant
            i <= 16,
            a@.len() == 16,
            b@.len() == 16,
            forall|j: int| 0 <= j < i ==> a@[j] == b@[j],
        decreases 16 - i,
    {
        if a[i] != b[i] {
            return false;
        }
        i = i + 1;
    }
    assert(a@ =~= b@);
    true
}

impl PartialEq for JoinCode {
    fn eq(&self, other: &Self) -> (r: bool) {
        bytes16_eq(&self.0, &other.0)
    }
}

impl vstd::std_specs::cmp::PartialEqSpecImpl for JoinCode {
    open spec fn obeys_eq_spec() -> bool {
        true
    }

    open spec fn eq_spec(&self, other: &Self) -> bool {
        self.0@ == other.0@
    }
}

impl PartialEq for VaultId {
    fn eq(&self, other: &Self) -> (r: bool) {
        crate::ids::bytes32_eq(&self.0, &other.0)
    }
}

impl vstd::std_specs::cmp::PartialEqSpecImpl for VaultId {
    open spec fn obeys_eq_spec() -> bool {
        true
    }

    open spec fn eq_spec(&self, other: &Self) -> bool {
        self.0@ == other.0@
    }
}

// ---------------------------------------------------------------------------
// RFC 4648 Base32, upper case, without padding
// ---------------------------------------------------------------------------

pub open spec fn base32_alphabet() -> Seq<char> {
    seq![
        'A', 'B', 'C', 'D', 'E', 'F', 'G', 'H', 'I', 'J', 'K', 'L', 'M', 'N', 'O', 'P', 'Q', 'R',
        'S', 'T', 'U', 'V', 'W', 'X', 'Y', 'Z', '2', '3', '4', '5', '6', '7',
    ]
}

/// The byte at `k`, or zero past the end.
pub open spec fn byte_or_zero(b: Seq<u8>, k: int) -> u32 {
    if 0 <= k < b.len() {
        b[k] as u32
    } else {
        0
    }
}

/// Digit `i`: the five bits of `b` starting at bit `5 * i`, most significant
/// bit first, with zero bits past the end.
pub open spec fn base32_digit(b: Seq<u8>, i: int) -> u32 {
    let q = (5 * i) / 8;
    let r = (5 * i) % 8;
    (((byte_or_zero(b, q) * 256 + byte_or_zero(b, q + 1)) as u32) >> ((11 - r) as u32)) & 31u32
}

/// Enough digits for every bit.
pub open spec fn base32_len(n: int) -> int {
    (8 * n + 4) / 5
}

pub open spec fn base32_encode(b: Seq<u8>) -> Seq<char> {
    Seq::new(base32_len(b.len() as int) as nat, |i: int| base32_alphabet()[base32_digit(b, i) as int])
}

/// The value of a Base32 character byte.
pub open spec fn base32_value(c: u8) -> Option<u32> {
    if 65 <= c <= 90 {
        Some((c - 65) as u32)
    } else if 50 <= c <= 55 {
        Some((c - 24) as u32)
    } else {
        None
    }
}

pub open spec fn base32_text(s: Seq<u8>) -> bool {
    forall|j: int| 0 <= j < s.len() ==> base32_value(#[trigger] s[j]) is Some
}

pub open spec fn digit_or_zero(s: Seq<u8>, j: int) -> u32 {
    if 0 <= j < s.len() {
        base32_value(s[j]).unwrap()
    } else {
        0
    }
}

/// Byte `k` of the decoding: the eight bits starting at bit `8 * k` of the
/// digit stream.
pub open spec fn base32_byte(s: Seq<u8>, k: int) -> u8 {
    let q = (8 * k) / 5;
    let r = (8 * k) % 5;
    ((((digit_or_zero(s, q) * 1024 + digit_or_zero(s, q + 1) * 32 + digit_or_zero(s, q + 2))
        as u32) >> ((7 - r) as u32)) & 255u32) as u8
}

pub open spec fn base32_decode(s: Seq<u8>) -> Seq<u8> {
    Seq::new(((5 * s.len()) / 8) as nat, |k: int| base32_byte(s, k))
}

/// The bits past the last whole byte are zero.
pub open spec fn base32_canonical(s: Seq<u8>) -> bool {
    let a = 5 * s.len() - 8 * ((5 * s.len()) / 8);
    a == 0 || (((digit_or_zero(s, s.len() - 2) * 32 + digit_or_zero(s, s.len() - 1)) as u32) & ((
    1u32 << (a as u32)) - 1) as u32) == 0
}

pub(crate) fn base32_char_of(d: u32) -> (c: char)
    requires
        d < 32,
    ensures
        c == base32_alphabet()[d as int],
{
    let alphabet: [char; 32] = [
        'A', 'B', 'C', 'D', 'E', 'F', 'G', 'H', 'I', 'J', 'K', 'L', 'M', 'N', 'O', 'P', 'Q', 'R',
        'S', 'T', 'U', 'V', 'W', 'X', 'Y', 'Z', '2', '3', '4', '5', '6', '7',
    ];
    assert(alphabet@ =~= base32_alphabet());
    alphabet[d as usize]
}

fn byte_at(b: &[u8], k: usize) -> (r: u32)
    ensures
        r == byte_or_zero(b@, k as int),
{
    if k < b.len() {
        b[k] as u32
    } else {
        0
    }
}

/// Canonical upper-case unpadded Base32.
pub fn encode_base32(bytes: &[u8]) -> (r: String)
    ensures
        r@ == base32_encode(bytes@),
{
    let n = bytes.len();
    let mut out = String::new();
    let mut q: usize = 0;
    let mut r: usize = 0;
    let ghost mut i: int = 0;
    while q < n
        invariant
            n == bytes@.len(),
            r < 8,
            5 * i == 8 * q + r,
            q <= n,
            q == n ==> r <= 4,
            out@.len() == i,
            forall|j: int| 0 <= j < i ==> out@[j] == base32_alphabet()[base32_digit(bytes@, j) as int],
        decreases n - q, 8 - r,
    {
        let w: u32 = byte_at(bytes, q) * 256 + byte_at(bytes, q + 1);
        let d = (w >> ((11 - r) as u32)) & 31u32;
        assert(d < 32) by (bit_vector)
            requires
                d == (w >> ((11 - r) as u32)) & 31u32,
        ;
        assert((5 * i) / 8 == q && (5 * i) % 8 == r);
        push_char(&mut out, base32_char_of(d));
        proof {
            i = i + 1;
        }
        if r + 5 >= 8 {
            r = r + 5 - 8;
            q = q + 1;
        } else {
            r = r + 5;
        }
    }
    proof {
        assert(i == base32_len(n as int)) by (nonlinear_arith)
            requires
                5 * i == 8 * n + r,
                r <= 4,
                r >= 0,
        ;
        assert(out@ =~= base32_encode(bytes@));
    }
    out
}

pub(crate) fn base32_value_of(c: u8) -> (r: Option<u32>)
    ensures
        r == base32_value(c),
{
    if 65 <= c && c <= 90 {
        Some((c - 65) as u32)
    } else if 50 <= c && c <= 55 {
        Some((c - 24) as u32)
    } else {
        None
    }
}

/// Decodes Base32 text that has already been checked to use the alphabet.
fn decode_base32(value: &[u8]) -> (r: Result<Vec<u8>>)
    requires
        base32_text(value@),
        value@.len() <= 1024,
    ensures
        match r {
            Ok(v) => base32_canonical(value@) && v@ == base32_decode(value@),
            Err(e) => e is InvalidInput && !base32_canonical(value@),
        },
{
    let n = value.len();
    let total: usize = 5 * n;
    let count = total / 8;
    let mut out: Vec<u8> = Vec::new();
    let mut k: usize = 0;
    while k < count
        invariant
            n == value@.len(),
            n <= 1024,
            base32_text(value@),
            count == (5 * n) / 8,
            k <= count,
            out@.len() == k,
            forall|j: int| 0 <= j < k ==> out@[j] == base32_byte(value@, j),
        decreases count - k,
    {
        let b = 8 * k;
        let q = b / 5;
        let r = b % 5;
        let d0 = digit_at(value, q);
        let d1 = digit_at(value, q + 1);
        let d2 = digit_at(value, q + 2);
        let w: u32 = d0 * 1024 + d1 * 32 + d2;
        out.push(((w >> ((7 - r) as u32)) & 255u32) as u8);
        k = k + 1;
    }
    let a = total - 8 * count;
    assert(a < 8);
    if a != 0 {
        let t0: u32 = if n >= 2 {
            digit_at(value, n - 2)
        } else {
            0
        };
        let t1: u32 = if n >= 1 {
            digit_at(value, n - 1)
        } else {
            0
        };
        let tail: u32 = t0 * 32 + t1;
        let a32 = a as u32;
        assert(1u32 << a32 >= 1) by (bit_vector)
            requires
                a32 < 8,
        ;
        let mask: u32 = (1u32 << a32) - 1;
        if tail & mask != 0 {
            return Err(Error::InvalidInput("non-canonical Base32 trailing bits"));
        }
    }
    assert(out@ =~= base32_decode(value@));
    Ok(out)
}

fn digit_at(value: &[u8], j: usize) -> (r: u32)
    requires
        base32_text(value@),
    ensures
        r == digit_or_zero(value@, j as int),
        r < 32,
{
    if j < value.len() {
        match base32_value_of(value[j]) {
            Some(d) => d,
            None => {
                assert(base32_value(value@[j as int]) is Some);
                0
            },
        }
    } else {
        0
    }
}

} // verus!
