//! Byte-level building blocks of the canonical encodings: big-endian
//! integers, u32-length-prefixed fields, and a bounds-checked reader.

use vstd::prelude::*;

use crate::error::{Error, Result};

verus! {

/// Big-endian bytes of a u32.
pub open spec fn be32(x: u32) -> Seq<u8> {
    seq![(x >> 24u32) as u8, (x >> 16u32) as u8, (x >> 8u32) as u8, x as u8]
}

/// Big-endian bytes of a u64.
pub open spec fn be64(x: u64) -> Seq<u8> {
    seq![
        (x >> 56u64) as u8,
        (x >> 48u64) as u8,
        (x >> 40u64) as u8,
        (x >> 32u64) as u8,
        (x >> 24u64) as u8,
        (x >> 16u64) as u8,
        (x >> 8u64) as u8,
        x as u8,
    ]
}

/// The u32 whose big-endian bytes start `s`.
pub open spec fn from_be32(s: Seq<u8>) -> u32 {
    ((s[0] as u32) << 24u32) | ((s[1] as u32) << 16u32) | ((s[2] as u32) << 8u32) | (s[3] as u32)
}

/// The u64 whose big-endian bytes start `s`.
pub open spec fn from_be64(s: Seq<u8>) -> u64 {
    ((s[0] as u64) << 56u64) | ((s[1] as u64) << 48u64) | ((s[2] as u64) << 40u64) | ((s[3]
        as u64) << 32u64) | ((s[4] as u64) << 24u64) | ((s[5] as u64) << 16u64) | ((s[6] as u64)
        << 8u64) | (s[7] as u64)
}

/// A variable field: its length as a big-endian u32, then its bytes.
pub open spec fn var(v: Seq<u8>) -> Seq<u8> {
    be32(v.len() as u32) + v
}

/// Whether a field fits the u32 length prefix.
pub open spec fn fits_u32(n: int) -> bool {
    0 <= n <= u32::MAX
}

pub proof fn lemma_be32(x: u32)
    ensures
        be32(x).len() == 4,
        from_be32(be32(x)) == x,
{
    let b0 = (x >> 24u32) as u8;
    let b1 = (x >> 16u32) as u8;
    let b2 = (x >> 8u32) as u8;
    let b3 = x as u8;
    assert(((b0 as u32) << 24u32) | ((b1 as u32) << 16u32) | ((b2 as u32) << 8u32) | (b3 as u32)
        == x) by (bit_vector)
        requires
            b0 == (x >> 24u32) as u8,
            b1 == (x >> 16u32) as u8,
            b2 == (x >> 8u32) as u8,
            b3 == x as u8,
    ;
}

pub proof fn lemma_be32_canonical(s: Seq<u8>)
    requires
        s.len() == 4,
    ensures
        be32(from_be32(s)) == s,
{
    let b0 = s[0];
    let b1 = s[1];
    let b2 = s[2];
    let b3 = s[3];
    let x = ((b0 as u32) << 24u32) | ((b1 as u32) << 16u32) | ((b2 as u32) << 8u32) | (b3 as u32);
    assert((x >> 24u32) as u8 == b0 && (x >> 16u32) as u8 == b1 && (x >> 8u32) as u8 == b2
        && x as u8 == b3) by (bit_vector)
        requires
            x == ((b0 as u32) << 24u32) | ((b1 as u32) << 16u32) | ((b2 as u32) << 8u32) | (
            b3 as u32),
    ;
    assert(be32(from_be32(s)) =~= s);
}

pub proof fn lemma_be64(x: u64)
    ensures
        be64(x).len() == 8,
        from_be64(be64(x)) == x,
{
    let b0 = (x >> 56u64) as u8;
    let b1 = (x >> 48u64) as u8;
    let b2 = (x >> 40u64) as u8;
    let b3 = (x >> 32u64) as u8;
    let b4 = (x >> 24u64) as u8;
    let b5 = (x >> 16u64) as u8;
    let b6 = (x >> 8u64) as u8;
    let b7 = x as u8;
    assert(((b0 as u64) << 56u64) | ((b1 as u64) << 48u64) | ((b2 as u64) << 40u64) | ((b3
        as u64) << 32u64) | ((b4 as u64) << 24u64) | ((b5 as u64) << 16u64) | ((b6 as u64)
        << 8u64) | (b7 as u64) == x) by (bit_vector)
        requires
            b0 == (x >> 56u64) as u8,
            b1 == (x >> 48u64) as u8,
            b2 == (x >> 40u64) as u8,
            b3 == (x >> 32u64) as u8,
            b4 == (x >> 24u64) as u8,
            b5 == (x >> 16u64) as u8,
            b6 == (x >> 8u64) as u8,
            b7 == x as u8,
    ;
}

pub proof fn lemma_be64_canonical(s: Seq<u8>)
    requires
        s.len() == 8,
    ensures
        be64(from_be64(s)) == s,
{
    let b0 = s[0];
    let b1 = s[1];
    let b2 = s[2];
    let b3 = s[3];
    let b4 = s[4];
    let b5 = s[5];
    let b6 = s[6];
    let b7 = s[7];
    let x = ((b0 as u64) << 56u64) | ((b1 as u64) << 48u64) | ((b2 as u64) << 40u64) | ((b3
        as u64) << 32u64) | ((b4 as u64) << 24u64) | ((b5 as u64) << 16u64) | ((b6 as u64)
        << 8u64) | (b7 as u64);
    assert((x >> 56u64) as u8 == b0 && (x >> 48u64) as u8 == b1 && (x >> 40u64) as u8 == b2
        && (x >> 32u64) as u8 == b3 && (x >> 24u64) as u8 == b4 && (x >> 16u64) as u8 == b5
        && (x >> 8u64) as u8 == b6 && x as u8 == b7) by (bit_vector)
        requires
            x == ((b0 as u64) << 56u64) | ((b1 as u64) << 48u64) | ((b2 as u64) << 40u64) | ((
            b3 as u64) << 32u64) | ((b4 as u64) << 24u64) | ((b5 as u64) << 16u64) | ((b6
                as u64) << 8u64) | (b7 as u64),
    ;
    assert(be64(from_be64(s)) =~= s);
}

pub proof fn lemma_be32_injective(x: u32, y: u32)
    requires
        be32(x) == be32(y),
    ensures
        x == y,
{
    lemma_be32(x);
    lemma_be32(y);
}

pub proof fn lemma_be64_injective(x: u64, y: u64)
    requires
        be64(x) == be64(y),
    ensures
        x == y,
{
    lemma_be64(x);
    lemma_be64(y);
}

// ---------------------------------------------------------------------------
// Parsing the front of a byte sequence. Each parser returns the value and the
// bytes that follow it, or None when the input is too short or malformed.
// ---------------------------------------------------------------------------

pub open spec fn take_bytes(s: Seq<u8>, n: int) -> Option<(Seq<u8>, Seq<u8>)> {
    if 0 <= n <= s.len() {
        Some((s.take(n), s.skip(n)))
    } else {
        None
    }
}

pub open spec fn take_u8(s: Seq<u8>) -> Option<(u8, Seq<u8>)> {
    if 1 <= s.len() {
        Some((s[0], s.skip(1)))
    } else {
        None
    }
}

pub open spec fn take_u32(s: Seq<u8>) -> Option<(u32, Seq<u8>)> {
    if 4 <= s.len() {
        Some((from_be32(s.take(4)), s.skip(4)))
    } else {
        None
    }
}

pub open spec fn take_u64(s: Seq<u8>) -> Option<(u64, Seq<u8>)> {
    if 8 <= s.len() {
        Some((from_be64(s.take(8)), s.skip(8)))
    } else {
        None
    }
}

pub open spec fn take_var(s: Seq<u8>) -> Option<(Seq<u8>, Seq<u8>)> {
    match take_u32(s) {
        Some((n, rest)) => take_bytes(rest, n as int),
        None => None,
    }
}

/// A record count that cannot exceed what the remaining bytes could hold when
/// every record occupies at least `minimum` bytes.
pub open spec fn take_count(s: Seq<u8>, minimum: int) -> Option<(u32, Seq<u8>)> {
    match take_u32(s) {
        Some((n, rest)) => if n <= (rest.len() as int) / minimum {
            Some((n, rest))
        } else {
            None
        },
        None => None,
    }
}

pub proof fn lemma_take_bytes(a: Seq<u8>, rest: Seq<u8>)
    ensures
        take_bytes(a + rest, a.len() as int) == Some((a, rest)),
{
    assert((a + rest).take(a.len() as int) =~= a);
    assert((a + rest).skip(a.len() as int) =~= rest);
}

pub proof fn lemma_take_bytes_inverse(s: Seq<u8>, n: int)
    requires
        take_bytes(s, n) is Some,
    ensures
        s == take_bytes(s, n).unwrap().0 + take_bytes(s, n).unwrap().1,
        take_bytes(s, n).unwrap().0.len() == n,
{
    assert(s =~= s.take(n) + s.skip(n));
}

pub proof fn lemma_take_u8(b: u8, rest: Seq<u8>)
    ensures
        take_u8(seq![b] + rest) == Some((b, rest)),
{
    assert((seq![b] + rest).skip(1) =~= rest);
}

pub proof fn lemma_take_u8_inverse(s: Seq<u8>)
    requires
        take_u8(s) is Some,
    ensures
        s == seq![take_u8(s).unwrap().0] + take_u8(s).unwrap().1,
{
    assert(s =~= seq![s[0]] + s.skip(1));
}

pub proof fn lemma_take_u32(x: u32, rest: Seq<u8>)
    ensures
        take_u32(be32(x) + rest) == Some((x, rest)),
{
    lemma_be32(x);
    assert((be32(x) + rest).take(4) =~= be32(x));
    assert((be32(x) + rest).skip(4) =~= rest);
}

pub proof fn lemma_take_u32_inverse(s: Seq<u8>)
    requires
        take_u32(s) is Some,
    ensures
        s == be32(take_u32(s).unwrap().0) + take_u32(s).unwrap().1,
{
    lemma_be32_canonical(s.take(4));
    assert(s =~= s.take(4) + s.skip(4));
}

pub proof fn lemma_take_u64(x: u64, rest: Seq<u8>)
    ensures
        take_u64(be64(x) + rest) == Some((x, rest)),
{
    lemma_be64(x);
    assert((be64(x) + rest).take(8) =~= be64(x));
    assert((be64(x) + rest).skip(8) =~= rest);
}

pub proof fn lemma_take_u64_inverse(s: Seq<u8>)
    requires
        take_u64(s) is Some,
    ensures
        s == be64(take_u64(s).unwrap().0) + take_u64(s).unwrap().1,
{
    lemma_be64_canonical(s.take(8));
    assert(s =~= s.take(8) + s.skip(8));
}

pub proof fn lemma_take_var(v: Seq<u8>, rest: Seq<u8>)
    requires
        fits_u32(v.len() as int),
    ensures
        take_var(var(v) + rest) == Some((v, rest)),
{
    let n = v.len() as u32;
    assert(var(v) + rest =~= be32(n) + (v + rest));
    lemma_take_u32(n, v + rest);
    lemma_take_bytes(v, rest);
}

pub proof fn lemma_take_var_inverse(s: Seq<u8>)
    requires
        take_var(s) is Some,
    ensures
        s == var(take_var(s).unwrap().0) + take_var(s).unwrap().1,
        fits_u32(take_var(s).unwrap().0.len() as int),
{
    lemma_take_u32_inverse(s);
    let (n, r) = take_u32(s).unwrap();
    lemma_take_bytes_inverse(r, n as int);
    let v = take_var(s).unwrap().0;
    assert(v.len() == n);
    assert(s =~= var(v) + take_var(s).unwrap().1);
}

pub proof fn lemma_take_count_inverse(s: Seq<u8>, minimum: int)
    requires
        take_count(s, minimum) is Some,
    ensures
        s == be32(take_count(s, minimum).unwrap().0) + take_count(s, minimum).unwrap().1,
{
    lemma_take_u32_inverse(s);
}

// ---------------------------------------------------------------------------
// Executable reader
// ---------------------------------------------------------------------------

/// A forward-only cursor over untrusted bytes. Every read is bounds checked and
/// fails without moving when the input is too short.
pub struct Reader<'a> {
    bytes: &'a [u8],
    position: usize,
}

impl<'a> Reader<'a> {
    /// The bytes not yet consumed.
    pub closed spec fn rest(&self) -> Seq<u8> {
        self.bytes@.skip(self.position as int)
    }

    pub closed spec fn wf(&self) -> bool {
        self.position <= self.bytes@.len()
    }

    pub fn new(bytes: &'a [u8]) -> (r: Self)
        ensures
            r.wf(),
            r.rest() == bytes@,
    {
        let r = Reader { bytes, position: 0 };
        assert(bytes@.skip(0) =~= bytes@);
        r
    }

    pub fn remaining(&self) -> (n: usize)
        requires
            self.wf(),
        ensures
            n == self.rest().len(),
    {
        self.bytes.len() - self.position
    }

    pub fn take(&mut self, len: usize) -> (r: Result<&'a [u8]>)
        requires
            old(self).wf(),
        ensures
            final(self).wf(),
            match r {
                Ok(v) => take_bytes(old(self).rest(), len as int) == Some((v@, final(self).rest()))
                    && old(self).rest() == v@ + final(self).rest() && v@.len() == len,
                Err(e) => take_bytes(old(self).rest(), len as int) is None && e is InvalidInput
                    && final(self).rest() == old(self).rest(),
            },
    {
        let available = self.bytes.len() - self.position;
        if len > available {
            return Err(Error::InvalidInput("truncated local encoding"));
        }
        let end = self.position + len;
        let value = &self.bytes[self.position..end];
        proof {
            let s = self.bytes@;
            let p = self.position as int;
            assert(s.skip(p).take(len as int) =~= s.subrange(p, end as int));
            assert(s.skip(p).skip(len as int) =~= s.skip(end as int));
        }
        self.position = end;
        Ok(value)
    }

    pub fn byte(&mut self) -> (r: Result<u8>)
        requires
            old(self).wf(),
        ensures
            final(self).wf(),
            match r {
                Ok(v) => take_u8(old(self).rest()) == Some((v, final(self).rest())) && old(self).rest()
                    == seq![v] + final(self).rest(),
                Err(e) => take_u8(old(self).rest()) is None && e is InvalidInput,
            },
    {
        let bytes = self.take(1)?;
        let b = bytes[0];
        proof {
            assert(old(self).rest().skip(1) =~= final(self).rest());
            assert(bytes@ =~= seq![b]);
        }
        Ok(b)
    }

    pub fn u32(&mut self) -> (r: Result<u32>)
        requires
            old(self).wf(),
        ensures
            final(self).wf(),
            match r {
                Ok(v) => take_u32(old(self).rest()) == Some((v, final(self).rest())) && old(self).rest()
                    == be32(v) + final(self).rest(),
                Err(e) => take_u32(old(self).rest()) is None && e is InvalidInput,
            },
    {
        let b = self.take(4)?;
        proof {
            lemma_be32_canonical(b@);
        }
        let v = ((b[0] as u32) << 24u32) | ((b[1] as u32) << 16u32) | ((b[2] as u32) << 8u32) | (
        b[3] as u32);
        Ok(v)
    }

    pub fn u64(&mut self) -> (r: Result<u64>)
        requires
            old(self).wf(),
        ensures
            final(self).wf(),
            match r {
                Ok(v) => take_u64(old(self).rest()) == Some((v, final(self).rest())) && old(self).rest()
                    == be64(v) + final(self).rest(),
                Err(e) => take_u64(old(self).rest()) is None && e is InvalidInput,
            },
    {
        let b = self.take(8)?;
        proof {
            lemma_be64_canonical(b@);
        }
        let v = ((b[0] as u64) << 56u64) | ((b[1] as u64) << 48u64) | ((b[2] as u64) << 40u64) | ((
        b[3] as u64) << 32u64) | ((b[4] as u64) << 24u64) | ((b[5] as u64) << 16u64) | ((b[6]
            as u64) << 8u64) | (b[7] as u64);
        Ok(v)
    }

    pub fn array32(&mut self) -> (r: Result<[u8; 32]>)
        requires
            old(self).wf(),
        ensures
            final(self).wf(),
            match r {
                Ok(v) => take_bytes(old(self).rest(), 32) == Some((v@, final(self).rest())) && old(
                    self,
                ).rest() == v@ + final(self).rest(),
                Err(e) => take_bytes(old(self).rest(), 32) is None && e is InvalidInput,
            },
    {
        let b = self.take(32)?;
        let mut out = [0u8; 32];
        let mut i: usize = 0;
        while i < 32
            invariant
                i <= 32,
                b@.len() == 32,
                forall|j: int| 0 <= j < i ==> out@[j] == b@[j],
            decreases 32 - i,
        {
            out[i] = b[i];
            i = i + 1;
        }
        assert(out@ =~= b@);
        Ok(out)
    }

    pub fn array16(&mut self) -> (r: Result<[u8; 16]>)
        requires
            old(self).wf(),
        ensures
            final(self).wf(),
            match r {
                Ok(v) => take_bytes(old(self).rest(), 16) == Some((v@, final(self).rest())) && old(
                    self,
                ).rest() == v@ + final(self).rest(),
                Err(e) => take_bytes(old(self).rest(), 16) is None && e is InvalidInput,
            },
    {
        let b = self.take(16)?;
        let mut out = [0u8; 16];
        let mut i: usize = 0;
        while i < 16
            invariant
                i <= 16,
                b@.len() == 16,
                forall|j: int| 0 <= j < i ==> out@[j] == b@[j],
            decreases 16 - i,
        {
            out[i] = b[i];
            i = i + 1;
        }
        assert(out@ =~= b@);
        Ok(out)
    }

    pub fn variable(&mut self) -> (r: Result<&'a [u8]>)
        requires
            old(self).wf(),
        ensures
            final(self).wf(),
            match r {
                Ok(v) => take_var(old(self).rest()) == Some((v@, final(self).rest())) && old(self).rest()
                    == var(v@) + final(self).rest() && fits_u32(v@.len() as int),
                Err(e) => take_var(old(self).rest()) is None && e is InvalidInput,
            },
    {
        let len = self.u32()?;
        let v = self.take(len as usize)?;
        proof {
            assert(old(self).rest() =~= var(v@) + final(self).rest());
        }
        Ok(v)
    }

    pub fn count(&mut self, minimum_record_size: usize) -> (r: Result<usize>)
        requires
            old(self).wf(),
            minimum_record_size > 0,
        ensures
            final(self).wf(),
            match r {
                Ok(n) => take_count(old(self).rest(), minimum_record_size as int) == Some(
                    (n as u32, final(self).rest()),
                ) && n <= u32::MAX && old(self).rest() == be32(n as u32) + final(self).rest()
                    && n <= (final(self).rest().len() as int) / (minimum_record_size as int),
                Err(e) => take_count(old(self).rest(), minimum_record_size as int) is None
                    && e is InvalidInput,
            },
    {
        let count = self.u32()? as usize;
        if count > self.remaining() / minimum_record_size {
            return Err(Error::InvalidInput("invalid local encoding record count"));
        }
        Ok(count)
    }

    pub fn finish(&self) -> (r: Result<()>)
        requires
            self.wf(),
        ensures
            r is Ok <==> self.rest().len() == 0,
            r matches Err(e) ==> e is InvalidInput,
    {
        if self.remaining() != 0 {
            return Err(Error::InvalidInput("trailing local encoding bytes"));
        }
        Ok(())
    }
}

/// Appends `bytes` to `out`.
pub fn push_bytes(out: &mut Vec<u8>, bytes: &[u8])
    ensures
        final(out)@ == old(out)@ + bytes@,
{
    let mut i: usize = 0;
    while i < bytes.len()
        invariant
            i <= bytes@.len(),
            out@ == old(out)@ + bytes@.take(i as int),
        decreases bytes@.len() - i,
    {
        out.push(bytes[i]);
        i = i + 1;
        assert(out@ =~= old(out)@ + bytes@.take(i as int));
    }
    assert(bytes@.take(bytes@.len() as int) =~= bytes@);
}

pub fn push_u32(out: &mut Vec<u8>, x: u32)
    ensures
        final(out)@ == old(out)@ + be32(x),
{
    out.push((x >> 24u32) as u8);
    out.push((x >> 16u32) as u8);
    out.push((x >> 8u32) as u8);
    out.push(x as u8);
    assert(out@ =~= old(out)@ + be32(x));
}

pub fn push_u64(out: &mut Vec<u8>, x: u64)
    ensures
        final(out)@ == old(out)@ + be64(x),
{
    out.push((x >> 56u64) as u8);
    out.push((x >> 48u64) as u8);
    out.push((x >> 40u64) as u8);
    out.push((x >> 32u64) as u8);
    out.push((x >> 24u64) as u8);
    out.push((x >> 16u64) as u8);
    out.push((x >> 8u64) as u8);
    out.push(x as u8);
    assert(out@ =~= old(out)@ + be64(x));
}

/// Appends a big-endian u32 length; lengths that do not fit are refused.
pub fn push_length(out: &mut Vec<u8>, len: usize) -> (r: Result<()>)
    ensures
        match r {
            Ok(()) => fits_u32(len as int) && final(out)@ == old(out)@ + be32(len as u32),
            Err(e) => !fits_u32(len as int) && e is InvalidInput && final(out)@ == old(out)@,
        },
{
    if len > 0xffff_ffffusize {
        return Err(Error::InvalidInput("variable field exceeds u32 encoding limit"));
    }
    push_u32(out, len as u32);
    Ok(())
}

/// Appends a u32-length-prefixed field.
pub fn push_variable(out: &mut Vec<u8>, value: &[u8]) -> (r: Result<()>)
    ensures
        match r {
            Ok(()) => fits_u32(value@.len() as int) && final(out)@ == old(out)@ + var(value@),
            Err(e) => !fits_u32(value@.len() as int) && e is InvalidInput && final(out)@ == old(
                out,
            )@,
        },
{
    push_length(out, value.len())?;
    push_bytes(out, value);
    assert(out@ =~= old(out)@ + var(value@));
    Ok(())
}

} // verus!

verus! {

pub open spec fn have_magic() -> Seq<u8> {
    seq![113u8, 102, 115, 47, 118, 49, 47, 104, 97, 118, 101, 47]
}

pub fn push_have_magic(out: &mut Vec<u8>)
    ensures
        final(out)@ == old(out)@ + have_magic(),
{
    let m: [u8; 12] = [113, 102, 115, 47, 118, 49, 47, 104, 97, 118, 101, 47];
    assert(m@ =~= have_magic());
    push_bytes(out, &m);
}

} // verus!

verus! {

/// A copy of a byte vector.
pub fn copy_bytes(v: &Vec<u8>) -> (r: Vec<u8>)
    ensures
        r@ == v@,
{
    vstd::slice::slice_to_vec(v.as_slice())
}

} // verus!

verus! {

/// The 32 bytes of `bytes` at `start`.
pub fn array32_at(bytes: &[u8], start: usize) -> (r: [u8; 32])
    requires
        start + 32 <= bytes@.len(),
    ensures
        r@ == bytes@.subrange(start as int, start + 32),
{
    let mut out = [0u8; 32];
    let mut i: usize = 0;
    let n = bytes.len();
    while i < 32
        invariant
            i <= 32,
            n == bytes@.len(),
            start + 32 <= bytes@.len(),
            forall|j: int| 0 <= j < i ==> out@[j] == bytes@[start + j],
        decreases 32 - i,
    {
        out[i] = bytes[start + i];
        i = i + 1;
    }
    assert(out@ =~= bytes@.subrange(start as int, start + 32));
    out
}

/// The big-endian u64 at `start`.
pub fn u64_at(bytes: &[u8], start: usize) -> (r: u64)
    requires
        start + 8 <= bytes@.len(),
    ensures
        be64(r) == bytes@.subrange(start as int, start + 8),
{
    let s = start;
    let v = ((bytes[s] as u64) << 56u64) | ((bytes[s + 1] as u64) << 48u64) | ((bytes[s + 2]
        as u64) << 40u64) | ((bytes[s + 3] as u64) << 32u64) | ((bytes[s + 4] as u64) << 24u64)
        | ((bytes[s + 5] as u64) << 16u64) | ((bytes[s + 6] as u64) << 8u64) | (bytes[s + 7]
        as u64);
    proof {
        let sub = bytes@.subrange(start as int, start + 8);
        lemma_be64_canonical(sub);
        assert(v == from_be64(sub));
    }
    v
}

/// Appends the 32 bytes of an identifier.
pub fn push_array32(out: &mut Vec<u8>, bytes: &[u8; 32])
    ensures
        final(out)@ == old(out)@ + bytes@,
{
    push_bytes(out, bytes);
}

} // verus!

verus! {

/// The concatenated bytes of a sequence of fixed-size identifiers.
pub open spec fn ids_bytes<T: View<V = Seq<u8>>>(s: Seq<T>) -> Seq<u8>
    decreases s.len(),
{
    if s.len() == 0 {
        Seq::<u8>::empty()
    } else {
        s[0]@ + ids_bytes(s.drop_first())
    }
}

pub proof fn lemma_ids_bytes_push<T: View<V = Seq<u8>>>(s: Seq<T>, x: T)
    ensures
        ids_bytes(s.push(x)) == ids_bytes(s) + x@,
    decreases s.len(),
{
    if s.len() == 0 {
        assert(s.push(x).drop_first() =~= Seq::<T>::empty());
        assert(ids_bytes(s.push(x).drop_first()) =~= Seq::<u8>::empty());
        assert(s.push(x)[0] == x);
        assert(ids_bytes(s) =~= Seq::<u8>::empty());
        assert(ids_bytes(s.push(x)) =~= x@);
    } else {
        assert(s.push(x).drop_first() =~= s.drop_first().push(x));
        lemma_ids_bytes_push(s.drop_first(), x);
        assert(ids_bytes(s.push(x)) =~= ids_bytes(s) + x@);
    }
}

pub proof fn lemma_ids_bytes_skip<T: View<V = Seq<u8>>>(s: Seq<T>, i: int)
    requires
        0 <= i < s.len(),
    ensures
        ids_bytes(s.skip(i)) == s[i]@ + ids_bytes(s.skip(i + 1)),
{
    assert(s.skip(i).drop_first() =~= s.skip(i + 1));
}

/// Concatenations of equally long views that agree are made of the same
/// views, one by one.
pub proof fn lemma_ids_bytes_injective<T: View<V = Seq<u8>>>(a: Seq<T>, b: Seq<T>, width: int)
    requires
        width > 0,
        a.len() == b.len(),
        forall|i: int| 0 <= i < a.len() ==> (#[trigger] a[i])@.len() == width,
        forall|i: int| 0 <= i < b.len() ==> (#[trigger] b[i])@.len() == width,
        ids_bytes(a) == ids_bytes(b),
    ensures
        forall|i: int| 0 <= i < a.len() ==> (#[trigger] a[i])@ == b[i]@,
    decreases a.len(),
{
    if a.len() > 0 {
        let (ra, rb) = (a.drop_first(), b.drop_first());
        assert(a[0]@.len() == width && b[0]@.len() == width);
        assert((a[0]@ + ids_bytes(ra)).take(width) =~= a[0]@);
        assert((b[0]@ + ids_bytes(rb)).take(width) =~= b[0]@);
        assert((a[0]@ + ids_bytes(ra)).skip(width) =~= ids_bytes(ra));
        assert((b[0]@ + ids_bytes(rb)).skip(width) =~= ids_bytes(rb));
        assert forall|i: int| 0 <= i < ra.len() implies (#[trigger] ra[i])@.len() == width by {
            assert(ra[i] == a[i + 1]);
        }
        assert forall|i: int| 0 <= i < rb.len() implies (#[trigger] rb[i])@.len() == width by {
            assert(rb[i] == b[i + 1]);
        }
        lemma_ids_bytes_injective(ra, rb, width);
        assert forall|i: int| 0 <= i < a.len() implies (#[trigger] a[i])@ == b[i]@ by {
            if i > 0 {
                assert(ra[i - 1] == a[i] && rb[i - 1] == b[i]);
            }
        }
    }
}

pub proof fn lemma_ids_bytes_len<T: View<V = Seq<u8>>>(s: Seq<T>, width: int)
    requires
        forall|i: int| 0 <= i < s.len() ==> (#[trigger] s[i])@.len() == width,
    ensures
        ids_bytes(s).len() == width * s.len(),
    decreases s.len(),
{
    if s.len() > 0 {
        assert(s[0]@.len() == width);
        assert forall|i: int| 0 <= i < s.drop_first().len() implies (#[trigger] s.drop_first()[i])@.len() == width by {
            assert(s.drop_first()[i] == s[i + 1]);
        }
        lemma_ids_bytes_len(s.drop_first(), width);
        assert(width * s.len() == width * (s.len() - 1) + width) by (nonlinear_arith);
    }
}

impl<'a> Reader<'a> {
    /// Requires the exact bytes `prefix` next.
    pub fn require_prefix(&mut self, prefix: &[u8]) -> (r: Result<()>)
        requires
            old(self).wf(),
        ensures
            final(self).wf(),
            match r {
                Ok(()) => old(self).rest() == prefix@ + final(self).rest(),
                Err(e) => e is InvalidInput && forall|t: Seq<u8>| old(self).rest() != prefix@ + t,
            },
    {
        let ghost start = self.rest();
        let taken = self.take(prefix.len());
        match taken {
            Ok(bytes) => {
                if !bytes_eq(bytes, prefix) {
                    proof {
                        assert forall|t: Seq<u8>| start != prefix@ + t by {
                            if start == prefix@ + t {
                                assert(start.take(prefix@.len() as int) =~= prefix@);
                            }
                        }
                    }
                    return Err(Error::InvalidInput("invalid local encoding magic"));
                }
                Ok(())
            },
            Err(e) => {
                proof {
                    assert forall|t: Seq<u8>| start != prefix@ + t by {
                        if start == prefix@ + t {
                            assert(start.len() >= prefix@.len());
                        }
                    }
                }
                Err(e)
            },
        }
    }
}

/// Byte-wise equality of two slices.
pub fn bytes_eq(a: &[u8], b: &[u8]) -> (r: bool)
    ensures
        r == (a@ == b@),
{
    if a.len() != b.len() {
        return false;
    }
    let mut i: usize = 0;
    while i < a.len()
        invariant
            i <= a@.len(),
            a@.len() == b@.len(),
            forall|j: int| 0 <= j < i ==> a@[j] == b@[j],
        decreases a@.len() - i,
    {
        if a[i] != b[i] {
            return false;
        }
        i = i + 1;
    }
    assert(a@ =~= b@);
    true
}

} // verus!

verus! {

/// The concatenation of `f` applied to each element, in order.
pub open spec fn flat<T>(s: Seq<T>, f: spec_fn(T) -> Seq<u8>) -> Seq<u8>
    decreases s.len(),
{
    if s.len() == 0 {
        Seq::<u8>::empty()
    } else {
        f(s[0]) + flat(s.drop_first(), f)
    }
}

pub proof fn lemma_flat_push<T>(s: Seq<T>, x: T, f: spec_fn(T) -> Seq<u8>)
    ensures
        flat(s.push(x), f) == flat(s, f) + f(x),
    decreases s.len(),
{
    if s.len() == 0 {
        let t = s.push(x);
        assert(t[0] == x);
        assert(t.drop_first() =~= Seq::<T>::empty());
        assert(t.drop_first().len() == 0);
        assert(flat(t.drop_first(), f) == Seq::<u8>::empty());
        assert(flat(t, f) == f(x) + flat(t.drop_first(), f));
        assert(f(x) + Seq::<u8>::empty() =~= f(x));
        assert(flat(s, f) + f(x) =~= f(x));
    } else {
        assert(s.push(x).drop_first() =~= s.drop_first().push(x));
        lemma_flat_push(s.drop_first(), x, f);
        assert(flat(s.push(x), f) =~= flat(s, f) + f(x));
    }
}

pub proof fn lemma_flat_skip<T>(s: Seq<T>, i: int, f: spec_fn(T) -> Seq<u8>)
    requires
        0 <= i < s.len(),
    ensures
        flat(s.skip(i), f) == f(s[i]) + flat(s.skip(i + 1), f),
{
    assert(s.skip(i).drop_first() =~= s.skip(i + 1));
}

/// Each element contributes at least `m` bytes.
pub proof fn lemma_flat_len<T>(s: Seq<T>, f: spec_fn(T) -> Seq<u8>, m: int)
    requires
        0 <= m,
        forall|i: int| 0 <= i < s.len() ==> f(#[trigger] s[i]).len() >= m,
    ensures
        flat(s, f).len() >= m * s.len(),
    decreases s.len(),
{
    if s.len() > 0 {
        assert(f(s[0]).len() >= m);
        assert forall|i: int| 0 <= i < s.drop_first().len() implies f(
            #[trigger] s.drop_first()[i],
        ).len() >= m by {
            assert(s.drop_first()[i] == s[i + 1]);
        }
        lemma_flat_len(s.drop_first(), f, m);
        assert(m * s.len() == m * (s.len() - 1) + m) by (nonlinear_arith);
    }
}

} // verus!

verus! {

/// The version byte of every local persistent format.
pub const LOCAL_FORMAT_VERSION: u8 = 1;

impl<'a> Reader<'a> {
    /// Requires the local format version byte next.
    pub fn require_version(&mut self) -> (r: Result<()>)
        requires
            old(self).wf(),
        ensures
            final(self).wf(),
            match r {
                Ok(()) => old(self).rest() == seq![LOCAL_FORMAT_VERSION] + final(self).rest(),
                Err(e) => e is InvalidInput && forall|t: Seq<u8>|
                    old(self).rest() != seq![LOCAL_FORMAT_VERSION] + t,
            },
    {
        let ghost start = self.rest();
        let b = self.byte()?;
        if b != LOCAL_FORMAT_VERSION {
            proof {
                assert forall|t: Seq<u8>| start != seq![LOCAL_FORMAT_VERSION] + t by {
                    if start == seq![LOCAL_FORMAT_VERSION] + t {
                        assert(start[0] == LOCAL_FORMAT_VERSION);
                    }
                }
            }
            return Err(Error::InvalidInput("unsupported local encoding version"));
        }
        Ok(())
    }
}

} // verus!
