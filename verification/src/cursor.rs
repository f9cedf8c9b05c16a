//! Bounds-checked sequential reader over raw save bytes.
//!
//! Every read goes through [`Cursor::take`], so a mis-parse or hostile file
//! surfaces as [`Error::Truncated`] instead of a panic.

use az::Az as _;
use vstd::prelude::*;
use vstd::slice::slice_subrange;

use crate::error::Error;
use crate::text::{be_units, decode_utf16, decode_utf16_be};

verus! {

/// The error for a read of `needed` bytes at `offset` in a buffer of `len`.
pub open spec fn truncated(offset: int, needed: int, len: int) -> Error {
    Error::Truncated { offset: offset as usize, needed: needed as usize, len: len as usize }
}

/// Consuming `n` bytes at `p`: the position after them, or the error.
pub open spec fn take_at(d: Seq<u8>, p: int, n: int) -> Result<int, Error> {
    if p + n <= d.len() {
        Ok(p + n)
    } else {
        Err(truncated(p, n, d.len() as int))
    }
}

/// Reading one byte at `p`.
pub open spec fn u8_at(d: Seq<u8>, p: int) -> Result<(u8, int), Error> {
    match take_at(d, p, 1) {
        Ok(q) => Ok((d[p], q)),
        Err(e) => Err(e),
    }
}

/// Big-endian unsigned value of the four bytes at `p`.
pub open spec fn be32(d: Seq<u8>, p: int) -> int {
    d[p] * 0x100_0000 + d[p + 1] * 0x1_0000 + d[p + 2] * 0x100 + d[p + 3]
}

/// Big-endian unsigned value of the eight bytes at `p`.
pub open spec fn be64(d: Seq<u8>, p: int) -> int {
    be32(d, p) * 0x1_0000_0000 + be32(d, p + 4)
}

/// Two's-complement reading of a 32-bit pattern.
pub open spec fn signed32(u: int) -> int {
    if u < 0x8000_0000 {
        u
    } else {
        u - 0x1_0000_0000
    }
}

/// Two's-complement reading of a 64-bit pattern.
pub open spec fn signed64(u: int) -> int {
    if u < 0x8000_0000_0000_0000 {
        u
    } else {
        u - 0x1_0000_0000_0000_0000
    }
}

/// Reading a big-endian `u32` at `p`.
pub open spec fn u32_at(d: Seq<u8>, p: int) -> Result<(u32, int), Error> {
    match take_at(d, p, 4) {
        Ok(q) => Ok((be32(d, p) as u32, q)),
        Err(e) => Err(e),
    }
}

/// Reading a big-endian `i32` at `p`.
pub open spec fn i32_at(d: Seq<u8>, p: int) -> Result<(i32, int), Error> {
    match take_at(d, p, 4) {
        Ok(q) => Ok((signed32(be32(d, p)) as i32, q)),
        Err(e) => Err(e),
    }
}

/// Reading a fixed-point number at `p`, in 1/65536 units: the 6-byte signed
/// integer part and the 2-byte fraction together are one big-endian `i64`.
pub open spec fn fixed_at(d: Seq<u8>, p: int) -> Result<(i64, int), Error> {
    match take_at(d, p, 8) {
        Ok(q) => Ok((signed64(be64(d, p)) as i64, q)),
        Err(e) => Err(e),
    }
}

/// Reading `chars` UTF-16BE code units at `p`.
pub open spec fn utf16be_at(d: Seq<u8>, p: int, chars: int) -> Result<(Seq<char>, int), Error> {
    if chars * 2 > usize::MAX {
        Err(truncated(p, usize::MAX as int, d.len() as int))
    } else {
        match take_at(d, p, chars * 2) {
            Ok(q) => Ok((decode_utf16(be_units(d.subrange(p, q))), q)),
            Err(e) => Err(e),
        }
    }
}

/// A read position in a byte buffer.
pub struct Cursor<'a> {
    data: &'a [u8],
    pos: usize,
}

impl<'a> Cursor<'a> {
    /// The bytes being read.
    pub closed spec fn bytes(&self) -> Seq<u8> {
        self.data@
    }

    /// The current position.
    pub closed spec fn at(&self) -> int {
        self.pos as int
    }

    /// Positions are never negative.
    pub broadcast proof fn at_nonneg(&self)
        ensures
            0 <= #[trigger] self.at() <= usize::MAX,
    {
    }

    pub fn new(data: &'a [u8], pos: usize) -> (c: Self)
        ensures
            c.bytes() == data@,
            c.at() == pos,
    {
        Self { data, pos }
    }

    pub fn pos(&self) -> (p: usize)
        ensures
            p == self.at(),
    {
        self.pos
    }

    /// The buffer the cursor reads.
    pub fn data(&self) -> (d: &'a [u8])
        ensures
            d@ == self.bytes(),
    {
        self.data
    }

    /// Consume `len` bytes, or fail with [`Error::Truncated`] without moving.
    pub fn take(&mut self, len: usize) -> (r: Result<&'a [u8], Error>)
        ensures
            final(self).bytes() == old(self).bytes(),
            match take_at(old(self).bytes(), old(self).at(), len as int) {
                Ok(q) => r matches Ok(b) && final(self).at() == q && b@ == old(self).bytes().subrange(
                    old(self).at(),
                    q,
                ),
                Err(e) => r == Err::<&[u8], Error>(e) && final(self).at() == old(self).at(),
            },
    {
        let truncated = Error::Truncated { offset: self.pos, needed: len, len: self.data.len() };
        let end = match self.pos.checked_add(len) {
            Some(end) => end,
            None => return Err(truncated),
        };
        if end > self.data.len() {
            return Err(truncated);
        }
        let bytes = slice_subrange(self.data, self.pos, end);
        self.pos = end;
        Ok(bytes)
    }

    /// Consume `len` bytes without looking at them.
    pub fn skip(&mut self, len: usize) -> (r: Result<(), Error>)
        ensures
            final(self).bytes() == old(self).bytes(),
            match take_at(old(self).bytes(), old(self).at(), len as int) {
                Ok(q) => r is Ok && final(self).at() == q,
                Err(e) => r == Err::<(), Error>(e) && final(self).at() == old(self).at(),
            },
    {
        match self.take(len) {
            Ok(_) => Ok(()),
            Err(e) => Err(e),
        }
    }

    pub fn u8(&mut self) -> (r: Result<u8, Error>)
        ensures
            final(self).bytes() == old(self).bytes(),
            match u8_at(old(self).bytes(), old(self).at()) {
                Ok((v, q)) => r == Ok::<u8, Error>(v) && final(self).at() == q,
                Err(e) => r == Err::<u8, Error>(e) && final(self).at() == old(self).at(),
            },
    {
        let bytes = self.take(1)?;
        Ok(bytes[0])
    }

    /// Read the next byte without consuming it.
    pub fn peek_u8(&self) -> (r: Result<u8, Error>)
        ensures
            match u8_at(self.bytes(), self.at()) {
                Ok((v, _)) => r == Ok::<u8, Error>(v),
                Err(e) => r == Err::<u8, Error>(e),
            },
    {
        if self.pos < self.data.len() {
            Ok(self.data[self.pos])
        } else {
            Err(Error::Truncated { offset: self.pos, needed: 1, len: self.data.len() })
        }
    }

    pub fn u32be(&mut self) -> (r: Result<u32, Error>)
        ensures
            final(self).bytes() == old(self).bytes(),
            match u32_at(old(self).bytes(), old(self).at()) {
                Ok((v, q)) => r == Ok::<u32, Error>(v) && final(self).at() == q,
                Err(e) => r == Err::<u32, Error>(e) && final(self).at() == old(self).at(),
            },
    {
        let b = self.take(4)?;
        Ok(be_u32(b))
    }

    pub fn i32be(&mut self) -> (r: Result<i32, Error>)
        ensures
            final(self).bytes() == old(self).bytes(),
            match i32_at(old(self).bytes(), old(self).at()) {
                Ok((v, q)) => r == Ok::<i32, Error>(v) && final(self).at() == q,
                Err(e) => r == Err::<i32, Error>(e) && final(self).at() == old(self).at(),
            },
    {
        let b = self.take(4)?;
        let u = be_u32(b);
        if u < 0x8000_0000 {
            Ok(u as i32)
        } else {
            Ok(((u - 0x8000_0000) as i32) + i32::MIN)
        }
    }

    /// MOO3's fixed-point number, in 1/65536 units.
    pub fn fixed(&mut self) -> (r: Result<i64, Error>)
        ensures
            final(self).bytes() == old(self).bytes(),
            match fixed_at(old(self).bytes(), old(self).at()) {
                Ok((v, q)) => r == Ok::<i64, Error>(v) && final(self).at() == q,
                Err(e) => r == Err::<i64, Error>(e) && final(self).at() == old(self).at(),
            },
    {
        let b = self.take(8)?;
        let hi = be_u32(b) as u64;
        let lo = be_u32(slice_subrange(b, 4, 8)) as u64;
        let u: u64 = hi * 0x1_0000_0000 + lo;
        if u < 0x8000_0000_0000_0000 {
            Ok(u as i64)
        } else {
            Ok(((u - 0x8000_0000_0000_0000) as i64) + i64::MIN)
        }
    }

    /// A UTF-16BE string of `chars` code units (no length prefix, no
    /// terminator). Unpaired surrogates decode to U+FFFD.
    pub fn utf16be(&mut self, chars: usize) -> (r: Result<String, Error>)
        ensures
            final(self).bytes() == old(self).bytes(),
            match utf16be_at(old(self).bytes(), old(self).at(), chars as int) {
                Ok((s, q)) => r matches Ok(v) && v@ == s && final(self).at() == q,
                Err(e) => r == Err::<String, Error>(e) && final(self).at() == old(self).at(),
            },
    {
        let byte_len = match chars.checked_mul(2) {
            Some(n) => n,
            None => {
                return Err(
                    Error::Truncated { offset: self.pos, needed: usize::MAX, len: self.data.len() },
                );
            },
        };
        let bytes = self.take(byte_len)?;
        Ok(decode_utf16_be(bytes))
    }
}

/// Big-endian value of the first four bytes.
pub fn be_u32(b: &[u8]) -> (v: u32)
    requires
        b@.len() >= 4,
    ensures
        v == be32(b@, 0),
{
    b[0] as u32 * 0x100_0000 + b[1] as u32 * 0x1_0000 + b[2] as u32 * 0x100 + b[3] as u32
}

} // verus!

verus! {

/// A skip's outcome agrees with its spec: on success the cursor sits at the
/// spec's position, on failure the error is the spec's.
pub open spec fn skipped(r: Result<(), Error>, at: int, s: Result<int, Error>) -> bool {
    match s {
        Ok(q) => r is Ok && at == q,
        Err(e) => r == Err::<(), Error>(e),
    }
}

/// Consuming a count of bytes that may not fit a `usize`: a count past
/// `usize::MAX` is reported as a truncated read of `usize::MAX` bytes.
pub open spec fn take_wide(d: Seq<u8>, p: int, n: int) -> Result<int, Error> {
    if n > usize::MAX {
        Err(truncated(p, usize::MAX as int, d.len() as int))
    } else {
        take_at(d, p, n)
    }
}

/// A `u32` length followed by that many bytes.
pub open spec fn prefixed_at(d: Seq<u8>, p: int) -> Result<int, Error> {
    match u32_at(d, p) {
        Ok((n, q)) => take_at(d, q, n as int),
        Err(e) => Err(e),
    }
}

impl<'a> Cursor<'a> {
    /// Skip `count * size` bytes, where the product may not fit a `usize`.
    pub fn skip_wide(&mut self, count: usize, size: usize) -> (r: Result<(), Error>)
        ensures
            final(self).bytes() == old(self).bytes(),
            skipped(r, final(self).at(), take_wide(old(self).bytes(), old(self).at(), count * size)),
    {
        match count.checked_mul(size) {
            Some(n) => self.skip(n),
            None => Err(Error::Truncated { offset: self.pos, needed: usize::MAX, len: self.data.len() }),
        }
    }

    /// Skip a `u32` length and that many bytes.
    pub fn skip_prefixed(&mut self) -> (r: Result<(), Error>)
        ensures
            final(self).bytes() == old(self).bytes(),
            skipped(r, final(self).at(), prefixed_at(old(self).bytes(), old(self).at())),
    {
        let len = self.u32be()?;
        self.skip(widen(len))
    }
}

/// Widen a `u32` to a `usize`, as `az` casts it.
#[verifier::external_body]
pub(crate) fn widen(v: u32) -> (r: usize)
    ensures
        r == v,
{
    v.az::<usize>()
}

/// Encode a fixed-point value (in 1/65536 units) into MOO3's 8-byte wire
/// format: the 6-byte signed integer part, then the 2-byte fraction.
///
/// Returns `None` when the integer part does not fit the format's writers'
/// range (`|value| < 2^47`): only for `i64::MIN`, which is `-2^47` exactly.
pub fn encode_fixed(raw: i64) -> (r: Option<Vec<u8>>)
    ensures
        raw == i64::MIN ==> r is None,
        raw != i64::MIN ==> (r matches Some(b) && b@.len() == 8 && fixed_at(b@, 0) == Ok::<(i64, int), Error>((raw, 8))),
{
    if raw == i64::MIN {
        return None;
    }
    let b = crate::edit::to_be8(raw);
    proof {
        crate::edit::lemma_be64_bytes(raw);
    }
    Some(b)
}

/// `d` and `e` have the same length and agree on the positions `lo..hi`
/// inside them.
pub open spec fn agree(d: Seq<u8>, e: Seq<u8>, lo: int, hi: int) -> bool {
    d.len() == e.len() && forall|k: int| lo <= k < hi && k < d.len() ==> d[k] == e[k]
}

} // verus!
