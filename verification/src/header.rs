//! The file header (`VS3RDAEH`, i.e. "HEADR3SV" reversed).
//!
//! The only mapped field is the turn counter: a big-endian `u32` at offset
//! 0xD, located by diffing a consecutive autosave series.

use vstd::prelude::*;

use crate::cursor::be32;
use crate::error::Error;

verus! {

/// Reversed-ASCII magic at offset 0 of every save.
pub open spec fn header_magic() -> Seq<u8> {
    seq![0x56u8, 0x53, 0x33, 0x52, 0x44, 0x41, 0x45, 0x48]
}

/// Offset of the turn counter.
pub const TURN_OFFSET: usize = 0xD;

/// Where the turn counter of a file sits, or why it cannot be located.
pub open spec fn turn_field(d: Seq<u8>) -> Result<int, Error> {
    if d.len() < 8 || d.subrange(0, 8) != header_magic() {
        Err(Error::NoHeaderMagic)
    } else if d.len() < 0xD + 4 {
        Err(Error::Truncated { offset: 0xD, needed: 4, len: d.len() as usize })
    } else {
        Ok(0xD)
    }
}

/// The turn counter of a file.
pub open spec fn turn_of(d: Seq<u8>) -> Result<u32, Error> {
    match turn_field(d) {
        Ok(at) => Ok(be32(d, at) as u32),
        Err(e) => Err(e),
    }
}

/// The four big-endian bytes of `v`.
pub open spec fn be32_bytes(v: u32) -> Seq<u8> {
    seq![
        (v / 0x100_0000) as u8,
        ((v / 0x1_0000) % 0x100) as u8,
        ((v / 0x100) % 0x100) as u8,
        (v % 0x100) as u8,
    ]
}

/// `d` with the four bytes at `at` replaced by `bytes`.
pub open spec fn splice(d: Seq<u8>, at: int, bytes: Seq<u8>) -> Seq<u8> {
    d.subrange(0, at) + bytes + d.subrange(at + bytes.len(), d.len() as int)
}

/// The file with its turn counter set to `turn`.
pub open spec fn with_turn(d: Seq<u8>, turn: u32) -> Seq<u8> {
    splice(d, 0xD, be32_bytes(turn))
}

/// The two's-complement bit pattern of an `i32`.
pub open spec fn i32_bits(v: i32) -> u32 {
    (if v < 0 {
        v + 0x1_0000_0000
    } else {
        v as int
    }) as u32
}

/// The two's-complement bit pattern of an `i32`.
pub fn i32_to_bits(v: i32) -> (u: u32)
    ensures
        u == i32_bits(v),
{
    if v >= 0 {
        v as u32
    } else {
        ((v + 1) + i32::MAX) as u32 + 0x8000_0000
    }
}

/// The four big-endian bytes of `v`.
pub fn to_be4(v: u32) -> (b: [u8; 4])
    ensures
        b@ == be32_bytes(v),
{
    [(v / 0x100_0000) as u8, ((v / 0x1_0000) % 0x100) as u8, ((v / 0x100) % 0x100) as u8, (v % 0x100) as u8]
}

/// Reading back four big-endian bytes gives the value they encode.
pub proof fn lemma_be32_bytes(v: u32)
    ensures
        be32(be32_bytes(v), 0) == v,
{
    let b = be32_bytes(v);
    assert(b[0] == v / 0x100_0000);
    assert(b[1] == (v / 0x1_0000) % 0x100);
    assert(b[2] == (v / 0x100) % 0x100);
    assert(b[3] == v % 0x100);
}

/// Overwrite `bytes.len()` bytes of `data` at `at`.
pub fn write_at(data: &mut [u8], at: usize, bytes: &[u8])
    requires
        at + bytes@.len() <= old(data)@.len(),
    ensures
        final(data)@ == splice(old(data)@, at as int, bytes@),
{
    let n = data.len();
    let mut i: usize = 0;
    while i < bytes.len()
        invariant
            n == data@.len(),
            at + bytes@.len() <= data@.len(),
            data@.len() == old(data)@.len(),
            i <= bytes@.len(),
            forall|k: int| 0 <= k < data@.len() && !(at <= k < at + i) ==> data@[k] == old(data)@[k],
            forall|k: int| at <= k < at + i ==> data@[k] == bytes@[k - at],
        decreases bytes@.len() - i,
    {
        data[at + i] = bytes[i];
        i = i + 1;
    }
    assert(data@ =~= splice(old(data)@, at as int, bytes@));
}

fn turn_bytes(data: &[u8]) -> (r: Result<usize, Error>)
    ensures
        match turn_field(data@) {
            Ok(at) => r == Ok::<usize, Error>(at as usize),
            Err(e) => r == Err::<usize, Error>(e),
        },
{
    if data.len() < 8 {
        return Err(Error::NoHeaderMagic);
    }
    let magic: [u8; 8] = [0x56, 0x53, 0x33, 0x52, 0x44, 0x41, 0x45, 0x48];
    let mut i: usize = 0;
    while i < 8
        invariant
            data@.len() >= 8,
            magic@ == header_magic(),
            i <= 8,
            forall|k: int| 0 <= k < i ==> data@[k] == header_magic()[k],
        decreases 8 - i,
    {
        if data[i] != magic[i] {
            assert(data@.subrange(0, 8)[i as int] != header_magic()[i as int]);
            return Err(Error::NoHeaderMagic);
        }
        i = i + 1;
    }
    assert(data@.subrange(0, 8) =~= header_magic());
    if data.len() < TURN_OFFSET + 4 {
        return Err(Error::Truncated { offset: TURN_OFFSET, needed: 4, len: data.len() });
    }
    Ok(TURN_OFFSET)
}

/// Read the current turn number.
///
/// Fails with [`Error::NoHeaderMagic`] or [`Error::Truncated`] on input
/// that is not a save.
pub fn turn(data: &[u8]) -> (r: Result<u32, Error>)
    ensures
        r == turn_of(data@),
{
    let at = turn_bytes(data)?;
    Ok(data[at] as u32 * 0x100_0000 + data[at + 1] as u32 * 0x1_0000 + data[at + 2] as u32 * 0x100
        + data[at + 3] as u32)
}

/// Write the turn number.
///
/// Fails with [`Error::NoHeaderMagic`] or [`Error::Truncated`] on input
/// that is not a save, leaving it unchanged.
pub fn set_turn(data: &mut [u8], turn: u32) -> (r: Result<(), Error>)
    ensures
        match turn_field(old(data)@) {
            Ok(_) => r is Ok && final(data)@ == with_turn(old(data)@, turn),
            Err(e) => r == Err::<(), Error>(e) && final(data)@ == old(data)@,
        },
{
    let at = turn_bytes(data)?;
    let bytes = to_be4(turn);
    write_at(data, at, &bytes);
    Ok(())
}

/// Reading the turn after setting it gives the turn that was set.
pub proof fn turn_after_set_turn(d: Seq<u8>, turn: u32)
    requires
        turn_field(d) is Ok,
    ensures
        turn_of(with_turn(d, turn)) == Ok::<u32, Error>(turn),
{
    let e = with_turn(d, turn);
    let b = be32_bytes(turn);
    assert(e.subrange(0, 8) =~= d.subrange(0, 8));
    assert(e.len() == d.len());
    assert(e[13] == b[0] && e[14] == b[1] && e[15] == b[2] && e[16] == b[3]);
    lemma_be32_bytes(turn);
}

/// Setting the turn changes nothing but the four counter bytes.
pub proof fn set_turn_touches_only_counter(d: Seq<u8>, turn: u32, k: int)
    requires
        turn_field(d) is Ok,
        0 <= k < d.len(),
        !(0xD <= k < 0xD + 4),
    ensures
        with_turn(d, turn).len() == d.len(),
        with_turn(d, turn)[k] == d[k],
{
}

} // verus!
