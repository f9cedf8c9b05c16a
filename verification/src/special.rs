//! Planetary special records (`Sp*` tags), skipped structurally.
//!
//! Specials appear inside region records and again in the post-region planet
//! data. Their 8-byte ASCII tags are stored reversed (`SpFLUGen` on disk is
//! `neGULFpS`). Each tag has a known amount of extra data before and after a
//! common sub-record. Specials are never edited: parsing them keeps the
//! cursor in sync on the way to the next region.

use vstd::prelude::*;

use crate::cursor::{agree, skipped, take_at, u32_at, u8_at, Cursor};
use crate::error::Error;

verus! {

broadcast use crate::cursor::Cursor::at_nonneg;

/// The common sub-record: 30 fixed bytes and two counted runs of
/// 17-byte entries.
pub open spec fn sub_record_at(d: Seq<u8>, p: int) -> Result<int, Error> {
    match take_at(d, p, 30) {
        Err(e) => Err(e),
        Ok(p1) => match u8_at(d, p1) {
            Err(e) => Err(e),
            Ok((n1, p2)) => match take_at(d, p2, n1 * 17) {
                Err(e) => Err(e),
                Ok(p3) => match u8_at(d, p3) {
                    Err(e) => Err(e),
                    Ok((n2, p4)) => take_at(d, p4, n2 * 17),
                },
            },
        },
    }
}

/// The tag of a special as it reads forwards: the stored bytes reversed,
/// as a big-endian number (so `SpGenerc` is `0x5370_4765_6E65_7263`).
pub open spec fn tag_at(d: Seq<u8>, p: int) -> int {
    d[p + 7] * 0x100_0000_0000_0000 + d[p + 6] * 0x1_0000_0000_0000 + d[p + 5] * 0x100_0000_0000
        + d[p + 4] * 0x1_0000_0000 + d[p + 3] * 0x100_0000 + d[p + 2] * 0x1_0000 + d[p + 1]
        * 0x100 + d[p]
}

/// `SpGuardn`.
pub const TAG_GUARDIAN: u64 = 0x5370_4775_6172_646E;

/// Extra bytes (before, after) the common sub-record, per known tag.
pub open spec fn extra_spec(tag: int) -> Option<(int, int)> {
    if tag == 0x5370_4765_6E65_7263 {
        // SpGenerc
        Some((1, 0))
    } else if tag == 0x5370_5465_7266_726D || tag == 0x2053_7052_7569_6E73 {
        // SpTerfrm, " SpRuins"
        Some((2, 8))
    } else if tag == 0x5370_4465_706C_6574 || tag == 0x5370_5072_7444_6570 {
        // SpDeplet, SpPrtDep
        Some((2, 4))
    } else if tag == 0x5370_4162_6E43_6F6C {
        // SpAbnCol
        Some((2, 0))
    } else if tag == 0x5370_5370_6C43_6F6C || tag == 0x5370_464C_5547_656E {
        // SpSplCol, SpFLUGen
        Some((2, 12))
    } else if tag == 0x2053_7045_7665_6E74 {
        // " SpEvent"
        Some((2, 16))
    } else if tag == 0x5370_416E_7461_7258 {
        // SpAntarX
        Some((2, 1))
    } else {
        None
    }
}

/// A guardian special after its tag: two bytes, the sub-record, one byte,
/// and a length-prefixed blob.
pub open spec fn guardian_body_at(d: Seq<u8>, p: int) -> Result<int, Error> {
    match take_at(d, p, 2) {
        Err(e) => Err(e),
        Ok(p2) => match sub_record_at(d, p2) {
            Err(e) => Err(e),
            Ok(p3) => match take_at(d, p3, 1) {
                Err(e) => Err(e),
                Ok(p4) => match u32_at(d, p4) {
                    Err(e) => Err(e),
                    Ok((n, p5)) => take_at(d, p5, n as int),
                },
            },
        },
    }
}

/// Any other special after its tag: the tag's extra bytes around the
/// sub-record (two before, none after for unknown tags).
pub open spec fn plain_body_at(d: Seq<u8>, p: int, tag: int) -> Result<int, Error> {
    let (before, after) = match extra_spec(tag) {
        Some(ba) => ba,
        None => (2, 0),
    };
    match take_at(d, p, before) {
        Err(e) => Err(e),
        Ok(p2) => match sub_record_at(d, p2) {
            Err(e) => Err(e),
            Ok(p3) => take_at(d, p3, after),
        },
    }
}

/// One special record: the reversed tag, then its tag-specific body.
#[verifier::opaque]
pub open spec fn special_at(d: Seq<u8>, p: int) -> Result<int, Error> {
    match take_at(d, p, 8) {
        Err(e) => Err(e),
        Ok(p1) => if tag_at(d, p) == TAG_GUARDIAN {
            guardian_body_at(d, p1)
        } else {
            plain_body_at(d, p1, tag_at(d, p))
        },
    }
}

/// `count` special records in a row.
pub open spec fn specials_at(d: Seq<u8>, p: int, count: int) -> Result<int, Error>
    decreases count,
{
    if count <= 0 {
        Ok(p)
    } else {
        match special_at(d, p) {
            Err(e) => Err(e),
            Ok(q) => specials_at(d, q, count - 1),
        }
    }
}

fn skip_sub_record(cursor: &mut Cursor) -> (r: Result<(), Error>)
    ensures
        final(cursor).bytes() == old(cursor).bytes(),
        skipped(r, final(cursor).at(), sub_record_at(old(cursor).bytes(), old(cursor).at())),
{
    cursor.skip(8 + 8 + 1 + 1 + 4 + 4 + 4)?;
    let count = cursor.u8()?;
    cursor.skip(count as usize * 17)?;
    let count = cursor.u8()?;
    cursor.skip(count as usize * 17)?;
    Ok(())
}

/// Extra bytes (before, after) the common sub-record, per known tag.
fn extra_bytes(tag: u64) -> (r: Option<(usize, usize)>)
    ensures
        match extra_spec(tag as int) {
            Some((b, a)) => r == Some((b as usize, a as usize)),
            None => r is None,
        },
{
    if tag == 0x5370_4765_6E65_7263 {
        Some((1, 0))
    } else if tag == 0x5370_5465_7266_726D || tag == 0x2053_7052_7569_6E73 {
        Some((2, 8))
    } else if tag == 0x5370_4465_706C_6574 || tag == 0x5370_5072_7444_6570 {
        Some((2, 4))
    } else if tag == 0x5370_4162_6E43_6F6C {
        Some((2, 0))
    } else if tag == 0x5370_5370_6C43_6F6C || tag == 0x5370_464C_5547_656E {
        Some((2, 12))
    } else if tag == 0x2053_7045_7665_6E74 {
        Some((2, 16))
    } else if tag == 0x5370_416E_7461_7258 {
        Some((2, 1))
    } else {
        None
    }
}

fn skip_guardian_body(cursor: &mut Cursor) -> (r: Result<(), Error>)
    ensures
        final(cursor).bytes() == old(cursor).bytes(),
        skipped(r, final(cursor).at(), guardian_body_at(old(cursor).bytes(), old(cursor).at())),
{
    cursor.skip(2)?;
    skip_sub_record(cursor)?;
    cursor.skip(1)?;
    cursor.skip_prefixed()
}

fn skip_plain_body(cursor: &mut Cursor, tag: u64) -> (r: Result<(), Error>)
    ensures
        final(cursor).bytes() == old(cursor).bytes(),
        skipped(r, final(cursor).at(), plain_body_at(old(cursor).bytes(), old(cursor).at(), tag as int)),
{
    let (before, after) = match extra_bytes(tag) {
        Some(ba) => ba,
        None => (2, 0),
    };
    cursor.skip(before)?;
    skip_sub_record(cursor)?;
    cursor.skip(after)
}

/// The forward-reading tag of 8 stored (reversed) bytes.
fn tag_of(s: &[u8]) -> (tag: u64)
    requires
        s@.len() == 8,
    ensures
        tag == tag_at(s@, 0),
{
    s[7] as u64 * 0x100_0000_0000_0000 + s[6] as u64 * 0x1_0000_0000_0000 + s[5] as u64
        * 0x100_0000_0000 + s[4] as u64 * 0x1_0000_0000 + s[3] as u64 * 0x100_0000 + s[2] as u64
        * 0x1_0000 + s[1] as u64 * 0x100 + s[0] as u64
}

/// Skip one special record starting at the cursor.
pub fn skip_special_record(cursor: &mut Cursor) -> (r: Result<(), Error>)
    ensures
        final(cursor).bytes() == old(cursor).bytes(),
        skipped(r, final(cursor).at(), special_at(old(cursor).bytes(), old(cursor).at())),
{
    let ghost d = cursor.bytes();
    let ghost p = cursor.at();
    let stored = match cursor.take(8) {
        Ok(stored) => stored,
        Err(e) => {
            proof {
                reveal(special_at);
            }
            return Err(e);
        },
    };
    assert(stored@ == d.subrange(p, p + 8));
    let tag = tag_of(stored);
    assert(tag_at(stored@, 0) == tag_at(d, p));
    proof {
        reveal(special_at);
    }
    if tag == TAG_GUARDIAN {
        skip_guardian_body(cursor)
    } else {
        skip_plain_body(cursor, tag)
    }
}

/// Skip `count` special records.
pub fn skip_specials(cursor: &mut Cursor, count: u8) -> (r: Result<(), Error>)
    ensures
        final(cursor).bytes() == old(cursor).bytes(),
        skipped(r, final(cursor).at(), specials_at(old(cursor).bytes(), old(cursor).at(), count as int)),
{
    let ghost d = cursor.bytes();
    let ghost total = specials_at(d, cursor.at(), count as int);
    let mut i: u8 = 0;
    while i < count
        invariant
            cursor.bytes() == d,
            d == old(cursor).bytes(),
            total == specials_at(d, old(cursor).at(), count as int),
            i <= count,
            total == specials_at(d, cursor.at(), count - i),
        decreases count - i,
    {
        skip_special_record(cursor)?;
        i = i + 1;
    }
    Ok(())
}

/// A read that succeeds ends at or after where it began.
pub open spec fn advances(r: Result<int, Error>, p: int) -> bool {
    r matches Ok(q) ==> q >= p
}

proof fn lemma_sub_record_advances(d: Seq<u8>, p: int)
    ensures
        advances(sub_record_at(d, p), p),
{
}

/// A special record that reads ends after where it began.
pub proof fn lemma_special_advances(d: Seq<u8>, p: int)
    ensures
        advances(special_at(d, p), p),
{
    reveal(special_at);
    lemma_sub_record_advances(d, p + 10);
    lemma_sub_record_advances(d, p + 9);
    let tag = tag_at(d, p);
    let (before, _) = match extra_spec(tag) {
        Some(ba) => ba,
        None => (2, 0),
    };
    lemma_sub_record_advances(d, p + 8 + before);
}

/// Special records that read end after where they began.
pub proof fn lemma_specials_advance(d: Seq<u8>, p: int, count: int)
    ensures
        advances(specials_at(d, p, count), p),
    decreases count,
{
    if count > 0 {
        lemma_special_advances(d, p);
        if let Ok(q) = special_at(d, p) {
            lemma_specials_advance(d, q, count - 1);
        }
    }
}

proof fn lemma_sub_record_frame(d: Seq<u8>, e: Seq<u8>, p: int)
    requires
        0 <= p,
        sub_record_at(d, p) matches Ok(q) && agree(d, e, p, q),
    ensures
        sub_record_at(e, p) == sub_record_at(d, p),
{
}

/// A special record reads the same from two files that agree on its bytes.
pub proof fn lemma_special_frame(d: Seq<u8>, e: Seq<u8>, p: int)
    requires
        0 <= p,
        special_at(d, p) matches Ok(q) && agree(d, e, p, q),
    ensures
        special_at(e, p) == special_at(d, p),
{
    reveal(special_at);
    let q = special_at(d, p)->Ok_0;
    assert(tag_at(e, p) == tag_at(d, p));
    let tag = tag_at(d, p);
    if tag == TAG_GUARDIAN {
        lemma_sub_record_advances(d, p + 10);
        lemma_sub_record_frame(d, e, p + 10);
    } else {
        let (before, _) = match extra_spec(tag) {
            Some(ba) => ba,
            None => (2, 0),
        };
        lemma_sub_record_advances(d, p + 8 + before);
        lemma_sub_record_frame(d, e, p + 8 + before);
    }
}

/// Special records read the same from two files that agree on their bytes.
pub proof fn lemma_specials_frame(d: Seq<u8>, e: Seq<u8>, p: int, count: int)
    requires
        0 <= p,
        specials_at(d, p, count) matches Ok(q) && agree(d, e, p, q),
    ensures
        specials_at(e, p, count) == specials_at(d, p, count),
    decreases count,
{
    if count > 0 {
        let q1 = special_at(d, p)->Ok_0;
        lemma_special_advances(d, p);
        lemma_specials_advance(d, q1, count - 1);
        lemma_special_frame(d, e, p);
        lemma_specials_frame(d, e, q1, count - 1);
    }
}

} // verus!
