//! The galaxy section: systems, planets, and population regions.
//!
//! The section starts at the reversed-ASCII marker `VSYXALAG` ("GALAXYSV").
//! After a fixed 65-byte gap comes a one-byte system count, then each system
//! in sequence: a header (UTF-16BE name, orbit slots, two length-prefixed
//! blobs), a planet count, and per planet a list of population regions
//! followed by a large post-region block (buildings, DEAs, queues) that is
//! skipped structurally.
//!
//! Region records are where populations live: owner at region offset +1,
//! the fixed-point population at +2, `race1` (species) at +10 and `race2`
//! (sub-race/magnate) at +11, terrain at +21, and the base and modified
//! ecosystem ratings at +22 and +26.
//!
//! Orbit slot types in the system header: `H` (0x48, habitable) carries 31
//! extra bytes, `L`/`O` (lifeless/other) carry 30, `0xFF` is an empty orbit
//! with none.

use vstd::prelude::*;
use vstd::string::StringExecFns;

use crate::cursor::{
    agree, be32, fixed_at, i32_at, prefixed_at, signed32, skipped, take_at, take_wide, u32_at, u8_at,
    utf16be_at, widen, Cursor,
};
use crate::error::Error;
use crate::search::{find, find_spec};
use crate::special::{advances, skip_specials, specials_at};
use crate::species::{species_of, Species};

verus! {

broadcast use crate::cursor::Cursor::at_nonneg;

/// Offset of the owner (empire id) byte within a region record.
pub const OWNER_OFFSET: usize = 1;
/// Offset of the fixed-point population within a region record.
pub const POP_OFFSET: usize = 2;
/// Offset of the `race1` (species) byte within a region record.
pub const RACE1_OFFSET: usize = 10;
/// Offset of the `race2` (sub-race/magnate) byte within a region record.
pub const RACE2_OFFSET: usize = 11;
/// Offset of the terrain index within a region record.
pub const TERRAIN_OFFSET: usize = 21;
/// Offset of the base ecosystem `i32` within a region record.
pub const ECO_BASE_OFFSET: usize = 22;
/// Offset of the modified ecosystem `i32` within a region record.
pub const ECO_MODIFIED_OFFSET: usize = 26;

/// The fields of one region record that the editor reads.
#[derive(Debug, Clone, Copy, PartialEq, Eq, Structural)]
pub struct RegionRecord {
    pub owner: u8,
    pub pop: i64,
    pub species: Species,
    pub race2: u8,
    pub terrain: u8,
    pub eco_base: i32,
    pub eco_modified: i32,
}

/// A group: nine bytes, a count of 17-byte entries, the entries, seven bytes.
pub open spec fn group_at(d: Seq<u8>, p: int) -> Result<int, Error> {
    match take_at(d, p, 9) {
        Err(e) => Err(e),
        Ok(p1) => match u8_at(d, p1) {
            Err(e) => Err(e),
            Ok((n, p2)) => match take_at(d, p2, n * 17) {
                Err(e) => Err(e),
                Ok(p3) => take_at(d, p3, 7),
            },
        },
    }
}

/// `count` groups in a row.
pub open spec fn groups_at(d: Seq<u8>, p: int, count: int) -> Result<int, Error>
    decreases count,
{
    if count <= 0 {
        Ok(p)
    } else {
        match group_at(d, p) {
            Err(e) => Err(e),
            Ok(q) => groups_at(d, q, count - 1),
        }
    }
}

/// An orbit entry: a tag byte, with seven more bytes after an `O` (0x4F).
pub open spec fn orbit_at(d: Seq<u8>, p: int) -> Result<int, Error> {
    match u8_at(d, p) {
        Err(e) => Err(e),
        Ok((tag, q)) => if tag == 0x4F {
            take_at(d, q, 7)
        } else {
            Ok(q)
        },
    }
}

/// `count` orbit entries in a row.
pub open spec fn orbits_at(d: Seq<u8>, p: int, count: int) -> Result<int, Error>
    decreases count,
{
    if count <= 0 {
        Ok(p)
    } else {
        match orbit_at(d, p) {
            Err(e) => Err(e),
            Ok(q) => orbits_at(d, q, count - 1),
        }
    }
}

/// Trailing bytes of an indexed block, by its switch value.
pub open spec fn switch_extra(v: u32) -> int {
    let k = v as int - 1;
    if k == 0 || k == 1 || k == 3 || k == 4 || k == 5 {
        8
    } else if k == 2 {
        0x30
    } else if k == 6 {
        0x10
    } else if k == 7 {
        0x28
    } else {
        0
    }
}

/// The body of an indexed block: its index byte, a switch value, four
/// bytes, groups, orbit entries, nine bytes, and the switch's extra bytes.
#[verifier::opaque]
pub open spec fn block_body_at(d: Seq<u8>, p: int) -> Result<int, Error> {
    match take_at(d, p, 1) {
        Err(e) => Err(e),
        Ok(p1) => match u32_at(d, p1) {
            Err(e) => Err(e),
            Ok((switch, p2)) => match take_at(d, p2, 4) {
                Err(e) => Err(e),
                Ok(p3) => match u8_at(d, p3) {
                    Err(e) => Err(e),
                    Ok((entries, p4)) => match groups_at(d, p4, entries as int) {
                        Err(e) => Err(e),
                        Ok(p5) => match u8_at(d, p5) {
                            Err(e) => Err(e),
                            Ok((orbits, p6)) => match orbits_at(d, p6, orbits as int) {
                                Err(e) => Err(e),
                                Ok(p7) => match take_at(d, p7, 9) {
                                    Err(e) => Err(e),
                                    Ok(p8) => take_at(d, p8, switch_extra(switch)),
                                },
                            },
                        },
                    },
                },
            },
        },
    }
}

/// The optional block for `index`: present when the next byte equals it.
pub open spec fn indexed_block_at(d: Seq<u8>, p: int, index: u8) -> Result<int, Error> {
    match u8_at(d, p) {
        Err(e) => Err(e),
        Ok((v, _)) => if v != index {
            Ok(p)
        } else {
            block_body_at(d, p)
        },
    }
}

/// The variable tail of a region record: specials, groups, the optional
/// blocks 0, 1 and 2, and one final byte.
#[verifier::opaque]
pub open spec fn region_tail_at(d: Seq<u8>, p: int) -> Result<int, Error> {
    match u8_at(d, p) {
        Err(e) => Err(e),
        Ok((specials, p1)) => match specials_at(d, p1, specials as int) {
            Err(e) => Err(e),
            Ok(p2) => match u8_at(d, p2) {
                Err(e) => Err(e),
                Ok((entries, p3)) => match groups_at(d, p3, entries as int) {
                    Err(e) => Err(e),
                    Ok(p4) => match indexed_block_at(d, p4, 0) {
                        Err(e) => Err(e),
                        Ok(p5) => match indexed_block_at(d, p5, 1) {
                            Err(e) => Err(e),
                            Ok(p6) => match indexed_block_at(d, p6, 2) {
                                Err(e) => Err(e),
                                Ok(p7) => take_at(d, p7, 1),
                            },
                        },
                    },
                },
            },
        },
    }
}

/// The record's fields, read at the offsets of the region layout.
pub open spec fn record_fields(d: Seq<u8>, p: int) -> RegionRecord {
    RegionRecord {
        owner: d[p + 1],
        pop: match fixed_at(d, p + 2) {
            Ok((v, _)) => v,
            Err(_) => 0,
        },
        species: species_of(d[p + 10]),
        race2: d[p + 11],
        terrain: d[p + 21],
        eco_base: signed32(be32(d, p + 22)) as i32,
        eco_modified: signed32(be32(d, p + 26)) as i32,
    }
}

/// One region record at `p`: two bytes, the population, `race1`, `race2`,
/// 42 fixed bytes, then the variable tail.
#[verifier::opaque]
pub open spec fn region_at(d: Seq<u8>, p: int) -> Result<(RegionRecord, int), Error> {
    match take_at(d, p, 2) {
        Err(e) => Err(e),
        Ok(p1) => match fixed_at(d, p1) {
            Err(e) => Err(e),
            Ok((_, p2)) => match u8_at(d, p2) {
                Err(e) => Err(e),
                Ok((_, p3)) => match u8_at(d, p3) {
                    Err(e) => Err(e),
                    Ok((_, p4)) => match take_at(d, p4, 42) {
                        Err(e) => Err(e),
                        Ok(p5) => match region_tail_at(d, p5) {
                            Err(e) => Err(e),
                            Ok(p6) => Ok((record_fields(d, p), p6)),
                        },
                    },
                },
            },
        },
    }
}

fn skip_group(cursor: &mut Cursor) -> (r: Result<(), Error>)
    ensures
        final(cursor).bytes() == old(cursor).bytes(),
        skipped(r, final(cursor).at(), group_at(old(cursor).bytes(), old(cursor).at())),
{
    cursor.skip(1 + 8)?;
    let inner = cursor.u8()?;
    cursor.skip(inner as usize * 17)?;
    cursor.skip(7)
}

fn skip_groups(cursor: &mut Cursor, count: u8) -> (r: Result<(), Error>)
    ensures
        final(cursor).bytes() == old(cursor).bytes(),
        skipped(r, final(cursor).at(), groups_at(old(cursor).bytes(), old(cursor).at(), count as int)),
{
    let mut i: u8 = 0;
    while i < count
        invariant
            cursor.bytes() == old(cursor).bytes(),
            i <= count,
            groups_at(old(cursor).bytes(), old(cursor).at(), count as int) == groups_at(
                cursor.bytes(),
                cursor.at(),
                count - i,
            ),
        decreases count - i,
    {
        skip_group(cursor)?;
        i = i + 1;
    }
    Ok(())
}

fn skip_orbits(cursor: &mut Cursor, count: u8) -> (r: Result<(), Error>)
    ensures
        final(cursor).bytes() == old(cursor).bytes(),
        skipped(r, final(cursor).at(), orbits_at(old(cursor).bytes(), old(cursor).at(), count as int)),
{
    let mut i: u8 = 0;
    while i < count
        invariant
            cursor.bytes() == old(cursor).bytes(),
            i <= count,
            orbits_at(old(cursor).bytes(), old(cursor).at(), count as int) == orbits_at(
                cursor.bytes(),
                cursor.at(),
                count - i,
            ),
        decreases count - i,
    {
        let tag = cursor.u8()?;
        if tag == 0x4F {
            cursor.skip(1 + 4 + 1 + 1)?;
        }
        i = i + 1;
    }
    Ok(())
}

fn skip_block_body(cursor: &mut Cursor) -> (r: Result<(), Error>)
    ensures
        final(cursor).bytes() == old(cursor).bytes(),
        skipped(r, final(cursor).at(), block_body_at(old(cursor).bytes(), old(cursor).at())),
{
    proof {
        reveal(block_body_at);
    }
    cursor.skip(1)?;
    let switch_val = cursor.u32be()?;
    cursor.skip(2 + 1 + 1)?;
    let entries = cursor.u8()?;
    skip_groups(cursor, entries)?;
    let orbits = cursor.u8()?;
    skip_orbits(cursor, orbits)?;
    cursor.skip(8 + 1)?;
    let k = switch_val as i64 - 1;
    if k == 0 || k == 1 || k == 3 || k == 4 || k == 5 {
        cursor.skip(8)
    } else if k == 2 {
        cursor.skip(0x30)
    } else if k == 6 {
        cursor.skip(0x10)
    } else if k == 7 {
        cursor.skip(0x28)
    } else {
        cursor.skip(0)
    }
}

fn skip_indexed_block(cursor: &mut Cursor, index: u8) -> (r: Result<(), Error>)
    ensures
        final(cursor).bytes() == old(cursor).bytes(),
        skipped(r, final(cursor).at(), indexed_block_at(old(cursor).bytes(), old(cursor).at(), index)),
{
    if cursor.peek_u8()? != index {
        return Ok(());
    }
    skip_block_body(cursor)
}

fn skip_region_tail(cursor: &mut Cursor) -> (r: Result<(), Error>)
    ensures
        final(cursor).bytes() == old(cursor).bytes(),
        skipped(r, final(cursor).at(), region_tail_at(old(cursor).bytes(), old(cursor).at())),
{
    proof {
        reveal(region_tail_at);
    }
    let specials = cursor.u8()?;
    skip_specials(cursor, specials)?;
    let entries = cursor.u8()?;
    skip_groups(cursor, entries)?;
    skip_indexed_block(cursor, 0)?;
    skip_indexed_block(cursor, 1)?;
    skip_indexed_block(cursor, 2)?;
    cursor.skip(1)
}

/// Read one region record at the cursor.
fn read_region(cursor: &mut Cursor) -> (r: Result<RegionRecord, Error>)
    ensures
        final(cursor).bytes() == old(cursor).bytes(),
        match region_at(old(cursor).bytes(), old(cursor).at()) {
            Ok((rec, q)) => r == Ok::<RegionRecord, Error>(rec) && final(cursor).at() == q,
            Err(e) => r == Err::<RegionRecord, Error>(e),
        },
{
    proof {
        reveal(region_at);
    }
    let ghost d = cursor.bytes();
    let start = cursor.pos();
    cursor.skip(1 + 1)?;
    let pop = cursor.fixed()?;
    let race1 = cursor.u8()?;
    let race2 = cursor.u8()?;
    cursor.skip(1 + 8 + 1 + 4 + 4 + 8 + 8 + 8)?;
    skip_region_tail(cursor)?;
    let data = cursor.data();
    let rec = RegionRecord {
        owner: data[start + 1],
        pop,
        species: Species::from(race1),
        race2,
        terrain: data[start + 21],
        eco_base: read_i32(data, start + 22),
        eco_modified: read_i32(data, start + 26),
    };
    assert(rec == record_fields(d, start as int));
    Ok(rec)
}

/// The big-endian `i32` at `at`.
pub fn read_i32(data: &[u8], at: usize) -> (v: i32)
    requires
        at + 4 <= data@.len(),
    ensures
        v == signed32(be32(data@, at as int)),
{
    let u: u32 = data[at] as u32 * 0x100_0000 + data[at + 1] as u32 * 0x1_0000 + data[at + 2] as u32
        * 0x100 + data[at + 3] as u32;
    if u < 0x8000_0000 {
        u as i32
    } else {
        ((u - 0x8000_0000) as i32) + i32::MIN
    }
}


/// A typed field's sub-entry: a type byte, with five more bytes after a 7.
pub open spec fn sub_entry_at(d: Seq<u8>, p: int) -> Result<int, Error> {
    match u8_at(d, p) {
        Err(e) => Err(e),
        Ok((t, q)) => if t == 7 {
            take_at(d, q, 5)
        } else {
            Ok(q)
        },
    }
}

/// `count` sub-entries in a row.
pub open spec fn sub_entries_at(d: Seq<u8>, p: int, count: int) -> Result<int, Error>
    decreases count,
{
    if count <= 0 {
        Ok(p)
    } else {
        match sub_entry_at(d, p) {
            Err(e) => Err(e),
            Ok(q) => sub_entries_at(d, q, count - 1),
        }
    }
}

/// A typed field: type 0 carries five bytes; types 3 and 4 carry five bytes
/// and counted sub-entries; other types carry nothing.
pub open spec fn typed_field_at(d: Seq<u8>, p: int) -> Result<int, Error> {
    match u8_at(d, p) {
        Err(e) => Err(e),
        Ok((t, q)) => if t == 0 {
            take_at(d, q, 5)
        } else if t == 3 || t == 4 {
            match take_at(d, q, 5) {
                Err(e) => Err(e),
                Ok(q1) => match u8_at(d, q1) {
                    Err(e) => Err(e),
                    Ok((n, q2)) => sub_entries_at(d, q2, n as int),
                },
            }
        } else {
            Ok(q)
        },
    }
}

/// `count` typed fields in a row.
pub open spec fn typed_fields_at(d: Seq<u8>, p: int, count: int) -> Result<int, Error>
    decreases count,
{
    if count <= 0 {
        Ok(p)
    } else {
        match typed_field_at(d, p) {
            Err(e) => Err(e),
            Ok(q) => typed_fields_at(d, q, count - 1),
        }
    }
}

/// The head of a planet's post-region block: a byte, two length-prefixed
/// blobs, 35 bytes, the UTF-16 planet name, specials, 18 bytes, and typed
/// fields.
#[verifier::opaque]
pub open spec fn post_head_at(d: Seq<u8>, p: int) -> Result<int, Error> {
    match take_at(d, p, 1) {
        Err(e) => Err(e),
        Ok(p1) => match prefixed_at(d, p1) {
            Err(e) => Err(e),
            Ok(p2) => match prefixed_at(d, p2) {
                Err(e) => Err(e),
                Ok(p3) => match take_at(d, p3, 35) {
                    Err(e) => Err(e),
                    Ok(p4) => match u32_at(d, p4) {
                        Err(e) => Err(e),
                        Ok((name_len, p5)) => match take_wide(d, p5, name_len * 2) {
                            Err(e) => Err(e),
                            Ok(p6) => match u8_at(d, p6) {
                                Err(e) => Err(e),
                                Ok((specials, p7)) => match specials_at(d, p7, specials as int) {
                                    Err(e) => Err(e),
                                    Ok(p8) => match take_at(d, p8, 18) {
                                        Err(e) => Err(e),
                                        Ok(p9) => match u8_at(d, p9) {
                                            Err(e) => Err(e),
                                            Ok((fields, p10)) => typed_fields_at(
                                                d,
                                                p10,
                                                fields as int,
                                            ),
                                        },
                                    },
                                },
                            },
                        },
                    },
                },
            },
        },
    }
}

/// A count of 42-byte entries, the entries, then `tail` bytes.
pub open spec fn entry_run_at(d: Seq<u8>, p: int, tail: int) -> Result<int, Error> {
    match u8_at(d, p) {
        Err(e) => Err(e),
        Ok((n, q)) => match take_at(d, q, n * 42) {
            Err(e) => Err(e),
            Ok(q1) => take_at(d, q1, tail),
        },
    }
}

/// A `u32` count of 12-byte entries and the entries.
pub open spec fn counted12_at(d: Seq<u8>, p: int) -> Result<int, Error> {
    match u32_at(d, p) {
        Err(e) => Err(e),
        Ok((n, q)) => take_wide(d, q, n * 12),
    }
}

/// Five runs of 12-byte entries.
pub open spec fn counted12_runs_at(d: Seq<u8>, p: int, count: int) -> Result<int, Error>
    decreases count,
{
    if count <= 0 {
        Ok(p)
    } else {
        match counted12_at(d, p) {
            Err(e) => Err(e),
            Ok(q) => counted12_runs_at(d, q, count - 1),
        }
    }
}

/// The large optional block of a developed planet.
#[verifier::opaque]
pub open spec fn big_block_at(d: Seq<u8>, p: int) -> Result<int, Error> {
    match take_at(d, p, 1) {
        Err(e) => Err(e),
        Ok(p1) => match entry_run_at(d, p1, 14) {
            Err(e) => Err(e),
            Ok(p2) => match entry_run_at(d, p2, 10) {
                Err(e) => Err(e),
                Ok(p3) => match entry_run_at(d, p3, 10) {
                    Err(e) => Err(e),
                    Ok(p4) => match entry_run_at(d, p4, 5) {
                        Err(e) => Err(e),
                        Ok(p5) => match u8_at(d, p5) {
                            Err(e) => Err(e),
                            Ok((n, p6)) => match take_at(d, p6, n * 9) {
                                Err(e) => Err(e),
                                Ok(p7) => match take_at(d, p7, 20) {
                                    Err(e) => Err(e),
                                    Ok(p8) => match take_at(d, p8, 33) {
                                        Err(e) => Err(e),
                                        Ok(p9) => big_block_rest_at(d, p9),
                                    },
                                },
                            },
                        },
                    },
                },
            },
        },
    }
}

/// The second half of the large optional block.
#[verifier::opaque]
pub open spec fn big_block_rest_at(d: Seq<u8>, p: int) -> Result<int, Error> {
    match u8_at(d, p) {
        Err(e) => Err(e),
        Ok((groups, p1)) => match groups_at(d, p1, groups as int) {
            Err(e) => Err(e),
            Ok(p2) => match take_at(d, p2, 66) {
                Err(e) => Err(e),
                Ok(p3) => match take_at(d, p3, 32) {
                    Err(e) => Err(e),
                    Ok(p4) => match take_at(d, p4, 0x80) {
                        Err(e) => Err(e),
                        Ok(p5) => match take_at(d, p5, 32) {
                            Err(e) => Err(e),
                            Ok(p6) => match take_at(d, p6, 0x3C) {
                                Err(e) => Err(e),
                                Ok(p7) => counted12_runs_at(d, p7, 5),
                            },
                        },
                    },
                },
            },
        },
    }
}

/// Eight-byte entries up to a 0xFF sentinel byte.
pub open spec fn sentinel_run_at(d: Seq<u8>, p: int) -> Result<int, Error>
    decreases d.len() - p,
{
    match u8_at(d, p) {
        Err(e) => Err(e),
        Ok((s, q)) => if s == 0xFF {
            Ok(q)
        } else {
            match take_at(d, q, 8) {
                Err(e) => Err(e),
                Ok(q1) => if q1 <= p {
                    Ok(q1)
                } else {
                    sentinel_run_at(d, q1)
                },
            }
        },
    }
}

/// A fragment: a byte, two length-prefixed blobs, 35 bytes, and a count of
/// six-byte entries.
pub open spec fn fragment_at(d: Seq<u8>, p: int) -> Result<int, Error> {
    match take_at(d, p, 1) {
        Err(e) => Err(e),
        Ok(p1) => match prefixed_at(d, p1) {
            Err(e) => Err(e),
            Ok(p2) => match prefixed_at(d, p2) {
                Err(e) => Err(e),
                Ok(p3) => match take_at(d, p3, 35) {
                    Err(e) => Err(e),
                    Ok(p4) => match u8_at(d, p4) {
                        Err(e) => Err(e),
                        Ok((n, p5)) => take_at(d, p5, n * 6),
                    },
                },
            },
        },
    }
}

/// `count` fragments in a row.
pub open spec fn fragments_at(d: Seq<u8>, p: int, count: int) -> Result<int, Error>
    decreases count,
{
    if count <= 0 {
        Ok(p)
    } else {
        match fragment_at(d, p) {
            Err(e) => Err(e),
            Ok(q) => fragments_at(d, q, count - 1),
        }
    }
}

/// The tail of the post-region block: 23 bytes, a build queue, five bytes,
/// the sentinel run, a length-prefixed blob, a byte, and fragments.
#[verifier::opaque]
pub open spec fn post_tail_at(d: Seq<u8>, p: int) -> Result<int, Error> {
    match take_at(d, p, 0x17) {
        Err(e) => Err(e),
        Ok(p1) => match u8_at(d, p1) {
            Err(e) => Err(e),
            Ok((queue, p2)) => match take_at(d, p2, queue * 8) {
                Err(e) => Err(e),
                Ok(p3) => match take_at(d, p3, 5) {
                    Err(e) => Err(e),
                    Ok(p4) => match sentinel_run_at(d, p4) {
                        Err(e) => Err(e),
                        Ok(p5) => match prefixed_at(d, p5) {
                            Err(e) => Err(e),
                            Ok(p6) => match take_at(d, p6, 1) {
                                Err(e) => Err(e),
                                Ok(p7) => match u8_at(d, p7) {
                                    Err(e) => Err(e),
                                    Ok((n, p8)) => fragments_at(d, p8, n as int),
                                },
                            },
                        },
                    },
                },
            },
        },
    }
}

/// A planet's whole post-region block.
pub open spec fn post_region_at(d: Seq<u8>, p: int) -> Result<int, Error> {
    match post_head_at(d, p) {
        Err(e) => Err(e),
        Ok(p1) => match u8_at(d, p1) {
            Err(e) => Err(e),
            Ok((flag, p2)) => match (if flag > 0 {
                big_block_at(d, p2)
            } else {
                Ok(p2)
            }) {
                Err(e) => Err(e),
                Ok(p3) => post_tail_at(d, p3),
            },
        },
    }
}

fn skip_sub_entries(cursor: &mut Cursor, count: u8) -> (r: Result<(), Error>)
    ensures
        final(cursor).bytes() == old(cursor).bytes(),
        skipped(r, final(cursor).at(), sub_entries_at(old(cursor).bytes(), old(cursor).at(), count as int)),
{
    let mut i: u8 = 0;
    while i < count
        invariant
            cursor.bytes() == old(cursor).bytes(),
            i <= count,
            sub_entries_at(old(cursor).bytes(), old(cursor).at(), count as int) == sub_entries_at(
                cursor.bytes(),
                cursor.at(),
                count - i,
            ),
        decreases count - i,
    {
        let sub_type = cursor.u8()?;
        if sub_type == 7 {
            cursor.skip(1 + 4)?;
        }
        i = i + 1;
    }
    Ok(())
}

fn skip_typed_field(cursor: &mut Cursor) -> (r: Result<(), Error>)
    ensures
        final(cursor).bytes() == old(cursor).bytes(),
        skipped(r, final(cursor).at(), typed_field_at(old(cursor).bytes(), old(cursor).at())),
{
    let field_type = cursor.u8()?;
    if field_type == 0 {
        cursor.skip(1 + 4)
    } else if field_type == 3 || field_type == 4 {
        cursor.skip(1 + 4)?;
        let entries = cursor.u8()?;
        skip_sub_entries(cursor, entries)
    } else {
        Ok(())
    }
}

fn skip_typed_fields(cursor: &mut Cursor, count: u8) -> (r: Result<(), Error>)
    ensures
        final(cursor).bytes() == old(cursor).bytes(),
        skipped(r, final(cursor).at(), typed_fields_at(old(cursor).bytes(), old(cursor).at(), count as int)),
{
    let mut i: u8 = 0;
    while i < count
        invariant
            cursor.bytes() == old(cursor).bytes(),
            i <= count,
            typed_fields_at(old(cursor).bytes(), old(cursor).at(), count as int) == typed_fields_at(
                cursor.bytes(),
                cursor.at(),
                count - i,
            ),
        decreases count - i,
    {
        skip_typed_field(cursor)?;
        i = i + 1;
    }
    Ok(())
}

fn skip_post_head(cursor: &mut Cursor) -> (r: Result<(), Error>)
    ensures
        final(cursor).bytes() == old(cursor).bytes(),
        skipped(r, final(cursor).at(), post_head_at(old(cursor).bytes(), old(cursor).at())),
{
    proof {
        reveal(post_head_at);
    }
    cursor.skip(1)?;
    cursor.skip_prefixed()?;
    cursor.skip_prefixed()?;
    cursor.skip(1 + 1 + 1 + 8 + 1 + 1 + 8 + 8 + 1 + 1 + 1 + 2 + 1)?;
    let name_len = cursor.u32be()?;
    cursor.skip_wide(widen(name_len), 2)?;
    let specials = cursor.u8()?;
    skip_specials(cursor, specials)?;
    cursor.skip(8 + 8 + 2)?;
    let fields = cursor.u8()?;
    skip_typed_fields(cursor, fields)
}

fn skip_entry_run(cursor: &mut Cursor, tail: usize) -> (r: Result<(), Error>)
    ensures
        final(cursor).bytes() == old(cursor).bytes(),
        skipped(r, final(cursor).at(), entry_run_at(old(cursor).bytes(), old(cursor).at(), tail as int)),
{
    let entries = cursor.u8()?;
    cursor.skip(entries as usize * 42)?;
    cursor.skip(tail)
}

fn skip_counted12_runs(cursor: &mut Cursor, count: u8) -> (r: Result<(), Error>)
    ensures
        final(cursor).bytes() == old(cursor).bytes(),
        skipped(r, final(cursor).at(), counted12_runs_at(old(cursor).bytes(), old(cursor).at(), count as int)),
{
    let mut i: u8 = 0;
    while i < count
        invariant
            cursor.bytes() == old(cursor).bytes(),
            i <= count,
            counted12_runs_at(old(cursor).bytes(), old(cursor).at(), count as int)
                == counted12_runs_at(cursor.bytes(), cursor.at(), count - i),
        decreases count - i,
    {
        let entries = cursor.u32be()?;
        cursor.skip_wide(widen(entries), 12)?;
        i = i + 1;
    }
    Ok(())
}

fn skip_big_block_rest(cursor: &mut Cursor) -> (r: Result<(), Error>)
    ensures
        final(cursor).bytes() == old(cursor).bytes(),
        skipped(r, final(cursor).at(), big_block_rest_at(old(cursor).bytes(), old(cursor).at())),
{
    proof {
        reveal(big_block_rest_at);
    }
    let groups = cursor.u8()?;
    skip_groups(cursor, groups)?;
    cursor.skip(9 + 1 + 0x38)?;
    cursor.skip(8 * 4)?;
    cursor.skip(0x80)?;
    cursor.skip(8 * 4)?;
    cursor.skip(0x3C)?;
    skip_counted12_runs(cursor, 5)
}

fn skip_big_block(cursor: &mut Cursor) -> (r: Result<(), Error>)
    ensures
        final(cursor).bytes() == old(cursor).bytes(),
        skipped(r, final(cursor).at(), big_block_at(old(cursor).bytes(), old(cursor).at())),
{
    proof {
        reveal(big_block_at);
    }
    cursor.skip(1)?;
    skip_entry_run(cursor, 14)?;
    skip_entry_run(cursor, 10)?;
    skip_entry_run(cursor, 10)?;
    skip_entry_run(cursor, 5)?;
    let entries = cursor.u8()?;
    cursor.skip(entries as usize * 9)?;
    cursor.skip(2 + 1 + 1 + 8 + 4 + 4)?;
    cursor.skip(7 * 2 + 7 * 2 + 5)?;
    skip_big_block_rest(cursor)
}

fn skip_sentinel_run(cursor: &mut Cursor) -> (r: Result<(), Error>)
    ensures
        final(cursor).bytes() == old(cursor).bytes(),
        skipped(r, final(cursor).at(), sentinel_run_at(old(cursor).bytes(), old(cursor).at())),
{
    loop
        invariant
            cursor.bytes() == old(cursor).bytes(),
            sentinel_run_at(old(cursor).bytes(), old(cursor).at()) == sentinel_run_at(
                cursor.bytes(),
                cursor.at(),
            ),
        decreases cursor.bytes().len() - cursor.at(),
    {
        let sentinel = cursor.u8()?;
        if sentinel == 0xFF {
            return Ok(());
        }
        cursor.skip(8)?;
    }
}

fn skip_fragment(cursor: &mut Cursor) -> (r: Result<(), Error>)
    ensures
        final(cursor).bytes() == old(cursor).bytes(),
        skipped(r, final(cursor).at(), fragment_at(old(cursor).bytes(), old(cursor).at())),
{
    cursor.skip(1)?;
    cursor.skip_prefixed()?;
    cursor.skip_prefixed()?;
    cursor.skip(1 + 1 + 1 + 8 + 1 + 1 + 8 + 8 + 1 + 1 + 1 + 2 + 1)?;
    let entries = cursor.u8()?;
    cursor.skip(entries as usize * 6)
}

fn skip_fragments(cursor: &mut Cursor, count: u8) -> (r: Result<(), Error>)
    ensures
        final(cursor).bytes() == old(cursor).bytes(),
        skipped(r, final(cursor).at(), fragments_at(old(cursor).bytes(), old(cursor).at(), count as int)),
{
    let mut i: u8 = 0;
    while i < count
        invariant
            cursor.bytes() == old(cursor).bytes(),
            i <= count,
            fragments_at(old(cursor).bytes(), old(cursor).at(), count as int) == fragments_at(
                cursor.bytes(),
                cursor.at(),
                count - i,
            ),
        decreases count - i,
    {
        skip_fragment(cursor)?;
        i = i + 1;
    }
    Ok(())
}

fn skip_post_tail(cursor: &mut Cursor) -> (r: Result<(), Error>)
    ensures
        final(cursor).bytes() == old(cursor).bytes(),
        skipped(r, final(cursor).at(), post_tail_at(old(cursor).bytes(), old(cursor).at())),
{
    proof {
        reveal(post_tail_at);
    }
    cursor.skip(0x17)?;
    let queue = cursor.u8()?;
    cursor.skip(queue as usize * 8)?;
    cursor.skip(5)?;
    skip_sentinel_run(cursor)?;
    cursor.skip_prefixed()?;
    cursor.skip(1)?;
    let fragments = cursor.u8()?;
    skip_fragments(cursor, fragments)
}

/// Skip a planet's post-region block (buildings, DEAs, queues).
fn skip_post_region(cursor: &mut Cursor) -> (r: Result<(), Error>)
    ensures
        final(cursor).bytes() == old(cursor).bytes(),
        skipped(r, final(cursor).at(), post_region_at(old(cursor).bytes(), old(cursor).at())),
{
    skip_post_head(cursor)?;
    let big_flag = cursor.u8()?;
    if big_flag > 0 {
        skip_big_block(cursor)?;
    }
    skip_post_tail(cursor)
}


/// Reversed-ASCII marker that opens the galaxy section.
pub open spec fn galaxy_marker() -> Seq<u8> {
    seq![0x56u8, 0x53, 0x59, 0x58, 0x41, 0x4C, 0x41, 0x47]
}

/// What kind of body a system's flag byte declares.
///
/// Neutron stars and black holes have no planet list; everything else does.
#[derive(Debug, Clone, Copy, PartialEq, Eq, Structural)]
pub enum SystemKind {
    NeutronStar,
    BlackHole,
    Star(u8),
}

/// The system kind a flag byte declares.
pub open spec fn kind_of(flag: u8) -> SystemKind {
    if flag == 0x4E {
        SystemKind::NeutronStar
    } else if flag == 0x42 {
        SystemKind::BlackHole
    } else {
        SystemKind::Star(flag)
    }
}

/// Whether a system of this kind carries a planet list.
pub open spec fn kind_has_planets(kind: SystemKind) -> bool {
    kind is Star
}

/// Flag `N` (0x4E) declares a neutron star and flag `B` (0x42) a black
/// hole; those two carry no planet list, and every other flag declares a
/// star, keeping its byte, with a planet list.
pub proof fn system_flags_declare_kinds(flag: u8)
    ensures
        (kind_of(flag) == SystemKind::NeutronStar) == (flag == 0x4E),
        (kind_of(flag) == SystemKind::BlackHole) == (flag == 0x42),
        kind_has_planets(kind_of(flag)) == (flag != 0x4E && flag != 0x42),
        kind_has_planets(kind_of(flag)) ==> kind_of(flag) == SystemKind::Star(flag),
{
}

impl vstd::std_specs::convert::FromSpecImpl<u8> for SystemKind {
    open spec fn obeys_from_spec() -> bool {
        true
    }

    open spec fn from_spec(v: u8) -> SystemKind {
        kind_of(v)
    }
}

impl From<u8> for SystemKind {
    fn from(flag: u8) -> (k: Self) {
        if flag == 0x4E {
            Self::NeutronStar
        } else if flag == 0x42 {
            Self::BlackHole
        } else {
            Self::Star(flag)
        }
    }
}

impl SystemKind {
    fn has_planets(self) -> (b: bool)
        ensures
            b == kind_has_planets(self),
    {
        match self {
            Self::NeutronStar | Self::BlackHole => false,
            Self::Star(_) => true,
        }
    }
}

/// One star system, as named in the galaxy map.
#[derive(Debug, PartialEq, Eq)]
pub struct System {
    pub name: String,
    pub kind: SystemKind,
}

/// A system as a value: its name's characters and its kind.
pub struct SystemView {
    pub name: Seq<char>,
    pub kind: SystemKind,
}

impl View for System {
    type V = SystemView;

    open spec fn view(&self) -> SystemView {
        SystemView { name: self.name@, kind: self.kind }
    }
}

/// One populated region on a planet.
///
/// `offset` is the absolute file offset of the region record; the species
/// byte lives at `offset + RACE1_OFFSET`. `pop` is the fixed-point
/// population in 1/65536 units. Regions with zero or negative population
/// are parsed but not recorded.
#[derive(Debug, Clone, Copy, PartialEq, Eq, Structural)]
pub struct Region {
    pub sys_idx: usize,
    pub planet_idx: usize,
    pub region_idx: usize,
    pub owner: u8,
    pub species: Species,
    pub race2: u8,
    pub pop: i64,
    pub terrain: u8,
    pub eco_base: i32,
    pub eco_modified: i32,
    pub offset: usize,
}

/// A parsed galaxy: system names plus every populated region.
#[derive(Debug, PartialEq, Eq)]
pub struct Galaxy {
    pub systems: Vec<System>,
    pub regions: Vec<Region>,
}

/// A galaxy as a value.
pub struct GalaxyView {
    pub systems: Seq<SystemView>,
    pub regions: Seq<Region>,
}

impl View for Galaxy {
    type V = GalaxyView;

    open spec fn view(&self) -> GalaxyView {
        GalaxyView { systems: self.systems@.map_values(|s: System| s@), regions: self.regions@ }
    }
}

/// An orbit slot in a system header: `H` carries 31 bytes, `L` and `O` 30,
/// anything else none.
pub open spec fn slot_at(d: Seq<u8>, p: int) -> Result<int, Error> {
    match u8_at(d, p) {
        Err(e) => Err(e),
        Ok((t, q)) => if t == 0x48 {
            take_at(d, q, 31)
        } else if t == 0x4C || t == 0x4F {
            take_at(d, q, 30)
        } else {
            Ok(q)
        },
    }
}

/// `count` orbit slots in a row.
pub open spec fn slots_at(d: Seq<u8>, p: int, count: int) -> Result<int, Error>
    decreases count,
{
    if count <= 0 {
        Ok(p)
    } else {
        match slot_at(d, p) {
            Err(e) => Err(e),
            Ok(q) => slots_at(d, q, count - 1),
        }
    }
}

/// A system header after its name: 34 bytes, orbit slots, two counted runs,
/// three bytes, two length-prefixed blobs, and 32 bytes.
#[verifier::opaque]
pub open spec fn header_rest_at(d: Seq<u8>, p: int) -> Result<int, Error> {
    match take_at(d, p, 34) {
        Err(e) => Err(e),
        Ok(p1) => match u8_at(d, p1) {
            Err(e) => Err(e),
            Ok((slots, p2)) => match slots_at(d, p2, slots as int) {
                Err(e) => Err(e),
                Ok(p3) => match take_at(d, p3, 2) {
                    Err(e) => Err(e),
                    Ok(p4) => match u8_at(d, p4) {
                        Err(e) => Err(e),
                        Ok((c1, p5)) => match take_at(d, p5, c1 as int) {
                            Err(e) => Err(e),
                            Ok(p6) => match take_at(d, p6, 2) {
                                Err(e) => Err(e),
                                Ok(p7) => match u8_at(d, p7) {
                                    Err(e) => Err(e),
                                    Ok((c2, p8)) => match take_at(d, p8, c2 * 8) {
                                        Err(e) => Err(e),
                                        Ok(p9) => match take_at(d, p9, 3) {
                                            Err(e) => Err(e),
                                            Ok(p10) => match prefixed_at(d, p10) {
                                                Err(e) => Err(e),
                                                Ok(p11) => match prefixed_at(d, p11) {
                                                    Err(e) => Err(e),
                                                    Ok(p12) => take_at(d, p12, 0x20),
                                                },
                                            },
                                        },
                                    },
                                },
                            },
                        },
                    },
                },
            },
        },
    }
}

/// A system header: the kind flag, two bytes, the name (1 to 200 UTF-16
/// units, else the parse has lost sync), and the rest.
#[verifier::opaque]
pub open spec fn header_at(d: Seq<u8>, p: int) -> Result<(SystemView, int), Error> {
    match u8_at(d, p) {
        Err(e) => Err(e),
        Ok((flag, p1)) => match take_at(d, p1, 2) {
            Err(e) => Err(e),
            Ok(p2) => match u32_at(d, p2) {
                Err(e) => Err(e),
                Ok((name_len, p3)) => if name_len == 0 || name_len > 200 {
                    Err(Error::BadSystemName { offset: p as usize, len: name_len })
                } else {
                    match utf16be_at(d, p3, name_len as int) {
                        Err(e) => Err(e),
                        Ok((name, p4)) => match header_rest_at(d, p4) {
                            Err(e) => Err(e),
                            Ok(p5) => Ok((SystemView { name, kind: kind_of(flag) }, p5)),
                        },
                    }
                },
            },
        },
    }
}

/// `acc` followed by what `s` collected, or `s`'s error.
pub open spec fn prefixed(acc: Seq<Region>, s: Result<(Seq<Region>, int), Error>) -> Result<
    (Seq<Region>, int),
    Error,
> {
    match s {
        Ok((rs, q)) => Ok((acc + rs, q)),
        Err(e) => Err(e),
    }
}

/// The region entry for a record read at `offset`.
pub open spec fn region_entry(
    rec: RegionRecord,
    sys: int,
    planet: int,
    idx: int,
    offset: int,
) -> Region {
    Region {
        sys_idx: sys as usize,
        planet_idx: planet as usize,
        region_idx: idx as usize,
        owner: rec.owner,
        species: rec.species,
        race2: rec.race2,
        pop: rec.pop,
        terrain: rec.terrain,
        eco_base: rec.eco_base,
        eco_modified: rec.eco_modified,
        offset: offset as usize,
    }
}

/// Region records `k..n` of a planet, keeping those with positive
/// population.
pub open spec fn regions_at(d: Seq<u8>, p: int, sys: int, planet: int, k: int, n: int) -> Result<
    (Seq<Region>, int),
    Error,
>
    decreases n - k,
{
    if k >= n {
        Ok((Seq::empty(), p))
    } else {
        match region_at(d, p) {
            Err(e) => Err(e),
            Ok((rec, q)) => prefixed(
                if rec.pop > 0 {
                    seq![region_entry(rec, sys, planet, k, p)]
                } else {
                    Seq::empty()
                },
                regions_at(d, q, sys, planet, k + 1, n),
            ),
        }
    }
}

/// One planet: a region count, its regions, and its post-region block.
pub open spec fn planet_at(d: Seq<u8>, p: int, sys: int, planet: int) -> Result<
    (Seq<Region>, int),
    Error,
> {
    match u8_at(d, p) {
        Err(e) => Err(e),
        Ok((n, p1)) => match regions_at(d, p1, sys, planet, 0, n as int) {
            Err(e) => Err(e),
            Ok((rs, p2)) => match post_region_at(d, p2) {
                Err(e) => Err(e),
                Ok(p3) => Ok((rs, p3)),
            },
        },
    }
}

/// Planets `k..n` of a system.
pub open spec fn planets_at(d: Seq<u8>, p: int, sys: int, k: int, n: int) -> Result<
    (Seq<Region>, int),
    Error,
>
    decreases n - k,
{
    if k >= n {
        Ok((Seq::empty(), p))
    } else {
        match planet_at(d, p, sys, k) {
            Err(e) => Err(e),
            Ok((rs, q)) => prefixed(rs, planets_at(d, q, sys, k + 1, n)),
        }
    }
}

/// One system: its header, then (for stars) a planet count and planets.
pub open spec fn system_at(d: Seq<u8>, p: int, sys: int) -> Result<
    (SystemView, Seq<Region>, int),
    Error,
> {
    match header_at(d, p) {
        Err(e) => Err(e),
        Ok((sv, p1)) => if !kind_has_planets(sv.kind) {
            Ok((sv, Seq::empty(), p1))
        } else {
            match u8_at(d, p1) {
                Err(e) => Err(e),
                Ok((n, p2)) => match planets_at(d, p2, sys, 0, n as int) {
                    Err(e) => Err(e),
                    Ok((rs, p3)) => Ok((sv, rs, p3)),
                },
            }
        },
    }
}

/// `sacc` and `racc` followed by what `s` collected, or `s`'s error.
pub open spec fn prefixed2(
    sacc: Seq<SystemView>,
    racc: Seq<Region>,
    s: Result<(Seq<SystemView>, Seq<Region>, int), Error>,
) -> Result<(Seq<SystemView>, Seq<Region>, int), Error> {
    match s {
        Ok((ss, rs, q)) => Ok((sacc + ss, racc + rs, q)),
        Err(e) => Err(e),
    }
}

/// Systems `k..n` of the galaxy.
pub open spec fn systems_at(d: Seq<u8>, p: int, k: int, n: int) -> Result<
    (Seq<SystemView>, Seq<Region>, int),
    Error,
>
    decreases n - k,
{
    if k >= n {
        Ok((Seq::empty(), Seq::empty(), p))
    } else {
        match system_at(d, p, k) {
            Err(e) => Err(e),
            Ok((sv, rs, q)) => prefixed2(seq![sv], rs, systems_at(d, q, k + 1, n)),
        }
    }
}

/// Where the system count sits: 73 bytes past the start of the marker.
pub open spec fn count_offset(marker: int) -> int {
    if marker <= usize::MAX - 73 {
        marker + 73
    } else {
        usize::MAX as int
    }
}

/// The galaxy of a save file: the first galaxy marker, then 65 bytes, a
/// system count, and that many systems.
pub open spec fn galaxy_at(d: Seq<u8>) -> Result<GalaxyView, Error> {
    match find_spec(d, galaxy_marker()) {
        None => Err(Error::NoGalaxyMarker),
        Some(m) => match u8_at(d, count_offset(m)) {
            Err(e) => Err(e),
            Ok((n, p)) => match systems_at(d, p, 0, n as int) {
                Err(e) => Err(e),
                Ok((ss, rs, _)) => Ok(GalaxyView { systems: ss, regions: rs }),
            },
        },
    }
}

/// What a collecting parse did agrees with its spec.
pub open spec fn collected(
    r: Result<(), Error>,
    at: int,
    new_out: Seq<Region>,
    old_out: Seq<Region>,
    s: Result<(Seq<Region>, int), Error>,
) -> bool {
    match s {
        Ok((rs, q)) => r is Ok && at == q && new_out == old_out + rs,
        Err(e) => r == Err::<(), Error>(e),
    }
}

proof fn lemma_prefixed_assoc(acc: Seq<Region>, head: Seq<Region>, s: Result<(Seq<Region>, int), Error>)
    ensures
        prefixed(acc, prefixed(head, s)) == prefixed(acc + head, s),
{
    if let Ok((rs, q)) = s {
        assert(acc + (head + rs) =~= (acc + head) + rs);
    }
}

proof fn lemma_prefixed_empty(s: Result<(Seq<Region>, int), Error>)
    ensures
        prefixed(Seq::empty(), s) == s,
{
    if let Ok((rs, q)) = s {
        assert(Seq::<Region>::empty() + rs =~= rs);
    }
}

fn skip_slots(cursor: &mut Cursor, count: u8) -> (r: Result<(), Error>)
    ensures
        final(cursor).bytes() == old(cursor).bytes(),
        skipped(r, final(cursor).at(), slots_at(old(cursor).bytes(), old(cursor).at(), count as int)),
{
    let mut i: u8 = 0;
    while i < count
        invariant
            cursor.bytes() == old(cursor).bytes(),
            i <= count,
            slots_at(old(cursor).bytes(), old(cursor).at(), count as int) == slots_at(
                cursor.bytes(),
                cursor.at(),
                count - i,
            ),
        decreases count - i,
    {
        let slot_type = cursor.u8()?;
        if slot_type == 0x48 {
            cursor.skip(31)?;
        } else if slot_type == 0x4C || slot_type == 0x4F {
            cursor.skip(30)?;
        }
        i = i + 1;
    }
    Ok(())
}

fn skip_header_rest(cursor: &mut Cursor) -> (r: Result<(), Error>)
    ensures
        final(cursor).bytes() == old(cursor).bytes(),
        skipped(r, final(cursor).at(), header_rest_at(old(cursor).bytes(), old(cursor).at())),
{
    proof {
        reveal(header_rest_at);
    }
    cursor.skip(2 + 8 + 8 + 8 + 8)?;
    let slots = cursor.u8()?;
    skip_slots(cursor, slots)?;
    cursor.skip(2)?;
    let count = cursor.u8()?;
    cursor.skip(count as usize)?;
    cursor.skip(2)?;
    let count = cursor.u8()?;
    cursor.skip(count as usize * 8)?;
    cursor.skip(3)?;
    cursor.skip_prefixed()?;
    cursor.skip_prefixed()?;
    cursor.skip(0x20)
}

fn read_system_header(cursor: &mut Cursor) -> (r: Result<System, Error>)
    ensures
        final(cursor).bytes() == old(cursor).bytes(),
        match header_at(old(cursor).bytes(), old(cursor).at()) {
            Ok((sv, q)) => r matches Ok(s) && s@ == sv && final(cursor).at() == q,
            Err(e) => r == Err::<System, Error>(e),
        },
{
    proof {
        reveal(header_at);
    }
    let start = cursor.pos();
    let kind = SystemKind::from(cursor.u8()?);
    cursor.skip(2)?;
    let name_len = cursor.u32be()?;
    if name_len == 0 || name_len > 200 {
        return Err(Error::BadSystemName { offset: start, len: name_len });
    }
    let name = cursor.utf16be(widen(name_len))?;
    skip_header_rest(cursor)?;
    Ok(System { name, kind })
}

fn parse_regions(
    cursor: &mut Cursor,
    sys: usize,
    planet: usize,
    count: u8,
    out: &mut Vec<Region>,
) -> (r: Result<(), Error>)
    ensures
        final(cursor).bytes() == old(cursor).bytes(),
        collected(
            r,
            final(cursor).at(),
            final(out)@,
            old(out)@,
            regions_at(old(cursor).bytes(), old(cursor).at(), sys as int, planet as int, 0, count as int),
        ),
{
    let ghost d = cursor.bytes();
    let ghost total = regions_at(d, cursor.at(), sys as int, planet as int, 0, count as int);
    let ghost mut acc: Seq<Region> = Seq::empty();
    proof {
        lemma_prefixed_empty(total);
    }
    let mut i: u8 = 0;
    while i < count
        invariant
            cursor.bytes() == d,
            d == old(cursor).bytes(),
            total == regions_at(d, old(cursor).at(), sys as int, planet as int, 0, count as int),
            i <= count,
            out@ == old(out)@ + acc,
            total == prefixed(acc, regions_at(d, cursor.at(), sys as int, planet as int, i as int, count as int)),
        decreases count - i,
    {
        let offset = cursor.pos();
        let ghost rest = regions_at(d, cursor.at(), sys as int, planet as int, i + 1, count as int);
        let rec = read_region(cursor)?;
        if rec.pop > 0 {
            out.push(Region {
                sys_idx: sys,
                planet_idx: planet,
                region_idx: i as usize,
                owner: rec.owner,
                species: rec.species,
                race2: rec.race2,
                pop: rec.pop,
                terrain: rec.terrain,
                eco_base: rec.eco_base,
                eco_modified: rec.eco_modified,
                offset,
            });
            proof {
                let head = seq![region_entry(rec, sys as int, planet as int, i as int, offset as int)];
                lemma_prefixed_assoc(acc, head, regions_at(d, cursor.at(), sys as int, planet as int, i + 1, count as int));
                acc = acc + head;
                assert(out@ =~= old(out)@ + acc);
            }
        } else {
            proof {
                lemma_prefixed_assoc(acc, Seq::empty(), regions_at(d, cursor.at(), sys as int, planet as int, i + 1, count as int));
                assert(acc + Seq::<Region>::empty() =~= acc);
            }
        }
        i = i + 1;
    }
    proof {
        assert(acc + Seq::<Region>::empty() =~= acc);
    }
    Ok(())
}

fn parse_planet(cursor: &mut Cursor, sys: usize, planet: usize, out: &mut Vec<Region>) -> (r: Result<
    (),
    Error,
>)
    ensures
        final(cursor).bytes() == old(cursor).bytes(),
        collected(
            r,
            final(cursor).at(),
            final(out)@,
            old(out)@,
            planet_at(old(cursor).bytes(), old(cursor).at(), sys as int, planet as int),
        ),
{
    let region_count = cursor.u8()?;
    parse_regions(cursor, sys, planet, region_count, out)?;
    skip_post_region(cursor)
}

fn parse_planets(cursor: &mut Cursor, sys: usize, count: u8, out: &mut Vec<Region>) -> (r: Result<
    (),
    Error,
>)
    ensures
        final(cursor).bytes() == old(cursor).bytes(),
        collected(
            r,
            final(cursor).at(),
            final(out)@,
            old(out)@,
            planets_at(old(cursor).bytes(), old(cursor).at(), sys as int, 0, count as int),
        ),
{
    let ghost d = cursor.bytes();
    let ghost total = planets_at(d, cursor.at(), sys as int, 0, count as int);
    let ghost mut acc: Seq<Region> = Seq::empty();
    proof {
        lemma_prefixed_empty(total);
    }
    let mut i: u8 = 0;
    while i < count
        invariant
            cursor.bytes() == d,
            d == old(cursor).bytes(),
            total == planets_at(d, old(cursor).at(), sys as int, 0, count as int),
            i <= count,
            out@ == old(out)@ + acc,
            total == prefixed(acc, planets_at(d, cursor.at(), sys as int, i as int, count as int)),
        decreases count - i,
    {
        let ghost before = out@;
        let ghost p = cursor.at();
        parse_planet(cursor, sys, i as usize, out)?;
        proof {
            let rs = out@.subrange(before.len() as int, out@.len() as int);
            if let Ok((rs1, q)) = planet_at(d, p, sys as int, i as int) {
                assert(rs1 =~= rs);
            }
            lemma_prefixed_assoc(acc, rs, planets_at(d, cursor.at(), sys as int, i + 1, count as int));
            acc = acc + rs;
            assert(out@ =~= old(out)@ + acc);
        }
        i = i + 1;
    }
    proof {
        assert(acc + Seq::<Region>::empty() =~= acc);
    }
    Ok(())
}

/// What a system parse did agrees with its spec.
pub open spec fn system_parsed(
    r: Result<System, Error>,
    at: int,
    new_out: Seq<Region>,
    old_out: Seq<Region>,
    s: Result<(SystemView, Seq<Region>, int), Error>,
) -> bool {
    match s {
        Ok((sv, rs, q)) => r matches Ok(system) && system@ == sv && at == q && new_out == old_out + rs,
        Err(e) => r == Err::<System, Error>(e),
    }
}

fn parse_system(cursor: &mut Cursor, sys: usize, out: &mut Vec<Region>) -> (r: Result<System, Error>)
    ensures
        final(cursor).bytes() == old(cursor).bytes(),
        system_parsed(
            r,
            final(cursor).at(),
            final(out)@,
            old(out)@,
            system_at(old(cursor).bytes(), old(cursor).at(), sys as int),
        ),
{
    let system = read_system_header(cursor)?;
    if system.kind.has_planets() {
        let planet_count = cursor.u8()?;
        parse_planets(cursor, sys, planet_count, out)?;
    } else {
        assert(out@ =~= old(out)@ + Seq::<Region>::empty());
    }
    Ok(system)
}

impl Galaxy {
    /// Parse the galaxy section out of a full save file.
    ///
    /// Fails with [`Error::NoGalaxyMarker`] when the file is not a MOO3
    /// save, and with [`Error::Truncated`] or [`Error::BadSystemName`] when
    /// the parser loses sync (unknown game version or corrupt file).
    pub fn parse(data: &[u8]) -> (r: Result<Self, Error>)
        ensures
            match galaxy_at(data@) {
                Ok(g) => r matches Ok(galaxy) && galaxy@ == g,
                Err(e) => r == Err::<Galaxy, Error>(e),
            },
    {
        let marker_bytes: [u8; 8] = [0x56, 0x53, 0x59, 0x58, 0x41, 0x4C, 0x41, 0x47];
        assert(marker_bytes@ == galaxy_marker());
        let ghost d = data@;
        assert(d.len() == data.len());
        proof {
            crate::search::lemma_find_from(d, galaxy_marker(), 0);
        }
        let needle: &[u8] = &marker_bytes;
        assert(needle@ == galaxy_marker());
        let marker = match find(data, needle) {
            Some(m) => m,
            None => return Err(Error::NoGalaxyMarker),
        };
        let start = if marker <= usize::MAX - 73 {
            marker + 8 + 4 + 1 + 60
        } else {
            usize::MAX
        };
        assert(find_spec(d, galaxy_marker()) == Some(marker as int));
        assert(start == count_offset(marker as int));
        let mut cursor = Cursor::new(data, start);
        let system_count = cursor.u8()?;
        assert(u8_at(d, count_offset(marker as int)) == Ok::<(u8, int), Error>((system_count, cursor.at())));
        let mut systems: Vec<System> = Vec::new();
        let mut regions: Vec<Region> = Vec::new();
        let ghost total = systems_at(d, cursor.at(), 0, system_count as int);
        let ghost mut sacc: Seq<SystemView> = Seq::empty();
        let ghost mut racc: Seq<Region> = Seq::empty();
        proof {
            if let Ok((ss, rs, q)) = total {
                assert(sacc + ss =~= ss);
                assert(racc + rs =~= rs);
            }
        }
        let mut sys_idx: u8 = 0;
        while sys_idx < system_count
            invariant
                cursor.bytes() == d,
                d == data@,
                galaxy_at(d) == match total {
                    Ok((ss, rs, _)) => Ok(GalaxyView { systems: ss, regions: rs }),
                    Err(e) => Err(e),
                },
                sys_idx <= system_count,
                systems@.map_values(|s: System| s@) == sacc,
                regions@ == racc,
                total == prefixed2(sacc, racc, systems_at(d, cursor.at(), sys_idx as int, system_count as int)),
            decreases system_count - sys_idx,
        {
            let ghost p = cursor.at();
            let ghost before = regions@;
            let system = parse_system(&mut cursor, sys_idx as usize, &mut regions)?;
            proof {
                let rs = regions@.subrange(before.len() as int, regions@.len() as int);
                let sv = system@;
                if let Ok((sv1, rs1, q1)) = system_at(d, p, sys_idx as int) {
                    assert(rs1 =~= rs);
                }
                let rest = systems_at(d, cursor.at(), sys_idx + 1, system_count as int);
                if let Ok((ss, rs2, q)) = rest {
                    assert(sacc + (seq![sv] + ss) =~= (sacc + seq![sv]) + ss);
                    assert(racc + (rs + rs2) =~= (racc + rs) + rs2);
                }
                sacc = sacc + seq![sv];
                racc = racc + rs;
            }
            systems.push(system);
            proof {
                assert(systems@.map_values(|s: System| s@) =~= sacc);
            }
            sys_idx = sys_idx + 1;
        }
        proof {
            assert(sacc + Seq::<SystemView>::empty() =~= sacc);
            assert(racc + Seq::<Region>::empty() =~= racc);
        }
        let galaxy = Galaxy { systems, regions };
        assert(galaxy@.systems == sacc);
        Ok(galaxy)
    }
}


/// The Roman numeral value and digits of table entry `k`.
pub open spec fn numeral(k: int) -> (int, Seq<char>) {
    if k == 0 {
        (10, "X"@)
    } else if k == 1 {
        (9, "IX"@)
    } else if k == 2 {
        (5, "V"@)
    } else if k == 3 {
        (4, "IV"@)
    } else {
        (1, "I"@)
    }
}

/// Greedy Roman numeral of `n` using table entries `k..5`.
pub open spec fn roman_from(n: int, k: int) -> Seq<char>
    decreases n, 5 - k,
{
    if k >= 5 || n <= 0 || k < 0 {
        Seq::empty()
    } else if n >= numeral(k).0 {
        numeral(k).1 + roman_from(n - numeral(k).0, k)
    } else {
        roman_from(n, k + 1)
    }
}

/// The Roman numeral of `n`, as the game numbers planets (1 is `I`).
pub open spec fn roman_of(n: int) -> Seq<char> {
    roman_from(n, 0)
}

/// Roman numeral for planet numbering (1-based).
pub fn roman(n: usize) -> (s: String)
    ensures
        s@ == roman_of(n as int),
{
    let mut n = n;
    let mut out = String::new();
    let ghost n0 = n as int;
    let mut k: usize = 0;
    assert(out@ + roman_from(n0, 0) =~= roman_from(n0, 0));
    while k < 5
        invariant
            k <= 5,
            out@ + roman_from(n as int, k as int) == roman_from(n0, 0),
        decreases 5 - k,
    {
        let (value, digits): (usize, &str) = if k == 0 {
            (10, "X")
        } else if k == 1 {
            (9, "IX")
        } else if k == 2 {
            (5, "V")
        } else if k == 3 {
            (4, "IV")
        } else {
            (1, "I")
        };
        while n >= value
            invariant
                k < 5,
                value == numeral(k as int).0,
                digits@ == numeral(k as int).1,
                out@ + roman_from(n as int, k as int) == roman_from(n0, 0),
            decreases n,
        {
            out.append(digits);
            assert(out@ + roman_from(n - value, k as int) =~= roman_from(n0, 0));
            n = n - value;
        }
        k = k + 1;
    }
    assert(out@ + Seq::<char>::empty() =~= out@);
    out
}

/// The standard value of a Roman digit (0 for any other character).
pub open spec fn digit_value(c: char) -> int {
    if c == 'I' {
        1
    } else if c == 'V' {
        5
    } else if c == 'X' {
        10
    } else if c == 'L' {
        50
    } else if c == 'C' {
        100
    } else if c == 'D' {
        500
    } else if c == 'M' {
        1000
    } else {
        0
    }
}

/// The value of a Roman numeral read left to right: a digit followed by a
/// larger one forms a subtractive pair worth their difference; any other
/// digit adds its value.
pub open spec fn roman_value(s: Seq<char>) -> int
    decreases s.len(),
{
    if s.len() == 0 {
        0
    } else if s.len() >= 2 && digit_value(s[0]) < digit_value(s[1]) {
        digit_value(s[1]) - digit_value(s[0]) + roman_value(s.subrange(2, s.len() as int))
    } else {
        digit_value(s[0]) + roman_value(s.drop_first())
    }
}

/// A numeral for a number below ten in the standard form: up to three
/// `I`s, `IV`, a `V` followed by up to three `I`s, or `IX`.
pub open spec fn standard_units(u: Seq<char>) -> bool {
    ||| (u.len() <= 3 && forall|i: int| 0 <= i < u.len() ==> u[i] == 'I')
    ||| u == seq!['I', 'V']
    ||| (1 <= u.len() <= 4 && u[0] == 'V' && forall|i: int| 1 <= i < u.len() ==> u[i] == 'I')
    ||| u == seq!['I', 'X']
}

/// A numeral in the standard form: tens as repeated `X`, then the units.
pub open spec fn standard_numeral(s: Seq<char>) -> bool
    decreases s.len(),
{
    if s.len() > 0 && s[0] == 'X' {
        standard_numeral(s.drop_first())
    } else {
        standard_units(s)
    }
}

proof fn lemma_roman_units(m: int)
    requires
        0 <= m < 10,
    ensures
        roman_value(roman_of(m)) == m,
        standard_numeral(roman_of(m)),
        roman_of(m).len() == 0 || roman_of(m)[0] == 'I' || roman_of(m)[0] == 'V',
{
    reveal_strlit("X");
    reveal_strlit("IX");
    reveal_strlit("V");
    reveal_strlit("IV");
    reveal_strlit("I");
    reveal_with_fuel(roman_from, 12);
    reveal_with_fuel(roman_value, 6);
    let r = roman_of(m);
    if m == 0 {
        assert(r =~= Seq::<char>::empty());
    } else if m == 1 {
        assert(r =~= seq!['I']);
    } else if m == 2 {
        assert(r =~= seq!['I', 'I']);
    } else if m == 3 {
        assert(r =~= seq!['I', 'I', 'I']);
    } else if m == 4 {
        assert(r =~= seq!['I', 'V']);
        assert(r.subrange(2, 2) =~= Seq::<char>::empty());
    } else if m == 5 {
        assert(r =~= seq!['V']);
    } else if m == 6 {
        assert(r =~= seq!['V', 'I']);
    } else if m == 7 {
        assert(r =~= seq!['V', 'I', 'I']);
    } else if m == 8 {
        assert(r =~= seq!['V', 'I', 'I', 'I']);
    } else {
        assert(r =~= seq!['I', 'X']);
        assert(r.subrange(2, 2) =~= Seq::<char>::empty());
    }
    if r.len() > 0 {
        assert(r.drop_first().len() < r.len());
    }
}

/// Every planet numeral is a standard Roman numeral (tens as `X`s, then the
/// standard form of the units) whose value is the planet's number.
pub proof fn roman_numerals_denote_their_numbers(n: int)
    requires
        0 <= n,
    ensures
        roman_value(roman_of(n)) == n,
        standard_numeral(roman_of(n)),
    decreases n,
{
    if n < 10 {
        lemma_roman_units(n);
    } else {
        reveal_strlit("X");
        let rest = roman_of(n - 10);
        roman_numerals_denote_their_numbers(n - 10);
        if n - 10 < 10 {
            lemma_roman_units(n - 10);
        } else {
            reveal_strlit("X");
            assert(roman_of(n - 10) == "X"@ + roman_of(n - 20));
        }
        let r = roman_of(n);
        assert(r == "X"@ + rest);
        assert(r[0] == 'X');
        assert(r.drop_first() =~= rest);
        if rest.len() > 0 {
            assert(r[1] == rest[0]);
        }
    }
}

/// The display name of a region's planet: its system's name (`?` when the
/// index is out of range), a space, and the planet's Roman numeral.
pub open spec fn planet_name_of(g: GalaxyView, region: Region) -> Seq<char> {
    (if region.sys_idx < g.systems.len() {
        g.systems[region.sys_idx as int].name
    } else {
        "?"@
    }) + " "@ + roman_of(region.planet_idx + 1)
}

impl Galaxy {
    /// The display name of a region's planet, e.g. `"Alrisha VII"`.
    pub fn planet_name(&self, region: &Region) -> (s: String)
        requires
            region.planet_idx < usize::MAX,
        ensures
            s@ == planet_name_of(self@, *region),
    {
        let mut s = if region.sys_idx < self.systems.len() {
            self.systems[region.sys_idx].name.clone()
        } else {
            String::from_str("?")
        };
        s.append(" ");
        let numeral = roman(region.planet_idx + 1);
        s.append(numeral.as_str());
        s
    }
}

/// Every index of a region is below 256: systems, planets and regions are
/// all counted by single bytes in the file.
pub open spec fn indices_small(rs: Seq<Region>) -> bool {
    forall|i: int|
        0 <= i < rs.len() ==> {
            &&& (#[trigger] rs[i]).sys_idx < 256
            &&& rs[i].planet_idx < 256
            &&& rs[i].region_idx < 256
        }
}

proof fn lemma_small_concat(a: Seq<Region>, b: Seq<Region>)
    requires
        indices_small(a),
        indices_small(b),
    ensures
        indices_small(a + b),
{
    assert forall|i: int| 0 <= i < (a + b).len() implies {
        &&& (#[trigger] (a + b)[i]).sys_idx < 256
        &&& (a + b)[i].planet_idx < 256
        &&& (a + b)[i].region_idx < 256
    } by {
        if i < a.len() {
            assert((a + b)[i] == a[i]);
        } else {
            assert((a + b)[i] == b[i - a.len()]);
        }
    }
}

proof fn lemma_regions_small(d: Seq<u8>, p: int, sys: int, planet: int, k: int, n: int)
    requires
        0 <= sys < 256,
        0 <= planet < 256,
        0 <= k,
        n <= 256,
    ensures
        regions_at(d, p, sys, planet, k, n) matches Ok((rs, _)) ==> indices_small(rs),
    decreases n - k,
{
    if k < n {
        if let Ok((rec, q)) = region_at(d, p) {
            lemma_regions_small(d, q, sys, planet, k + 1, n);
            if let Ok((rest, _)) = regions_at(d, q, sys, planet, k + 1, n) {
                let head = if rec.pop > 0 {
                    seq![region_entry(rec, sys, planet, k, p)]
                } else {
                    Seq::empty()
                };
                assert(indices_small(head));
                lemma_small_concat(head, rest);
            }
        }
    }
}

proof fn lemma_planets_small(d: Seq<u8>, p: int, sys: int, k: int, n: int)
    requires
        0 <= sys < 256,
        0 <= k,
        n <= 256,
    ensures
        planets_at(d, p, sys, k, n) matches Ok((rs, _)) ==> indices_small(rs),
    decreases n - k,
{
    if k < n {
        if let Ok((head, q)) = planet_at(d, p, sys, k) {
            if let Ok((c, p1)) = u8_at(d, p) {
                lemma_regions_small(d, p1, sys, k, 0, c as int);
            }
            lemma_planets_small(d, q, sys, k + 1, n);
            if let Ok((rest, _)) = planets_at(d, q, sys, k + 1, n) {
                lemma_small_concat(head, rest);
            }
        }
    }
}

proof fn lemma_systems_small(d: Seq<u8>, p: int, k: int, n: int)
    requires
        0 <= k,
        n <= 256,
    ensures
        systems_at(d, p, k, n) matches Ok((_, rs, _)) ==> indices_small(rs),
    decreases n - k,
{
    if k < n {
        if let Ok((sv, head, q)) = system_at(d, p, k) {
            if let Ok((_, p1)) = header_at(d, p) {
                if let Ok((c, p2)) = u8_at(d, p1) {
                    lemma_planets_small(d, p2, k, 0, c as int);
                }
            }
            assert(indices_small(head));
            lemma_systems_small(d, q, k + 1, n);
            if let Ok((_, rest, _)) = systems_at(d, q, k + 1, n) {
                lemma_small_concat(head, rest);
            }
        }
    }
}

/// Every region of a parsed galaxy has system, planet and region indices
/// below 256.
pub proof fn parsed_indices_small(d: Seq<u8>)
    ensures
        galaxy_at(d) matches Ok(g) ==> indices_small(g.regions),
{
    if let Some(m) = find_spec(d, galaxy_marker()) {
        if let Ok((n, p)) = u8_at(d, count_offset(m)) {
            lemma_systems_small(d, p, 0, n as int);
        }
    }
}

proof fn lemma_groups_advance(d: Seq<u8>, p: int, count: int)
    ensures
        advances(groups_at(d, p, count), p),
    decreases count,
{
    if count > 0 {
        if let Ok(q) = group_at(d, p) {
            lemma_groups_advance(d, q, count - 1);
        }
    }
}

proof fn lemma_orbits_advance(d: Seq<u8>, p: int, count: int)
    ensures
        advances(orbits_at(d, p, count), p),
    decreases count,
{
    if count > 0 {
        if let Ok(q) = orbit_at(d, p) {
            lemma_orbits_advance(d, q, count - 1);
        }
    }
}

proof fn lemma_block_advances(d: Seq<u8>, p: int, index: u8)
    ensures
        advances(indexed_block_at(d, p, index), p),
{
    reveal(block_body_at);
    if let Ok((v, _)) = u8_at(d, p) {
        if v == index {
            if let Ok((switch, p2)) = u32_at(d, p + 1) {
                if let Ok((entries, p4)) = u8_at(d, p2 + 4) {
                    lemma_groups_advance(d, p4, entries as int);
                    if let Ok(p5) = groups_at(d, p4, entries as int) {
                        if let Ok((orbits, p6)) = u8_at(d, p5) {
                            lemma_orbits_advance(d, p6, orbits as int);
                        }
                    }
                }
            }
        }
    }
}

/// A region record that reads spans at least 54 bytes, all inside the
/// file, and its species is the one its `race1` byte names.
proof fn lemma_region_advances(d: Seq<u8>, p: int)
    ensures
        region_at(d, p) matches Ok((rec, q)) ==> p + 54 <= q && p + 54 <= d.len() && rec.species == species_of(
            d[p + 10],
        ) && rec.race2 == d[p + 11] && rec == record_fields(d, p),
{
    reveal(region_at);
    reveal(region_tail_at);
    let p5 = p + 54;
    if let Ok((specials, p1)) = u8_at(d, p5) {
        crate::special::lemma_specials_advance(d, p1, specials as int);
        if let Ok(p2) = specials_at(d, p1, specials as int) {
            if let Ok((entries, p3)) = u8_at(d, p2) {
                lemma_groups_advance(d, p3, entries as int);
                if let Ok(p4) = groups_at(d, p3, entries as int) {
                    lemma_block_advances(d, p4, 0);
                    if let Ok(q5) = indexed_block_at(d, p4, 0) {
                        lemma_block_advances(d, q5, 1);
                        if let Ok(q6) = indexed_block_at(d, q5, 1) {
                            lemma_block_advances(d, q6, 2);
                        }
                    }
                }
            }
        }
    }
}

proof fn lemma_sub_entries_advance(d: Seq<u8>, p: int, count: int)
    ensures
        advances(sub_entries_at(d, p, count), p),
    decreases count,
{
    if count > 0 {
        if let Ok(q) = sub_entry_at(d, p) {
            lemma_sub_entries_advance(d, q, count - 1);
        }
    }
}

proof fn lemma_typed_fields_advance(d: Seq<u8>, p: int, count: int)
    ensures
        advances(typed_fields_at(d, p, count), p),
    decreases count,
{
    if count > 0 {
        if let Ok((t, q)) = u8_at(d, p) {
            if let Ok((n, q2)) = u8_at(d, q + 5) {
                lemma_sub_entries_advance(d, q2, n as int);
            }
        }
        if let Ok(q) = typed_field_at(d, p) {
            lemma_typed_fields_advance(d, q, count - 1);
        }
    }
}

proof fn lemma_counted12_advance(d: Seq<u8>, p: int, count: int)
    ensures
        advances(counted12_runs_at(d, p, count), p),
    decreases count,
{
    if count > 0 {
        if let Ok(q) = counted12_at(d, p) {
            lemma_counted12_advance(d, q, count - 1);
        }
    }
}

proof fn lemma_sentinel_advances(d: Seq<u8>, p: int)
    ensures
        advances(sentinel_run_at(d, p), p),
    decreases d.len() - p,
{
    if let Ok((s, q)) = u8_at(d, p) {
        if s != 0xFF {
            if let Ok(q1) = take_at(d, q, 8) {
                if q1 > p {
                    lemma_sentinel_advances(d, q1);
                }
            }
        }
    }
}

proof fn lemma_fragments_advance(d: Seq<u8>, p: int, count: int)
    ensures
        advances(fragments_at(d, p, count), p),
    decreases count,
{
    if count > 0 {
        if let Ok(q) = fragment_at(d, p) {
            lemma_fragments_advance(d, q, count - 1);
        }
    }
}

proof fn lemma_post_head_advances(d: Seq<u8>, p: int)
    ensures
        advances(post_head_at(d, p), p),
{
    reveal(post_head_at);
    assert forall|q: int, n: int| 0 <= n implies advances(specials_at(d, q, n), q) && advances(
        typed_fields_at(d, q, n),
        q,
    ) by {
        crate::special::lemma_specials_advance(d, q, n);
        lemma_typed_fields_advance(d, q, n);
    }
}

proof fn lemma_big_block_rest_advances(d: Seq<u8>, p: int)
    ensures
        advances(big_block_rest_at(d, p), p),
{
    reveal(big_block_rest_at);
    assert forall|q: int, n: int| 0 <= n implies advances(groups_at(d, q, n), q) && advances(
        counted12_runs_at(d, q, n),
        q,
    ) by {
        lemma_groups_advance(d, q, n);
        lemma_counted12_advance(d, q, n);
    }
}

proof fn lemma_big_block_advances(d: Seq<u8>, p: int)
    ensures
        advances(big_block_at(d, p), p),
{
    reveal(big_block_at);
    assert forall|q: int| #![trigger big_block_rest_at(d, q)] advances(big_block_rest_at(d, q), q) by {
        lemma_big_block_rest_advances(d, q);
    }
}

proof fn lemma_post_tail_advances(d: Seq<u8>, p: int)
    ensures
        advances(post_tail_at(d, p), p),
{
    reveal(post_tail_at);
    assert forall|q: int| #![trigger sentinel_run_at(d, q)] advances(sentinel_run_at(d, q), q) by {
        lemma_sentinel_advances(d, q);
    }
    assert forall|q: int, n: int| #![trigger fragments_at(d, q, n)] 0 <= n implies advances(fragments_at(d, q, n), q) by {
        lemma_fragments_advance(d, q, n);
    }
}

proof fn lemma_post_region_advances(d: Seq<u8>, p: int)
    ensures
        advances(post_region_at(d, p), p),
{
    lemma_post_head_advances(d, p);
    if let Ok(p1) = post_head_at(d, p) {
        if let Ok((flag, p2)) = u8_at(d, p1) {
            lemma_big_block_advances(d, p2);
            if let Ok(p3) = (if flag > 0 {
                big_block_at(d, p2)
            } else {
                Ok(p2)
            }) {
                lemma_post_tail_advances(d, p3);
            }
        }
    }
}

proof fn lemma_slots_advance(d: Seq<u8>, p: int, count: int)
    ensures
        advances(slots_at(d, p, count), p),
    decreases count,
{
    if count > 0 {
        if let Ok(q) = slot_at(d, p) {
            lemma_slots_advance(d, q, count - 1);
        }
    }
}

proof fn lemma_header_advances(d: Seq<u8>, p: int)
    ensures
        header_at(d, p) matches Ok((_, q)) ==> q >= p,
{
    reveal(header_at);
    reveal(header_rest_at);
    assert forall|q: int, n: int| 0 <= n implies advances(slots_at(d, q, n), q) by {
        lemma_slots_advance(d, q, n);
    }
}

/// A system whose flag byte is `N` (0x4E) parses as a neutron star, and one
/// whose flag is `B` (0x42) as a black hole; either ends with its header,
/// holding no regions, so the walk goes on with the next system's bytes.
pub proof fn planetless_systems_end_at_header(d: Seq<u8>, p: int, sys: int)
    requires
        0 <= p < d.len(),
        d[p] == 0x4E || d[p] == 0x42,
        header_at(d, p) is Ok,
    ensures
        d[p] == 0x4E ==> header_at(d, p)->Ok_0.0.kind == SystemKind::NeutronStar,
        d[p] == 0x42 ==> header_at(d, p)->Ok_0.0.kind == SystemKind::BlackHole,
        system_at(d, p, sys) == Ok::<(SystemView, Seq<Region>, int), Error>(
            (header_at(d, p)->Ok_0.0, Seq::empty(), header_at(d, p)->Ok_0.1),
        ),
{
    reveal(header_at);
}

/// Region offsets lie in `[lo, hi - 54]`, each at least 54 bytes after the
/// one before, with the species its `race1` byte names.
pub open spec fn spaced(d: Seq<u8>, rs: Seq<Region>, lo: int, hi: int) -> bool {
    &&& forall|i: int| 0 <= i < rs.len() ==> lo <= (#[trigger] rs[i]).offset && rs[i].offset + 54 <= hi
    &&& forall|i: int| 0 <= i < rs.len() ==> (#[trigger] rs[i]).offset + 54 <= d.len() && rs[i].species
        == species_of(d[rs[i].offset + 10]) && rs[i].race2 == d[rs[i].offset + 11]
    &&& forall|i: int, j: int| 0 <= i < j < rs.len() ==> rs[i].offset + 54 <= rs[j].offset
}

proof fn lemma_spaced_concat(d: Seq<u8>, a: Seq<Region>, b: Seq<Region>, lo: int, mid: int, hi: int)
    requires
        lo <= mid <= hi,
        spaced(d, a, lo, mid),
        spaced(d, b, mid, hi),
    ensures
        spaced(d, a + b, lo, hi),
{
    let ab = a + b;
    assert forall|i: int| 0 <= i < ab.len() implies lo <= (#[trigger] ab[i]).offset && ab[i].offset + 54 <= hi
        && ab[i].offset + 54 <= d.len() && ab[i].species == species_of(d[ab[i].offset + 10]) && ab[i].race2
        == d[ab[i].offset + 11] by {
        if i < a.len() {
            assert(ab[i] == a[i]);
        } else {
            assert(ab[i] == b[i - a.len()]);
        }
    }
    assert forall|i: int, j: int| 0 <= i < j < ab.len() implies ab[i].offset + 54 <= ab[j].offset by {
        if j < a.len() {
            assert(ab[i] == a[i] && ab[j] == a[j]);
        } else if i < a.len() {
            assert(ab[i] == a[i] && ab[j] == b[j - a.len()]);
        } else {
            assert(ab[i] == b[i - a.len()] && ab[j] == b[j - a.len()]);
        }
    }
}

proof fn lemma_regions_spaced(d: Seq<u8>, p: int, sys: int, planet: int, k: int, n: int)
    requires
        0 <= p,
        d.len() <= usize::MAX,
    ensures
        regions_at(d, p, sys, planet, k, n) matches Ok((rs, q)) ==> p <= q && spaced(d, rs, p, q),
    decreases n - k,
{
    if k < n {
        lemma_region_advances(d, p);
        if let Ok((rec, q)) = region_at(d, p) {
            lemma_regions_spaced(d, q, sys, planet, k + 1, n);
            if let Ok((rest, q2)) = regions_at(d, q, sys, planet, k + 1, n) {
                let head = if rec.pop > 0 {
                    seq![region_entry(rec, sys, planet, k, p)]
                } else {
                    Seq::empty()
                };
                assert(spaced(d, head, p, q));
                lemma_spaced_concat(d, head, rest, p, q, q2);
            }
        }
    }
}

proof fn lemma_planets_spaced(d: Seq<u8>, p: int, sys: int, k: int, n: int)
    requires
        0 <= p,
        d.len() <= usize::MAX,
    ensures
        planets_at(d, p, sys, k, n) matches Ok((rs, q)) ==> p <= q && spaced(d, rs, p, q),
    decreases n - k,
{
    if k < n {
        if let Ok((head, q)) = planet_at(d, p, sys, k) {
            if let Ok((c, p1)) = u8_at(d, p) {
                lemma_regions_spaced(d, p1, sys, k, 0, c as int);
                if let Ok((_, p2)) = regions_at(d, p1, sys, k, 0, c as int) {
                    lemma_post_region_advances(d, p2);
                    assert(spaced(d, head, p, q)) by {
                        assert forall|i: int| 0 <= i < head.len() implies p <= (#[trigger] head[i]).offset
                            && head[i].offset + 54 <= q by {
                        }
                    }
                }
            }
            lemma_planets_spaced(d, q, sys, k + 1, n);
            if let Ok((rest, q2)) = planets_at(d, q, sys, k + 1, n) {
                lemma_spaced_concat(d, head, rest, p, q, q2);
            }
        }
    }
}

proof fn lemma_systems_spaced(d: Seq<u8>, p: int, k: int, n: int)
    requires
        0 <= p,
        d.len() <= usize::MAX,
    ensures
        systems_at(d, p, k, n) matches Ok((_, rs, q)) ==> p <= q && spaced(d, rs, p, q),
    decreases n - k,
{
    if k < n {
        if let Ok((sv, head, q)) = system_at(d, p, k) {
            lemma_header_advances(d, p);
            if let Ok((_, p1)) = header_at(d, p) {
                if let Ok((c, p2)) = u8_at(d, p1) {
                    lemma_planets_spaced(d, p2, k, 0, c as int);
                }
            }
            assert(spaced(d, head, p, q));
            lemma_systems_spaced(d, q, k + 1, n);
            if let Ok((_, rest, q2)) = systems_at(d, q, k + 1, n) {
                lemma_spaced_concat(d, head, rest, p, q, q2);
            }
        }
    }
}

/// In a parsed galaxy, each region record lies inside the file, records do
/// not overlap (offsets rise by at least 54 bytes), and each region's
/// species is the one its `race1` byte names.
pub proof fn parsed_regions_spaced(d: Seq<u8>)
    requires
        d.len() <= usize::MAX,
    ensures
        galaxy_at(d) matches Ok(g) ==> spaced(d, g.regions, 0, d.len() as int),
{
    if let Some(m) = find_spec(d, galaxy_marker()) {
        if let Ok((n, p)) = u8_at(d, count_offset(m)) {
            crate::search::lemma_find_from(d, galaxy_marker(), 0);
            lemma_systems_spaced(d, p, 0, n as int);
        }
    }
}

proof fn lemma_groups_frame(d: Seq<u8>, e: Seq<u8>, p: int, count: int)
    requires
        0 <= p,
        groups_at(d, p, count) matches Ok(q) && agree(d, e, p, q),
    ensures
        groups_at(e, p, count) == groups_at(d, p, count),
    decreases count,
{
    if count > 0 {
        let q1 = group_at(d, p)->Ok_0;
        lemma_groups_advance(d, q1, count - 1);
        lemma_groups_frame(d, e, q1, count - 1);
    }
}

proof fn lemma_orbits_frame(d: Seq<u8>, e: Seq<u8>, p: int, count: int)
    requires
        0 <= p,
        orbits_at(d, p, count) matches Ok(q) && agree(d, e, p, q),
    ensures
        orbits_at(e, p, count) == orbits_at(d, p, count),
    decreases count,
{
    if count > 0 {
        let q1 = orbit_at(d, p)->Ok_0;
        lemma_orbits_advance(d, q1, count - 1);
        lemma_orbits_frame(d, e, q1, count - 1);
    }
}

proof fn lemma_block_frame(d: Seq<u8>, e: Seq<u8>, p: int, index: u8)
    requires
        0 <= p,
        indexed_block_at(d, p, index) matches Ok(q) && agree(d, e, p, q + 1),
    ensures
        indexed_block_at(e, p, index) == indexed_block_at(d, p, index),
{
    reveal(block_body_at);
    let (v, _) = u8_at(d, p)->Ok_0;
    if v == index {
        let (switch, p2) = u32_at(d, p + 1)->Ok_0;
        let (entries, p4) = u8_at(d, p2 + 4)->Ok_0;
        lemma_groups_advance(d, p4, entries as int);
        let p5 = groups_at(d, p4, entries as int)->Ok_0;
        let (orbits, p6) = u8_at(d, p5)->Ok_0;
        lemma_orbits_advance(d, p6, orbits as int);
        lemma_groups_frame(d, e, p4, entries as int);
        lemma_orbits_frame(d, e, p6, orbits as int);
    }
}

proof fn lemma_region_tail_frame(d: Seq<u8>, e: Seq<u8>, p: int)
    requires
        0 <= p,
        region_tail_at(d, p) matches Ok(q) && agree(d, e, p, q),
    ensures
        region_tail_at(e, p) == region_tail_at(d, p),
{
    reveal(region_tail_at);
    let (specials, p1) = u8_at(d, p)->Ok_0;
    crate::special::lemma_specials_advance(d, p1, specials as int);
    let p2 = specials_at(d, p1, specials as int)->Ok_0;
    let (entries, p3) = u8_at(d, p2)->Ok_0;
    lemma_groups_advance(d, p3, entries as int);
    let p4 = groups_at(d, p3, entries as int)->Ok_0;
    lemma_block_advances(d, p4, 0);
    let q5 = indexed_block_at(d, p4, 0)->Ok_0;
    lemma_block_advances(d, q5, 1);
    let q6 = indexed_block_at(d, q5, 1)->Ok_0;
    lemma_block_advances(d, q6, 2);
    crate::special::lemma_specials_frame(d, e, p1, specials as int);
    lemma_groups_frame(d, e, p3, entries as int);
    lemma_block_frame(d, e, p4, 0);
    lemma_block_frame(d, e, q5, 1);
    lemma_block_frame(d, e, q6, 2);
}

proof fn lemma_sub_entries_frame(d: Seq<u8>, e: Seq<u8>, p: int, count: int)
    requires
        0 <= p,
        sub_entries_at(d, p, count) matches Ok(q) && agree(d, e, p, q),
    ensures
        sub_entries_at(e, p, count) == sub_entries_at(d, p, count),
    decreases count,
{
    if count > 0 {
        let q1 = sub_entry_at(d, p)->Ok_0;
        lemma_sub_entries_advance(d, q1, count - 1);
        lemma_sub_entries_frame(d, e, q1, count - 1);
    }
}

proof fn lemma_typed_fields_frame(d: Seq<u8>, e: Seq<u8>, p: int, count: int)
    requires
        0 <= p,
        typed_fields_at(d, p, count) matches Ok(q) && agree(d, e, p, q),
    ensures
        typed_fields_at(e, p, count) == typed_fields_at(d, p, count),
    decreases count,
{
    if count > 0 {
        let q1 = typed_field_at(d, p)->Ok_0;
        let (t, qa) = u8_at(d, p)->Ok_0;
        lemma_typed_fields_advance(d, q1, count - 1);
        if t == 3 || t == 4 {
            let (n, q2) = u8_at(d, qa + 5)->Ok_0;
            lemma_sub_entries_advance(d, q2, n as int);
            lemma_sub_entries_frame(d, e, q2, n as int);
        }
        lemma_typed_fields_frame(d, e, q1, count - 1);
    }
}

proof fn lemma_post_head_frame(d: Seq<u8>, e: Seq<u8>, p: int)
    requires
        0 <= p,
        post_head_at(d, p) matches Ok(q) && agree(d, e, p, q),
    ensures
        post_head_at(e, p) == post_head_at(d, p),
{
    reveal(post_head_at);
    let p1 = p + 1;
    let p2 = prefixed_at(d, p1)->Ok_0;
    let p3 = prefixed_at(d, p2)->Ok_0;
    let p4 = p3 + 35;
    let (name_len, p5) = u32_at(d, p4)->Ok_0;
    let p6 = take_wide(d, p5, name_len * 2)->Ok_0;
    let (specials, p7) = u8_at(d, p6)->Ok_0;
    crate::special::lemma_specials_advance(d, p7, specials as int);
    let p8 = specials_at(d, p7, specials as int)->Ok_0;
    let (fields, p10) = u8_at(d, p8 + 18)->Ok_0;
    lemma_typed_fields_advance(d, p10, fields as int);
    crate::special::lemma_specials_frame(d, e, p7, specials as int);
    lemma_typed_fields_frame(d, e, p10, fields as int);
}

proof fn lemma_counted12_frame(d: Seq<u8>, e: Seq<u8>, p: int, count: int)
    requires
        0 <= p,
        counted12_runs_at(d, p, count) matches Ok(q) && agree(d, e, p, q),
    ensures
        counted12_runs_at(e, p, count) == counted12_runs_at(d, p, count),
    decreases count,
{
    if count > 0 {
        let q1 = counted12_at(d, p)->Ok_0;
        lemma_counted12_advance(d, q1, count - 1);
        lemma_counted12_frame(d, e, q1, count - 1);
    }
}

proof fn lemma_big_block_rest_frame(d: Seq<u8>, e: Seq<u8>, p: int)
    requires
        0 <= p,
        big_block_rest_at(d, p) matches Ok(q) && agree(d, e, p, q),
    ensures
        big_block_rest_at(e, p) == big_block_rest_at(d, p),
{
    reveal(big_block_rest_at);
    let (groups, p1) = u8_at(d, p)->Ok_0;
    lemma_groups_advance(d, p1, groups as int);
    let p2 = groups_at(d, p1, groups as int)->Ok_0;
    let p7 = p2 + 66 + 32 + 0x80 + 32 + 0x3C;
    lemma_counted12_advance(d, p7, 5);
    lemma_groups_frame(d, e, p1, groups as int);
    lemma_counted12_frame(d, e, p7, 5);
}

proof fn lemma_big_block_frame(d: Seq<u8>, e: Seq<u8>, p: int)
    requires
        0 <= p,
        big_block_at(d, p) matches Ok(q) && agree(d, e, p, q),
    ensures
        big_block_at(e, p) == big_block_at(d, p),
{
    reveal(big_block_at);
    let p1 = p + 1;
    let p2 = entry_run_at(d, p1, 14)->Ok_0;
    let p3 = entry_run_at(d, p2, 10)->Ok_0;
    let p4 = entry_run_at(d, p3, 10)->Ok_0;
    let p5 = entry_run_at(d, p4, 5)->Ok_0;
    let (n, p6) = u8_at(d, p5)->Ok_0;
    let p9 = p6 + n * 9 + 20 + 33;
    lemma_big_block_rest_advances(d, p9);
    lemma_big_block_rest_frame(d, e, p9);
}

proof fn lemma_sentinel_frame(d: Seq<u8>, e: Seq<u8>, p: int)
    requires
        0 <= p,
        sentinel_run_at(d, p) matches Ok(q) && agree(d, e, p, q),
    ensures
        sentinel_run_at(e, p) == sentinel_run_at(d, p),
    decreases d.len() - p,
{
    let (s, q) = u8_at(d, p)->Ok_0;
    if s != 0xFF {
        let q1 = take_at(d, q, 8)->Ok_0;
        if q1 > p {
            lemma_sentinel_advances(d, q1);
            lemma_sentinel_frame(d, e, q1);
        }
    }
}

proof fn lemma_fragments_frame(d: Seq<u8>, e: Seq<u8>, p: int, count: int)
    requires
        0 <= p,
        fragments_at(d, p, count) matches Ok(q) && agree(d, e, p, q),
    ensures
        fragments_at(e, p, count) == fragments_at(d, p, count),
    decreases count,
{
    if count > 0 {
        let q1 = fragment_at(d, p)->Ok_0;
        lemma_fragments_advance(d, q1, count - 1);
        lemma_fragments_frame(d, e, q1, count - 1);
    }
}

proof fn lemma_post_tail_frame(d: Seq<u8>, e: Seq<u8>, p: int)
    requires
        0 <= p,
        post_tail_at(d, p) matches Ok(q) && agree(d, e, p, q),
    ensures
        post_tail_at(e, p) == post_tail_at(d, p),
{
    reveal(post_tail_at);
    let p1 = p + 0x17;
    let (queue, p2) = u8_at(d, p1)->Ok_0;
    let p4 = p2 + queue * 8 + 5;
    lemma_sentinel_advances(d, p4);
    let p5 = sentinel_run_at(d, p4)->Ok_0;
    let p6 = prefixed_at(d, p5)->Ok_0;
    let (n, p8) = u8_at(d, p6 + 1)->Ok_0;
    lemma_fragments_advance(d, p8, n as int);
    lemma_sentinel_frame(d, e, p4);
    lemma_fragments_frame(d, e, p8, n as int);
}

proof fn lemma_post_region_frame(d: Seq<u8>, e: Seq<u8>, p: int)
    requires
        0 <= p,
        post_region_at(d, p) matches Ok(q) && agree(d, e, p, q),
    ensures
        post_region_at(e, p) == post_region_at(d, p),
{
    lemma_post_head_advances(d, p);
    let p1 = post_head_at(d, p)->Ok_0;
    let (flag, p2) = u8_at(d, p1)->Ok_0;
    lemma_big_block_advances(d, p2);
    let p3 = (if flag > 0 {
        big_block_at(d, p2)
    } else {
        Ok(p2)
    })->Ok_0;
    lemma_post_tail_advances(d, p3);
    lemma_post_head_frame(d, e, p);
    if flag > 0 {
        lemma_big_block_frame(d, e, p2);
    }
    lemma_post_tail_frame(d, e, p3);
}

proof fn lemma_slots_frame(d: Seq<u8>, e: Seq<u8>, p: int, count: int)
    requires
        0 <= p,
        slots_at(d, p, count) matches Ok(q) && agree(d, e, p, q),
    ensures
        slots_at(e, p, count) == slots_at(d, p, count),
    decreases count,
{
    if count > 0 {
        let q1 = slot_at(d, p)->Ok_0;
        lemma_slots_advance(d, q1, count - 1);
        lemma_slots_frame(d, e, q1, count - 1);
    }
}

proof fn lemma_header_frame(d: Seq<u8>, e: Seq<u8>, p: int)
    requires
        0 <= p,
        header_at(d, p) matches Ok((_, q)) && agree(d, e, p, q),
    ensures
        header_at(e, p) == header_at(d, p),
{
    reveal(header_at);
    let (name_len, p3) = u32_at(d, p + 3)->Ok_0;
    let (name, p4) = utf16be_at(d, p3, name_len as int)->Ok_0;
    lemma_header_rest_advances(d, p4);
    assert(d.subrange(p3, p4) =~= e.subrange(p3, p4));
    lemma_header_rest_frame(d, e, p4);
}

proof fn lemma_header_rest_advances(d: Seq<u8>, p: int)
    ensures
        advances(header_rest_at(d, p), p),
{
    reveal(header_rest_at);
    assert forall|q: int, n: int| 0 <= n implies advances(slots_at(d, q, n), q) by {
        lemma_slots_advance(d, q, n);
    }
}

proof fn lemma_header_rest_frame(d: Seq<u8>, e: Seq<u8>, p: int)
    requires
        0 <= p,
        header_rest_at(d, p) matches Ok(q) && agree(d, e, p, q),
    ensures
        header_rest_at(e, p) == header_rest_at(d, p),
{
    reveal(header_rest_at);
    let (slots, p2) = u8_at(d, p + 34)->Ok_0;
    lemma_slots_advance(d, p2, slots as int);
    lemma_slots_frame(d, e, p2, slots as int);
}

/// Byte `k` is the `race1` or `race2` byte of one of the regions.
pub open spec fn race_byte_of(rs: Seq<Region>, k: int) -> bool {
    exists|i: int| 0 <= i < rs.len() && (k == (#[trigger] rs[i]).offset + RACE1_OFFSET || k == rs[i].offset + RACE2_OFFSET)
}

/// `e` has `d`'s length and agrees with it on the positions `lo..hi` inside
/// it, except perhaps at the `race1` and `race2` bytes of the regions `rs`.
pub open spec fn agree_except(d: Seq<u8>, e: Seq<u8>, lo: int, hi: int, rs: Seq<Region>) -> bool {
    d.len() == e.len() && forall|k: int|
        lo <= k < hi && k < d.len() && !race_byte_of(rs, k) ==> #[trigger] d[k] == e[k]
}

/// The regions as `e` reads them: the same records, with the species and
/// sub-race of `e`'s `race1` and `race2` bytes.
pub open spec fn reread(e: Seq<u8>, rs: Seq<Region>) -> Seq<Region> {
    rs.map_values(
        |r: Region|
            Region {
                species: species_of(e[r.offset + RACE1_OFFSET]),
                race2: e[r.offset + RACE2_OFFSET],
                ..r
            },
    )
}

/// Byte `k` lies in the 54-byte head of one of the regions, where its
/// owner, population, species, sub-race, terrain and ecosystem are stored.
pub open spec fn head_byte_of(rs: Seq<Region>, k: int) -> bool {
    exists|i: int| 0 <= i < rs.len() && (#[trigger] rs[i]).offset <= k < rs[i].offset + 54
}

/// `e` has `d`'s length and agrees with it on the positions `lo..hi` inside
/// it, except perhaps in the heads of the regions `rs`.
pub open spec fn agree_outside_heads(d: Seq<u8>, e: Seq<u8>, lo: int, hi: int, rs: Seq<Region>) -> bool {
    d.len() == e.len() && forall|k: int|
        lo <= k < hi && k < d.len() && !head_byte_of(rs, k) ==> #[trigger] d[k] == e[k]
}

/// A region with the fields of a record.
pub open spec fn with_fields(r: Region, rec: RegionRecord) -> Region {
    Region {
        owner: rec.owner,
        species: rec.species,
        race2: rec.race2,
        pop: rec.pop,
        terrain: rec.terrain,
        eco_base: rec.eco_base,
        eco_modified: rec.eco_modified,
        ..r
    }
}

/// The regions as `e` reads them: each with the fields its head holds in
/// `e`, keeping those whose population is still positive.
pub open spec fn refield(e: Seq<u8>, rs: Seq<Region>) -> Seq<Region>
    decreases rs.len(),
{
    if rs.len() == 0 {
        Seq::empty()
    } else {
        let r = with_fields(rs[0], record_fields(e, rs[0].offset as int));
        (if r.pop > 0 {
            seq![r]
        } else {
            Seq::empty()
        }) + refield(e, rs.drop_first())
    }
}

proof fn lemma_refield_concat(e: Seq<u8>, a: Seq<Region>, b: Seq<Region>)
    ensures
        refield(e, a + b) == refield(e, a) + refield(e, b),
    decreases a.len(),
{
    if a.len() == 0 {
        assert(a + b =~= b);
        assert(refield(e, a) =~= Seq::<Region>::empty());
        assert(refield(e, a + b) =~= refield(e, a) + refield(e, b));
    } else {
        assert((a + b).drop_first() =~= a.drop_first() + b);
        assert((a + b)[0] == a[0]);
        lemma_refield_concat(e, a.drop_first(), b);
        let r = with_fields(a[0], record_fields(e, a[0].offset as int));
        let h = if r.pop > 0 {
            seq![r]
        } else {
            Seq::<Region>::empty()
        };
        assert(refield(e, a + b) == h + refield(e, (a + b).drop_first()));
        assert(refield(e, a) == h + refield(e, a.drop_first()));
        assert(refield(e, a + b) =~= refield(e, a) + refield(e, b));
    }
}

proof fn lemma_head_bytes_split(rs: Seq<Region>, a: Seq<Region>, b: Seq<Region>, j: int)
    requires
        rs == a + b,
        head_byte_of(rs, j),
    ensures
        head_byte_of(a, j) || head_byte_of(b, j),
{
    let i = choose|i: int| 0 <= i < rs.len() && (#[trigger] rs[i]).offset <= j < rs[i].offset + 54;
    if i < a.len() {
        assert(rs[i] == a[i]);
    } else {
        assert(rs[i] == b[i - a.len()]);
    }
}

proof fn lemma_head_bytes_within(d: Seq<u8>, rs: Seq<Region>, lo: int, hi: int, j: int)
    requires
        spaced(d, rs, lo, hi),
        head_byte_of(rs, j),
    ensures
        lo <= j < hi,
{
    let i = choose|i: int| 0 <= i < rs.len() && (#[trigger] rs[i]).offset <= j < rs[i].offset + 54;
    assert(lo <= rs[i].offset && rs[i].offset + 54 <= hi);
}

/// A region record reads from a file that agrees with it past the record's
/// 54-byte head as the fields that file's head holds.
proof fn lemma_region_head_frame(d: Seq<u8>, e: Seq<u8>, p: int)
    requires
        0 <= p,
        region_at(d, p) matches Ok((_, q)) && agree(d, e, p + 54, q),
    ensures
        region_at(d, p)->Ok_0.0 == record_fields(d, p),
        region_at(e, p) == Ok::<(RegionRecord, int), Error>((record_fields(e, p), region_at(d, p)->Ok_0.1)),
{
    reveal(region_at);
    lemma_region_advances(d, p);
    lemma_region_tail_frame(d, e, p + 54);
}

proof fn lemma_regions_refield(d: Seq<u8>, e: Seq<u8>, p: int, sys: int, planet: int, k: int, n: int)
    requires
        0 <= p,
        d.len() <= usize::MAX,
        regions_at(d, p, sys, planet, k, n) matches Ok((rs, q)) && agree_outside_heads(d, e, p, q, rs),
    ensures
        regions_at(e, p, sys, planet, k, n) == Ok::<(Seq<Region>, int), Error>(
            (refield(e, regions_at(d, p, sys, planet, k, n)->Ok_0.0), regions_at(d, p, sys, planet, k, n)->Ok_0.1),
        ),
    decreases n - k,
{
    let (rs, q) = regions_at(d, p, sys, planet, k, n)->Ok_0;
    if k >= n {
        assert(refield(e, rs) =~= rs);
    } else {
        lemma_region_advances(d, p);
        let (rec, q1) = region_at(d, p)->Ok_0;
        lemma_regions_spaced(d, q1, sys, planet, k + 1, n);
        let (rest, q2) = regions_at(d, q1, sys, planet, k + 1, n)->Ok_0;
        let head = if rec.pop > 0 {
            seq![region_entry(rec, sys, planet, k, p)]
        } else {
            Seq::empty()
        };
        assert(rs == head + rest);
        assert forall|j: int| p <= j < q1 && head_byte_of(rs, j) implies head.len() == 1 && j < p + 54 by {
            lemma_head_bytes_split(rs, head, rest, j);
            if head_byte_of(rest, j) {
                lemma_head_bytes_within(d, rest, q1, q2, j);
            } else {
                let i = choose|i: int| 0 <= i < head.len() && (#[trigger] head[i]).offset <= j < head[i].offset + 54;
            }
        }
        assert(agree(d, e, p + 54, q1));
        lemma_region_head_frame(d, e, p);
        let rec2 = record_fields(e, p);
        if rec.pop <= 0 {
            assert(agree(d, e, p, p + 54));
            assert(fixed_at(e, p + 2) == fixed_at(d, p + 2));
            assert(rec2.pop == rec.pop);
        }
        assert forall|j: int| q1 <= j < q && j < d.len() && !head_byte_of(rest, j) implies #[trigger] d[j] == e[j] by {
            if head_byte_of(rs, j) {
                lemma_head_bytes_split(rs, head, rest, j);
                if head_byte_of(head, j) {
                    let i = choose|i: int| 0 <= i < head.len() && (#[trigger] head[i]).offset <= j < head[i].offset + 54;
                }
            }
        }
        lemma_regions_refield(d, e, q1, sys, planet, k + 1, n);
        let head2 = if rec2.pop > 0 {
            seq![region_entry(rec2, sys, planet, k, p)]
        } else {
            Seq::empty()
        };
        if rec.pop > 0 {
            let x = region_entry(rec, sys, planet, k, p);
            assert(head.drop_first() =~= Seq::<Region>::empty());
            assert(refield(e, head.drop_first()) =~= Seq::<Region>::empty());
            assert(x.offset as int == p);
            assert(head2 =~= refield(e, head));
        } else {
            assert(head2 =~= refield(e, head));
        }
        lemma_refield_concat(e, head, rest);
    }
}

proof fn lemma_planets_refield(d: Seq<u8>, e: Seq<u8>, p: int, sys: int, k: int, n: int)
    requires
        0 <= p,
        d.len() <= usize::MAX,
        planets_at(d, p, sys, k, n) matches Ok((rs, q)) && agree_outside_heads(d, e, p, q, rs),
    ensures
        planets_at(e, p, sys, k, n) == Ok::<(Seq<Region>, int), Error>(
            (refield(e, planets_at(d, p, sys, k, n)->Ok_0.0), planets_at(d, p, sys, k, n)->Ok_0.1),
        ),
    decreases n - k,
{
    let (rs, q) = planets_at(d, p, sys, k, n)->Ok_0;
    if k >= n {
        assert(refield(e, rs) =~= rs);
    } else {
        let (head, q1) = planet_at(d, p, sys, k)->Ok_0;
        let (c, p1) = u8_at(d, p)->Ok_0;
        lemma_regions_spaced(d, p1, sys, k, 0, c as int);
        let (regions, p2) = regions_at(d, p1, sys, k, 0, c as int)->Ok_0;
        assert(regions == head);
        lemma_post_region_advances(d, p2);
        lemma_planets_spaced(d, q1, sys, k + 1, n);
        let (rest, q2) = planets_at(d, q1, sys, k + 1, n)->Ok_0;
        assert(rs == head + rest);
        assert forall|j: int| p <= j < q && head_byte_of(rs, j) implies (head_byte_of(head, j) && p1 <= j < p2)
            || (head_byte_of(rest, j) && q1 <= j) by {
            lemma_head_bytes_split(rs, head, rest, j);
            if head_byte_of(head, j) {
                lemma_head_bytes_within(d, head, p1, p2, j);
            } else {
                lemma_head_bytes_within(d, rest, q1, q2, j);
            }
        }
        assert(e[p] == d[p]);
        assert forall|j: int| p1 <= j < p2 && j < d.len() && !head_byte_of(head, j) implies #[trigger] d[j] == e[j] by {
            if head_byte_of(rs, j) {
                lemma_head_bytes_split(rs, head, rest, j);
            }
        }
        lemma_regions_refield(d, e, p1, sys, k, 0, c as int);
        assert(agree(d, e, p2, q1));
        lemma_post_region_frame(d, e, p2);
        assert forall|j: int| q1 <= j < q && j < d.len() && !head_byte_of(rest, j) implies #[trigger] d[j] == e[j] by {
            if head_byte_of(rs, j) {
                lemma_head_bytes_split(rs, head, rest, j);
            }
        }
        lemma_planets_refield(d, e, q1, sys, k + 1, n);
        lemma_refield_concat(e, head, rest);
    }
}

proof fn lemma_systems_refield(d: Seq<u8>, e: Seq<u8>, p: int, k: int, n: int)
    requires
        0 <= p,
        d.len() <= usize::MAX,
        systems_at(d, p, k, n) matches Ok((_, rs, q)) && agree_outside_heads(d, e, p, q, rs),
    ensures
        systems_at(e, p, k, n) == Ok::<(Seq<SystemView>, Seq<Region>, int), Error>(
            (
                systems_at(d, p, k, n)->Ok_0.0,
                refield(e, systems_at(d, p, k, n)->Ok_0.1),
                systems_at(d, p, k, n)->Ok_0.2,
            ),
        ),
    decreases n - k,
{
    let (ss, rs, q) = systems_at(d, p, k, n)->Ok_0;
    if k >= n {
        assert(refield(e, rs) =~= rs);
    } else {
        let (sv, head, q1) = system_at(d, p, k)->Ok_0;
        lemma_header_advances(d, p);
        let (_, p1) = header_at(d, p)->Ok_0;
        if kind_has_planets(sv.kind) {
            let (c, p2) = u8_at(d, p1)->Ok_0;
            lemma_planets_spaced(d, p2, k, 0, c as int);
        }
        lemma_systems_spaced(d, q1, k + 1, n);
        let (_, rest, q2) = systems_at(d, q1, k + 1, n)->Ok_0;
        assert(rs == head + rest);
        if kind_has_planets(sv.kind) {
            let (c, p2) = u8_at(d, p1)->Ok_0;
            lemma_planets_spaced(d, p2, k, 0, c as int);
            assert forall|j: int| p <= j < q && head_byte_of(rs, j) implies (head_byte_of(head, j) && p2 <= j
                < q1) || (head_byte_of(rest, j) && q1 <= j) by {
                lemma_head_bytes_split(rs, head, rest, j);
                if head_byte_of(head, j) {
                    lemma_head_bytes_within(d, head, p2, q1, j);
                } else {
                    lemma_head_bytes_within(d, rest, q1, q2, j);
                }
            }
            assert(agree(d, e, p, p1 + 1));
            lemma_header_frame(d, e, p);
            assert forall|j: int| p2 <= j < q1 && j < d.len() && !head_byte_of(head, j) implies #[trigger] d[j] == e[j] by {
                if head_byte_of(rs, j) {
                    lemma_head_bytes_split(rs, head, rest, j);
                }
            }
            lemma_planets_refield(d, e, p2, k, 0, c as int);
        } else {
            assert(head.len() == 0);
            assert forall|j: int| p <= j < q && head_byte_of(rs, j) implies head_byte_of(rest, j) && q1 <= j by {
                lemma_head_bytes_split(rs, head, rest, j);
                lemma_head_bytes_within(d, rest, q1, q2, j);
            }
            assert(agree(d, e, p, p1));
            lemma_header_frame(d, e, p);
        }
        assert forall|j: int| q1 <= j < q && j < d.len() && !head_byte_of(rest, j) implies #[trigger] d[j] == e[j] by {
            if head_byte_of(rs, j) {
                lemma_head_bytes_split(rs, head, rest, j);
                if head_byte_of(head, j) {
                    if kind_has_planets(sv.kind) {
                        let (c, p2) = u8_at(d, p1)->Ok_0;
                        lemma_head_bytes_within(d, head, p2, q1, j);
                    }
                }
            }
        }
        lemma_systems_refield(d, e, q1, k + 1, n);
        lemma_refield_concat(e, head, rest);
    }
}


/// Each region has a positive population and the fields its head holds.
pub open spec fn faithful(d: Seq<u8>, rs: Seq<Region>) -> bool {
    forall|i: int|
        0 <= i < rs.len() ==> (#[trigger] rs[i]).pop > 0 && rs[i] == with_fields(rs[i], record_fields(d, rs[i].offset as int))
}

proof fn lemma_faithful_concat(d: Seq<u8>, a: Seq<Region>, b: Seq<Region>)
    requires
        faithful(d, a),
        faithful(d, b),
    ensures
        faithful(d, a + b),
{
    let ab = a + b;
    assert forall|i: int| 0 <= i < ab.len() implies (#[trigger] ab[i]).pop > 0 && ab[i] == with_fields(
        ab[i],
        record_fields(d, ab[i].offset as int),
    ) by {
        if i < a.len() {
            assert(ab[i] == a[i]);
        } else {
            assert(ab[i] == b[i - a.len()]);
        }
    }
}

proof fn lemma_regions_faithful(d: Seq<u8>, p: int, sys: int, planet: int, k: int, n: int)
    requires
        0 <= p,
        d.len() <= usize::MAX,
    ensures
        regions_at(d, p, sys, planet, k, n) matches Ok((rs, _)) ==> faithful(d, rs),
    decreases n - k,
{
    if k < n {
        lemma_region_advances(d, p);
        if let Ok((rec, q)) = region_at(d, p) {
            lemma_regions_faithful(d, q, sys, planet, k + 1, n);
            if let Ok((rest, _)) = regions_at(d, q, sys, planet, k + 1, n) {
                let head = if rec.pop > 0 {
                    seq![region_entry(rec, sys, planet, k, p)]
                } else {
                    Seq::empty()
                };
                if rec.pop > 0 {
                    assert(head[0].offset as int == p);
                }
                assert(faithful(d, head));
                lemma_faithful_concat(d, head, rest);
            }
        }
    }
}

proof fn lemma_planets_faithful(d: Seq<u8>, p: int, sys: int, k: int, n: int)
    requires
        0 <= p,
        d.len() <= usize::MAX,
    ensures
        planets_at(d, p, sys, k, n) matches Ok((rs, _)) ==> faithful(d, rs),
    decreases n - k,
{
    if k < n {
        if let Ok((head, q)) = planet_at(d, p, sys, k) {
            if let Ok((c, p1)) = u8_at(d, p) {
                lemma_regions_faithful(d, p1, sys, k, 0, c as int);
                lemma_regions_spaced(d, p1, sys, k, 0, c as int);
                if let Ok((_, p2)) = regions_at(d, p1, sys, k, 0, c as int) {
                    lemma_post_region_advances(d, p2);
                }
            }
            lemma_planets_faithful(d, q, sys, k + 1, n);
            if let Ok((rest, _)) = planets_at(d, q, sys, k + 1, n) {
                lemma_faithful_concat(d, head, rest);
            }
        }
    }
}

proof fn lemma_systems_faithful(d: Seq<u8>, p: int, k: int, n: int)
    requires
        0 <= p,
        d.len() <= usize::MAX,
    ensures
        systems_at(d, p, k, n) matches Ok((_, rs, _)) ==> faithful(d, rs),
    decreases n - k,
{
    if k < n {
        if let Ok((sv, head, q)) = system_at(d, p, k) {
            lemma_header_advances(d, p);
            if let Ok((_, p1)) = header_at(d, p) {
                if let Ok((c, p2)) = u8_at(d, p1) {
                    lemma_planets_faithful(d, p2, k, 0, c as int);
                    lemma_planets_spaced(d, p2, k, 0, c as int);
                }
            }
            assert(faithful(d, head));
            lemma_systems_faithful(d, q, k + 1, n);
            if let Ok((_, rest, _)) = systems_at(d, q, k + 1, n) {
                lemma_faithful_concat(d, head, rest);
            }
        }
    }
}

/// In a parsed galaxy, each region has a positive population and the
/// fields its 54-byte head holds.
pub proof fn parsed_regions_faithful(d: Seq<u8>)
    requires
        d.len() <= usize::MAX,
    ensures
        galaxy_at(d) matches Ok(g) ==> faithful(d, g.regions),
{
    if let Some(m) = find_spec(d, galaxy_marker()) {
        if let Ok((n, p)) = u8_at(d, count_offset(m)) {
            crate::search::lemma_find_from(d, galaxy_marker(), 0);
            lemma_systems_faithful(d, p, 0, n as int);
        }
    }
}

/// A file that differs from a save only inside the 54-byte heads of its
/// populated regions (where owner, population, species, sub-race, terrain
/// and ecosystem are stored) parses to the same systems and to the same
/// regions with the fields their heads now hold, less those whose
/// population is no longer positive.
pub proof fn reparse_after_field_edits(d: Seq<u8>, e: Seq<u8>)
    requires
        d.len() <= usize::MAX,
        galaxy_at(d) matches Ok(g) && agree_outside_heads(d, e, 0, d.len() as int, g.regions),
    ensures
        galaxy_at(e) == Ok::<GalaxyView, Error>(
            GalaxyView { systems: galaxy_at(d)->Ok_0.systems, regions: refield(e, galaxy_at(d)->Ok_0.regions) },
        ),
{
    let g = galaxy_at(d)->Ok_0;
    let m = find_spec(d, galaxy_marker())->Some_0;
    crate::search::lemma_find_from(d, galaxy_marker(), 0);
    let (n, p) = u8_at(d, count_offset(m))->Ok_0;
    lemma_systems_spaced(d, p, 0, n as int);
    let (_, rs, q) = systems_at(d, p, 0, n as int)->Ok_0;
    assert forall|j: int| head_byte_of(rs, j) implies p <= j < q by {
        lemma_head_bytes_within(d, rs, p, q, j);
    }
    assert forall|j: int| 0 <= j < m + 8 implies d[j] == e[j] by {
        assert(!head_byte_of(rs, j));
    }
    crate::search::lemma_find_stable(d, e, galaxy_marker(), 0);
    assert(!head_byte_of(rs, count_offset(m)));
    assert(e[count_offset(m)] == d[count_offset(m)]);
    lemma_systems_refield(d, e, p, 0, n as int);
}

/// The record fields `e` holds at `o`: those `d` holds but for the species
/// and sub-race of `e`'s `race1` and `race2` bytes.
pub open spec fn race_only(d: Seq<u8>, e: Seq<u8>, o: int) -> RegionRecord {
    RegionRecord { species: species_of(e[o + 10]), race2: e[o + 11], ..record_fields(d, o) }
}

proof fn lemma_race_only_fields(d: Seq<u8>, e: Seq<u8>, o: int)
    requires
        0 <= o,
        o + 54 <= d.len(),
        d.len() == e.len(),
        forall|k: int| o <= k < o + 54 && k != o + 10 && k != o + 11 ==> #[trigger] d[k] == e[k],
    ensures
        record_fields(e, o) == race_only(d, e, o),
{
    assert(agree(d, e, o, o + 10));
    assert(agree(d, e, o + 12, o + 54));
    assert(fixed_at(e, o + 2) == fixed_at(d, o + 2));
    assert(be32(e, o + 22) == be32(d, o + 22));
    assert(be32(e, o + 26) == be32(d, o + 26));
}

proof fn lemma_refield_race_only(d: Seq<u8>, e: Seq<u8>, rs: Seq<Region>)
    requires
        faithful(d, rs),
        forall|i: int|
            0 <= i < rs.len() ==> record_fields(e, (#[trigger] rs[i]).offset as int) == race_only(
                d,
                e,
                rs[i].offset as int,
            ),
    ensures
        refield(e, rs) == reread(e, rs),
    decreases rs.len(),
{
    if rs.len() == 0 {
        assert(reread(e, rs) =~= rs);
    } else {
        let r = rs[0];
        let tail = rs.drop_first();
        assert forall|i: int| 0 <= i < tail.len() implies (#[trigger] tail[i]).pop > 0 && tail[i] == with_fields(
            tail[i],
            record_fields(d, tail[i].offset as int),
        ) && record_fields(e, tail[i].offset as int) == race_only(d, e, tail[i].offset as int) by {
            assert(tail[i] == rs[i + 1]);
        }
        lemma_refield_race_only(d, e, tail);
        assert(reread(e, rs) =~= seq![reread(e, rs)[0]] + reread(e, tail));
        assert(with_fields(r, record_fields(e, r.offset as int)) == reread(e, rs)[0]);
    }
}

proof fn lemma_race_bytes_in_heads(d: Seq<u8>, e: Seq<u8>, rs: Seq<Region>)
    requires
        agree_except(d, e, 0, d.len() as int, rs),
    ensures
        agree_outside_heads(d, e, 0, d.len() as int, rs),
{
    assert forall|k: int| 0 <= k < d.len() && k < d.len() && !head_byte_of(rs, k) implies #[trigger] d[k] == e[k] by {
        if race_byte_of(rs, k) {
            let i = choose|i: int|
                0 <= i < rs.len() && (k == (#[trigger] rs[i]).offset + RACE1_OFFSET || k == rs[i].offset + RACE2_OFFSET);
            assert(rs[i].offset <= k < rs[i].offset + 54);
        }
    }
}

proof fn lemma_race_edits_keep_fields(d: Seq<u8>, e: Seq<u8>, rs: Seq<Region>)
    requires
        spaced(d, rs, 0, d.len() as int),
        agree_except(d, e, 0, d.len() as int, rs),
    ensures
        forall|i: int|
            0 <= i < rs.len() ==> record_fields(e, (#[trigger] rs[i]).offset as int) == race_only(
                d,
                e,
                rs[i].offset as int,
            ),
{
    assert forall|i: int| 0 <= i < rs.len() implies record_fields(e, (#[trigger] rs[i]).offset as int) == race_only(
        d,
        e,
        rs[i].offset as int,
    ) by {
        let o = rs[i].offset as int;
        assert forall|k: int| o <= k < o + 54 && k != o + 10 && k != o + 11 implies #[trigger] d[k] == e[k] by {
            if race_byte_of(rs, k) {
                let j = choose|j: int|
                    0 <= j < rs.len() && (k == (#[trigger] rs[j]).offset + RACE1_OFFSET || k == rs[j].offset
                        + RACE2_OFFSET);
                if j < i {
                    assert(rs[j].offset + 54 <= rs[i].offset);
                } else if i < j {
                    assert(rs[i].offset + 54 <= rs[j].offset);
                }
            }
        }
        lemma_race_only_fields(d, e, o);
    }
}

/// A file that differs from a save only in the `race1` and `race2` bytes
/// of its populated regions parses to the same galaxy, each region with
/// the species and sub-race its bytes now name.
pub proof fn reparse_after_race_edits(d: Seq<u8>, e: Seq<u8>)
    requires
        d.len() <= usize::MAX,
        galaxy_at(d) matches Ok(g) && agree_except(d, e, 0, d.len() as int, g.regions),
    ensures
        galaxy_at(e) == Ok::<GalaxyView, Error>(
            GalaxyView { systems: galaxy_at(d)->Ok_0.systems, regions: reread(e, galaxy_at(d)->Ok_0.regions) },
        ),
{
    let rs = galaxy_at(d)->Ok_0.regions;
    parsed_regions_spaced(d);
    parsed_regions_faithful(d);
    lemma_race_bytes_in_heads(d, e, rs);
    reparse_after_field_edits(d, e);
    lemma_race_edits_keep_fields(d, e, rs);
    lemma_refield_race_only(d, e, rs);
}

} // verus!
