//! Field-level edits to region records.
//!
//! All edits are fixed-width in-place writes at offsets carried by a parsed
//! [`Region`], so no offset-table fix-up is needed (the save contains
//! internal file pointers that break when records are resized).
//!
//! Every write first re-checks that the bytes at the region's offset still
//! hold the parsed species and owner; a stale plan or a different file
//! yields [`Error::StaleRegion`] instead of silent corruption.

use vstd::prelude::*;

use crate::cursor::{be32, be64, fixed_at, signed32, signed64};
use crate::error::Error;
use crate::galaxy::{
    galaxy_at, head_byte_of, record_fields, refield, reparse_after_field_edits, GalaxyView, Region, ECO_BASE_OFFSET, ECO_MODIFIED_OFFSET, OWNER_OFFSET, POP_OFFSET, RACE1_OFFSET,
    TERRAIN_OFFSET,
};
use crate::header::{be32_bytes, i32_bits, i32_to_bits, lemma_be32_bytes, splice, to_be4, write_at};
use crate::species::race1_of;

verus! {

/// The bytes at the region's offset still hold its species and owner, and
/// the `n`-byte field at `field` lies inside the file.
pub open spec fn field_ok(d: Seq<u8>, region: Region, field: int, n: int) -> bool {
    &&& region.offset + RACE1_OFFSET < d.len()
    &&& d[region.offset + RACE1_OFFSET] == race1_of(region.species)
    &&& d[region.offset + OWNER_OFFSET] == region.owner
    &&& region.offset + field + n <= d.len()
}

/// The stale-region error for a region.
pub open spec fn stale(region: Region) -> Error {
    Error::StaleRegion { offset: region.offset }
}

/// The eight big-endian bytes of `v` in two's complement.
pub open spec fn be64_bytes(v: i64) -> Seq<u8> {
    let u: int = if v < 0 {
        v + 0x1_0000_0000_0000_0000
    } else {
        v as int
    };
    be32_bytes((u / 0x1_0000_0000) as u32) + be32_bytes((u % 0x1_0000_0000) as u32)
}

/// A one-field edit: the bytes written when the region checks out, or the
/// stale-region error.
pub open spec fn edited(d: Seq<u8>, region: Region, field: int, bytes: Seq<u8>) -> Result<
    Seq<u8>,
    Error,
> {
    if field_ok(d, region, field, bytes.len() as int) {
        Ok(splice(d, region.offset + field, bytes))
    } else {
        Err(stale(region))
    }
}

/// An edit's outcome agrees with its spec; a failed edit leaves `old`
/// unchanged.
pub open spec fn edit_done(r: Result<(), Error>, new: Seq<u8>, old: Seq<u8>, s: Result<Seq<u8>, Error>) -> bool {
    match s {
        Ok(d) => r is Ok && new == d,
        Err(e) => r == Err::<(), Error>(e) && new == old,
    }
}

/// The fixed-point bytes of a population, or `None` when the value is
/// outside the 6-byte integer range (only `i64::MIN`, whose integer part is
/// exactly `-2^47`, which the format's writers reject).
pub open spec fn fixed_bytes(pop: i64) -> Option<Seq<u8>> {
    if pop == i64::MIN {
        None
    } else {
        Some(be64_bytes(pop))
    }
}

/// What setting the population does to the file.
pub open spec fn population_edit(d: Seq<u8>, region: Region, pop: i64) -> Result<Seq<u8>, Error> {
    match fixed_bytes(pop) {
        None => Err(Error::ValueOutOfRange { what: "population", value: pop }),
        Some(bytes) => edited(d, region, POP_OFFSET as int, bytes),
    }
}

/// The modified ecosystem rating after setting the base: the old
/// terraforming delta is kept, the sum saturates, and the result is capped
/// at 2.
pub open spec fn modified_eco(region: Region, base: i32) -> i32 {
    let delta = region.eco_modified - region.eco_base;
    let sum = base + delta;
    let sat = if sum > i32::MAX {
        i32::MAX as int
    } else if sum < i32::MIN {
        i32::MIN as int
    } else {
        sum
    };
    (if sat > 2 {
        2
    } else {
        sat
    }) as i32
}

/// What setting the base ecosystem does to the file: the base is written
/// first, then the modified rating.
pub open spec fn ecosystem_edit(d: Seq<u8>, region: Region, base: i32) -> Result<Seq<u8>, Error> {
    match edited(d, region, ECO_BASE_OFFSET as int, be32_bytes(i32_bits(base))) {
        Err(e) => Err(e),
        Ok(d1) => edited(
            d1,
            region,
            ECO_MODIFIED_OFFSET as int,
            be32_bytes(i32_bits(modified_eco(region, base))),
        ),
    }
}

/// The start of a region's field, after checking the region still matches.
fn field_start(data: &[u8], region: &Region, field: usize, n: usize) -> (r: Result<usize, Error>)
    ensures
        if field_ok(data@, *region, field as int, n as int) {
            r == Ok::<usize, Error>((region.offset + field) as usize)
        } else {
            r == Err::<usize, Error>(stale(*region))
        },
{
    assert(data@.len() == data.len());
    let stale = Error::StaleRegion { offset: region.offset };
    let race1_at = match region.offset.checked_add(RACE1_OFFSET) {
        Some(at) => at,
        None => return Err(stale),
    };
    if race1_at >= data.len() || data[race1_at] != region.species.race1() || data[region.offset
        + OWNER_OFFSET] != region.owner {
        return Err(stale);
    }
    let start = match region.offset.checked_add(field) {
        Some(start) => start,
        None => return Err(stale),
    };
    match start.checked_add(n) {
        Some(end) if end <= data.len() => Ok(start),
        _ => Err(stale),
    }
}

/// The eight big-endian bytes of `v` in two's complement.
pub fn to_be8(v: i64) -> (b: Vec<u8>)
    ensures
        b@ == be64_bytes(v),
{
    let u: u64 = if v >= 0 {
        v as u64
    } else {
        ((v + 1) + i64::MAX) as u64 + 0x8000_0000_0000_0000
    };
    let hi = to_be4((u / 0x1_0000_0000) as u32);
    let lo = to_be4((u % 0x1_0000_0000) as u32);
    let mut b: Vec<u8> = Vec::new();
    b.push(hi[0]);
    b.push(hi[1]);
    b.push(hi[2]);
    b.push(hi[3]);
    b.push(lo[0]);
    b.push(lo[1]);
    b.push(lo[2]);
    b.push(lo[3]);
    assert(b@ =~= hi@ + lo@);
    b
}

fn write_field(data: &mut [u8], region: &Region, field: usize, bytes: &[u8]) -> (r: Result<(), Error>)
    ensures
        edit_done(r, final(data)@, old(data)@, edited(old(data)@, *region, field as int, bytes@)),
{
    assert(data@.len() == data.len());
    let start = field_start(data, region, field, bytes.len())?;
    write_at(data, start, bytes);
    Ok(())
}

/// Set a region's population, in the game's 1/65536 fixed-point units.
///
/// Fails with [`Error::ValueOutOfRange`] for a value the format cannot
/// hold, and with [`Error::StaleRegion`] when the buffer no longer matches
/// the region; either way the buffer is unchanged.
pub fn set_population(data: &mut [u8], region: &Region, pop: i64) -> (r: Result<(), Error>)
    ensures
        edit_done(r, final(data)@, old(data)@, population_edit(old(data)@, *region, pop)),
{
    if pop == i64::MIN {
        return Err(Error::ValueOutOfRange { what: "population", value: pop });
    }
    let encoded = to_be8(pop);
    write_field(data, region, POP_OFFSET, &encoded)
}

/// Set a region's owning empire id.
///
/// A colonization only takes if every region of the planet is flipped and
/// the system lies inside the new owner's space; callers wanting "give me
/// this planet" should flip all its regions.
pub fn set_owner(data: &mut [u8], region: &Region, owner: u8) -> (r: Result<(), Error>)
    ensures
        edit_done(r, final(data)@, old(data)@, edited(old(data)@, *region, OWNER_OFFSET as int, seq![owner])),
{
    let bytes: [u8; 1] = [owner];
    let slice: &[u8] = &bytes;
    assert(slice@ =~= seq![owner]);
    write_field(data, region, OWNER_OFFSET, slice)
}

/// Set a region's terrain type index.
pub fn set_terrain(data: &mut [u8], region: &Region, terrain: u8) -> (r: Result<(), Error>)
    ensures
        edit_done(r, final(data)@, old(data)@, edited(old(data)@, *region, TERRAIN_OFFSET as int, seq![terrain])),
{
    let bytes: [u8; 1] = [terrain];
    let slice: &[u8] = &bytes;
    assert(slice@ =~= seq![terrain]);
    write_field(data, region, TERRAIN_OFFSET, slice)
}

/// Set a region's base ecosystem rating, preserving the terraforming delta.
///
/// The modified rating becomes `min(base + old_delta, 2)` (the sum
/// saturating), where `old_delta = modified - old_base`. The base is
/// written before the modified rating is checked and written.
pub fn set_ecosystem(data: &mut [u8], region: &Region, base: i32) -> (r: Result<(), Error>)
    requires
        i32::MIN <= region.eco_modified - region.eco_base <= i32::MAX,
    ensures
        match ecosystem_edit(old(data)@, *region, base) {
            Ok(d) => r is Ok && final(data)@ == d,
            Err(e) => r == Err::<(), Error>(e) && final(data)@ == match edited(
                old(data)@,
                *region,
                ECO_BASE_OFFSET as int,
                be32_bytes(i32_bits(base)),
            ) {
                Ok(d1) => d1,
                Err(_) => old(data)@,
            },
        },
{
    let delta = region.eco_modified - region.eco_base;
    let sum = base as i64 + delta as i64;
    let saturated: i32 = if sum > i32::MAX as i64 {
        i32::MAX
    } else if sum < i32::MIN as i64 {
        i32::MIN
    } else {
        sum as i32
    };
    let modified = if saturated > 2 {
        2
    } else {
        saturated
    };
    assert(modified == modified_eco(*region, base));
    let base_bytes = to_be4(i32_to_bits(base));
    write_field(data, region, ECO_BASE_OFFSET, &base_bytes)?;
    let modified_bytes = to_be4(i32_to_bits(modified));
    write_field(data, region, ECO_MODIFIED_OFFSET, &modified_bytes)
}

/// Reading the population back after setting it gives the value set.
pub proof fn population_after_set(d: Seq<u8>, region: Region, pop: i64)
    requires
        population_edit(d, region, pop) is Ok,
    ensures
        match population_edit(d, region, pop) {
            Ok(e) => e.len() == d.len() && fixed_at(e, region.offset + POP_OFFSET) == Ok::<(i64, int), Error>(
                (pop, region.offset + POP_OFFSET + 8),
            ),
            Err(_) => false,
        },
{
    let bytes = be64_bytes(pop);
    let at = region.offset + POP_OFFSET;
    let e = splice(d, at, bytes);
    lemma_be64_bytes(pop);
    assert(e.subrange(at, at + 8) =~= bytes);
    assert(be64(e, at) == be64(bytes, 0));
}

/// Reading back the eight bytes of a value gives the value.
pub proof fn lemma_be64_bytes(v: i64)
    ensures
        be64_bytes(v).len() == 8,
        fixed_at(be64_bytes(v), 0) == Ok::<(i64, int), Error>((v, 8)),
{
    let bytes = be64_bytes(v);
    let u: int = if v < 0 {
        v + 0x1_0000_0000_0000_0000
    } else {
        v as int
    };
    lemma_be32_bytes((u / 0x1_0000_0000) as u32);
    lemma_be32_bytes((u % 0x1_0000_0000) as u32);
    assert(be64(bytes, 0) == u);
}

/// A successful single-field edit changes only that field's bytes.
pub proof fn edit_touches_only_field(d: Seq<u8>, region: Region, field: int, bytes: Seq<u8>, k: int)
    requires
        edited(d, region, field, bytes) is Ok,
        0 <= field,
        0 <= k < d.len(),
        !(region.offset + field <= k < region.offset + field + bytes.len()),
    ensures
        match edited(d, region, field, bytes) {
            Ok(e) => e.len() == d.len() && e[k] == d[k],
            Err(_) => false,
        },
{
}

/// Editing a field inside a parsed region's 54-byte head and parsing again
/// gives the same systems and the regions with the fields their heads now
/// hold; the edited region drops out only if its population is no longer
/// positive.
pub proof fn reparse_after_edit(d: Seq<u8>, region: Region, field: int, bytes: Seq<u8>)
    requires
        d.len() <= usize::MAX,
        galaxy_at(d) matches Ok(g) && g.regions.contains(region),
        0 <= field,
        field + bytes.len() <= 54,
        edited(d, region, field, bytes) is Ok,
    ensures
        match edited(d, region, field, bytes) {
            Ok(e) => galaxy_at(e) == Ok::<GalaxyView, Error>(
                GalaxyView { systems: galaxy_at(d)->Ok_0.systems, regions: refield(e, galaxy_at(d)->Ok_0.regions) },
            ),
            Err(_) => false,
        },
{
    let rs = galaxy_at(d)->Ok_0.regions;
    let at = region.offset + field;
    let e = splice(d, at, bytes);
    let i = choose|i: int| 0 <= i < rs.len() && rs[i] == region;
    assert forall|k: int| 0 <= k < d.len() && k < d.len() && !head_byte_of(rs, k) implies #[trigger] d[k] == e[k] by {
        if at <= k < at + bytes.len() {
            assert(rs[i].offset <= k < rs[i].offset + 54);
        }
    }
    reparse_after_field_edits(d, e);
}

/// After setting a parsed region's population and parsing again, the
/// region's head reads the population set, and every other field it holds
/// is unchanged.
pub proof fn reparse_after_population_edit(d: Seq<u8>, region: Region, pop: i64)
    requires
        d.len() <= usize::MAX,
        galaxy_at(d) matches Ok(g) && g.regions.contains(region),
        population_edit(d, region, pop) is Ok,
    ensures
        match population_edit(d, region, pop) {
            Ok(e) => galaxy_at(e) == Ok::<GalaxyView, Error>(
                GalaxyView { systems: galaxy_at(d)->Ok_0.systems, regions: refield(e, galaxy_at(d)->Ok_0.regions) },
            ) && record_fields(e, region.offset as int) == (crate::galaxy::RegionRecord {
                pop,
                ..record_fields(d, region.offset as int)
            }),
            Err(_) => false,
        },
{
    let g = galaxy_at(d)->Ok_0;
    let bytes = be64_bytes(pop);
    lemma_be64_bytes(pop);
    reparse_after_edit(d, region, POP_OFFSET as int, bytes);
    population_after_set(d, region, pop);
    crate::galaxy::parsed_regions_spaced(d);
    let i = choose|i: int| 0 <= i < g.regions.len() && g.regions[i] == region;
    assert(g.regions[i].offset + 54 <= d.len());
    lemma_pop_splice_keeps_fields(d, region.offset as int, bytes);
}

proof fn lemma_pop_splice_keeps_fields(d: Seq<u8>, o: int, bytes: Seq<u8>)
    requires
        0 <= o,
        o + 54 <= d.len(),
        bytes.len() == 8,
    ensures
        ({
            let e = splice(d, o + 2, bytes);
            &&& e[o + 1] == d[o + 1]
            &&& e[o + 10] == d[o + 10]
            &&& e[o + 11] == d[o + 11]
            &&& e[o + 21] == d[o + 21]
            &&& be32(e, o + 22) == be32(d, o + 22)
            &&& be32(e, o + 26) == be32(d, o + 26)
        }),
{
    let e = splice(d, o + 2, bytes);
    assert(crate::cursor::agree(d, e, o + 10, o + 54));
}

proof fn lemma_i32_roundtrip(v: i32)
    ensures
        signed32(be32(be32_bytes(i32_bits(v)), 0)) == v,
{
    lemma_be32_bytes(i32_bits(v));
}

/// The signed 32-bit value of the four bytes at `at` after writing `v`'s
/// bytes there.
proof fn lemma_i32_written(d: Seq<u8>, at: int, v: i32)
    requires
        0 <= at,
        at + 4 <= d.len(),
    ensures
        splice(d, at, be32_bytes(i32_bits(v))).len() == d.len(),
        signed32(be32(splice(d, at, be32_bytes(i32_bits(v))), at)) == v,
{
    let bytes = be32_bytes(i32_bits(v));
    let e = splice(d, at, bytes);
    lemma_i32_roundtrip(v);
    assert(e.subrange(at, at + 4) =~= bytes);
    assert(be32(e, at) == be32(bytes, 0));
}

/// Setting a region's base ecosystem writes the base and keeps the old
/// terraforming delta (modified minus base): the modified rating read back
/// is the base plus that delta, capped at 2 and kept at or above the
/// smallest 32-bit value. A stale region leaves the file unchanged.
pub proof fn ecosystem_edit_keeps_delta(d: Seq<u8>, region: Region, base: i32)
    ensures
        match ecosystem_edit(d, region, base) {
            Ok(e) => {
                let o = region.offset as int;
                let sum = base + (region.eco_modified - region.eco_base);
                let m = signed32(be32(e, o + ECO_MODIFIED_OFFSET));
                &&& e.len() == d.len()
                &&& signed32(be32(e, o + ECO_BASE_OFFSET)) == base
                &&& (i32::MIN <= sum <= 2 ==> m == sum)
                &&& (sum > 2 ==> m == 2)
                &&& (sum < i32::MIN ==> m == i32::MIN)
            },
            Err(err) => err == stale(region),
        },
{
    let o = region.offset as int;
    let b1 = be32_bytes(i32_bits(base));
    if field_ok(d, region, ECO_BASE_OFFSET as int, 4) {
        let d1 = splice(d, o + ECO_BASE_OFFSET, b1);
        lemma_i32_written(d, o + ECO_BASE_OFFSET, base);
        let mo = modified_eco(region, base);
        let b2 = be32_bytes(i32_bits(mo));
        assert(d1[o + RACE1_OFFSET] == d[o + RACE1_OFFSET]);
        assert(d1[o + OWNER_OFFSET] == d[o + OWNER_OFFSET]);
        if field_ok(d1, region, ECO_MODIFIED_OFFSET as int, 4) {
            let e = splice(d1, o + ECO_MODIFIED_OFFSET, b2);
            lemma_i32_written(d1, o + ECO_MODIFIED_OFFSET, mo);
            assert(crate::cursor::agree(d1, e, o + ECO_BASE_OFFSET, o + ECO_BASE_OFFSET + 4));
            assert(be32(e, o + ECO_BASE_OFFSET) == be32(d1, o + ECO_BASE_OFFSET));
        }
    }
}

} // verus!
