//! Empire definitions, treasuries, and player-owned-system detection.
//!
//! The empire table sits in the first few hundred bytes of the file: one
//! record per empire, each holding a `c1 <id>` prefix, a 4-byte ASCII code,
//! the reversed marker `ECAR` ("RACE"), then two length-prefixed UTF-16BE
//! strings: the picked species (sub-race) name and the empire name. The
//! table ends at the `VSEICEPS` ("SPECIESV") marker. Empire ID 1 is always
//! the human player.
//!
//! Ownership lives (redundantly) in the `VSREYALP` ("PLAYERSV") section:
//! every AI empire's record ends with a shared block of sorted
//! `(system_index, 0x01)` pair lists describing what each empire controls.
//! Every plausible list in every record is fingerprinted, the ones that
//! repeat across records are kept, and the list whose systems carry the
//! most of the player species' population wins.

use std::collections::BTreeSet;

use vstd::prelude::*;
use vstd::slice::slice_subrange;

use crate::cursor::{be32, signed32, u32_at, utf16be_at, widen, Cursor};
use crate::error::Error;
use crate::galaxy::{read_i32, Galaxy, Region};
use crate::species::{species_or_subrace_named, Species};
use crate::owned::{list_set, set_of};
use crate::header::{be32_bytes, i32_bits, i32_to_bits, lemma_be32_bytes, splice, to_be4, write_at};
use crate::search::{find, find_from, find_spec, lemma_find_from, lemma_find_stable};
use crate::text::{encode_utf16be, utf16be_bytes};

verus! {

broadcast use crate::cursor::Cursor::at_nonneg;

/// The ID of the human player's empire in every known save.
pub const PLAYER_EMPIRE_ID: u8 = 1;

/// `ECAR`, the reversed "RACE" marker of an empire record.
pub open spec fn race_marker() -> Seq<u8> {
    seq![0x45u8, 0x43, 0x41, 0x52]
}

/// `VSEICEPS`, the reversed "SPECIESV" marker that ends the empire table.
pub open spec fn species_marker() -> Seq<u8> {
    seq![0x56u8, 0x53, 0x45, 0x49, 0x43, 0x45, 0x50, 0x53]
}

/// `VSREYALP`, the reversed "PLAYERSV" marker of the per-empire records.
pub open spec fn players_marker() -> Seq<u8> {
    seq![0x56u8, 0x53, 0x52, 0x45, 0x59, 0x41, 0x4C, 0x50]
}

/// One empire from the header table.
#[derive(Debug, PartialEq, Eq)]
pub struct Empire {
    pub id: u8,
    /// The picked species/sub-race name, e.g. "Tachidi".
    pub species: String,
    /// The empire's display name.
    pub name: String,
}

/// An empire as a value.
pub struct EmpireView {
    pub id: u8,
    pub species: Seq<char>,
    pub name: Seq<char>,
}

impl View for Empire {
    type V = EmpireView;

    open spec fn view(&self) -> EmpireView {
        EmpireView { id: self.id, species: self.species@, name: self.name@ }
    }
}

/// A `u32` length of 1 to 50 followed by that many UTF-16BE units.
pub open spec fn prefixed_utf16_at(d: Seq<u8>, p: int) -> Option<(Seq<char>, int)> {
    match u32_at(d, p) {
        Err(_) => None,
        Ok((len, q)) => if len == 0 || len > 50 {
            None
        } else {
            match utf16be_at(d, q, len as int) {
                Err(_) => None,
                Ok((s, q2)) => Some((s, q2)),
            }
        },
    }
}

/// The empire record whose `ECAR` marker sits at `m`: the id byte five
/// bytes before the marker, then the species and empire names after it.
pub open spec fn empire_record_at(d: Seq<u8>, m: int) -> Option<(EmpireView, int)> {
    match prefixed_utf16_at(d, m + 4) {
        None => None,
        Some((species, q1)) => match prefixed_utf16_at(d, q1) {
            None => None,
            Some((name, q2)) => if m >= 5 {
                Some((EmpireView { id: d[m - 5], species, name }, q2))
            } else {
                None
            },
        },
    }
}

/// The empire records found from `pos` up to `end`: each `ECAR` marker
/// starts a record; one that does not parse is passed over.
pub open spec fn empires_from(d: Seq<u8>, pos: int, end: int) -> Seq<EmpireView>
    decreases end - pos,
{
    if pos < 0 || pos >= end || end > d.len() {
        Seq::empty()
    } else {
        match find_spec(d.subrange(pos, end), race_marker()) {
            None => Seq::empty(),
            Some(f) => {
                let m = pos + f;
                match empire_record_at(d, m) {
                    Some((e, q)) => seq![e] + if pos < q <= end {
                        empires_from(d, q, end)
                    } else {
                        Seq::empty()
                    },
                    None => if pos < m + 1 <= end {
                        empires_from(d, m + 1, end)
                    } else {
                        Seq::empty()
                    },
                }
            },
        }
    }
}

/// Where the empire table ends: the `SPECIESV` marker within the first
/// 0x1000 bytes, else 0x300 (or the file's end, if sooner).
pub open spec fn table_end(d: Seq<u8>) -> int {
    let window = if d.len() < 0x1000 {
        d.len() as int
    } else {
        0x1000
    };
    match find_spec(d.subrange(0, window), species_marker()) {
        Some(e) => e,
        None => if d.len() < 0x300 {
            d.len() as int
        } else {
            0x300
        },
    }
}

/// The empire table of a file.
pub open spec fn empires_of(d: Seq<u8>) -> Seq<EmpireView> {
    empires_from(d, 0, table_end(d))
}

/// Read a length-prefixed UTF-16BE name of 1 to 50 units.
fn read_prefixed_utf16(cursor: &mut Cursor) -> (r: Option<String>)
    ensures
        final(cursor).bytes() == old(cursor).bytes(),
        match prefixed_utf16_at(old(cursor).bytes(), old(cursor).at()) {
            Some((s, q)) => r matches Some(v) && v@ == s && final(cursor).at() == q,
            None => r is None,
        },
{
    let len = match cursor.u32be() {
        Ok(len) => len,
        Err(_) => return None,
    };
    if len == 0 || len > 50 {
        return None;
    }
    match cursor.utf16be(widen(len)) {
        Ok(s) => Some(s),
        Err(_) => None,
    }
}

/// Parse the empire definition table from the file header.
///
/// Returns an empty list when no table is found; a save without one is
/// still scannable, just without empire names or ownership detection.
pub fn empires(data: &[u8]) -> (out: Vec<Empire>)
    ensures
        out@.map_values(|e: Empire| e@) == empires_of(data@),
{
    let ghost d = data@;
    let len = data.len();
    let window = if len < 0x1000 {
        len
    } else {
        0x1000
    };
    let table = slice_subrange(data, 0, window);
    let species_bytes: [u8; 8] = [0x56, 0x53, 0x45, 0x49, 0x43, 0x45, 0x50, 0x53];
    let species_needle: &[u8] = &species_bytes;
    assert(species_needle@ == species_marker());
    proof {
        lemma_find_from(table@, species_marker(), 0);
    }
    let end = match find(table, species_needle) {
        Some(e) => e,
        None => if len < 0x300 {
            len
        } else {
            0x300
        },
    };
    assert(end == table_end(d));
    let race_bytes: [u8; 4] = [0x45, 0x43, 0x41, 0x52];
    let race_needle: &[u8] = &race_bytes;
    assert(race_needle@ == race_marker());
    let mut out: Vec<Empire> = Vec::new();
    let ghost mut acc: Seq<EmpireView> = Seq::empty();
    let mut pos: usize = 0;
    assert(acc + empires_from(d, 0, end as int) =~= empires_from(d, 0, end as int));
    while pos < end
        invariant
            d == data@,
            len == d.len(),
            end <= len,
            pos <= len,
            race_needle@ == race_marker(),
            out@.map_values(|e: Empire| e@) == acc,
            acc + empires_from(d, pos as int, end as int) == empires_of(d),
            end == table_end(d),
        ensures
            out@.map_values(|e: Empire| e@) == empires_of(d),
        decreases len - pos,
    {
        let hay = slice_subrange(data, pos, end);
        proof {
            lemma_find_from(hay@, race_marker(), 0);
        }
        let found = match find(hay, race_needle) {
            Some(f) => f,
            None => {
                assert(empires_from(d, pos as int, end as int) =~= Seq::<EmpireView>::empty());
                assert(acc + Seq::<EmpireView>::empty() =~= acc);
                break;
            },
        };
        let marker = pos + found;
        let mut cursor = Cursor::new(data, marker + 4);
        let species = read_prefixed_utf16(&mut cursor);
        let name = match species {
            Some(_) => read_prefixed_utf16(&mut cursor),
            None => None,
        };
        match (species, name) {
            (Some(species), Some(name)) if marker >= 5 => {
                let next = cursor.pos();
                let empire = Empire { id: data[marker - 5], species, name };
                proof {
                    let ev = empire@;
                    if next > end {
                        assert(empires_from(d, next as int, end as int) =~= Seq::<EmpireView>::empty());
                    }
                    assert(acc + (seq![ev] + empires_from(d, next as int, end as int)) =~= (acc + seq![ev])
                        + empires_from(d, next as int, end as int));
                    acc = acc + seq![ev];
                }
                out.push(empire);
                assert(out@.map_values(|e: Empire| e@) =~= acc);
                pos = next;
            },
            _ => {
                pos = marker + 1;
            },
        }
    }
    out
}

/// Offset of the treasury `i32` past the end of an empire's name in its
/// `PLAYERSV` record.
pub const TREASURY_OFFSET: usize = 20;

/// Where an empire's treasury field sits: 20 bytes past the first
/// occurrence of its UTF-16BE name after the `PLAYERSV` marker, when the
/// four bytes lie inside the file.
pub open spec fn treasury_field_of(d: Seq<u8>, name: Seq<char>) -> Option<int> {
    match find_spec(d, players_marker()) {
        None => None,
        Some(pl) => match find_spec(d.subrange(pl, d.len() as int), utf16be_bytes(name)) {
            None => None,
            Some(f) => {
                let field = pl + f + utf16be_bytes(name).len() + TREASURY_OFFSET;
                if field + 4 <= d.len() {
                    Some(field)
                } else {
                    None
                }
            },
        },
    }
}

/// An empire's treasury in AU.
pub open spec fn treasury_of(d: Seq<u8>, name: Seq<char>) -> Option<i32> {
    match treasury_field_of(d, name) {
        Some(at) => Some(signed32(be32(d, at)) as i32),
        None => None,
    }
}

fn treasury_field(data: &[u8], empire: &Empire) -> (r: Option<usize>)
    ensures
        match treasury_field_of(data@, empire.name@) {
            Some(at) => r matches Some(x) && x == at,
            None => r is None,
        },
{
    let ghost d = data@;
    assert(d.len() == data.len());
    let players_bytes: [u8; 8] = [0x56, 0x53, 0x52, 0x45, 0x59, 0x41, 0x4C, 0x50];
    let players_needle: &[u8] = &players_bytes;
    assert(players_needle@ == players_marker());
    proof {
        lemma_find_from(d, players_marker(), 0);
    }
    let players = find(data, players_needle)?;
    let encoded = encode_utf16be(empire.name.as_str());
    let rest = slice_subrange(data, players, data.len());
    proof {
        lemma_find_from(rest@, utf16be_bytes(empire.name@), 0);
    }
    let found = find(rest, &encoded)?;
    let name = players + found;
    let field = name.checked_add(encoded.len())?.checked_add(TREASURY_OFFSET)?;
    let end = field.checked_add(4)?;
    if end <= data.len() {
        Some(field)
    } else {
        None
    }
}

/// Read an empire's treasury in AU, or `None` when its `PLAYERSV` record
/// cannot be located.
///
/// Negative values are real: the game's unpatched finance-wraparound bug
/// stores them when a treasury overflows `i32::MAX`.
pub fn treasury(data: &[u8], empire: &Empire) -> (r: Option<i32>)
    ensures
        r == treasury_of(data@, empire.name@),
{
    assert(data@.len() == data.len());
    let at = treasury_field(data, empire)?;
    Some(read_i32(data, at))
}

/// The file with an empire's treasury set, when its record is found.
pub open spec fn with_treasury(d: Seq<u8>, name: Seq<char>, au: i32) -> Option<Seq<u8>> {
    match treasury_field_of(d, name) {
        Some(at) => Some(splice(d, at, be32_bytes(i32_bits(au)))),
        None => None,
    }
}

/// Write an empire's treasury in AU.
///
/// Fails with [`Error::EmpireRecordNotFound`] when the empire's `PLAYERSV`
/// record cannot be located, leaving the buffer unchanged.
pub fn set_treasury(data: &mut [u8], empire: &Empire, au: i32) -> (r: Result<(), Error>)
    ensures
        match with_treasury(old(data)@, empire.name@, au) {
            Some(d) => r is Ok && final(data)@ == d,
            None => r matches Err(Error::EmpireRecordNotFound { name }) && name@ == empire.name@
                && final(data)@ == old(data)@,
        },
{
    let at = match treasury_field(data, empire) {
        Some(at) => at,
        None => return Err(Error::EmpireRecordNotFound { name: empire.name.clone() }),
    };
    let bytes = to_be4(i32_to_bits(au));
    write_at(data, at, &bytes);
    Ok(())
}


/// Reading an empire's treasury after setting it gives the value set.
pub proof fn treasury_after_set_treasury(d: Seq<u8>, name: Seq<char>, au: i32)
    requires
        with_treasury(d, name, au) is Some,
    ensures
        match with_treasury(d, name, au) {
            Some(e) => treasury_of(e, name) == Some(au),
            None => false,
        },
{
    let at = treasury_field_of(d, name).unwrap();
    let bytes = be32_bytes(i32_bits(au));
    let e = splice(d, at, bytes);
    let pl = find_spec(d, players_marker()).unwrap();
    let enc = utf16be_bytes(name);
    lemma_find_from(d, players_marker(), 0);
    let sd = d.subrange(pl, d.len() as int);
    let f = find_spec(sd, enc).unwrap();
    lemma_find_from(sd, enc, 0);
    assert(e.len() == d.len());
    let se = e.subrange(pl, e.len() as int);
    assert forall|k: int| 0 <= k < pl + players_marker().len() implies d[k] == e[k] by {}
    lemma_find_stable(d, e, players_marker(), 0);
    assert forall|k: int| 0 <= k < f + enc.len() implies sd[k] == se[k] by {}
    lemma_find_stable(sd, se, enc, 0);
    assert(treasury_field_of(e, name) == Some(at));
    lemma_be32_bytes(i32_bits(au));
    assert(e.subrange(at, at + 4) =~= bytes);
    assert(be32(e, at) == be32(bytes, 0));
}


/// The rest of a sorted pair list: `n` pairs of a system index above
/// `prev` and a flag byte of 1.
pub open spec fn pair_items(d: Seq<u8>, p: int, n: int, prev: int) -> Option<(Seq<u8>, int)>
    decreases n,
{
    if n <= 0 {
        Some((Seq::empty(), p))
    } else if p < 0 || p + 1 >= d.len() {
        None
    } else if d[p + 1] != 1 || d[p] <= prev {
        None
    } else {
        match pair_items(d, p + 2, n - 1, d[p] as int) {
            Some((rest, q)) => Some((seq![d[p]] + rest, q)),
            None => None,
        }
    }
}

/// A sorted `(system_index, 0x01)` pair list at `pos`: a count of at most
/// 250, then strictly increasing indices each flagged 1. Gives the indices
/// and the position past the list.
pub open spec fn pair_list_at(d: Seq<u8>, pos: int) -> Option<(Seq<u8>, int)> {
    if pos < 0 || pos >= d.len() || d[pos] > 250 {
        None
    } else {
        pair_items(d, pos + 1, d[pos] as int, -1)
    }
}

/// Repeated pair lists and how often each was seen, in order of first
/// sighting.
pub struct Tally {
    pub lists: Seq<Seq<u8>>,
    pub counts: Seq<int>,
}

/// The first index of `lists` holding `sys`.
pub open spec fn index_of_list(lists: Seq<Seq<u8>>, sys: Seq<u8>, k: int) -> Option<int>
    decreases lists.len() - k,
{
    if k < 0 || k >= lists.len() {
        None
    } else if lists[k] == sys {
        Some(k)
    } else {
        index_of_list(lists, sys, k + 1)
    }
}

/// Count one more sighting of `sys` (saturating at `usize::MAX`).
pub open spec fn record(t: Tally, sys: Seq<u8>) -> Tally {
    match index_of_list(t.lists, sys, 0) {
        Some(k) => Tally {
            lists: t.lists,
            counts: t.counts.update(k, if t.counts[k] < usize::MAX {
                t.counts[k] + 1
            } else {
                t.counts[k]
            }),
        },
        None => Tally { lists: t.lists.push(sys), counts: t.counts.push(1) },
    }
}

/// Scan `pos..end` for pair lists of at least ten systems, skipping past
/// each one found and stepping a byte otherwise.
pub open spec fn scan(d: Seq<u8>, pos: int, end: int, t: Tally) -> Tally
    decreases end - pos,
{
    if !(pos + 2 < end) {
        t
    } else {
        match pair_list_at(d, pos) {
            Some((sys, next)) if sys.len() >= 10 => if pos < next <= end {
                scan(d, next, end, record(t, sys))
            } else {
                record(t, sys)
            },
            _ => scan(d, pos + 1, end, t),
        }
    }
}

/// The end of the segment that starts at record position `i`: the next
/// record, or 0x200000 bytes on (at most the file's end).
pub open spec fn segment_end(d: Seq<u8>, positions: Seq<int>, i: int) -> int {
    if i + 1 < positions.len() {
        positions[i + 1]
    } else if positions[i] + 0x20_0000 < d.len() {
        positions[i] + 0x20_0000
    } else {
        d.len() as int
    }
}

/// Scan the segments of records `i..`.
pub open spec fn scan_segments(d: Seq<u8>, positions: Seq<int>, i: int, t: Tally) -> Tally
    decreases positions.len() - i,
{
    if i < 0 || i >= positions.len() {
        t
    } else {
        scan_segments(d, positions, i + 1, scan(d, positions[i], segment_end(d, positions, i), t))
    }
}

/// Where each empire's name first occurs after `players`, skipping names
/// that do not occur.
pub open spec fn name_positions(d: Seq<u8>, players: int, table: Seq<EmpireView>) -> Seq<int>
    decreases table.len(),
{
    if table.len() == 0 {
        Seq::empty()
    } else {
        name_positions(d, players, table.drop_last()) + match find_spec(
            d.subrange(players, d.len() as int),
            utf16be_bytes(table.last().name),
        ) {
            Some(f) => seq![players + f],
            None => Seq::empty(),
        }
    }
}

/// `x` inserted into ascending `s` after every element not above it.
pub open spec fn insert_int(s: Seq<int>, x: int) -> Seq<int>
    decreases s.len(),
{
    if s.len() == 0 {
        seq![x]
    } else if s.last() <= x {
        s.push(x)
    } else {
        insert_int(s.drop_last(), x).push(s.last())
    }
}

/// Ascending sort.
pub open spec fn sort_ints(s: Seq<int>) -> Seq<int>
    decreases s.len(),
{
    if s.len() == 0 {
        Seq::empty()
    } else {
        insert_int(sort_ints(s.drop_last()), s.last())
    }
}

/// The largest count.
pub open spec fn max_count(counts: Seq<int>) -> int
    decreases counts.len(),
{
    if counts.len() == 0 {
        0
    } else {
        let m = max_count(counts.drop_last());
        if counts.last() > m {
            counts.last()
        } else {
            m
        }
    }
}

/// The lists seen at least `min_freq` times with at least ten systems.
pub open spec fn candidates(t: Tally, min_freq: int) -> Seq<Seq<u8>>
    decreases t.lists.len(),
{
    if t.lists.len() == 0 || t.counts.len() != t.lists.len() {
        Seq::empty()
    } else {
        candidates(Tally { lists: t.lists.drop_last(), counts: t.counts.drop_last() }, min_freq)
            + if t.counts.last() >= min_freq && t.lists.last().len() >= 10 {
            seq![t.lists.last()]
        } else {
            Seq::empty()
        }
    }
}

/// The parent species of the player empire's picked species.
pub open spec fn player_species(table: Seq<EmpireView>) -> Option<Species>
    decreases table.len(),
{
    if table.len() == 0 {
        None
    } else if table[0].id == PLAYER_EMPIRE_ID {
        species_or_subrace_named(table[0].species)
    } else {
        player_species(table.drop_first())
    }
}

/// A region lies in one of the listed systems.
pub open spec fn in_list(sys: Seq<u8>, r: Region) -> bool {
    exists|j: int| 0 <= j < sys.len() && #[trigger] sys[j] as int == r.sys_idx as int
}

/// Total population of the species in the listed systems.
pub open spec fn score(rs: Seq<Region>, species: Species, sys: Seq<u8>) -> int
    decreases rs.len(),
{
    if rs.len() == 0 {
        0
    } else {
        score(rs.drop_last(), species, sys) + if rs.last().species == species && in_list(sys, rs.last()) {
            rs.last().pop as int
        } else {
            0
        }
    }
}

/// The first candidate with the strictly highest score, folding from
/// `best` over candidates `k..`.
pub open spec fn best_from(
    rs: Seq<Region>,
    species: Option<Species>,
    cands: Seq<Seq<u8>>,
    k: int,
    best: Option<(int, Seq<u8>)>,
) -> Option<(int, Seq<u8>)>
    decreases cands.len() - k,
{
    if k < 0 || k >= cands.len() {
        best
    } else {
        let s = match species {
            Some(sp) => score(rs, sp, cands[k]),
            None => 0,
        };
        let next = match best {
            None => Some((s, cands[k])),
            Some((b, l)) => if s > b {
                Some((s, cands[k]))
            } else {
                Some((b, l))
            },
        };
        best_from(rs, species, cands, k + 1, next)
    }
}

/// The systems the player owns, by the ownership-list heuristic; empty when
/// detection fails (no `PLAYERSV` marker, no empire table, fewer than three
/// records located, no repeated list).
pub open spec fn player_systems_of(d: Seq<u8>, rs: Seq<Region>) -> Set<usize> {
    match find_spec(d, players_marker()) {
        None => Set::empty(),
        Some(players) => {
            let table = empires_of(d);
            let positions = sort_ints(name_positions(d, players, table));
            if table.len() == 0 || positions.len() < 3 {
                Set::empty()
            } else {
                let t = scan_segments(d, positions, 0, Tally { lists: Seq::empty(), counts: Seq::empty() });
                if t.lists.len() == 0 {
                    Set::empty()
                } else {
                    let half = max_count(t.counts) / 2;
                    let min_freq = if half > 3 {
                        half
                    } else {
                        3
                    };
                    let cands = candidates(t, min_freq);
                    match best_from(rs, player_species(table), cands, 0, None) {
                        Some((_, sys)) => list_set(sys),
                        None => Set::empty(),
                    }
                }
            }
        },
    }
}


/// `acc` followed by the items `r` found, or nothing when `r` failed.
pub open spec fn wrap_items(acc: Seq<u8>, r: Option<(Seq<u8>, int)>) -> Option<(Seq<u8>, int)> {
    match r {
        Some((rest, q)) => Some((acc + rest, q)),
        None => None,
    }
}

/// Try to read a sorted `(system_index, 0x01)` pair list at `pos`.
///
/// Returns the system indices and the position past the list, or `None` if
/// the bytes at `pos` don't form one.
fn sorted_pair_list(data: &[u8], pos: usize) -> (r: Option<(Vec<u8>, usize)>)
    ensures
        match pair_list_at(data@, pos as int) {
            Some((sys, q)) => r matches Some((v, x)) && v@ == sys && x == q,
            None => r is None,
        },
{
    let ghost d = data@;
    let len = data.len();
    if pos >= len {
        return None;
    }
    let count = data[pos];
    if count > 250 {
        return None;
    }
    let mut systems: Vec<u8> = Vec::new();
    let mut p = pos + 1;
    let mut prev: i16 = -1;
    let mut i: u8 = 0;
    assert(wrap_items(systems@, pair_items(d, p as int, count as int, -1)) == pair_items(
        d,
        p as int,
        count as int,
        -1,
    )) by {
        if let Some((rest, q)) = pair_items(d, p as int, count as int, -1) {
            assert(Seq::<u8>::empty() + rest =~= rest);
        }
    }
    while i < count
        invariant
            d == data@,
            len == d.len(),
            pos < len,
            i <= count,
            p <= len,
            -1 <= prev <= 255,
            pair_list_at(d, pos as int) == wrap_items(systems@, pair_items(d, p as int, (count - i) as int, prev as int)),
        decreases count - i,
    {
        if p >= len || p + 1 >= len {
            return None;
        }
        let sys_idx = data[p];
        let flag = data[p + 1];
        if flag != 1 || (sys_idx as i16) <= prev {
            return None;
        }
        proof {
            if let Some((rest, q)) = pair_items(d, p + 2, (count - i - 1) as int, sys_idx as int) {
                assert(systems@ + (seq![sys_idx] + rest) =~= systems@.push(sys_idx) + rest);
            }
        }
        prev = sys_idx as i16;
        systems.push(sys_idx);
        p = p + 2;
        i = i + 1;
    }
    assert(systems@ + Seq::<u8>::empty() =~= systems@);
    Some((systems, p))
}

/// Pair lists seen so far and their sighting counts.
struct ListTally {
    lists: Vec<Vec<u8>>,
    counts: Vec<usize>,
}

impl View for ListTally {
    type V = Tally;

    closed spec fn view(&self) -> Tally {
        Tally { lists: self.lists@.map_values(|v: Vec<u8>| v@), counts: self.counts@.map_values(|c: usize| c as int) }
    }
}

fn bytes_eq(a: &[u8], b: &[u8]) -> (r: bool)
    ensures
        r == (a@ == b@),
{
    if a.len() != b.len() {
        return false;
    }
    let mut i: usize = 0;
    while i < a.len()
        invariant
            a@.len() == b@.len(),
            i <= a@.len(),
            forall|k: int| 0 <= k < i ==> a@[k] == b@[k],
        decreases a@.len() - i,
    {
        if a[i] != b[i] {
            return false;
        }
        i = i + 1;
    }
    assert(a@ =~= b@);
    true
}

fn record_list(t: &mut ListTally, sys: Vec<u8>)
    requires
        old(t).lists@.len() == old(t).counts@.len(),
    ensures
        final(t).lists@.len() == final(t).counts@.len(),
        final(t)@ == record(old(t)@, sys@),
{
    let ghost lists = old(t)@.lists;
    let mut k: usize = 0;
    while k < t.lists.len()
        invariant
            t.lists@.len() == t.counts@.len(),
            t@ == old(t)@,
            lists == t@.lists,
            k <= t.lists@.len(),
            index_of_list(lists, sys@, 0) == index_of_list(lists, sys@, k as int),
        decreases t.lists@.len() - k,
    {
        if bytes_eq(&t.lists[k], &sys) {
            let c = t.counts[k];
            let c2 = if c < usize::MAX {
                c + 1
            } else {
                c
            };
            t.counts.set(k, c2);
            assert(t@.counts =~= old(t)@.counts.update(k as int, c2 as int));
            return ;
        }
        k = k + 1;
    }
    t.lists.push(sys);
    t.counts.push(1);
    assert(t@.lists =~= old(t)@.lists.push(sys@));
    assert(t@.counts =~= old(t)@.counts.push(1));
}

fn scan_segment(data: &[u8], start: usize, end: usize, t: &mut ListTally)
    requires
        old(t).lists@.len() == old(t).counts@.len(),
    ensures
        final(t).lists@.len() == final(t).counts@.len(),
        final(t)@ == scan(data@, start as int, end as int, old(t)@),
{
    let mut pos = start;
    while pos < end && end - pos > 2
        invariant
            t.lists@.len() == t.counts@.len(),
            scan(data@, start as int, end as int, old(t)@) == scan(data@, pos as int, end as int, t@),
        decreases end - pos,
    {
        match sorted_pair_list(data, pos) {
            Some((systems, next)) => {
                if systems.len() >= 10 {
                    record_list(t, systems);
                    if pos < next && next <= end {
                        pos = next;
                    } else {
                        return ;
                    }
                } else {
                    pos = pos + 1;
                }
            },
            None => {
                pos = pos + 1;
            },
        }
    }
}

/// Ascending insertion sort.
fn sort_positions(v: Vec<usize>) -> (out: Vec<usize>)
    ensures
        out@.map_values(|x: usize| x as int) == sort_ints(v@.map_values(|x: usize| x as int)),
{
    let ghost vi = v@.map_values(|x: usize| x as int);
    let mut out: Vec<usize> = Vec::new();
    let mut i: usize = 0;
    while i < v.len()
        invariant
            vi == v@.map_values(|x: usize| x as int),
            i <= v@.len(),
            out@.map_values(|x: usize| x as int) == sort_ints(vi.subrange(0, i as int)),
        decreases v@.len() - i,
    {
        let x = v[i];
        let mut j = out.len();
        while j > 0 && out[j - 1] > x
            invariant
                j <= out@.len(),
                forall|k: int| j <= k < out@.len() ==> #[trigger] out@[k] > x,
            decreases j,
        {
            j = j - 1;
        }
        proof {
            let s = out@.map_values(|y: usize| y as int);
            lemma_insert_int_at(s, x as int, j as int);
            let t = vi.subrange(0, i + 1);
            assert(t.drop_last() =~= vi.subrange(0, i as int));
        }
        out.insert(j, x);
        proof {
            assert(out@.map_values(|y: usize| y as int) =~= sort_ints(vi.subrange(0, i + 1)));
        }
        i = i + 1;
    }
    assert(vi.subrange(0, v@.len() as int) =~= vi);
    out
}

proof fn lemma_insert_int_at(s: Seq<int>, x: int, j: int)
    requires
        0 <= j <= s.len(),
        j == 0 || s[j - 1] <= x,
        forall|k: int| j <= k < s.len() ==> #[trigger] s[k] > x,
    ensures
        insert_int(s, x) == s.insert(j, x),
    decreases s.len(),
{
    if s.len() == 0 {
        assert(s.insert(j, x) =~= seq![x]);
    } else if s.last() <= x {
        assert(j == s.len());
        assert(s.insert(j, x) =~= s.push(x));
    } else {
        lemma_insert_int_at(s.drop_last(), x, j);
        assert(s.drop_last().insert(j, x).push(s.last()) =~= s.insert(j, x));
    }
}


fn record_positions(data: &[u8], players: usize, table: &Vec<Empire>) -> (v: Vec<usize>)
    requires
        players <= data@.len(),
    ensures
        v@.map_values(|x: usize| x as int) == name_positions(data@, players as int, table@.map_values(|e: Empire| e@)),
{
    let ghost tv = table@.map_values(|e: Empire| e@);
    let rest = slice_subrange(data, players, data.len());
    assert(data@.len() == data.len());
    let mut v: Vec<usize> = Vec::new();
    let mut i: usize = 0;
    assert(tv.subrange(0, 0) =~= Seq::<EmpireView>::empty());
    assert(v@.map_values(|x: usize| x as int) =~= Seq::<int>::empty());
    while i < table.len()
        invariant
            tv == table@.map_values(|e: Empire| e@),
            players <= data@.len(),
            data@.len() <= usize::MAX,
            rest@ == data@.subrange(players as int, data@.len() as int),
            i <= table@.len(),
            v@.map_values(|x: usize| x as int) == name_positions(data@, players as int, tv.subrange(0, i as int)),
        decreases table@.len() - i,
    {
        let encoded = encode_utf16be(table[i].name.as_str());
        proof {
            lemma_find_from(rest@, encoded@, 0);
            let t = tv.subrange(0, i + 1);
            assert(t.drop_last() =~= tv.subrange(0, i as int));
            assert(t.last() == table@[i as int]@);
            assert(encoded@ == utf16be_bytes(t.last().name));
            assert(name_positions(data@, players as int, t) == name_positions(data@, players as int, tv.subrange(0, i as int))
                + match find_spec(rest@, encoded@) {
                Some(f) => seq![players + f],
                None => Seq::<int>::empty(),
            });
        }
        match find(rest, &encoded) {
            Some(f) => {
                v.push(players + f);
                assert(v@.map_values(|x: usize| x as int) =~= name_positions(data@, players as int, tv.subrange(0, i as int))
                    + seq![players + f]);
            },
            None => {
                assert(name_positions(data@, players as int, tv.subrange(0, i as int)) + Seq::<int>::empty()
                    =~= name_positions(data@, players as int, tv.subrange(0, i as int)));
            },
        }
        i = i + 1;
    }
    assert(tv.subrange(0, table@.len() as int) =~= tv);
    v
}

fn scan_all(data: &[u8], positions: &Vec<usize>, t: &mut ListTally)
    requires
        old(t).lists@.len() == old(t).counts@.len(),
    ensures
        final(t).lists@.len() == final(t).counts@.len(),
        final(t)@ == scan_segments(data@, positions@.map_values(|x: usize| x as int), 0, old(t)@),
{
    let ghost pv = positions@.map_values(|x: usize| x as int);
    let len = data.len();
    let mut i: usize = 0;
    while i < positions.len()
        invariant
            pv == positions@.map_values(|x: usize| x as int),
            len == data@.len(),
            i <= positions@.len(),
            t.lists@.len() == t.counts@.len(),
            scan_segments(data@, pv, 0, old(t)@) == scan_segments(data@, pv, i as int, t@),
        decreases positions@.len() - i,
    {
        let start = positions[i];
        let end = if i + 1 < positions.len() {
            positions[i + 1]
        } else if start < len && len - start > 0x20_0000 {
            start + 0x20_0000
        } else {
            len
        };
        assert(end == segment_end(data@, pv, i as int));
        scan_segment(data, start, end, t);
        i = i + 1;
    }
}

fn max_of(counts: &Vec<usize>) -> (m: usize)
    ensures
        m == max_count(counts@.map_values(|c: usize| c as int)),
{
    let ghost cv = counts@.map_values(|c: usize| c as int);
    let mut m: usize = 0;
    let mut i: usize = 0;
    assert(cv.subrange(0, 0) =~= Seq::<int>::empty());
    while i < counts.len()
        invariant
            cv == counts@.map_values(|c: usize| c as int),
            i <= counts@.len(),
            m == max_count(cv.subrange(0, i as int)),
        decreases counts@.len() - i,
    {
        proof {
            let t = cv.subrange(0, i + 1);
            assert(t.drop_last() =~= cv.subrange(0, i as int));
        }
        if counts[i] > m {
            m = counts[i];
        }
        i = i + 1;
    }
    assert(cv.subrange(0, counts@.len() as int) =~= cv);
    m
}

fn candidate_lists(t: &ListTally, min_freq: usize) -> (c: Vec<Vec<u8>>)
    requires
        t.lists@.len() == t.counts@.len(),
    ensures
        c@.map_values(|v: Vec<u8>| v@) == candidates(t@, min_freq as int),
{
    let ghost tv = t@;
    let mut c: Vec<Vec<u8>> = Vec::new();
    let mut i: usize = 0;
    assert(candidates(Tally { lists: tv.lists.subrange(0, 0), counts: tv.counts.subrange(0, 0) }, min_freq as int)
        =~= Seq::<Seq<u8>>::empty());
    assert(c@.map_values(|v: Vec<u8>| v@) =~= Seq::<Seq<u8>>::empty());
    while i < t.lists.len()
        invariant
            tv == t@,
            t.lists@.len() == t.counts@.len(),
            i <= t.lists@.len(),
            c@.map_values(|v: Vec<u8>| v@) == candidates(
                Tally { lists: tv.lists.subrange(0, i as int), counts: tv.counts.subrange(0, i as int) },
                min_freq as int,
            ),
        decreases t.lists@.len() - i,
    {
        let ghost before = candidates(
            Tally { lists: tv.lists.subrange(0, i as int), counts: tv.counts.subrange(0, i as int) },
            min_freq as int,
        );
        proof {
            let nt = Tally { lists: tv.lists.subrange(0, i + 1), counts: tv.counts.subrange(0, i + 1) };
            assert(nt.lists.drop_last() =~= tv.lists.subrange(0, i as int));
            assert(nt.counts.drop_last() =~= tv.counts.subrange(0, i as int));
            assert(nt.lists.last() == t.lists@[i as int]@);
            assert(nt.counts.last() == t.counts@[i as int] as int);
        }
        if t.counts[i] >= min_freq && t.lists[i].len() >= 10 {
            let copy = vstd::slice::slice_to_vec(t.lists[i].as_slice());
            c.push(copy);
            assert(c@.map_values(|v: Vec<u8>| v@) =~= before + seq![t.lists@[i as int]@]);
        } else {
            assert(before + Seq::<Seq<u8>>::empty() =~= before);
        }
        i = i + 1;
    }
    proof {
        assert(tv.lists.subrange(0, tv.lists.len() as int) =~= tv.lists);
        assert(tv.counts.subrange(0, tv.counts.len() as int) =~= tv.counts);
    }
    c
}

fn find_player_species(table: &Vec<Empire>) -> (r: Option<Species>)
    ensures
        r == player_species(table@.map_values(|e: Empire| e@)),
{
    let ghost tv = table@.map_values(|e: Empire| e@);
    let mut i: usize = 0;
    assert(tv.subrange(0, tv.len() as int) =~= tv);
    while i < table.len()
        invariant
            tv == table@.map_values(|e: Empire| e@),
            i <= table@.len(),
            player_species(tv) == player_species(tv.subrange(i as int, tv.len() as int)),
        decreases table@.len() - i,
    {
        let ghost rest = tv.subrange(i as int, tv.len() as int);
        assert(rest[0] == table@[i as int]@);
        if table[i].id == PLAYER_EMPIRE_ID {
            return Species::from_name_or_subrace(table[i].species.as_str());
        }
        assert(rest.drop_first() =~= tv.subrange(i + 1, tv.len() as int));
        i = i + 1;
    }
    None
}

fn listed(sys: &[u8], r: &Region) -> (b: bool)
    ensures
        b == in_list(sys@, *r),
{
    let mut j: usize = 0;
    while j < sys.len()
        invariant
            j <= sys@.len(),
            forall|k: int| 0 <= k < j ==> #[trigger] sys@[k] as int != r.sys_idx as int,
        decreases sys@.len() - j,
    {
        if sys[j] as usize == r.sys_idx {
            return true;
        }
        j = j + 1;
    }
    false
}

proof fn lemma_score_bounds(rs: Seq<Region>, species: Species, sys: Seq<u8>)
    ensures
        -0x8000_0000_0000_0000 * rs.len() <= score(rs, species, sys) <= 0x7FFF_FFFF_FFFF_FFFF * rs.len(),
    decreases rs.len(),
{
    if rs.len() > 0 {
        lemma_score_bounds(rs.drop_last(), species, sys);
    }
}

fn score_of(rs: &Vec<Region>, species: Species, sys: &[u8]) -> (s: i128)
    ensures
        s == score(rs@, species, sys@),
{
    let mut total: i128 = 0;
    let mut i: usize = 0;
    assert(rs@.subrange(0, 0) =~= Seq::<Region>::empty());
    while i < rs.len()
        invariant
            i <= rs@.len(),
            total == score(rs@.subrange(0, i as int), species, sys@),
        decreases rs@.len() - i,
    {
        proof {
            let t = rs@.subrange(0, i + 1);
            assert(t.drop_last() =~= rs@.subrange(0, i as int));
            lemma_score_bounds(rs@.subrange(0, i as int), species, sys@);
        }
        let r = &rs[i];
        if r.species == species && listed(sys, r) {
            total = total + r.pop as i128;
        }
        i = i + 1;
    }
    assert(rs@.subrange(0, rs@.len() as int) =~= rs@);
    total
}

/// Detect the system indices the human player owns.
///
/// Returns an empty set when detection fails (missing markers, fewer than
/// three empire records located, or no repeated ownership list); callers
/// should treat that as "unknown", not "owns nothing".
pub fn player_systems(data: &[u8], galaxy: &Galaxy) -> (r: BTreeSet<usize>)
    ensures
        r@ == player_systems_of(data@, galaxy@.regions),
{
    let ghost d = data@;
    assert(d.len() == data.len());
    let players_bytes: [u8; 8] = [0x56, 0x53, 0x52, 0x45, 0x59, 0x41, 0x4C, 0x50];
    let players_needle: &[u8] = &players_bytes;
    assert(players_needle@ == players_marker());
    proof {
        lemma_find_from(d, players_marker(), 0);
    }
    let players = match find(data, players_needle) {
        Some(p) => p,
        None => return BTreeSet::new(),
    };
    let table = empires(data);
    let ghost tv = table@.map_values(|e: Empire| e@);
    let raw = record_positions(data, players, &table);
    let positions = sort_positions(raw);
    if table.len() == 0 || positions.len() < 3 {
        return BTreeSet::new();
    }
    let mut tally = ListTally { lists: Vec::new(), counts: Vec::new() };
    assert(tally@.lists =~= Seq::<Seq<u8>>::empty());
    assert(tally@.counts =~= Seq::<int>::empty());
    scan_all(data, &positions, &mut tally);
    if tally.lists.len() == 0 {
        return BTreeSet::new();
    }
    let half = max_of(&tally.counts) / 2;
    let min_freq = if half > 3 {
        half
    } else {
        3
    };
    let cands = candidate_lists(&tally, min_freq);
    let species = find_player_species(&table);
    let ghost cv = cands@.map_values(|v: Vec<u8>| v@);
    let ghost rs = galaxy@.regions;
    let mut best: Option<(i128, usize)> = None;
    let mut k: usize = 0;
    while k < cands.len()
        invariant
            cv == cands@.map_values(|v: Vec<u8>| v@),
            rs == galaxy.regions@,
            k <= cands@.len(),
            best matches Some((_, bi)) ==> bi < k,
            best_from(rs, species, cv, 0, None) == best_from(
                rs,
                species,
                cv,
                k as int,
                match best {
                    Some((bs, bi)) => Some((bs as int, cv[bi as int])),
                    None => None,
                },
            ),
        decreases cands@.len() - k,
    {
        let s: i128 = match species {
            Some(sp) => score_of(&galaxy.regions, sp, cands[k].as_slice()),
            None => 0,
        };
        best = match best {
            None => Some((s, k)),
            Some((bs, bi)) => if s > bs {
                Some((s, k))
            } else {
                Some((bs, bi))
            },
        };
        k = k + 1;
    }
    match best {
        Some((_, bi)) => set_of(cands[bi].as_slice()),
        None => BTreeSet::new(),
    }
}

/// The ownership lists detection weighs: the repeated lists of ten or more
/// systems; none when detection fails (no `PLAYERSV` marker, no empire
/// table, fewer than three records located, no list found).
pub open spec fn ownership_candidates(d: Seq<u8>) -> Seq<Seq<u8>> {
    match find_spec(d, players_marker()) {
        None => Seq::empty(),
        Some(players) => {
            let table = empires_of(d);
            let positions = sort_ints(name_positions(d, players, table));
            if table.len() == 0 || positions.len() < 3 {
                Seq::empty()
            } else {
                let t = scan_segments(d, positions, 0, Tally { lists: Seq::empty(), counts: Seq::empty() });
                if t.lists.len() == 0 {
                    Seq::empty()
                } else {
                    let half = max_count(t.counts) / 2;
                    candidates(
                        t,
                        if half > 3 {
                            half
                        } else {
                            3
                        },
                    )
                }
            }
        },
    }
}

/// How much of the player's species lives in a list's systems (0 when the
/// player's species is unknown).
pub open spec fn list_score(rs: Seq<Region>, species: Option<Species>, sys: Seq<u8>) -> int {
    match species {
        Some(sp) => score(rs, sp, sys),
        None => 0,
    }
}

proof fn lemma_best_is_first_max(rs: Seq<Region>, sp: Option<Species>, cands: Seq<Seq<u8>>, k: int, bi: int) -> (c: int)
    requires
        0 <= bi < k <= cands.len(),
        forall|j: int| 0 <= j < k ==> list_score(rs, sp, #[trigger] cands[j]) <= list_score(rs, sp, cands[bi]),
        forall|j: int| 0 <= j < bi ==> list_score(rs, sp, #[trigger] cands[j]) < list_score(rs, sp, cands[bi]),
    ensures
        0 <= c < cands.len(),
        best_from(rs, sp, cands, k, Some((list_score(rs, sp, cands[bi]), cands[bi]))) == Some(
            (list_score(rs, sp, cands[c]), cands[c]),
        ),
        forall|j: int| 0 <= j < cands.len() ==> list_score(rs, sp, #[trigger] cands[j]) <= list_score(rs, sp, cands[c]),
        forall|j: int| 0 <= j < c ==> list_score(rs, sp, #[trigger] cands[j]) < list_score(rs, sp, cands[c]),
    decreases cands.len() - k,
{
    if k >= cands.len() {
        bi
    } else {
        let s = list_score(rs, sp, cands[k]);
        if s > list_score(rs, sp, cands[bi]) {
            lemma_best_is_first_max(rs, sp, cands, k + 1, k)
        } else {
            lemma_best_is_first_max(rs, sp, cands, k + 1, bi)
        }
    }
}

/// The owned systems are the systems of one weighed ownership list whose
/// player-species population is at least that of every other list (the
/// first such list when several tie); with no list to weigh, none.
pub proof fn owned_systems_come_from_the_best_list(d: Seq<u8>, rs: Seq<Region>)
    ensures
        ownership_candidates(d).len() == 0 ==> player_systems_of(d, rs) == Set::<usize>::empty(),
        ownership_candidates(d).len() > 0 ==> exists|c: int|
            0 <= c < ownership_candidates(d).len() && player_systems_of(d, rs) == list_set(
                #[trigger] ownership_candidates(d)[c],
            ) && (forall|j: int|
                0 <= j < ownership_candidates(d).len() ==> list_score(
                    rs,
                    player_species(empires_of(d)),
                    #[trigger] ownership_candidates(d)[j],
                ) <= list_score(rs, player_species(empires_of(d)), ownership_candidates(d)[c])) && (forall|j: int|
                0 <= j < c ==> list_score(rs, player_species(empires_of(d)), #[trigger] ownership_candidates(d)[j])
                    < list_score(rs, player_species(empires_of(d)), ownership_candidates(d)[c])),
{
    let cands = ownership_candidates(d);
    let sp = player_species(empires_of(d));
    assert(player_systems_of(d, rs) == match best_from(rs, sp, cands, 0, None) {
        Some((_, sys)) => list_set(sys),
        None => Set::<usize>::empty(),
    });
    if cands.len() > 0 {
        assert(best_from(rs, sp, cands, 0, None) == best_from(
            rs,
            sp,
            cands,
            1,
            Some((list_score(rs, sp, cands[0]), cands[0])),
        ));
        let c = lemma_best_is_first_max(rs, sp, cands, 1, 0);
        assert(player_systems_of(d, rs) == list_set(cands[c]));
    }
}

} // verus!
