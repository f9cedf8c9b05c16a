//! Species replacement: plan which regions to touch, then patch them.
//!
//! The edit itself is two bytes per region: `race1` becomes the replacement
//! species and `race2` (sub-race/magnate) resets to 0 so the game falls back
//! to the species' default sub-race. Population, buildings, and everything
//! else stay untouched.
//!
//! Planning is separate from patching so callers can show exactly what
//! would change before committing.

use std::collections::BTreeSet;

use vstd::prelude::*;

use crate::error::Error;
use crate::galaxy::{
    agree_except, galaxy_at, parsed_regions_spaced, planet_name_of, race_byte_of, reparse_after_race_edits, reread,
    Galaxy, GalaxyView, Region, RACE1_OFFSET, RACE2_OFFSET,
};
use crate::owned::{owned_allows, owned_view, passes};
use crate::species::{race1_of, species_of, Species};
use crate::text::{chars_contain, chars_of, contains_run, lowercase, to_lowercase};

verus! {

/// Which planets a replacement applies to.
#[derive(Debug, Clone, PartialEq, Eq)]
pub enum Scope {
    /// Only planets where the target cohabits with someone else: the
    /// classic anti-Ithkul case. With `protect` set, only planets where
    /// that particular species is present.
    Shared { protect: Option<Species> },
    /// Only planets whose display name contains one of these strings
    /// (case-insensitive; `"Alrisha"` matches every planet in the system).
    Planets(Vec<String>),
    /// Every region of the target species, galaxy-wide.
    Everywhere,
}

/// A scope as a value.
pub enum ScopeView {
    Shared { protect: Option<Species> },
    Planets(Seq<Seq<char>>),
    Everywhere,
}

impl View for Scope {
    type V = ScopeView;

    open spec fn view(&self) -> ScopeView {
        match self {
            Scope::Shared { protect } => ScopeView::Shared { protect: *protect },
            Scope::Planets(names) => ScopeView::Planets(names@.map_values(|n: String| n@)),
            Scope::Everywhere => ScopeView::Everywhere,
        }
    }
}

/// A region of the target species in a system that passes the ownership
/// filter.
pub open spec fn targeted(r: Region, target: Species, owned: Option<Set<usize>>) -> bool {
    r.species == target && passes(owned, r.sys_idx)
}

/// Two regions lie on the same planet.
pub open spec fn same_planet(a: Region, b: Region) -> bool {
    a.sys_idx == b.sys_idx && a.planet_idx == b.planet_idx
}

/// The planet of `r` also holds the protected species, or (with nothing
/// protected) some species other than the target.
pub open spec fn has_mate(rs: Seq<Region>, r: Region, target: Species, protect: Option<Species>) -> bool {
    exists|j: int|
        0 <= j < rs.len() && same_planet(#[trigger] rs[j], r) && match protect {
            Some(p) => rs[j].species == p,
            None => rs[j].species != target,
        }
}

/// The planet of `r` has a display name containing one of `names` (all
/// compared in lowercase).
pub open spec fn named_planet(g: GalaxyView, r: Region, names: Seq<Seq<char>>) -> bool {
    exists|j: int|
        0 <= j < names.len() && contains_run(lowercase(planet_name_of(g, r)), #[trigger] lowercase(names[j]))
}

/// The regions of `rs` that satisfy `pred`, in order.
pub open spec fn select(rs: Seq<Region>, pred: spec_fn(Region) -> bool) -> Seq<Region>
    decreases rs.len(),
{
    if rs.len() == 0 {
        Seq::empty()
    } else {
        select(rs.drop_last(), pred) + if pred(rs.last()) {
            seq![rs.last()]
        } else {
            Seq::empty()
        }
    }
}

/// Regions order by offset, then system, then planet.
pub open spec fn key_le(a: Region, b: Region) -> bool {
    a.offset < b.offset || (a.offset == b.offset && (a.sys_idx < b.sys_idx || (a.sys_idx
        == b.sys_idx && a.planet_idx <= b.planet_idx)))
}

/// `x` inserted into `s` after every element whose key is not above its own.
pub open spec fn insert_sorted(s: Seq<Region>, x: Region) -> Seq<Region>
    decreases s.len(),
{
    if s.len() == 0 {
        seq![x]
    } else if key_le(s.last(), x) {
        s.push(x)
    } else {
        insert_sorted(s.drop_last(), x).push(s.last())
    }
}

/// Stable sort of `s` by (offset, system, planet).
pub open spec fn sort_by_position(s: Seq<Region>) -> Seq<Region>
    decreases s.len(),
{
    if s.len() == 0 {
        Seq::empty()
    } else {
        insert_sorted(sort_by_position(s.drop_last()), s.last())
    }
}

/// The regions a replacement touches.
///
/// `Everywhere` and `Planets` keep file order. `Shared` groups regions by
/// planet and orders the result by file offset, so it is the stable sort by
/// (offset, system, planet) of the selected regions.
pub open spec fn plan_of(
    g: GalaxyView,
    target: Species,
    scope: ScopeView,
    owned: Option<Set<usize>>,
) -> Seq<Region> {
    match scope {
        ScopeView::Everywhere => select(g.regions, |r: Region| targeted(r, target, owned)),
        ScopeView::Planets(names) => select(
            g.regions,
            |r: Region| targeted(r, target, owned) && named_planet(g, r, names),
        ),
        ScopeView::Shared { protect } => sort_by_position(
            select(
                g.regions,
                |r: Region| targeted(r, target, owned) && has_mate(g.regions, r, target, protect),
            ),
        ),
    }
}

/// Naming planets requires numbering each targeted planet, which needs
/// its index to have a successor.
pub open spec fn plan_requires(g: GalaxyView, target: Species, scope: ScopeView, owned: Option<Set<usize>>) -> bool {
    match scope {
        ScopeView::Planets(names) => names.len() > 0 ==> forall|i: int|
            0 <= i < g.regions.len() && targeted(#[trigger] g.regions[i], target, owned)
                ==> g.regions[i].planet_idx < usize::MAX,
        _ => true,
    }
}

pub proof fn lemma_select_step(rs: Seq<Region>, i: int, pred: spec_fn(Region) -> bool)
    requires
        0 <= i < rs.len(),
    ensures
        select(rs.subrange(0, i + 1), pred) == select(rs.subrange(0, i), pred) + if pred(rs[i]) {
            seq![rs[i]]
        } else {
            Seq::<Region>::empty()
        },
{
    let s = rs.subrange(0, i + 1);
    assert(s.drop_last() =~= rs.subrange(0, i));
    assert(s.last() == rs[i]);
}

/// Whether the planet of `r` has a mate for the target.
fn planet_has_mate(rs: &Vec<Region>, r: &Region, target: Species, protect: Option<Species>) -> (b: bool)
    ensures
        b == has_mate(rs@, *r, target, protect),
{
    let mut j: usize = 0;
    while j < rs.len()
        invariant
            j <= rs@.len(),
            forall|k: int|
                0 <= k < j ==> !(same_planet(#[trigger] rs@[k], *r) && match protect {
                    Some(p) => rs@[k].species == p,
                    None => rs@[k].species != target,
                }),
        decreases rs@.len() - j,
    {
        let other = &rs[j];
        if other.sys_idx == r.sys_idx && other.planet_idx == r.planet_idx {
            let hit = match protect {
                Some(p) => other.species == p,
                None => other.species != target,
            };
            if hit {
                return true;
            }
        }
        j = j + 1;
    }
    false
}

/// Whether a region's planet name contains one of the lowercase names.
fn planet_named(galaxy: &Galaxy, r: &Region, lowered: &Vec<Vec<char>>, names: Ghost<Seq<Seq<char>>>) -> (b: bool)
    requires
        names@.len() == lowered@.len(),
        forall|j: int| 0 <= j < names@.len() ==> #[trigger] lowered@[j]@ == lowercase(names@[j]),
        names@.len() > 0 ==> r.planet_idx < usize::MAX,
    ensures
        b == named_planet(galaxy@, *r, names@),
{
    if lowered.len() == 0 {
        return false;
    }
    let name = galaxy.planet_name(r);
    let lower = to_lowercase(name.as_str());
    let hay = chars_of(lower.as_str());
    let mut j: usize = 0;
    while j < lowered.len()
        invariant
            names@.len() == lowered@.len(),
            forall|k: int| 0 <= k < names@.len() ==> #[trigger] lowered@[k]@ == lowercase(names@[k]),
            hay@ == lowercase(planet_name_of(galaxy@, *r)),
            j <= lowered@.len(),
            forall|k: int| 0 <= k < j ==> !contains_run(hay@, #[trigger] lowercase(names@[k])),
        decreases lowered@.len() - j,
    {
        if chars_contain(&hay, &lowered[j]) {
            assert(lowered@[j as int]@ == lowercase(names@[j as int]));
            return true;
        }
        j = j + 1;
    }
    false
}

/// The lowercase characters of each name.
fn lowered_names(names: &Vec<String>) -> (v: Vec<Vec<char>>)
    ensures
        v@.len() == names@.len(),
        forall|j: int| 0 <= j < names@.len() ==> #[trigger] v@[j]@ == lowercase(names@[j]@),
{
    let mut v: Vec<Vec<char>> = Vec::new();
    let mut i: usize = 0;
    while i < names.len()
        invariant
            i <= names@.len(),
            v@.len() == i,
            forall|j: int| 0 <= j < i ==> #[trigger] v@[j]@ == lowercase(names@[j]@),
        decreases names@.len() - i,
    {
        let lower = to_lowercase(names[i].as_str());
        v.push(chars_of(lower.as_str()));
        i = i + 1;
    }
    v
}

fn key_le_exec(a: &Region, b: &Region) -> (r: bool)
    ensures
        r == key_le(*a, *b),
{
    a.offset < b.offset || (a.offset == b.offset && (a.sys_idx < b.sys_idx || (a.sys_idx
        == b.sys_idx && a.planet_idx <= b.planet_idx)))
}

proof fn lemma_insert_sorted_at(s: Seq<Region>, x: Region, j: int)
    requires
        0 <= j <= s.len(),
        j == 0 || key_le(s[j - 1], x),
        forall|k: int| j <= k < s.len() ==> !key_le(#[trigger] s[k], x),
    ensures
        insert_sorted(s, x) == s.insert(j, x),
    decreases s.len(),
{
    if s.len() == 0 {
        assert(s.insert(j, x) =~= seq![x]);
    } else if key_le(s.last(), x) {
        assert(j == s.len());
        assert(s.insert(j, x) =~= s.push(x));
    } else {
        lemma_insert_sorted_at(s.drop_last(), x, j);
        assert(s.drop_last().insert(j, x).push(s.last()) =~= s.insert(j, x));
    }
}

/// Stable insertion sort by (offset, system, planet).
fn sort_regions(v: Vec<Region>) -> (out: Vec<Region>)
    ensures
        out@ == sort_by_position(v@),
{
    let mut out: Vec<Region> = Vec::new();
    let mut i: usize = 0;
    while i < v.len()
        invariant
            i <= v@.len(),
            out@ == sort_by_position(v@.subrange(0, i as int)),
        decreases v@.len() - i,
    {
        let x = v[i];
        let mut j = out.len();
        while j > 0 && !key_le_exec(&out[j - 1], &x)
            invariant
                j <= out@.len(),
                forall|k: int| j <= k < out@.len() ==> !key_le(#[trigger] out@[k], x),
            decreases j,
        {
            j = j - 1;
        }
        proof {
            lemma_insert_sorted_at(out@, x, j as int);
            let s = v@.subrange(0, i + 1);
            assert(s.drop_last() =~= v@.subrange(0, i as int));
        }
        out.insert(j, x);
        i = i + 1;
    }
    assert(v@.subrange(0, v@.len() as int) =~= v@);
    out
}

/// Select the regions a replacement would touch.
///
/// `owned` restricts to systems in the set; `None` means no ownership
/// filter.
pub fn plan(galaxy: &Galaxy, target: Species, scope: &Scope, owned: Option<&BTreeSet<usize>>) -> (out: Vec<Region>)
    requires
        plan_requires(galaxy@, target, scope@, owned_view(owned)),
    ensures
        out@ == plan_of(galaxy@, target, scope@, owned_view(owned)),
{
    let ghost g = galaxy@;
    let ghost ow = owned_view(owned);
    let rs = &galaxy.regions;
    let lowered = match scope {
        Scope::Planets(names) => lowered_names(names),
        _ => Vec::new(),
    };
    let ghost names: Seq<Seq<char>> = match scope@ {
        ScopeView::Planets(names) => names,
        _ => Seq::empty(),
    };
    proof {
        if let Scope::Planets(ns) = scope {
            assert forall|j: int| 0 <= j < names.len() implies #[trigger] lowered@[j]@ == lowercase(names[j]) by {
                assert(names[j] == ns@[j]@);
            }
        }
    }
    let ghost pred: spec_fn(Region) -> bool = match scope@ {
        ScopeView::Everywhere => |r: Region| targeted(r, target, ow),
        ScopeView::Planets(names) => |r: Region| targeted(r, target, ow) && named_planet(g, r, names),
        ScopeView::Shared { protect } => |r: Region|
            targeted(r, target, ow) && has_mate(g.regions, r, target, protect),
    };
    let mut out: Vec<Region> = Vec::new();
    let mut i: usize = 0;
    while i < rs.len()
        invariant
            rs@ == g.regions,
            g == galaxy@,
            ow == owned_view(owned),
            plan_requires(g, target, scope@, ow),
            names.len() == lowered@.len(),
            forall|j: int| 0 <= j < names.len() ==> #[trigger] lowered@[j]@ == lowercase(names[j]),
            scope@ is Planets ==> scope@ == ScopeView::Planets(names),
            pred == match scope@ {
                ScopeView::Everywhere => |r: Region| targeted(r, target, ow),
                ScopeView::Planets(names) => |r: Region| targeted(r, target, ow) && named_planet(g, r, names),
                ScopeView::Shared { protect } => |r: Region|
                    targeted(r, target, ow) && has_mate(g.regions, r, target, protect),
            },
            i <= rs@.len(),
            out@ == select(rs@.subrange(0, i as int), pred),
        decreases rs@.len() - i,
    {
        let r = &rs[i];
        let keep = if r.species == target && owned_allows(owned, r.sys_idx) {
            match scope {
                Scope::Everywhere => true,
                Scope::Planets(_) => planet_named(galaxy, r, &lowered, Ghost(names)),
                Scope::Shared { protect } => planet_has_mate(rs, r, target, *protect),
            }
        } else {
            false
        };
        assert(keep == pred(*r));
        proof {
            lemma_select_step(rs@, i as int, pred);
        }
        if keep {
            out.push(*r);
        } else {
            assert(out@ + Seq::<Region>::empty() =~= out@);
        }
        i = i + 1;
    }
    assert(rs@.subrange(0, rs@.len() as int) =~= rs@);
    match scope {
        Scope::Shared { .. } => sort_regions(out),
        _ => out,
    }
}


/// What [`apply`] did to the buffer.
#[derive(Debug, Clone, Copy, PartialEq, Eq)]
pub struct ApplyOutcome {
    /// Regions actually patched.
    pub patched: usize,
    /// Regions skipped because the byte at `race1` no longer held the
    /// target species (stale plan, or a plan from a different file).
    pub skipped: usize,
    /// Total population of the patched regions, in 1/65536 units.
    pub pop: i128,
}

/// A planned region can be patched: its `race1` and `race2` bytes lie in
/// the file and `race1` still holds the target.
pub open spec fn patchable(d: Seq<u8>, r: Region, target: Species) -> bool {
    r.offset + RACE2_OFFSET < d.len() && d[r.offset + RACE1_OFFSET] == race1_of(target)
}

/// The file with a region's species replaced and its sub-race reset.
pub open spec fn patched(d: Seq<u8>, r: Region, replacement: Species) -> Seq<u8> {
    d.update(r.offset + RACE1_OFFSET, race1_of(replacement)).update(r.offset + RACE2_OFFSET, 0)
}

/// Applying the first `n` planned regions in order: the file, the patched
/// count, the skipped count, and the patched population.
pub open spec fn apply_prefix(d: Seq<u8>, planned: Seq<Region>, n: int, target: Species, replacement: Species) -> (
    Seq<u8>,
    int,
    int,
    int,
)
    decreases n,
{
    if n <= 0 {
        (d, 0, 0, 0)
    } else {
        let (d1, p, s, pop) = apply_prefix(d, planned, n - 1, target, replacement);
        let r = planned[n - 1];
        if patchable(d1, r, target) {
            (patched(d1, r, replacement), p + 1, s, pop + r.pop)
        } else {
            (d1, p, s + 1, pop)
        }
    }
}

/// Applying a whole plan.
pub open spec fn apply_all(d: Seq<u8>, planned: Seq<Region>, target: Species, replacement: Species) -> (
    Seq<u8>,
    int,
    int,
    int,
) {
    apply_prefix(d, planned, planned.len() as int, target, replacement)
}

proof fn lemma_apply_bounds(d: Seq<u8>, planned: Seq<Region>, n: int, target: Species, replacement: Species)
    requires
        0 <= n <= planned.len(),
    ensures
        ({
            let (d1, p, s, pop) = apply_prefix(d, planned, n, target, replacement);
            &&& d1.len() == d.len()
            &&& p >= 0 && s >= 0 && p + s == n
            &&& -0x8000_0000_0000_0000 * p <= pop <= 0x7FFF_FFFF_FFFF_FFFF * p
        }),
    decreases n,
{
    if n > 0 {
        lemma_apply_bounds(d, planned, n - 1, target, replacement);
    }
}

/// Patch the planned regions in place.
///
/// Each region is re-checked against `target` before writing, so applying
/// a stale plan degrades to skips instead of corrupting unrelated bytes.
pub fn apply(data: &mut [u8], planned: &[Region], target: Species, replacement: Species) -> (outcome: ApplyOutcome)
    ensures
        ({
            let (d, p, s, pop) = apply_all(old(data)@, planned@, target, replacement);
            &&& final(data)@ == d
            &&& outcome.patched == p
            &&& outcome.skipped == s
            &&& outcome.pop == pop
        }),
{
    let mut outcome = ApplyOutcome { patched: 0, skipped: 0, pop: 0 };
    let n = data.len();
    let mut i: usize = 0;
    while i < planned.len()
        invariant
            n == old(data)@.len(),
            i <= planned@.len(),
            ({
                let (d, p, s, pop) = apply_prefix(old(data)@, planned@, i as int, target, replacement);
                &&& data@ == d
                &&& outcome.patched == p
                &&& outcome.skipped == s
                &&& outcome.pop == pop
            }),
        decreases planned@.len() - i,
    {
        proof {
            lemma_apply_bounds(old(data)@, planned@, i as int, target, replacement);
        }
        let region = &planned[i];
        let offset = region.offset;
        if offset >= n || n - offset <= RACE2_OFFSET || data[offset + RACE1_OFFSET] != target.race1() {
            outcome.skipped = outcome.skipped + 1;
        } else {
            data[offset + RACE1_OFFSET] = replacement.race1();
            data[offset + RACE2_OFFSET] = 0;
            outcome.patched = outcome.patched + 1;
            outcome.pop = outcome.pop + region.pop as i128;
        }
        i = i + 1;
    }
    outcome
}

/// Patched and skipped regions together account for the whole plan, and
/// the file keeps its length.
pub proof fn apply_accounts_for_plan(d: Seq<u8>, planned: Seq<Region>, target: Species, replacement: Species)
    ensures
        ({
            let (d1, p, s, _) = apply_all(d, planned, target, replacement);
            d1.len() == d.len() && p + s == planned.len()
        }),
{
    lemma_apply_bounds(d, planned, planned.len() as int, target, replacement);
}

/// No planned region's `race2` byte is another's `race1` byte.
pub open spec fn race_bytes_disjoint(planned: Seq<Region>) -> bool {
    forall|i: int, j: int|
        0 <= i < planned.len() && 0 <= j < planned.len() ==> #[trigger] planned[i].offset
            + RACE1_OFFSET != #[trigger] planned[j].offset + RACE2_OFFSET
}

proof fn lemma_applied_not_patchable(
    d: Seq<u8>,
    planned: Seq<Region>,
    n: int,
    target: Species,
    replacement: Species,
)
    requires
        0 <= n <= planned.len(),
        race1_of(target) != race1_of(replacement),
        race_bytes_disjoint(planned),
    ensures
        forall|k: int| 0 <= k < n ==> !patchable(apply_prefix(d, planned, n, target, replacement).0, #[trigger] planned[k], target),
    decreases n,
{
    if n > 0 {
        lemma_applied_not_patchable(d, planned, n - 1, target, replacement);
        lemma_apply_bounds(d, planned, n - 1, target, replacement);
        let prev = apply_prefix(d, planned, n - 1, target, replacement).0;
        let r = planned[n - 1];
        assert forall|k: int| 0 <= k < n implies !patchable(apply_prefix(d, planned, n, target, replacement).0, #[trigger] planned[k], target) by {
            let q = planned[k];
            assert(q.offset + RACE1_OFFSET != r.offset + RACE2_OFFSET);
        }
    }
}

proof fn lemma_nothing_patchable_skips(
    d: Seq<u8>,
    planned: Seq<Region>,
    n: int,
    target: Species,
    replacement: Species,
)
    requires
        0 <= n <= planned.len(),
        forall|k: int| 0 <= k < planned.len() ==> !patchable(d, #[trigger] planned[k], target),
    ensures
        apply_prefix(d, planned, n, target, replacement) == (d, 0int, n, 0int),
    decreases n,
{
    if n > 0 {
        lemma_nothing_patchable_skips(d, planned, n - 1, target, replacement);
    }
}

/// Applying a plan a second time patches nothing and skips every region,
/// leaving the file as the first application left it (when the target and
/// replacement bytes differ and no region's `race2` byte is another's
/// `race1` byte).
pub proof fn reapply_skips_all(d: Seq<u8>, planned: Seq<Region>, target: Species, replacement: Species)
    requires
        race1_of(target) != race1_of(replacement),
        race_bytes_disjoint(planned),
    ensures
        ({
            let (d1, _, _, _) = apply_all(d, planned, target, replacement);
            apply_all(d1, planned, target, replacement) == (d1, 0int, planned.len() as int, 0int)
        }),
{
    lemma_applied_not_patchable(d, planned, planned.len() as int, target, replacement);
    let d1 = apply_all(d, planned, target, replacement).0;
    lemma_nothing_patchable_skips(d1, planned, planned.len() as int, target, replacement);
}


proof fn lemma_select_weaker(rs: Seq<Region>, strong: spec_fn(Region) -> bool, weak: spec_fn(Region) -> bool)
    requires
        forall|r: Region| #[trigger] strong(r) ==> weak(r),
    ensures
        select(rs, strong).len() <= select(rs, weak).len(),
    decreases rs.len(),
{
    if rs.len() > 0 {
        lemma_select_weaker(rs.drop_last(), strong, weak);
    }
}

proof fn lemma_insert_sorted_len(s: Seq<Region>, x: Region)
    ensures
        insert_sorted(s, x).len() == s.len() + 1,
    decreases s.len(),
{
    if s.len() > 0 && !key_le(s.last(), x) {
        lemma_insert_sorted_len(s.drop_last(), x);
    }
}

proof fn lemma_sort_len(s: Seq<Region>)
    ensures
        sort_by_position(s).len() == s.len(),
    decreases s.len(),
{
    if s.len() > 0 {
        lemma_sort_len(s.drop_last());
        lemma_insert_sorted_len(sort_by_position(s.drop_last()), s.last());
    }
}

/// A shared-planet plan never touches more regions than the galaxy-wide
/// plan for the same target and ownership filter.
pub proof fn shared_within_everywhere(g: GalaxyView, target: Species, protect: Option<Species>, owned: Option<Set<usize>>)
    ensures
        plan_of(g, target, ScopeView::Shared { protect }, owned).len() <= plan_of(
            g,
            target,
            ScopeView::Everywhere,
            owned,
        ).len(),
{
    let strong = |r: Region| targeted(r, target, owned) && has_mate(g.regions, r, target, protect);
    let weak = |r: Region| targeted(r, target, owned);
    lemma_select_weaker(g.regions, strong, weak);
    lemma_sort_len(select(g.regions, strong));
}

/// Offsets strictly increase along `rs`.
pub open spec fn offsets_increase(rs: Seq<Region>) -> bool {
    forall|i: int, j: int| 0 <= i < j < rs.len() ==> #[trigger] rs[i].offset < #[trigger] rs[j].offset
}

proof fn lemma_select_increasing(rs: Seq<Region>, pred: spec_fn(Region) -> bool)
    requires
        offsets_increase(rs),
    ensures
        offsets_increase(select(rs, pred)),
        forall|k: int| 0 <= k < select(rs, pred).len() ==> exists|i: int| 0 <= i < rs.len() && #[trigger] select(rs, pred)[k] == rs[i],
    decreases rs.len(),
{
    if rs.len() > 0 {
        let init = rs.drop_last();
        assert(offsets_increase(init));
        lemma_select_increasing(init, pred);
        let si = select(init, pred);
        let sel = select(rs, pred);
        assert forall|k: int| 0 <= k < sel.len() implies exists|i: int| 0 <= i < rs.len() && #[trigger] sel[k] == rs[i] by {
            if k < si.len() {
                let i = choose|i: int| 0 <= i < init.len() && si[k] == init[i];
                assert(sel[k] == rs[i]);
            } else {
                assert(sel[k] == rs[rs.len() - 1]);
            }
        }
        assert forall|a: int, b: int| 0 <= a < b < sel.len() implies #[trigger] sel[a].offset < #[trigger] sel[b].offset by {
            if b >= si.len() {
                let i = choose|i: int| 0 <= i < init.len() && si[a] == init[i];
                assert(sel[a] == rs[i]);
                assert(sel[b] == rs[rs.len() - 1]);
            } else {
                assert(sel[a] == si[a] && sel[b] == si[b]);
            }
        }
    }
}

proof fn lemma_sort_increasing(s: Seq<Region>)
    requires
        offsets_increase(s),
    ensures
        sort_by_position(s) == s,
    decreases s.len(),
{
    if s.len() > 0 {
        let init = s.drop_last();
        assert(offsets_increase(init));
        lemma_sort_increasing(init);
        if init.len() > 0 {
            assert(init.last().offset < s.last().offset);
        }
        assert(init.push(s.last()) =~= s);
    }
}

/// In a galaxy whose region offsets increase (as parsing produces them), a
/// shared-planet plan lists its regions in file order.
pub proof fn shared_plan_in_file_order(g: GalaxyView, target: Species, protect: Option<Species>, owned: Option<Set<usize>>)
    requires
        offsets_increase(g.regions),
    ensures
        plan_of(g, target, ScopeView::Shared { protect }, owned) == select(
            g.regions,
            |r: Region| targeted(r, target, owned) && has_mate(g.regions, r, target, protect),
        ),
{
    let pred = |r: Region| targeted(r, target, owned) && has_mate(g.regions, r, target, protect);
    lemma_select_increasing(g.regions, pred);
    lemma_sort_increasing(select(g.regions, pred));
}

proof fn lemma_insert_sorted_members(s: Seq<Region>, x: Region)
    ensures
        forall|i: int|
            0 <= i < insert_sorted(s, x).len() ==> #[trigger] insert_sorted(s, x)[i] == x || s.contains(
                insert_sorted(s, x)[i],
            ),
    decreases s.len(),
{
    lemma_insert_sorted_len(s, x);
    if s.len() > 0 {
        let out = insert_sorted(s, x);
        if key_le(s.last(), x) {
            assert forall|i: int| 0 <= i < out.len() implies #[trigger] out[i] == x || s.contains(out[i]) by {
                if i < s.len() {
                    assert(out[i] == s[i]);
                }
            }
        } else {
            let init = s.drop_last();
            lemma_insert_sorted_members(init, x);
            lemma_insert_sorted_len(init, x);
            assert forall|i: int| 0 <= i < out.len() implies #[trigger] out[i] == x || s.contains(out[i]) by {
                if i < out.len() - 1 {
                    let inner = insert_sorted(init, x);
                    assert(out[i] == inner[i]);
                    if inner[i] != x {
                        assert(init.contains(inner[i]));
                        let k = choose|k: int| 0 <= k < init.len() && init[k] == inner[i];
                        assert(s[k] == inner[i]);
                    }
                } else {
                    assert(out[i] == s.last());
                    assert(s[s.len() - 1] == out[i]);
                }
            }
        }
    }
}

proof fn lemma_sort_members(s: Seq<Region>)
    ensures
        forall|i: int| 0 <= i < sort_by_position(s).len() ==> s.contains(#[trigger] sort_by_position(s)[i]),
    decreases s.len(),
{
    if s.len() > 0 {
        let init = s.drop_last();
        lemma_sort_members(init);
        let sorted = sort_by_position(init);
        lemma_insert_sorted_members(sorted, s.last());
        let out = sort_by_position(s);
        assert forall|i: int| 0 <= i < out.len() implies s.contains(#[trigger] out[i]) by {
            if out[i] == s.last() {
                assert(s[s.len() - 1] == out[i]);
            } else {
                assert(sorted.contains(out[i]));
                let a = choose|a: int| 0 <= a < sorted.len() && sorted[a] == out[i];
                assert(init.contains(sorted[a]));
                let k = choose|k: int| 0 <= k < init.len() && init[k] == sorted[a];
                assert(s[k] == out[i]);
            }
        }
    }
}

/// Every planned region is a region of the galaxy, of the target species,
/// in a system that passes the ownership filter.
pub proof fn plan_selects_targets(g: GalaxyView, target: Species, scope: ScopeView, owned: Option<Set<usize>>)
    ensures
        forall|i: int|
            0 <= i < plan_of(g, target, scope, owned).len() ==> g.regions.contains(
                #[trigger] plan_of(g, target, scope, owned)[i],
            ) && targeted(plan_of(g, target, scope, owned)[i], target, owned),
{
    match scope {
        ScopeView::Everywhere => {
            crate::report::lemma_select_members(g.regions, |r: Region| targeted(r, target, owned));
        },
        ScopeView::Planets(names) => {
            crate::report::lemma_select_members(
                g.regions,
                |r: Region| targeted(r, target, owned) && named_planet(g, r, names),
            );
        },
        ScopeView::Shared { protect } => {
            let pred = |r: Region| targeted(r, target, owned) && has_mate(g.regions, r, target, protect);
            let sel = select(g.regions, pred);
            crate::report::lemma_select_members(g.regions, pred);
            lemma_sort_members(sel);
            let out = sort_by_position(sel);
            assert forall|i: int| 0 <= i < out.len() implies g.regions.contains(#[trigger] out[i]) && targeted(
                out[i],
                target,
                owned,
            ) by {
                assert(sel.contains(out[i]));
                let a = choose|a: int| 0 <= a < sel.len() && sel[a] == out[i];
                assert(g.regions.contains(sel[a]));
                assert(pred(sel[a]));
            }
        },
    }
}

/// Byte `k` is neither the `race1` nor the `race2` byte of a planned region.
pub open spec fn outside_race_bytes(planned: Seq<Region>, k: int) -> bool {
    forall|i: int|
        0 <= i < planned.len() ==> k != #[trigger] planned[i].offset + RACE1_OFFSET && k != planned[i].offset
            + RACE2_OFFSET
}

proof fn lemma_apply_prefix_keeps(d: Seq<u8>, planned: Seq<Region>, n: int, target: Species, replacement: Species, k: int)
    requires
        0 <= n <= planned.len(),
        0 <= k < d.len(),
        outside_race_bytes(planned, k),
    ensures
        apply_prefix(d, planned, n, target, replacement).0[k] == d[k],
    decreases n,
{
    if n > 0 {
        lemma_apply_prefix_keeps(d, planned, n - 1, target, replacement, k);
        lemma_apply_bounds(d, planned, n - 1, target, replacement);
        let r = planned[n - 1];
        assert(k != r.offset + RACE1_OFFSET && k != r.offset + RACE2_OFFSET);
    }
}

/// A replacement writes only the `race1` and `race2` bytes of planned
/// regions: population, buildings and every other byte stay as they were.
pub proof fn apply_touches_only_race_bytes(d: Seq<u8>, planned: Seq<Region>, target: Species, replacement: Species, k: int)
    requires
        0 <= k < d.len(),
        outside_race_bytes(planned, k),
    ensures
        apply_all(d, planned, target, replacement).0.len() == d.len(),
        apply_all(d, planned, target, replacement).0[k] == d[k],
{
    lemma_apply_bounds(d, planned, planned.len() as int, target, replacement);
    lemma_apply_prefix_keeps(d, planned, planned.len() as int, target, replacement, k);
}

/// The planned regions' records lie inside the file, do not overlap, and
/// each still holds the target species.
pub open spec fn fresh_plan(d: Seq<u8>, planned: Seq<Region>, target: Species) -> bool {
    &&& forall|i: int|
        0 <= i < planned.len() ==> (#[trigger] planned[i]).offset + 54 <= d.len() && d[planned[i].offset
            + RACE1_OFFSET] == race1_of(target)
    &&& forall|i: int, j: int| 0 <= i < j < planned.len() ==> planned[i].offset + 54 <= planned[j].offset
}

proof fn lemma_fresh_prefix(d: Seq<u8>, planned: Seq<Region>, n: int, target: Species, replacement: Species)
    requires
        0 <= n <= planned.len(),
        fresh_plan(d, planned, target),
    ensures
        ({
            let (d1, p, s, _) = apply_prefix(d, planned, n, target, replacement);
            &&& d1.len() == d.len()
            &&& p == n && s == 0
            &&& forall|k: int| n <= k < planned.len() ==> d1[(#[trigger] planned[k]).offset + RACE1_OFFSET] == d[planned[k].offset + RACE1_OFFSET]
            &&& forall|k: int|
                0 <= k < n ==> d1[(#[trigger] planned[k]).offset + RACE1_OFFSET] == race1_of(replacement)
                    && d1[planned[k].offset + RACE2_OFFSET] == 0
        }),
    decreases n,
{
    if n > 0 {
        lemma_fresh_prefix(d, planned, n - 1, target, replacement);
        let (d1, _, _, _) = apply_prefix(d, planned, n - 1, target, replacement);
        let r = planned[n - 1];
        assert(d1[r.offset + RACE1_OFFSET] == d[r.offset + RACE1_OFFSET]);
        assert(patchable(d1, r, target));
        let d2 = patched(d1, r, replacement);
        assert forall|k: int| n <= k < planned.len() implies d2[(#[trigger] planned[k]).offset + RACE1_OFFSET]
            == d[planned[k].offset + RACE1_OFFSET] by {
            assert(r.offset + 54 <= planned[k].offset);
        }
        assert forall|k: int| 0 <= k < n implies d2[(#[trigger] planned[k]).offset + RACE1_OFFSET] == race1_of(
            replacement,
        ) && d2[planned[k].offset + RACE2_OFFSET] == 0 by {
            if k < n - 1 {
                assert(planned[k].offset + 54 <= r.offset);
            }
        }
    }
}

/// A plan made from a parsed save lists distinct regions of the galaxy in
/// file order, each still holding the target.
proof fn lemma_plan_fresh(d: Seq<u8>, target: Species, scope: ScopeView, owned: Option<Set<usize>>)
    requires
        d.len() <= usize::MAX,
        galaxy_at(d) is Ok,
    ensures
        ({
            let g = galaxy_at(d)->Ok_0;
            let planned = plan_of(g, target, scope, owned);
            &&& fresh_plan(d, planned, target)
            &&& forall|i: int| 0 <= i < planned.len() ==> g.regions.contains(#[trigger] planned[i])
            &&& crate::galaxy::spaced(d, g.regions, 0, d.len() as int)
        }),
{
    let g = galaxy_at(d)->Ok_0;
    let rs = g.regions;
    parsed_regions_spaced(d);
    assert(offsets_increase(rs));
    let planned = plan_of(g, target, scope, owned);
    let pred: spec_fn(Region) -> bool = match scope {
        ScopeView::Everywhere => |r: Region| targeted(r, target, owned),
        ScopeView::Planets(names) => |r: Region| targeted(r, target, owned) && named_planet(g, r, names),
        ScopeView::Shared { protect } => |r: Region|
            targeted(r, target, owned) && has_mate(g.regions, r, target, protect),
    };
    if let ScopeView::Shared { protect } = scope {
        shared_plan_in_file_order(g, target, protect, owned);
    }
    assert(planned == select(rs, pred));
    lemma_select_increasing(rs, pred);
    plan_selects_targets(g, target, scope, owned);
    assert forall|i: int|
        0 <= i < planned.len() implies (#[trigger] planned[i]).offset + 54 <= d.len() && d[planned[i].offset
        + RACE1_OFFSET] == race1_of(target) by {
        let k = choose|k: int| 0 <= k < rs.len() && planned[i] == rs[k];
        assert(rs[k].offset + 54 <= d.len());
        crate::species::race1_roundtrip(d[rs[k].offset + 10]);
        assert(targeted(planned[i], target, owned));
    }
    assert forall|i: int, j: int| 0 <= i < j < planned.len() implies planned[i].offset + 54 <= planned[j].offset by {
        let a = choose|a: int| 0 <= a < rs.len() && planned[i] == rs[a];
        let b = choose|b: int| 0 <= b < rs.len() && planned[j] == rs[b];
        assert(planned[i].offset < planned[j].offset);
        if b <= a {
            if b < a {
                assert(rs[b].offset < rs[a].offset);
            }
        }
    }
}

/// A plan made from a parsed save and applied to that same save patches
/// every planned region and skips none.
pub proof fn fresh_plan_applies_in_full(
    d: Seq<u8>,
    target: Species,
    scope: ScopeView,
    owned: Option<Set<usize>>,
    replacement: Species,
)
    requires
        d.len() <= usize::MAX,
        galaxy_at(d) is Ok,
    ensures
        ({
            let planned = plan_of(galaxy_at(d)->Ok_0, target, scope, owned);
            let (_, p, s, _) = apply_all(d, planned, target, replacement);
            p == planned.len() && s == 0
        }),
{
    lemma_plan_fresh(d, target, scope, owned);
    let planned = plan_of(galaxy_at(d)->Ok_0, target, scope, owned);
    lemma_fresh_prefix(d, planned, planned.len() as int, target, replacement);
}

/// A region as a replacement leaves it: of the species the replacement's
/// byte names, with its sub-race reset.
pub open spec fn replaced(r: Region, replacement: Species) -> Region {
    Region { species: species_of(race1_of(replacement)), race2: 0, ..r }
}

/// Replacing a species in a parsed save and parsing the result gives the
/// same galaxy: the same systems, and the same regions (populations,
/// owners, everything), the planned ones replaced.
pub proof fn replacement_rereads(
    d: Seq<u8>,
    target: Species,
    scope: ScopeView,
    owned: Option<Set<usize>>,
    replacement: Species,
)
    requires
        d.len() <= usize::MAX,
        galaxy_at(d) is Ok,
    ensures
        ({
            let g = galaxy_at(d)->Ok_0;
            let planned = plan_of(g, target, scope, owned);
            galaxy_at(apply_all(d, planned, target, replacement).0) == Ok::<GalaxyView, Error>(
                GalaxyView {
                    systems: g.systems,
                    regions: g.regions.map_values(
                        |r: Region|
                            if planned.contains(r) {
                                replaced(r, replacement)
                            } else {
                                r
                            },
                    ),
                },
            )
        }),
{
    let g = galaxy_at(d)->Ok_0;
    let rs = g.regions;
    let planned = plan_of(g, target, scope, owned);
    lemma_plan_fresh(d, target, scope, owned);
    lemma_fresh_prefix(d, planned, planned.len() as int, target, replacement);
    let e = apply_all(d, planned, target, replacement).0;
    assert(e.len() == d.len());
    assert forall|k: int|
        0 <= k < 0 + d.len() && k < d.len() && !race_byte_of(rs, k) implies #[trigger] d[k] == e[k] by {
        assert forall|i: int| 0 <= i < planned.len() implies k != #[trigger] planned[i].offset + RACE1_OFFSET
            && k != planned[i].offset + RACE2_OFFSET by {
            assert(rs.contains(planned[i]));
            let a = choose|a: int| 0 <= a < rs.len() && rs[a] == planned[i];
            if k == planned[i].offset + RACE1_OFFSET || k == planned[i].offset + RACE2_OFFSET {
                assert(race_byte_of(rs, k)) by {
                    assert(k == rs[a].offset + RACE1_OFFSET || k == rs[a].offset + RACE2_OFFSET);
                }
            }
        }
        apply_touches_only_race_bytes(d, planned, target, replacement, k);
    }
    assert(agree_except(d, e, 0, d.len() as int, rs));
    reparse_after_race_edits(d, e);
    let want = rs.map_values(|r: Region| if planned.contains(r) {
        replaced(r, replacement)
    } else {
        r
    });
    assert forall|a: int| 0 <= a < rs.len() implies #[trigger] reread(e, rs)[a] == want[a] by {
        let r = rs[a];
        if planned.contains(r) {
            let k = choose|k: int| 0 <= k < planned.len() && planned[k] == r;
            assert(e[planned[k].offset + RACE1_OFFSET] == race1_of(replacement));
        } else {
            assert forall|i: int| 0 <= i < planned.len() implies r.offset + RACE1_OFFSET != #[trigger] planned[i].offset
                + RACE1_OFFSET && r.offset + RACE1_OFFSET != planned[i].offset + RACE2_OFFSET && r.offset
                + RACE2_OFFSET != planned[i].offset + RACE1_OFFSET && r.offset + RACE2_OFFSET != planned[i].offset
                + RACE2_OFFSET by {
                assert(rs.contains(planned[i]));
                let b = choose|b: int| 0 <= b < rs.len() && rs[b] == planned[i];
                assert(b != a);
                if a < b {
                    assert(rs[a].offset + 54 <= rs[b].offset);
                } else {
                    assert(rs[b].offset + 54 <= rs[a].offset);
                }
            }
            apply_touches_only_race_bytes(d, planned, target, replacement, r.offset + RACE1_OFFSET);
            apply_touches_only_race_bytes(d, planned, target, replacement, r.offset + RACE2_OFFSET);
            assert(rs[a].species == species_of(d[rs[a].offset + 10]));
        }
    }
    assert(reread(e, rs) =~= want);
}

proof fn lemma_select_contains(rs: Seq<Region>, pred: spec_fn(Region) -> bool, a: int)
    requires
        0 <= a < rs.len(),
        pred(rs[a]),
    ensures
        select(rs, pred).contains(rs[a]),
    decreases rs.len(),
{
    if a < rs.len() - 1 {
        lemma_select_contains(rs.drop_last(), pred, a);
        let init = select(rs.drop_last(), pred);
        let k = choose|k: int| 0 <= k < init.len() && init[k] == rs[a];
        assert(select(rs, pred)[k] == rs[a]);
    } else {
        let sel = select(rs, pred);
        assert(sel[sel.len() - 1] == rs[a]);
    }
}

/// A galaxy-wide plan holds every region of the target species in a system
/// that passes the ownership filter.
pub proof fn everywhere_plan_covers_targets(g: GalaxyView, target: Species, owned: Option<Set<usize>>, a: int)
    requires
        0 <= a < g.regions.len(),
        targeted(g.regions[a], target, owned),
    ensures
        plan_of(g, target, ScopeView::Everywhere, owned).contains(g.regions[a]),
{
    lemma_select_contains(g.regions, |r: Region| targeted(r, target, owned), a);
}

/// After a shared-planet replacement (to a species other than the target),
/// the save parses to a galaxy where the same shared-planet plan finds
/// nothing left to replace.
pub proof fn shared_replacement_clears_cohabitation(
    d: Seq<u8>,
    target: Species,
    protect: Option<Species>,
    owned: Option<Set<usize>>,
    replacement: Species,
)
    requires
        d.len() <= usize::MAX,
        galaxy_at(d) is Ok,
        species_of(race1_of(replacement)) != target,
    ensures
        ({
            let planned = plan_of(galaxy_at(d)->Ok_0, target, ScopeView::Shared { protect }, owned);
            galaxy_at(apply_all(d, planned, target, replacement).0) matches Ok(g2) && plan_of(
                g2,
                target,
                ScopeView::Shared { protect },
                owned,
            ).len() == 0
        }),
{
    let g = galaxy_at(d)->Ok_0;
    let rs = g.regions;
    let scope = ScopeView::Shared { protect };
    let planned = plan_of(g, target, scope, owned);
    replacement_rereads(d, target, scope, owned, replacement);
    let g2 = galaxy_at(apply_all(d, planned, target, replacement).0)->Ok_0;
    let rs2 = g2.regions;
    parsed_regions_spaced(d);
    assert(offsets_increase(rs));
    shared_plan_in_file_order(g, target, protect, owned);
    let pred = |r: Region| targeted(r, target, owned) && has_mate(rs, r, target, protect);
    let pred2 = |r: Region| targeted(r, target, owned) && has_mate(rs2, r, target, protect);
    assert(planned == select(rs, pred));
    assert forall|a: int| 0 <= a < rs2.len() implies !pred2(#[trigger] rs2[a]) by {
        if pred2(rs2[a]) {
            let r = rs[a];
            assert(!planned.contains(r));
            assert(rs2[a] == r);
            let j = choose|j: int|
                0 <= j < rs2.len() && same_planet(#[trigger] rs2[j], rs2[a]) && match protect {
                    Some(p) => rs2[j].species == p,
                    None => rs2[j].species != target,
                };
            let m = rs[j];
            if planned.contains(m) {
                assert(select(rs, pred).contains(m));
                crate::report::lemma_select_members(rs, pred);
                let k = choose|k: int| 0 <= k < select(rs, pred).len() && select(rs, pred)[k] == m;
                assert(pred(select(rs, pred)[k]));
                assert(has_mate(rs, m, target, protect));
                let j2 = choose|j2: int|
                    0 <= j2 < rs.len() && same_planet(#[trigger] rs[j2], m) && match protect {
                        Some(p) => rs[j2].species == p,
                        None => rs[j2].species != target,
                    };
                assert(same_planet(rs[j2], r));
                assert(has_mate(rs, r, target, protect));
            } else {
                assert(rs2[j] == m);
                assert(has_mate(rs, r, target, protect));
            }
            lemma_select_contains(rs, pred, a);
        }
    }
    crate::report::lemma_select_none(rs2, pred2);
    lemma_sort_len(select(rs2, pred2));
}

proof fn lemma_contains_transitive(h: Seq<char>, a: Seq<char>, b: Seq<char>)
    requires
        contains_run(h, a),
        contains_run(a, b),
    ensures
        contains_run(h, b),
{
    let i = choose|i: int| 0 <= i && i + a.len() <= h.len() && #[trigger] h.subrange(i, i + a.len()) == a;
    let j = choose|j: int| 0 <= j && j + b.len() <= a.len() && #[trigger] a.subrange(j, j + b.len()) == b;
    assert(h.subrange(i + j, i + j + b.len()) =~= b) by {
        assert forall|k: int| 0 <= k < b.len() implies h.subrange(i + j, i + j + b.len())[k] == b[k] by {
            assert(h[i + j + k] == h.subrange(i, i + a.len())[j + k]);
            assert(a[j + k] == a.subrange(j, j + b.len())[k]);
        }
    }
}

/// Naming a planet by its full display name plans every target region on
/// it that passes the ownership filter.
pub proof fn planet_named_by_its_name(g: GalaxyView, target: Species, owned: Option<Set<usize>>, a: int)
    requires
        0 <= a < g.regions.len(),
        targeted(g.regions[a], target, owned),
    ensures
        plan_of(g, target, ScopeView::Planets(seq![planet_name_of(g, g.regions[a])]), owned).contains(
            g.regions[a],
        ),
{
    let names = seq![planet_name_of(g, g.regions[a])];
    let hay = lowercase(planet_name_of(g, g.regions[a]));
    assert(names[0] == planet_name_of(g, g.regions[a]));
    assert(hay.subrange(0, 0 + lowercase(names[0]).len() as int) =~= lowercase(names[0]));
    assert(contains_run(hay, lowercase(names[0])));
    assert(named_planet(g, g.regions[a], names));
    lemma_select_contains(g.regions, |r: Region| targeted(r, target, owned) && named_planet(g, r, names), a);
}

/// A name that occurs within another (ignoring case) plans at least as many
/// regions: a system's name covers each of its planets' names.
pub proof fn contained_name_plans_more(
    g: GalaxyView,
    target: Species,
    owned: Option<Set<usize>>,
    longer: Seq<char>,
    shorter: Seq<char>,
)
    requires
        contains_run(lowercase(longer), lowercase(shorter)),
    ensures
        plan_of(g, target, ScopeView::Planets(seq![longer]), owned).len() <= plan_of(
            g,
            target,
            ScopeView::Planets(seq![shorter]),
            owned,
        ).len(),
{
    let strong = |r: Region| targeted(r, target, owned) && named_planet(g, r, seq![longer]);
    let weak = |r: Region| targeted(r, target, owned) && named_planet(g, r, seq![shorter]);
    assert forall|r: Region| #[trigger] strong(r) implies weak(r) by {
        let names = seq![longer];
        assert(contains_run(lowercase(planet_name_of(g, r)), lowercase(names[0])));
        lemma_contains_transitive(lowercase(planet_name_of(g, r)), lowercase(longer), lowercase(shorter));
        assert(seq![shorter][0] == shorter);
    }
    lemma_select_weaker(g.regions, strong, weak);
}

} // verus!
