//! The decisions of a session over one save: which systems the player
//! owns, what a replacement would touch and in what order to show it, the
//! replacement itself, a summary of the galaxy, and which region an edit
//! addresses.

use std::collections::BTreeSet;

use vstd::prelude::*;
use vstd::string::StringExecFns;

use crate::empire::{empires, empires_of, player_systems, player_systems_of, Empire, EmpireView};
use crate::error::{error_text, Error};
use crate::edit::{ecosystem_edit, edited, population_edit, set_ecosystem, set_owner, set_population, set_terrain};
use crate::galaxy::{
    galaxy_at, parsed_indices_small, planet_name_of, Galaxy, GalaxyView, Region, ECO_BASE_OFFSET, OWNER_OFFSET,
    TERRAIN_OFFSET,
};
use crate::header::{be32_bytes, i32_bits};
use crate::options::{copy_texts, joined, resolve, resolve_of, text_is, texts, ReplaceOptions};
use crate::order::{rank_by_text, text_before};
use crate::owned::{owned_view, set_len};
use crate::replace::{apply, apply_all, plan_selects_targets, plan, plan_of, plan_requires, select, Scope, ScopeView};
use crate::report::{
    by_planet, copy_regions, grouped_by_planet, has_group, key_lt, nameable, on_planet, pop_sum, species_totals, total_pop,
    PlanetGroup, SpeciesTotal,
};
use crate::species::{known_seq, name_of, Species, KNOWN};
use crate::text::{chars_contain, chars_of, contains_run, decimal, lowercase, push_decimal, to_lowercase};

verus! {

/// The message when the player's systems cannot be told.
pub open spec fn no_ownership_text() -> Seq<char> {
    "could not detect player ownership from this save"@
}

/// The ownership filter a request asks for: none, or the player's systems,
/// which must have been detected.
pub open spec fn owned_filter(d: Seq<u8>, g: GalaxyView, mine: bool) -> Result<Option<Set<usize>>, Seq<char>> {
    if !mine {
        Ok(None)
    } else if player_systems_of(d, g.regions).len() == 0 {
        Err(no_ownership_text())
    } else {
        Ok(Some(player_systems_of(d, g.regions)))
    }
}

/// An optional set of systems as a value.
pub open spec fn owned_set(o: Option<BTreeSet<usize>>) -> Option<Set<usize>> {
    match o {
        Some(s) => Some(s@),
        None => None,
    }
}

/// The ownership filter: `None` unless `mine`; with `mine`, the player's
/// systems, or an error when none could be detected.
pub fn owned_systems(bytes: &[u8], galaxy: &Galaxy, mine: bool) -> (r: Result<Option<BTreeSet<usize>>, String>)
    ensures
        match owned_filter(bytes@, galaxy@, mine) {
            Ok(o) => r matches Ok(s) && owned_set(s) == o,
            Err(m) => r matches Err(e) && e@ == m,
        },
{
    if !mine {
        return Ok(None);
    }
    let owned = player_systems(bytes, galaxy);
    if set_len(&owned) == 0 {
        return Err(String::from_str("could not detect player ownership from this save"));
    }
    Ok(Some(owned))
}

/// One planned region as shown: its planet, region index and population.
#[derive(Debug)]
pub struct PlanRow {
    pub planet: String,
    pub region: usize,
    pub pop: i64,
}

/// What a replacement would touch: the number of regions, their total
/// population (raw units), and the rows sorted by planet name, then region
/// index.
#[derive(Debug)]
pub struct PlanPreview {
    pub count: usize,
    pub pop: i128,
    pub rows: Vec<PlanRow>,
}

/// The planet names of the planned regions.
pub open spec fn planet_names(g: GalaxyView, planned: Seq<Region>) -> Seq<Seq<char>> {
    planned.map_values(|r: Region| planet_name_of(g, r))
}

/// The region indices of the planned regions.
pub open spec fn region_indices(planned: Seq<Region>) -> Seq<usize> {
    planned.map_values(|r: Region| r.region_idx)
}

/// `order` lists the planned regions sorted by planet name, then region
/// index, equal ones in plan order.
pub open spec fn plan_order(g: GalaxyView, planned: Seq<Region>, order: Seq<usize>) -> bool {
    &&& order.len() == planned.len()
    &&& forall|i: int| 0 <= i < order.len() ==> #[trigger] order[i] < planned.len()
    &&& forall|k: usize| k < planned.len() ==> #[trigger] order.contains(k)
    &&& forall|i: int, j: int|
        0 <= i < j < order.len() ==> text_before(planet_names(g, planned), region_indices(planned), order[i], order[j])
}

/// `row` shows region `r`.
pub open spec fn row_of(g: GalaxyView, r: Region, row: PlanRow) -> bool {
    row.planet@ == planet_name_of(g, r) && row.region == r.region_idx && row.pop == r.pop
}

/// `p` previews the plan.
pub open spec fn previews(g: GalaxyView, planned: Seq<Region>, p: PlanPreview) -> bool {
    &&& p.count == planned.len()
    &&& p.pop == pop_sum(planned)
    &&& exists|order: Seq<usize>|
        plan_order(g, planned, order) && p.rows@.len() == order.len() && forall|i: int|
            0 <= i < order.len() ==> row_of(g, planned[order[i] as int], #[trigger] p.rows@[i])
}

/// Preview a plan: count, total population, and the rows sorted by planet
/// name, then region index.
pub fn preview_plan(galaxy: &Galaxy, planned: &Vec<Region>) -> (p: PlanPreview)
    requires
        nameable(planned@),
    ensures
        previews(galaxy@, planned@, p),
{
    let ghost g = galaxy@;
    let mut names: Vec<String> = Vec::new();
    let mut idxs: Vec<usize> = Vec::new();
    let mut k: usize = 0;
    while k < planned.len()
        invariant
            g == galaxy@,
            nameable(planned@),
            k <= planned@.len(),
            names@.len() == k,
            idxs@.len() == k,
            forall|a: int| 0 <= a < k ==> (#[trigger] names@[a])@ == planet_name_of(g, planned@[a]),
            forall|a: int| 0 <= a < k ==> #[trigger] idxs@[a] == planned@[a].region_idx,
        decreases planned@.len() - k,
    {
        assert(planned@[k as int].planet_idx < usize::MAX);
        names.push(galaxy.planet_name(&planned[k]));
        idxs.push(planned[k].region_idx);
        k = k + 1;
    }
    proof {
        assert(names@.map_values(|t: String| t@) =~= planet_names(g, planned@));
        assert(idxs@ =~= region_indices(planned@));
    }
    let order = rank_by_text(&names, &idxs);
    let mut rows: Vec<PlanRow> = Vec::new();
    let mut i: usize = 0;
    while i < order.len()
        invariant
            g == galaxy@,
            nameable(planned@),
            order@.len() == planned@.len(),
            forall|a: int| 0 <= a < order@.len() ==> #[trigger] order@[a] < planned@.len(),
            i <= order@.len(),
            rows@.len() == i,
            forall|a: int| 0 <= a < i ==> row_of(g, planned@[order@[a] as int], #[trigger] rows@[a]),
        decreases order@.len() - i,
    {
        let r = &planned[order[i]];
        assert(r.planet_idx < usize::MAX);
        rows.push(PlanRow { planet: galaxy.planet_name(r), region: r.region_idx, pop: r.pop });
        i = i + 1;
    }
    let pop = total_pop(planned);
    let p = PlanPreview { count: planned.len(), pop, rows };
    assert(plan_order(g, planned@, order@));
    p
}

/// A parsed galaxy's regions all have numerals for their planets.
proof fn lemma_parsed_nameable(d: Seq<u8>)
    ensures
        galaxy_at(d) matches Ok(g) ==> nameable(g.regions),
{
    parsed_indices_small(d);
    if let Ok(g) = galaxy_at(d) {
        assert forall|i: int| 0 <= i < g.regions.len() implies (#[trigger] g.regions[i]).planet_idx < usize::MAX by {
            assert(g.regions[i].planet_idx < 256);
        }
    }
}

/// A nameable galaxy meets every plan's requirement.
proof fn lemma_plan_requires(g: GalaxyView, target: Species, scope: ScopeView, owned: Option<Set<usize>>)
    requires
        nameable(g.regions),
    ensures
        plan_requires(g, target, scope, owned),
{
}

/// A plan of a nameable galaxy is nameable.
proof fn lemma_plan_nameable(g: GalaxyView, target: Species, scope: ScopeView, owned: Option<Set<usize>>, planned: Seq<Region>)
    requires
        nameable(g.regions),
        forall|i: int| 0 <= i < planned.len() ==> g.regions.contains(#[trigger] planned[i]),
    ensures
        nameable(planned),
{
    assert forall|i: int| 0 <= i < planned.len() implies (#[trigger] planned[i]).planet_idx < usize::MAX by {
        assert(g.regions.contains(planned[i]));
        let k = choose|k: int| 0 <= k < g.regions.len() && g.regions[k] == planned[i];
        assert(g.regions[k].planet_idx < usize::MAX);
    }
}

/// What a request comes to on a save: the resolved request, the galaxy,
/// and the plan; or the message of the first failure (the request, then
/// the parse, then ownership).
pub open spec fn request_plan(d: Seq<u8>, o: ReplaceOptions) -> Result<(Species, Species, GalaxyView, Seq<Region>), Seq<char>> {
    match resolve_of(o) {
        Err(m) => Err(m),
        Ok((t, rep, scope)) => match galaxy_at(d) {
            Err(e) => Err(error_text(e)),
            Ok(g) => match owned_filter(d, g, o.mine) {
                Err(m) => Err(m),
                Ok(owned) => Ok((t, rep, g, plan_of(g, t, scope, owned))),
            },
        },
    }
}

/// Resolve a request on a save and plan it.
fn prepare(bytes: &[u8], options: &ReplaceOptions) -> (r: Result<(Species, Species, Galaxy, Vec<Region>), String>)
    ensures
        match request_plan(bytes@, *options) {
            Err(m) => r matches Err(e) && e@ == m,
            Ok((t, rep, g, planned)) => r matches Ok((t2, rep2, galaxy, v)) && t2 == t && rep2 == rep && galaxy@ == g
                && v@ == planned && nameable(planned) && nameable(g.regions),
        },
{
    let resolved = match resolve(options) {
        Ok(res) => res,
        Err(m) => return Err(m),
    };
    let galaxy = match Galaxy::parse(bytes) {
        Ok(g) => g,
        Err(e) => return Err(e.message()),
    };
    let owned = match owned_systems(bytes, &galaxy, options.mine) {
        Ok(o) => o,
        Err(m) => return Err(m),
    };
    proof {
        lemma_parsed_nameable(bytes@);
        lemma_plan_requires(galaxy@, resolved.target, resolved.scope@, owned_set(owned));
    }
    let owned_ref = owned.as_ref();
    assert(owned_view(owned_ref) == owned_set(owned));
    let planned = plan(&galaxy, resolved.target, &resolved.scope, owned_ref);
    proof {
        plan_selects_targets(galaxy@, resolved.target, resolved.scope@, owned_set(owned));
        lemma_plan_nameable(galaxy@, resolved.target, resolved.scope@, owned_set(owned), planned@);
    }
    Ok((resolved.target, resolved.replacement, galaxy, planned))
}

/// Preview a replacement request on a save.
pub fn plan_replace(bytes: &[u8], options: &ReplaceOptions) -> (r: Result<PlanPreview, String>)
    ensures
        match request_plan(bytes@, *options) {
            Err(m) => r matches Err(e) && e@ == m,
            Ok((_, _, g, planned)) => r matches Ok(p) && previews(g, planned, p),
        },
{
    match prepare(bytes, options) {
        Err(m) => Err(m),
        Ok((_, _, galaxy, planned)) => Ok(preview_plan(&galaxy, &planned)),
    }
}

/// The message when a plan is empty.
pub open spec fn nothing_matches_text(target: Species) -> Seq<char> {
    "no "@ + name_of(target) + " regions match"@
}

/// The message when a replacement did not patch its whole plan.
pub open spec fn partial_apply_text(patched: int, planned: int) -> Seq<char> {
    "apply patched "@ + decimal(patched as nat) + " of "@ + decimal(planned as nat) + " planned regions"@
}

/// Apply a replacement request to a copy of a save and return the patched
/// bytes; an empty plan, or a plan not patched in full, is refused.
pub fn apply_replace(bytes: &[u8], options: &ReplaceOptions) -> (r: Result<Vec<u8>, String>)
    ensures
        match request_plan(bytes@, *options) {
            Err(m) => r matches Err(e) && e@ == m,
            Ok((t, rep, g, planned)) => if planned.len() == 0 {
                r matches Err(e) && e@ == nothing_matches_text(t)
            } else {
                let (d, patched, skipped, _) = apply_all(bytes@, planned, t, rep);
                if skipped > 0 || patched != planned.len() {
                    r matches Err(e) && e@ == partial_apply_text(patched, planned.len() as int)
                } else {
                    r matches Ok(v) && v@ == d
                }
            },
        },
{
    let (target, replacement, galaxy, planned) = match prepare(bytes, options) {
        Err(m) => return Err(m),
        Ok(x) => x,
    };
    if planned.len() == 0 {
        let mut m = String::from_str("no ");
        let name = target.name();
        m.append(name.as_str());
        m.append(" regions match");
        return Err(m);
    }
    let mut edited = vstd::slice::slice_to_vec(bytes);
    let outcome = apply(edited.as_mut_slice(), planned.as_slice(), target, replacement);
    if outcome.skipped > 0 || outcome.patched != planned.len() {
        let mut m = String::from_str("apply patched ");
        push_decimal(&mut m, outcome.patched as u64);
        m.append(" of ");
        push_decimal(&mut m, planned.len() as u64);
        m.append(" planned regions");
        return Err(m);
    }
    Ok(edited)
}

/// A galaxy summary: counts, the empire table, per-species totals, and the
/// names of the known species.
#[derive(Debug)]
pub struct Summary {
    pub systems: usize,
    pub regions: usize,
    /// Systems detected as the player's (0 when detection failed).
    pub player_systems: usize,
    pub empires: Vec<Empire>,
    pub species: Vec<SpeciesTotal>,
    pub known_species: Vec<String>,
}

/// `s` summarizes the save `d` whose galaxy is `g`.
pub open spec fn summarizes(d: Seq<u8>, g: GalaxyView, s: Summary) -> bool {
    &&& s.systems == g.systems.len()
    &&& s.regions == g.regions.len()
    &&& s.player_systems == player_systems_of(d, g.regions).len()
    &&& s.empires@.map_values(|e: Empire| e@) == empires_of(d)
    &&& forall|i: int, j: int|
        0 <= i < j < s.species@.len() ==> crate::report::heavier_total(s.species@[i], s.species@[j])
    &&& forall|i: int| 0 <= i < s.species@.len() ==> crate::report::total_ok(g.regions, #[trigger] s.species@[i])
    &&& forall|k: int|
        0 <= k < g.regions.len() ==> #[trigger] crate::report::has_total(
            s.species@,
            crate::species::race1_of(g.regions[k].species),
        )
    &&& texts(s.known_species@) == known_seq().map_values(|sp: Species| name_of(sp))
}

/// The names of the known species, in ID order.
fn known_species_names() -> (out: Vec<String>)
    ensures
        texts(out@) == known_seq().map_values(|sp: Species| name_of(sp)),
{
    let mut out: Vec<String> = Vec::new();
    let mut i: usize = 0;
    assert(KNOWN@ == known_seq());
    while i < KNOWN.len()
        invariant
            KNOWN@ == known_seq(),
            i <= 21,
            out@.len() == i,
            forall|k: int| 0 <= k < i ==> (#[trigger] out@[k])@ == name_of(known_seq()[k]),
        decreases 21 - i,
    {
        out.push(KNOWN[i].name());
        i = i + 1;
    }
    assert(texts(out@) =~= known_seq().map_values(|sp: Species| name_of(sp)));
    out
}

/// Scan a save: counts, empires, player ownership, and per-species totals.
pub fn summarize(bytes: &[u8]) -> (r: Result<Summary, Error>)
    ensures
        match galaxy_at(bytes@) {
            Err(e) => r == Err::<Summary, Error>(e),
            Ok(g) => r matches Ok(s) && summarizes(bytes@, g, s),
        },
{
    let galaxy = match Galaxy::parse(bytes) {
        Ok(g) => g,
        Err(e) => return Err(e),
    };
    let table = empires(bytes);
    let owned = player_systems(bytes, &galaxy);
    let species = species_totals(&galaxy.regions);
    Ok(
        Summary {
            systems: galaxy.systems.len(),
            regions: galaxy.regions.len(),
            player_systems: set_len(&owned),
            empires: table,
            species,
            known_species: known_species_names(),
        },
    )
}

/// The scope the `replace` options ask for: the named planets when any are
/// given, else everywhere with `--all`, else shared planets.
pub fn choose_scope(planets: &Vec<String>, everywhere: bool, protect: Option<Species>) -> (scope: Scope)
    ensures
        scope@ == if planets@.len() > 0 {
            ScopeView::Planets(texts(planets@))
        } else if everywhere {
            ScopeView::Everywhere
        } else {
            ScopeView::Shared { protect }
        },
{
    if planets.len() > 0 {
        let names = copy_texts(planets);
        let scope = Scope::Planets(names);
        assert(scope@ == ScopeView::Planets(texts(planets@)));
        scope
    } else if everywhere {
        Scope::Everywhere
    } else {
        Scope::Shared { protect }
    }
}

/// The names in double quotes, comma-separated.
pub open spec fn quoted_names(names: Seq<Seq<char>>) -> Seq<char> {
    joined(names.map_values(|n: Seq<char>| "\""@ + n + "\""@), ", "@)
}

/// How a summary line describes a scope, with `(your systems only)` added
/// under an ownership filter.
pub open spec fn scope_note_text(scope: ScopeView, mine: bool) -> Seq<char> {
    (match scope {
        ScopeView::Planets(names) => "on "@ + quoted_names(names),
        ScopeView::Everywhere => "galaxy-wide"@,
        ScopeView::Shared { .. } => "on shared planets"@,
    }) + if mine {
        " (your systems only)"@
    } else {
        Seq::<char>::empty()
    }
}

/// Describe a scope for the replacement summary line.
pub fn scope_note(scope: &Scope, mine: bool) -> (s: String)
    ensures
        s@ == scope_note_text(scope@, mine),
{
    let mut s = match scope {
        Scope::Planets(names) => {
            let ghost parts = texts(names@).map_values(|n: Seq<char>| "\""@ + n + "\""@);
            let mut s = String::from_str("on ");
            let ghost start = s@;
            let mut i: usize = 0;
            while i < names.len()
                invariant
                    start == "on "@,
                    parts == texts(names@).map_values(|n: Seq<char>| "\""@ + n + "\""@),
                    i <= names@.len(),
                    s@ == start + joined(parts.subrange(0, i as int), ", "@),
                decreases names@.len() - i,
            {
                let ghost before = s@;
                if i > 0 {
                    s.append(", ");
                }
                s.append("\"");
                s.append(names[i].as_str());
                s.append("\"");
                proof {
                    let next = parts.subrange(0, i + 1);
                    assert(next.drop_last() =~= parts.subrange(0, i as int));
                    assert(next.last() == "\""@ + names@[i as int]@ + "\""@);
                    if i == 0 {
                        assert(joined(parts.subrange(0, 0), ", "@) =~= Seq::<char>::empty());
                        assert(s@ =~= start + joined(next, ", "@));
                    } else {
                        assert(s@ =~= start + joined(next, ", "@));
                    }
                }
                i = i + 1;
            }
            assert(parts.subrange(0, names@.len() as int) =~= parts);
            s
        },
        Scope::Everywhere => String::from_str("galaxy-wide"),
        Scope::Shared { .. } => String::from_str("on shared planets"),
    };
    if mine {
        s.append(" (your systems only)");
    } else {
        assert(s@ + Seq::<char>::empty() =~= s@);
    }
    s
}

/// The planet of `r` has a display name that contains `needle`, both in
/// lowercase.
pub open spec fn planet_matches(g: GalaxyView, r: Region, needle: Seq<char>) -> bool {
    contains_run(lowercase(planet_name_of(g, r)), lowercase(needle))
}

/// `ms` are the planets of `g` whose names contain `needle`
/// (case-insensitively), grouped as [`by_planet`] groups them.
pub open spec fn matched(g: GalaxyView, needle: Seq<char>, ms: Seq<PlanetGroup>) -> bool {
    &&& forall|i: int, j: int|
        0 <= i < j < ms.len() ==> key_lt(ms[i].sys_idx, ms[i].planet_idx, ms[j].sys_idx, ms[j].planet_idx)
    &&& forall|i: int|
        0 <= i < ms.len() ==> (#[trigger] ms[i]).regions@ == select(g.regions, on_planet(ms[i].sys_idx, ms[i].planet_idx))
            && ms[i].regions@.len() > 0 && planet_matches(g, ms[i].regions@[0], needle)
    &&& forall|k: int| 0 <= k < g.regions.len() && planet_matches(g, g.regions[k], needle) ==> #[trigger] has_group(ms, g.regions[k])
}

/// The populated planets whose names contain `name`, ignoring case, in
/// (system, planet) order.
pub fn matching_planets(galaxy: &Galaxy, name: &str) -> (out: Vec<PlanetGroup>)
    requires
        nameable(galaxy@.regions),
    ensures
        matched(galaxy@, name@, out@),
{
    let ghost g = galaxy@;
    let lowered = to_lowercase(name);
    let needle = chars_of(lowered.as_str());
    let groups = by_planet(galaxy);
    let mut out: Vec<PlanetGroup> = Vec::new();
    let ghost mut idx: Seq<int> = Seq::empty();
    let mut a: usize = 0;
    while a < groups.len()
        invariant
            g == galaxy@,
            nameable(g.regions),
            needle@ == lowercase(name@),
            grouped_by_planet(g.regions, groups@),
            a <= groups@.len(),
            idx.len() == out@.len(),
            forall|i: int| 0 <= i < idx.len() ==> 0 <= #[trigger] idx[i] < a,
            forall|i: int, j: int| 0 <= i < j < idx.len() ==> idx[i] < idx[j],
            forall|i: int|
                0 <= i < idx.len() ==> (#[trigger] out@[i]).sys_idx == groups@[idx[i]].sys_idx && out@[i].planet_idx
                    == groups@[idx[i]].planet_idx && out@[i].regions@ == groups@[idx[i]].regions@ && planet_matches(
                    g,
                    groups@[idx[i]].regions@[0],
                    name@,
                ),
            forall|x: int|
                0 <= x < a && planet_matches(g, (#[trigger] groups@[x]).regions@[0], name@) ==> idx.contains(x),
        decreases groups@.len() - a,
    {
        let first = &groups[a].regions[0];
        proof {
            crate::report::lemma_select_members(g.regions, on_planet(groups@[a as int].sys_idx, groups@[a as int].planet_idx));
            assert(g.regions.contains(groups@[a as int].regions@[0]));
            let k = choose|k: int| 0 <= k < g.regions.len() && g.regions[k] == groups@[a as int].regions@[0];
            assert(g.regions[k].planet_idx < usize::MAX);
        }
        let label = galaxy.planet_name(first);
        let lower = to_lowercase(label.as_str());
        let hay = chars_of(lower.as_str());
        if chars_contain(&hay, &needle) {
            let ghost before = idx;
            out.push(
                PlanetGroup {
                    sys_idx: groups[a].sys_idx,
                    planet_idx: groups[a].planet_idx,
                    regions: copy_regions(&groups[a].regions),
                },
            );
            proof {
                idx = idx.push(a as int);
                assert forall|x: int|
                    0 <= x < a + 1 && planet_matches(g, (#[trigger] groups@[x]).regions@[0], name@) implies idx.contains(
                    x,
                ) by {
                    if x < a {
                        assert(before.contains(x));
                        let i = choose|i: int| 0 <= i < before.len() && before[i] == x;
                        assert(idx[i] == x);
                    } else {
                        assert(idx[idx.len() - 1] == x);
                    }
                }
            }
        }
        a = a + 1;
    }
    proof {
        assert forall|i: int, j: int| 0 <= i < j < out@.len() implies key_lt(
            out@[i].sys_idx,
            out@[i].planet_idx,
            out@[j].sys_idx,
            out@[j].planet_idx,
        ) by {
            assert(idx[i] < idx[j]);
        }
        assert forall|i: int| 0 <= i < out@.len() implies (#[trigger] out@[i]).regions@ == select(
            g.regions,
            on_planet(out@[i].sys_idx, out@[i].planet_idx),
        ) && out@[i].regions@.len() > 0 && planet_matches(g, out@[i].regions@[0], name@) by {
            assert(0 <= idx[i] < groups@.len());
        }
        assert forall|k: int| 0 <= k < g.regions.len() && planet_matches(g, g.regions[k], name@) implies #[trigger] has_group(
            out@,
            g.regions[k],
        ) by {
            assert(has_group(groups@, g.regions[k]));
            let x = choose|x: int|
                0 <= x < groups@.len() && #[trigger] groups@[x].sys_idx == g.regions[k].sys_idx
                    && groups@[x].planet_idx == g.regions[k].planet_idx;
            crate::report::lemma_select_members(g.regions, on_planet(groups@[x].sys_idx, groups@[x].planet_idx));
            assert(on_planet(groups@[x].sys_idx, groups@[x].planet_idx)(groups@[x].regions@[0]));
            assert(planet_name_of(g, groups@[x].regions@[0]) == planet_name_of(g, g.regions[k]));
            assert(idx.contains(x));
            let i = choose|i: int| 0 <= i < idx.len() && idx[i] == x;
            assert(out@[i].sys_idx == g.regions[k].sys_idx);
        }
    }
    out
}

/// Why an edit's region could not be chosen.
#[derive(Debug)]
pub enum EditTargetError {
    /// Several planets match and not exactly one by full name: their names.
    Ambiguous(Vec<String>),
    /// No populated planet matches.
    NoPlanet,
    /// The planet has no populated region with the index: its name and its
    /// populated regions.
    NoRegion { planet: String, regions: Vec<Region> },
}

/// The planet's name is `needle`, ignoring case.
pub open spec fn exact_name(g: GalaxyView, p: PlanetGroup, needle: Seq<char>) -> bool {
    lowercase(planet_name_of(g, p.regions@[0])) == lowercase(needle)
}

/// How many of the planets are named `needle` exactly, ignoring case.
pub open spec fn exact_count(g: GalaxyView, ms: Seq<PlanetGroup>, needle: Seq<char>) -> nat
    decreases ms.len(),
{
    if ms.len() == 0 {
        0
    } else {
        exact_count(g, ms.drop_last(), needle) + if exact_name(g, ms.last(), needle) {
            1nat
        } else {
            0nat
        }
    }
}

/// `p` is the planet an edit addresses among the matches `ms`: the only
/// match, or else the only one named exactly.
pub open spec fn chosen_planet(g: GalaxyView, ms: Seq<PlanetGroup>, needle: Seq<char>, p: PlanetGroup) -> bool {
    ||| ms.len() == 1 && p == ms[0]
    ||| ms.len() > 1 && exact_count(g, ms, needle) == 1 && exists|i: int|
        0 <= i < ms.len() && ms[i] == p && exact_name(g, p, needle)
}

/// The outcome of choosing region `idx` among the matching planets `ms`.
pub open spec fn edit_target_ok(
    g: GalaxyView,
    ms: Seq<PlanetGroup>,
    needle: Seq<char>,
    idx: usize,
    r: Result<Region, EditTargetError>,
) -> bool {
    match r {
        Err(EditTargetError::Ambiguous(names)) => ms.len() > 1 && exact_count(g, ms, needle) != 1 && texts(names@)
            == ms.map_values(|p: PlanetGroup| planet_name_of(g, p.regions@[0])),
        Err(EditTargetError::NoPlanet) => ms.len() == 0,
        Err(EditTargetError::NoRegion { planet, regions }) => exists|p: PlanetGroup|
            chosen_planet(g, ms, needle, p) && planet@ == planet_name_of(g, p.regions@[0]) && regions@ == p.regions@
                && forall|k: int| 0 <= k < p.regions@.len() ==> (#[trigger] p.regions@[k]).region_idx != idx,
        Ok(region) => exists|p: PlanetGroup|
            chosen_planet(g, ms, needle, p) && exists|k: int|
                0 <= k < p.regions@.len() && p.regions@[k] == region && region.region_idx == idx && forall|j: int|
                    0 <= j < k ==> (#[trigger] p.regions@[j]).region_idx != idx,
    }
}

/// Choose the region an edit addresses: the planet whose name contains
/// `planet` (or, among several, the one named exactly so), then its region
/// with index `region_idx`.
pub fn select_edit_region(galaxy: &Galaxy, planet: &str, region_idx: usize) -> (r: Result<Region, EditTargetError>)
    requires
        nameable(galaxy@.regions),
    ensures
        exists|ms: Seq<PlanetGroup>| matched(galaxy@, planet@, ms) && edit_target_ok(galaxy@, ms, planet@, region_idx, r),
{
    let ghost g = galaxy@;
    let planets = matching_planets(galaxy, planet);
    proof {
        assert forall|i: int| 0 <= i < planets@.len() implies (#[trigger] planets@[i]).regions@[0].planet_idx < usize::MAX by {
            crate::report::lemma_select_members(g.regions, on_planet(planets@[i].sys_idx, planets@[i].planet_idx));
            assert(g.regions.contains(planets@[i].regions@[0]));
            let k = choose|k: int| 0 <= k < g.regions.len() && g.regions[k] == planets@[i].regions@[0];
            assert(g.regions[k].planet_idx < usize::MAX);
        }
    }
    if planets.len() == 0 {
        return Err(EditTargetError::NoPlanet);
    }
    let mut chosen: usize = 0;
    if planets.len() > 1 {
        let wanted = to_lowercase(planet);
        let mut count: usize = 0;
        let mut names: Vec<String> = Vec::new();
        let mut a: usize = 0;
        while a < planets.len()
            invariant
                g == galaxy@,
                wanted@ == lowercase(planet@),
                forall|i: int| 0 <= i < planets@.len() ==> (#[trigger] planets@[i]).regions@.len() > 0 && planets@[i].regions@[0].planet_idx < usize::MAX,
                a <= planets@.len(),
                count <= a,
                count == exact_count(g, planets@.subrange(0, a as int), planet@),
                count > 0 ==> chosen < a && exact_name(g, planets@[chosen as int], planet@),
                names@.len() == a,
                forall|i: int| 0 <= i < a ==> (#[trigger] names@[i])@ == planet_name_of(g, planets@[i].regions@[0]),
            decreases planets@.len() - a,
        {
            let label = galaxy.planet_name(&planets[a].regions[0]);
            let lower = to_lowercase(label.as_str());
            let hit = text_is(lower.as_str(), wanted.as_str());
            proof {
                let next = planets@.subrange(0, a + 1);
                assert(next.drop_last() =~= planets@.subrange(0, a as int));
                assert(next.last() == planets@[a as int]);
            }
            if hit {
                count = count + 1;
                chosen = a;
            }
            names.push(label);
            a = a + 1;
        }
        assert(planets@.subrange(0, planets@.len() as int) =~= planets@);
        if count != 1 {
            proof {
                assert(texts(names@) =~= planets@.map_values(|p: PlanetGroup| planet_name_of(g, p.regions@[0])));
            }
            return Err(EditTargetError::Ambiguous(names));
        }
    }
    let p = &planets[chosen];
    proof {
        assert(chosen_planet(g, planets@, planet@, planets@[chosen as int]));
    }
    let mut k: usize = 0;
    while k < p.regions.len()
        invariant
            g == galaxy@,
            chosen < planets@.len(),
            *p == planets@[chosen as int],
            chosen_planet(g, planets@, planet@, planets@[chosen as int]),
            matched(g, planet@, planets@),
            k <= p.regions@.len(),
            forall|j: int| 0 <= j < k ==> (#[trigger] p.regions@[j]).region_idx != region_idx,
        decreases p.regions@.len() - k,
    {
        if p.regions[k].region_idx == region_idx {
            let found = p.regions[k];
            proof {
                let pp = planets@[chosen as int];
                assert(pp.regions@[k as int] == found);
                assert(exists|k2: int|
                    0 <= k2 < pp.regions@.len() && pp.regions@[k2] == found && found.region_idx == region_idx && forall|j: int|
                        0 <= j < k2 ==> (#[trigger] pp.regions@[j]).region_idx != region_idx);
                assert(edit_target_ok(g, planets@, planet@, region_idx, Ok::<Region, EditTargetError>(found)));
            }
            return Ok(found);
        }
        k = k + 1;
    }
    let name = galaxy.planet_name(&p.regions[0]);
    Err(EditTargetError::NoRegion { planet: name, regions: copy_regions(&p.regions) })
}

/// Why an edit did not go through.
#[derive(Debug)]
pub enum EditFailure {
    /// A field write failed.
    Edit(Error),
    /// The edited bytes no longer parse.
    Reparse(Error),
    /// The edited bytes parse, but no region sits at the edited offset.
    Vanished,
}

/// A field write's effect: the bytes after it and, if it failed, its error
/// (a failed write leaves the bytes as they were).
pub open spec fn step(d: Seq<u8>, s: Result<Seq<u8>, Error>) -> (Seq<u8>, Option<Error>) {
    match s {
        Ok(d1) => (d1, None),
        Err(e) => (d, Some(e)),
    }
}

/// Setting the base ecosystem: a failure after the base was written keeps
/// the base write.
pub open spec fn eco_step(d: Seq<u8>, t: Region, base: i32) -> (Seq<u8>, Option<Error>) {
    match ecosystem_edit(d, t, base) {
        Ok(d2) => (d2, None),
        Err(e) => (
            match edited(d, t, ECO_BASE_OFFSET as int, be32_bytes(i32_bits(base))) {
                Ok(d1) => d1,
                Err(_) => d,
            },
            Some(e),
        ),
    }
}

/// The requested field writes in order (population, owner, terrain,
/// ecosystem), each checked against the region as parsed, stopping at the
/// first failure: the bytes after them and the failure, if any.
pub open spec fn field_edits(
    d: Seq<u8>,
    t: Region,
    pop: Option<i64>,
    owner: Option<u8>,
    terrain: Option<u8>,
    eco: Option<i32>,
) -> (Seq<u8>, Option<Error>) {
    let (d1, e1) = match pop {
        Some(p) => step(d, population_edit(d, t, p)),
        None => (d, None),
    };
    if e1 is Some {
        (d1, e1)
    } else {
        let (d2, e2) = match owner {
            Some(o) => step(d1, edited(d1, t, OWNER_OFFSET as int, seq![o])),
            None => (d1, None),
        };
        if e2 is Some {
            (d2, e2)
        } else {
            let (d3, e3) = match terrain {
                Some(x) => step(d2, edited(d2, t, TERRAIN_OFFSET as int, seq![x])),
                None => (d2, None),
            };
            if e3 is Some {
                (d3, e3)
            } else {
                match eco {
                    Some(b) => eco_step(d3, t, b),
                    None => (d3, None),
                }
            }
        }
    }
}

/// `r` is the first region of `rs` at offset `off`, or `Vanished` when
/// there is none.
pub open spec fn located(rs: Seq<Region>, off: usize, r: Result<Region, EditFailure>) -> bool {
    match r {
        Ok(reg) => exists|k: int|
            0 <= k < rs.len() && rs[k] == reg && reg.offset == off && forall|j: int|
                0 <= j < k ==> (#[trigger] rs[j]).offset != off,
        Err(EditFailure::Vanished) => forall|k: int| 0 <= k < rs.len() ==> (#[trigger] rs[k]).offset != off,
        _ => false,
    }
}

/// Apply the requested field writes to a region, then re-parse and return
/// the region as it now reads.
#[verifier::loop_isolation(false)]
pub fn apply_edits(
    data: &mut Vec<u8>,
    target: &Region,
    pop: Option<i64>,
    owner: Option<u8>,
    terrain: Option<u8>,
    eco: Option<i32>,
) -> (r: Result<Region, EditFailure>)
    requires
        eco is Some ==> i32::MIN <= target.eco_modified - target.eco_base <= i32::MAX,
    ensures
        ({
            let (d, err) = field_edits(old(data)@, *target, pop, owner, terrain, eco);
            &&& final(data)@ == d
            &&& match err {
                Some(e) => r == Err::<Region, EditFailure>(EditFailure::Edit(e)),
                None => match galaxy_at(d) {
                    Err(e) => r == Err::<Region, EditFailure>(EditFailure::Reparse(e)),
                    Ok(g) => located(g.regions, target.offset, r),
                },
            }
        }),
{
    if let Some(p) = pop {
        if let Err(e) = set_population(data.as_mut_slice(), target, p) {
            return Err(EditFailure::Edit(e));
        }
    }
    if let Some(o) = owner {
        if let Err(e) = set_owner(data.as_mut_slice(), target, o) {
            return Err(EditFailure::Edit(e));
        }
    }
    if let Some(x) = terrain {
        if let Err(e) = set_terrain(data.as_mut_slice(), target, x) {
            return Err(EditFailure::Edit(e));
        }
    }
    if let Some(b) = eco {
        if let Err(e) = set_ecosystem(data.as_mut_slice(), target, b) {
            return Err(EditFailure::Edit(e));
        }
    }
    let reparsed = match Galaxy::parse(data.as_slice()) {
        Ok(g) => g,
        Err(e) => return Err(EditFailure::Reparse(e)),
    };
    let mut k: usize = 0;
    while k < reparsed.regions.len()
        invariant
            k <= reparsed.regions@.len(),
            forall|j: int| 0 <= j < k ==> (#[trigger] reparsed.regions@[j]).offset != target.offset,
        decreases reparsed.regions@.len() - k,
    {
        if reparsed.regions[k].offset == target.offset {
            let found = reparsed.regions[k];
            assert(reparsed.regions@[k as int] == found);
            assert(located(reparsed.regions@, target.offset, Ok::<Region, EditFailure>(found)));
            return Ok(found);
        }
        k = k + 1;
    }
    Err(EditFailure::Vanished)
}

/// `i` is the newest of the modification times: the first of the largest.
pub open spec fn newest(times: Seq<Option<i128>>, i: int) -> bool {
    &&& 0 <= i < times.len()
    &&& times[i] is Some
    &&& forall|j: int| 0 <= j < times.len() && (#[trigger] times[j]) is Some ==> times[j]->0 <= times[i]->0
    &&& forall|j: int| 0 <= j < i && (#[trigger] times[j]) is Some ==> times[j]->0 < times[i]->0
}

/// The most recently modified of the candidate saves, by their modification
/// times (`None` where a time could not be read): the first of the newest,
/// or `None` when no time is known.
pub fn latest_save(times: &[Option<i128>]) -> (r: Option<usize>)
    ensures
        r matches Some(i) ==> newest(times@, i as int),
        r is None ==> forall|j: int| 0 <= j < times@.len() ==> (#[trigger] times@[j]) is None,
{
    let mut best: Option<usize> = None;
    let mut k: usize = 0;
    while k < times.len()
        invariant
            k <= times@.len(),
            best matches Some(i) ==> i < k && newest(times@.subrange(0, k as int), i as int),
            best is None ==> forall|j: int| 0 <= j < k ==> (#[trigger] times@[j]) is None,
        decreases times@.len() - k,
    {
        let ghost prefix = times@.subrange(0, k as int);
        let ghost next = times@.subrange(0, k + 1);
        if let Some(t) = times[k] {
            let newer = match best {
                None => true,
                Some(i) => match times[i] {
                    Some(current) => t > current,
                    None => true,
                },
            };
            if newer {
                best = Some(k);
                proof {
                    assert forall|j: int| 0 <= j < next.len() && (#[trigger] next[j]) is Some implies next[j]->0
                        <= next[k as int]->0 by {
                        if j < k {
                            assert(next[j] == prefix[j]);
                        }
                    }
                    assert forall|j: int| 0 <= j < k && (#[trigger] next[j]) is Some implies next[j]->0 < next[k as int]->0 by {
                        assert(next[j] == prefix[j]);
                        assert(times@[j] == next[j]);
                    }
                }
            } else {
                proof {
                    let i = best->0;
                    assert forall|j: int| 0 <= j < next.len() && (#[trigger] next[j]) is Some implies next[j]->0
                        <= next[i as int]->0 by {
                        if j < k {
                            assert(next[j] == prefix[j]);
                        }
                    }
                    assert forall|j: int| 0 <= j < i && (#[trigger] next[j]) is Some implies next[j]->0 < next[i as int]->0 by {
                        assert(next[j] == prefix[j]);
                    }
                }
            }
        } else {
            proof {
                if let Some(i) = best {
                    assert forall|j: int| 0 <= j < next.len() && (#[trigger] next[j]) is Some implies next[j]->0
                        <= next[i as int]->0 by {
                        if j < k {
                            assert(next[j] == prefix[j]);
                        }
                    }
                    assert forall|j: int| 0 <= j < i && (#[trigger] next[j]) is Some implies next[j]->0 < next[i as int]->0 by {
                        assert(next[j] == prefix[j]);
                    }
                }
            }
        }
        k = k + 1;
    }
    assert(times@.subrange(0, times@.len() as int) =~= times@);
    best
}

/// A replacement request that plans on a save applies in full to it: the
/// partial-apply refusal of [`apply_replace`] never comes.
pub proof fn request_applies_in_full(d: Seq<u8>, o: ReplaceOptions)
    requires
        d.len() <= usize::MAX,
    ensures
        request_plan(d, o) matches Ok((t, rep, g, planned)) ==> ({
            let (_, p, s, _) = apply_all(d, planned, t, rep);
            p == planned.len() && s == 0
        }),
{
    if let Ok((t, rep, scope)) = resolve_of(o) {
        if let Ok(g) = galaxy_at(d) {
            if let Ok(owned) = owned_filter(d, g, o.mine) {
                crate::replace::fresh_plan_applies_in_full(d, t, scope, owned, rep);
            }
        }
    }
}

} // verus!
