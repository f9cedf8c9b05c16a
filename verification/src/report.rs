//! Views of a parsed galaxy for reports: regions grouped by planet, the
//! systems a species has infested, the planets where it shares space with
//! other species, and per-species totals.
//!
//! Populations stay in raw 1/65536 units and are summed exactly.

use std::collections::BTreeSet;

use vstd::prelude::*;
use vstd::string::StringExecFns;

use crate::galaxy::{planet_name_of, Galaxy, GalaxyView, Region};
use crate::species::{name_of, race1_of, Species};
use crate::order::{has_text, rank, sorted_distinct, sorted_distinct_texts, texts_increasing};
use crate::owned::owned_allows;
use crate::replace::{lemma_select_step, select};

verus! {

/// The regions of one planet, in file order.
#[derive(Debug)]
pub struct PlanetGroup {
    pub sys_idx: usize,
    pub planet_idx: usize,
    pub regions: Vec<Region>,
}

/// A region lies on planet `planet` of system `sys`.
pub open spec fn on_planet(sys: usize, planet: usize) -> spec_fn(Region) -> bool {
    |r: Region| r.sys_idx == sys && r.planet_idx == planet
}

/// Planet keys order by system, then planet.
pub open spec fn key_lt(a_sys: usize, a_planet: usize, b_sys: usize, b_planet: usize) -> bool {
    a_sys < b_sys || (a_sys == b_sys && a_planet < b_planet)
}

/// `gs` groups `rs` by planet: one group per planet that has a region, in
/// ascending (system, planet) order, each holding that planet's regions in
/// file order.
pub open spec fn grouped_by_planet(rs: Seq<Region>, gs: Seq<PlanetGroup>) -> bool {
    &&& forall|i: int, j: int|
        0 <= i < j < gs.len() ==> key_lt(gs[i].sys_idx, gs[i].planet_idx, gs[j].sys_idx, gs[j].planet_idx)
    &&& forall|i: int|
        0 <= i < gs.len() ==> (#[trigger] gs[i]).regions@ == select(rs, on_planet(gs[i].sys_idx, gs[i].planet_idx))
            && gs[i].regions@.len() > 0
    &&& forall|k: int| 0 <= k < rs.len() ==> #[trigger] has_group(gs, rs[k])
}

/// Some group of `gs` is the planet of `r`.
pub open spec fn has_group(gs: Seq<PlanetGroup>, r: Region) -> bool {
    exists|i: int| 0 <= i < gs.len() && #[trigger] gs[i].sys_idx == r.sys_idx && gs[i].planet_idx == r.planet_idx
}

/// Nothing in `rs` satisfies `pred`: the selection is empty.
pub proof fn lemma_select_none(rs: Seq<Region>, pred: spec_fn(Region) -> bool)
    requires
        forall|k: int| 0 <= k < rs.len() ==> !pred(#[trigger] rs[k]),
    ensures
        select(rs, pred).len() == 0,
    decreases rs.len(),
{
    if rs.len() > 0 {
        lemma_select_none(rs.drop_last(), pred);
        assert(!pred(rs[rs.len() - 1]));
    }
}

/// Every selected region satisfies `pred` and comes from `rs`.
pub proof fn lemma_select_members(rs: Seq<Region>, pred: spec_fn(Region) -> bool)
    ensures
        forall|i: int| 0 <= i < select(rs, pred).len() ==> pred(#[trigger] select(rs, pred)[i]) && rs.contains(
            select(rs, pred)[i],
        ),
    decreases rs.len(),
{
    if rs.len() > 0 {
        let init = rs.drop_last();
        lemma_select_members(init, pred);
        let s = select(rs, pred);
        assert forall|i: int| 0 <= i < s.len() implies pred(#[trigger] s[i]) && rs.contains(s[i]) by {
            if i < select(init, pred).len() {
                assert(s[i] == select(init, pred)[i]);
                let k = choose|k: int| 0 <= k < init.len() && init[k] == s[i];
                assert(rs[k] == s[i]);
            } else {
                assert(s[i] == rs.last());
                assert(rs[rs.len() - 1] == s[i]);
            }
        }
    }
}

/// A region of `rs` that satisfies `pred` makes the selection non-empty.
pub proof fn lemma_select_some(rs: Seq<Region>, pred: spec_fn(Region) -> bool, k: int)
    requires
        0 <= k < rs.len(),
        pred(rs[k]),
    ensures
        select(rs, pred).len() > 0,
    decreases rs.len(),
{
    if k < rs.len() - 1 {
        lemma_select_some(rs.drop_last(), pred, k);
    }
}

/// Group the populated regions by planet, in ascending (system, planet)
/// order; each group keeps its regions in file order.
pub fn by_planet(galaxy: &Galaxy) -> (groups: Vec<PlanetGroup>)
    ensures
        grouped_by_planet(galaxy@.regions, groups@),
{
    group_regions(&galaxy.regions)
}

/// Group regions by planet, in ascending (system, planet) order.
pub fn group_regions(rs: &Vec<Region>) -> (groups: Vec<PlanetGroup>)
    ensures
        grouped_by_planet(rs@, groups@),
{
    let ghost all = rs@;
    let mut groups: Vec<PlanetGroup> = Vec::new();
    let mut i: usize = 0;
    while i < rs.len()
        invariant
            all == rs@,
            i <= all.len(),
            forall|a: int, b: int|
                0 <= a < b < groups@.len() ==> key_lt(
                    groups@[a].sys_idx,
                    groups@[a].planet_idx,
                    groups@[b].sys_idx,
                    groups@[b].planet_idx,
                ),
            forall|a: int|
                0 <= a < groups@.len() ==> (#[trigger] groups@[a]).regions@ == select(
                    all.subrange(0, i as int),
                    on_planet(groups@[a].sys_idx, groups@[a].planet_idx),
                ) && groups@[a].regions@.len() > 0,
            forall|k: int| 0 <= k < i ==> #[trigger] has_group(groups@, all[k]),
        decreases all.len() - i,
    {
        let r = rs[i];
        let mut j: usize = 0;
        while j < groups.len() && (groups[j].sys_idx < r.sys_idx || (groups[j].sys_idx == r.sys_idx
            && groups[j].planet_idx < r.planet_idx))
            invariant
                j <= groups@.len(),
                forall|a: int|
                    0 <= a < j ==> key_lt(groups@[a].sys_idx, groups@[a].planet_idx, r.sys_idx, r.planet_idx),
            decreases groups@.len() - j,
        {
            j = j + 1;
        }
        let ghost old_groups = groups@;
        let ghost prefix = all.subrange(0, i as int);
        let ghost next = all.subrange(0, i + 1);
        proof {
            lemma_select_step(all, i as int, on_planet(r.sys_idx, r.planet_idx));
            assert forall|a: int| 0 <= a < old_groups.len() && !(old_groups[a].sys_idx == r.sys_idx
                && old_groups[a].planet_idx == r.planet_idx) implies select(
                next,
                on_planet(old_groups[a].sys_idx, old_groups[a].planet_idx),
            ) == select(prefix, on_planet(old_groups[a].sys_idx, old_groups[a].planet_idx)) by {
                lemma_select_step(all, i as int, on_planet(old_groups[a].sys_idx, old_groups[a].planet_idx));
                assert(select(prefix, on_planet(old_groups[a].sys_idx, old_groups[a].planet_idx))
                    + Seq::<Region>::empty() =~= select(
                    prefix,
                    on_planet(old_groups[a].sys_idx, old_groups[a].planet_idx),
                ));
            }
        }
        if j < groups.len() && groups[j].sys_idx == r.sys_idx && groups[j].planet_idx == r.planet_idx {
            let mut g = PlanetGroup { sys_idx: 0, planet_idx: 0, regions: Vec::new() };
            groups.set_and_swap(j, &mut g);
            g.regions.push(r);
            groups.set(j, g);
            proof {
                assert forall|a: int| 0 <= a < groups@.len() implies (#[trigger] groups@[a]).regions@ == select(
                    next,
                    on_planet(groups@[a].sys_idx, groups@[a].planet_idx),
                ) && groups@[a].regions@.len() > 0 by {
                    if a != j {
                        assert(groups@[a] == old_groups[a]);
                        if old_groups[a].sys_idx == r.sys_idx && old_groups[a].planet_idx == r.planet_idx {
                            assert(key_lt(old_groups[a].sys_idx, old_groups[a].planet_idx, old_groups[j as int].sys_idx, old_groups[j as int].planet_idx)
                                || key_lt(old_groups[j as int].sys_idx, old_groups[j as int].planet_idx, old_groups[a].sys_idx, old_groups[a].planet_idx));
                        }
                    }
                }
                assert forall|k: int| 0 <= k < i + 1 implies #[trigger] has_group(groups@, all[k]) by {
                    if k < i {
                        assert(has_group(old_groups, all[k]));
                        let a = choose|a: int|
                            0 <= a < old_groups.len() && #[trigger] old_groups[a].sys_idx == all[k].sys_idx
                                && old_groups[a].planet_idx == all[k].planet_idx;
                        assert(groups@[a].sys_idx == old_groups[a].sys_idx);
                    } else {
                        assert(groups@[j as int].sys_idx == all[k].sys_idx);
                    }
                }
            }
        } else {
            proof {
                assert forall|k: int| 0 <= k < prefix.len() implies !on_planet(r.sys_idx, r.planet_idx)(
                    #[trigger] prefix[k],
                ) by {
                    if prefix[k].sys_idx == r.sys_idx && prefix[k].planet_idx == r.planet_idx {
                        assert(all[k] == prefix[k]);
                        assert(has_group(old_groups, all[k]));
                        let a = choose|a: int|
                            0 <= a < old_groups.len() && #[trigger] old_groups[a].sys_idx == all[k].sys_idx
                                && old_groups[a].planet_idx == all[k].planet_idx;
                        if a < j {
                        } else if a == j {
                        } else {
                            assert(key_lt(old_groups[j as int].sys_idx, old_groups[j as int].planet_idx, old_groups[a].sys_idx, old_groups[a].planet_idx));
                        }
                    }
                }
                lemma_select_none(prefix, on_planet(r.sys_idx, r.planet_idx));
            }
            let mut members: Vec<Region> = Vec::new();
            members.push(r);
            groups.insert(j, PlanetGroup { sys_idx: r.sys_idx, planet_idx: r.planet_idx, regions: members });
            proof {
                old_groups.insert_ensures(j as int, groups@[j as int]);
                assert(select(next, on_planet(r.sys_idx, r.planet_idx)) =~= seq![r]);
                assert forall|a: int, b: int| 0 <= a < b < groups@.len() implies key_lt(
                    groups@[a].sys_idx,
                    groups@[a].planet_idx,
                    groups@[b].sys_idx,
                    groups@[b].planet_idx,
                ) by {
                    if b < j {
                    } else if b == j {
                    } else if a < j {
                        assert(groups@[b] == old_groups[b - 1]);
                        if j < b - 1 {
                            assert(key_lt(old_groups[j as int].sys_idx, old_groups[j as int].planet_idx, old_groups[b - 1].sys_idx, old_groups[b - 1].planet_idx));
                        }
                    } else if a == j {
                        assert(groups@[b] == old_groups[b - 1]);
                        if j < b - 1 {
                            assert(key_lt(old_groups[j as int].sys_idx, old_groups[j as int].planet_idx, old_groups[b - 1].sys_idx, old_groups[b - 1].planet_idx));
                        }
                    } else {
                        assert(groups@[a] == old_groups[a - 1]);
                        assert(groups@[b] == old_groups[b - 1]);
                    }
                }
                assert forall|a: int| 0 <= a < groups@.len() implies (#[trigger] groups@[a]).regions@ == select(
                    next,
                    on_planet(groups@[a].sys_idx, groups@[a].planet_idx),
                ) && groups@[a].regions@.len() > 0 by {
                    if a < j {
                        assert(groups@[a] == old_groups[a]);
                    } else if a > j {
                        assert(groups@[a] == old_groups[a - 1]);
                        if j < a - 1 {
                            assert(key_lt(old_groups[j as int].sys_idx, old_groups[j as int].planet_idx, old_groups[a - 1].sys_idx, old_groups[a - 1].planet_idx));
                        }
                    }
                }
                assert forall|k: int| 0 <= k < i + 1 implies #[trigger] has_group(groups@, all[k]) by {
                    if k < i {
                        assert(has_group(old_groups, all[k]));
                        let a = choose|a: int|
                            0 <= a < old_groups.len() && #[trigger] old_groups[a].sys_idx == all[k].sys_idx
                                && old_groups[a].planet_idx == all[k].planet_idx;
                        if a < j {
                            assert(groups@[a] == old_groups[a]);
                        } else {
                            assert(groups@[a + 1] == old_groups[a]);
                        }
                    } else {
                        assert(groups@[j as int].sys_idx == all[k].sys_idx);
                    }
                }
            }
        }
        i = i + 1;
    }
    assert(all.subrange(0, all.len() as int) =~= all);
    groups
}

/// The sum of the regions' populations, in raw units.
pub open spec fn pop_sum(rs: Seq<Region>) -> int
    decreases rs.len(),
{
    if rs.len() == 0 {
        0
    } else {
        pop_sum(rs.drop_last()) + rs.last().pop
    }
}

/// A sum of `n` populations stays within `n * 2^63` of zero.
pub proof fn lemma_pop_sum_bound(rs: Seq<Region>)
    ensures
        -(rs.len() * 0x8000_0000_0000_0000) <= pop_sum(rs) <= rs.len() * 0x8000_0000_0000_0000,
    decreases rs.len(),
{
    if rs.len() > 0 {
        lemma_pop_sum_bound(rs.drop_last());
    }
}

/// The total population of `rs`, in raw units.
pub fn total_pop(rs: &Vec<Region>) -> (t: i128)
    ensures
        t == pop_sum(rs@),
{
    let mut t: i128 = 0;
    let mut i: usize = 0;
    while i < rs.len()
        invariant
            i <= rs@.len(),
            t == pop_sum(rs@.subrange(0, i as int)),
        decreases rs@.len() - i,
    {
        proof {
            let next = rs@.subrange(0, i + 1);
            assert(next.drop_last() =~= rs@.subrange(0, i as int));
            lemma_pop_sum_bound(next);
            assert(next.len() <= usize::MAX);
            assert(next.len() * 0x8000_0000_0000_0000 <= usize::MAX * 0x8000_0000_0000_0000);
        }
        t = t + rs[i].pop as i128;
        i = i + 1;
    }
    assert(rs@.subrange(0, rs@.len() as int) =~= rs@);
    t
}

/// A region of species `target`.
pub open spec fn of_species(target: Species) -> spec_fn(Region) -> bool {
    |r: Region| r.species == target
}

/// A region in system `sys`.
pub open spec fn in_system(sys: usize) -> spec_fn(Region) -> bool {
    |r: Region| r.sys_idx == sys
}

/// The regions of species `target`, in order.
pub fn regions_of_species(rs: &Vec<Region>, target: Species) -> (out: Vec<Region>)
    ensures
        out@ == select(rs@, of_species(target)),
{
    let mut out: Vec<Region> = Vec::new();
    let mut i: usize = 0;
    while i < rs.len()
        invariant
            i <= rs@.len(),
            out@ == select(rs@.subrange(0, i as int), of_species(target)),
        decreases rs@.len() - i,
    {
        proof {
            lemma_select_step(rs@, i as int, of_species(target));
        }
        if rs[i].species == target {
            out.push(rs[i]);
        } else {
            assert(out@ + Seq::<Region>::empty() =~= out@);
        }
        i = i + 1;
    }
    assert(rs@.subrange(0, rs@.len() as int) =~= rs@);
    out
}

/// The regions in system `sys`, in order.
pub fn regions_in_system(rs: &Vec<Region>, sys: usize) -> (out: Vec<Region>)
    ensures
        out@ == select(rs@, in_system(sys)),
{
    let mut out: Vec<Region> = Vec::new();
    let mut i: usize = 0;
    while i < rs.len()
        invariant
            i <= rs@.len(),
            out@ == select(rs@.subrange(0, i as int), in_system(sys)),
        decreases rs@.len() - i,
    {
        proof {
            lemma_select_step(rs@, i as int, in_system(sys));
        }
        if rs[i].sys_idx == sys {
            out.push(rs[i]);
        } else {
            assert(out@ + Seq::<Region>::empty() =~= out@);
        }
        i = i + 1;
    }
    assert(rs@.subrange(0, rs@.len() as int) =~= rs@);
    out
}

/// The name of system `sys`, or `?` when there is no such system.
pub open spec fn system_label(g: GalaxyView, sys: usize) -> Seq<char> {
    if sys < g.systems.len() {
        g.systems[sys as int].name
    } else {
        "?"@
    }
}

/// Every region's planet has a numeral: its index has a successor.
pub open spec fn nameable(rs: Seq<Region>) -> bool {
    forall|i: int| 0 <= i < rs.len() ==> (#[trigger] rs[i]).planet_idx < usize::MAX
}

/// The name of system `sys`, `?` when the index is out of range.
pub fn system_name(galaxy: &Galaxy, sys: usize) -> (s: String)
    ensures
        s@ == system_label(galaxy@, sys),
{
    if sys < galaxy.systems.len() {
        galaxy.systems[sys].name.clone()
    } else {
        String::from_str("?")
    }
}

/// The system index of each region.
fn sys_indices(rs: &Vec<Region>) -> (out: Vec<usize>)
    ensures
        out@.len() == rs@.len(),
        forall|k: int| 0 <= k < rs@.len() ==> #[trigger] out@[k] == rs@[k].sys_idx,
{
    let mut out: Vec<usize> = Vec::new();
    let mut i: usize = 0;
    while i < rs.len()
        invariant
            i <= rs@.len(),
            out@.len() == i,
            forall|k: int| 0 <= k < i ==> #[trigger] out@[k] == rs@[k].sys_idx,
        decreases rs@.len() - i,
    {
        out.push(rs[i].sys_idx);
        i = i + 1;
    }
    out
}

/// One planet's share of a report: its name, population and region count.
#[derive(Debug)]
pub struct PlanetTally {
    pub planet_idx: usize,
    pub name: String,
    pub pop: i128,
    pub regions: usize,
}

/// `t` tallies the regions of `rs` on planet `t.planet_idx` of system `sys`,
/// of which there is at least one.
pub open spec fn planet_tally_ok(g: GalaxyView, rs: Seq<Region>, sys: usize, t: PlanetTally) -> bool {
    let on = select(rs, on_planet(sys, t.planet_idx));
    &&& on.len() > 0
    &&& t.name@ == planet_name_of(g, on[0])
    &&& t.pop == pop_sum(on)
    &&& t.regions == on.len()
}

/// `ts` tallies the regions `rs` of system `sys` planet by planet, in
/// ascending planet order, one tally per planet that has a region.
pub open spec fn planets_tallied(g: GalaxyView, rs: Seq<Region>, sys: usize, ts: Seq<PlanetTally>) -> bool {
    &&& forall|i: int, j: int| 0 <= i < j < ts.len() ==> ts[i].planet_idx < ts[j].planet_idx
    &&& forall|i: int| 0 <= i < ts.len() ==> planet_tally_ok(g, rs, sys, #[trigger] ts[i])
    &&& forall|k: int| 0 <= k < rs.len() ==> #[trigger] has_planet(ts, rs[k].planet_idx)
}

/// Some tally of `ts` is for planet `planet`.
pub open spec fn has_planet(ts: Seq<PlanetTally>, planet: usize) -> bool {
    exists|i: int| 0 <= i < ts.len() && #[trigger] ts[i].planet_idx == planet
}

/// Tally the regions of system `sys`, planet by planet.
fn tally_planets(galaxy: &Galaxy, rs: &Vec<Region>, sys: usize) -> (out: Vec<PlanetTally>)
    requires
        nameable(rs@),
        forall|k: int| 0 <= k < rs@.len() ==> (#[trigger] rs@[k]).sys_idx == sys,
    ensures
        planets_tallied(galaxy@, rs@, sys, out@),
{
    let groups = group_regions(rs);
    let mut out: Vec<PlanetTally> = Vec::new();
    let mut i: usize = 0;
    while i < groups.len()
        invariant
            nameable(rs@),
            forall|k: int| 0 <= k < rs@.len() ==> (#[trigger] rs@[k]).sys_idx == sys,
            grouped_by_planet(rs@, groups@),
            i <= groups@.len(),
            out@.len() == i,
            forall|a: int|
                0 <= a < i ==> (#[trigger] out@[a]).planet_idx == groups@[a].planet_idx && groups@[a].sys_idx
                    == sys && planet_tally_ok(galaxy@, rs@, sys, out@[a]),
        decreases groups@.len() - i,
    {
        let g = &groups[i];
        let ghost members = g.regions@;
        proof {
            lemma_select_members(rs@, on_planet(g.sys_idx, g.planet_idx));
            assert(members.len() > 0);
            assert(rs@.contains(members[0]));
            let k = choose|k: int| 0 <= k < rs@.len() && rs@[k] == members[0];
            assert(rs@[k].sys_idx == sys);
            assert(on_planet(g.sys_idx, g.planet_idx)(members[0]));
        }
        let first = &g.regions[0];
        let name = galaxy.planet_name(first);
        let pop = total_pop(&g.regions);
        out.push(PlanetTally { planet_idx: g.planet_idx, name, pop, regions: g.regions.len() });
        i = i + 1;
    }
    proof {
        assert forall|k: int| 0 <= k < rs@.len() implies #[trigger] has_planet(out@, rs@[k].planet_idx) by {
            assert(has_group(groups@, rs@[k]));
            let a = choose|a: int|
                0 <= a < groups@.len() && #[trigger] groups@[a].sys_idx == rs@[k].sys_idx
                    && groups@[a].planet_idx == rs@[k].planet_idx;
            assert(out@[a].planet_idx == rs@[k].planet_idx);
        }
        assert forall|a: int, b: int| 0 <= a < b < out@.len() implies out@[a].planet_idx < out@[b].planet_idx by {
            assert(key_lt(groups@[a].sys_idx, groups@[a].planet_idx, groups@[b].sys_idx, groups@[b].planet_idx));
        }
    }
    out
}

/// The regions of species `target` in system `sys`, in order.
pub open spec fn system_regions(rs: Seq<Region>, target: Species, sys: usize) -> Seq<Region> {
    select(select(rs, of_species(target)), in_system(sys))
}

/// One system's share of an infestation report.
#[derive(Debug)]
pub struct SystemTally {
    pub sys_idx: usize,
    pub name: String,
    /// The player owns the system.
    pub mine: bool,
    pub pop: i128,
    pub regions: usize,
    pub planets: Vec<PlanetTally>,
}

/// `t` tallies the regions of `target` in its system, of which there is at
/// least one.
pub open spec fn system_tally_ok(g: GalaxyView, target: Species, owned: Set<usize>, t: SystemTally) -> bool {
    let sr = system_regions(g.regions, target, t.sys_idx);
    &&& sr.len() > 0
    &&& t.name@ == system_label(g, t.sys_idx)
    &&& t.mine == owned.contains(t.sys_idx)
    &&& t.pop == pop_sum(sr)
    &&& t.regions == sr.len()
    &&& planets_tallied(g, sr, t.sys_idx, t.planets@)
}

/// `a` lists before `b`: more population first, then the lower system index.
pub open spec fn heavier_system(a: SystemTally, b: SystemTally) -> bool {
    a.pop > b.pop || (a.pop == b.pop && a.sys_idx < b.sys_idx)
}

/// Some tally of `ts` is for system `sys`.
pub open spec fn has_system(ts: Seq<SystemTally>, sys: usize) -> bool {
    exists|i: int| 0 <= i < ts.len() && #[trigger] ts[i].sys_idx == sys
}

/// How many of the tallies are for the player's systems.
pub open spec fn mine_count(ts: Seq<SystemTally>) -> nat
    decreases ts.len(),
{
    if ts.len() == 0 {
        0
    } else {
        mine_count(ts.drop_last()) + if ts.last().mine {
            1nat
        } else {
            0nat
        }
    }
}

/// Where a species lives: its systems, heaviest first, and its totals.
#[derive(Debug)]
pub struct Infestation {
    pub systems: Vec<SystemTally>,
    /// Total population of the species, in raw units.
    pub pop: i128,
    /// Number of regions the species holds.
    pub regions: usize,
    /// Number of listed systems the player owns.
    pub mine: usize,
}

/// The regions of a subsequence of `rs` are regions of `rs`.
proof fn lemma_nameable_select(rs: Seq<Region>, pred: spec_fn(Region) -> bool)
    requires
        nameable(rs),
    ensures
        nameable(select(rs, pred)),
{
    lemma_select_members(rs, pred);
    let out = select(rs, pred);
    assert forall|i: int| 0 <= i < out.len() implies (#[trigger] out[i]).planet_idx < usize::MAX by {
        assert(rs.contains(out[i]));
        let k = choose|k: int| 0 <= k < rs.len() && rs[k] == out[i];
        assert(rs[k].planet_idx < usize::MAX);
    }
}

/// The systems where `target` lives, with per-system and per-planet
/// population, heaviest system first (ties by system index), and whether
/// the player (`owned`) holds each.
pub fn infestation_report(galaxy: &Galaxy, target: Species, owned: &BTreeSet<usize>) -> (rep: Infestation)
    requires
        nameable(galaxy@.regions),
    ensures
        forall|i: int, j: int| 0 <= i < j < rep.systems@.len() ==> heavier_system(rep.systems@[i], rep.systems@[j]),
        forall|i: int| 0 <= i < rep.systems@.len() ==> system_tally_ok(galaxy@, target, owned@, #[trigger] rep.systems@[i]),
        forall|k: int|
            0 <= k < select(galaxy@.regions, of_species(target)).len() ==> #[trigger] has_system(
                rep.systems@,
                select(galaxy@.regions, of_species(target))[k].sys_idx,
            ),
        rep.pop == pop_sum(select(galaxy@.regions, of_species(target))),
        rep.regions == select(galaxy@.regions, of_species(target)).len(),
        rep.mine == mine_count(rep.systems@),
        rep.pop == tallied_pop(rep.systems@),
        rep.regions == tallied_regions(rep.systems@),
{
    let targeted = regions_of_species(&galaxy.regions, target);
    proof {
        lemma_nameable_select(galaxy@.regions, of_species(target));
    }
    let sys_vals = sys_indices(&targeted);
    let keys = sorted_distinct(&sys_vals);
    let mut weights: Vec<i128> = Vec::new();
    let mut a: usize = 0;
    while a < keys.len()
        invariant
            a <= keys@.len(),
            weights@.len() == a,
            forall|x: int| 0 <= x < a ==> #[trigger] weights@[x] == pop_sum(select(targeted@, in_system(keys@[x]))),
        decreases keys@.len() - a,
    {
        let sr = regions_in_system(&targeted, keys[a]);
        weights.push(total_pop(&sr));
        a = a + 1;
    }
    let order = rank(&weights);
    let mut systems: Vec<SystemTally> = Vec::new();
    let mut mine: usize = 0;
    let mut i: usize = 0;
    while i < order.len()
        invariant
            targeted@ == select(galaxy@.regions, of_species(target)),
            nameable(targeted@),
            forall|k: int| 0 <= k < targeted@.len() ==> #[trigger] sys_vals@[k] == targeted@[k].sys_idx,
            sys_vals@.len() == targeted@.len(),
            crate::order::increasing(keys@),
            forall|x: int| 0 <= x < keys@.len() ==> sys_vals@.contains(#[trigger] keys@[x]),
            weights@.len() == keys@.len(),
            forall|x: int| 0 <= x < keys@.len() ==> #[trigger] weights@[x] == pop_sum(select(targeted@, in_system(keys@[x]))),
            order@.len() == weights@.len(),
            forall|x: int| 0 <= x < order@.len() ==> #[trigger] order@[x] < weights@.len(),
            forall|x: int, y: int| 0 <= x < y < order@.len() ==> crate::order::ranks_before(weights@, order@[x], order@[y]),
            i <= order@.len(),
            systems@.len() == i,
            mine <= i,
            mine == mine_count(systems@),
            forall|x: int| 0 <= x < i ==> (#[trigger] systems@[x]).sys_idx == keys@[order@[x] as int],
            forall|x: int| 0 <= x < i ==> system_tally_ok(galaxy@, target, owned@, #[trigger] systems@[x]),
        decreases order@.len() - i,
    {
        let s = keys[order[i]];
        let sr = regions_in_system(&targeted, s);
        proof {
            lemma_nameable_select(targeted@, in_system(s));
            lemma_select_members(targeted@, in_system(s));
            assert forall|k: int| 0 <= k < sr@.len() implies (#[trigger] sr@[k]).sys_idx == s by {
                assert(in_system(s)(sr@[k]));
            }
            assert(sys_vals@.contains(s));
            let k = choose|k: int| 0 <= k < sys_vals@.len() && sys_vals@[k] == s;
            assert(targeted@[k].sys_idx == s);
            lemma_select_some(targeted@, in_system(s), k);
        }
        let planets = tally_planets(galaxy, &sr, s);
        let is_mine = owned_allows(Some(owned), s);
        let pop = total_pop(&sr);
        let row = SystemTally {
            sys_idx: s,
            name: system_name(galaxy, s),
            mine: is_mine,
            pop,
            regions: sr.len(),
            planets,
        };
        let ghost before = systems@;
        systems.push(row);
        proof {
            assert(systems@.drop_last() =~= before);
        }
        if is_mine {
            mine = mine + 1;
        }
        i = i + 1;
    }
    proof {
        assert forall|x: int, y: int| 0 <= x < y < systems@.len() implies heavier_system(systems@[x], systems@[y]) by {
            assert(crate::order::ranks_before(weights@, order@[x], order@[y]));
            if order@[x] > order@[y] {
                assert(keys@[order@[y] as int] < keys@[order@[x] as int]);
            }
        }
        assert forall|k: int| 0 <= k < targeted@.len() implies #[trigger] has_system(systems@, targeted@[k].sys_idx) by {
            assert(sys_vals@[k] == targeted@[k].sys_idx);
            assert(keys@.contains(sys_vals@[k]));
            let x = choose|x: int| 0 <= x < keys@.len() && keys@[x] == sys_vals@[k];
            assert(order@.contains(x as usize));
            let y = choose|y: int| 0 <= y < order@.len() && order@[y] == x as usize;
            assert(systems@[y].sys_idx == targeted@[k].sys_idx);
        }
        let keys_out = systems@.map_values(|t: SystemTally| t.sys_idx);
        assert(keys_out.no_duplicates()) by {
            assert forall|x: int, y: int| 0 <= x < keys_out.len() && 0 <= y < keys_out.len() && x != y implies keys_out[x]
                != keys_out[y] by {
                if x < y {
                    assert(heavier_system(systems@[x], systems@[y]));
                } else {
                    assert(heavier_system(systems@[y], systems@[x]));
                }
            }
        }
        assert forall|k: int| 0 <= k < targeted@.len() implies keys_out.contains(#[trigger] targeted@[k].sys_idx) by {
            assert(has_system(systems@, targeted@[k].sys_idx));
            let y = choose|y: int| 0 <= y < systems@.len() && #[trigger] systems@[y].sys_idx == targeted@[k].sys_idx;
            assert(keys_out[y] == targeted@[k].sys_idx);
        }
        lemma_split_by_system(keys_out, targeted@);
        lemma_tallied_keyed(galaxy@, target, owned@, systems@);
    }
    let pop = total_pop(&targeted);
    Infestation { systems, pop, regions: targeted.len(), mine }
}

/// A region not of species `target`.
pub open spec fn not_species(target: Species) -> spec_fn(Region) -> bool {
    |r: Region| r.species != target
}

/// The regions not of species `target`, in order.
pub fn regions_not_of_species(rs: &Vec<Region>, target: Species) -> (out: Vec<Region>)
    ensures
        out@ == select(rs@, not_species(target)),
{
    let mut out: Vec<Region> = Vec::new();
    let mut i: usize = 0;
    while i < rs.len()
        invariant
            i <= rs@.len(),
            out@ == select(rs@.subrange(0, i as int), not_species(target)),
        decreases rs@.len() - i,
    {
        proof {
            lemma_select_step(rs@, i as int, not_species(target));
        }
        if rs[i].species != target {
            out.push(rs[i]);
        } else {
            assert(out@ + Seq::<Region>::empty() =~= out@);
        }
        i = i + 1;
    }
    assert(rs@.subrange(0, rs@.len() as int) =~= rs@);
    out
}

/// A copy of the regions.
pub fn copy_regions(rs: &Vec<Region>) -> (out: Vec<Region>)
    ensures
        out@ == rs@,
{
    let mut out: Vec<Region> = Vec::new();
    let mut i: usize = 0;
    while i < rs.len()
        invariant
            i <= rs@.len(),
            out@ == rs@.subrange(0, i as int),
        decreases rs@.len() - i,
    {
        out.push(rs[i]);
        assert(rs@.subrange(0, i + 1) =~= rs@.subrange(0, i as int).push(rs@[i as int]));
        i = i + 1;
    }
    assert(rs@.subrange(0, rs@.len() as int) =~= rs@);
    out
}

/// The target shares the planet with another species: the planet holds
/// regions of both.
pub open spec fn shared_planet(rs: Seq<Region>, target: Species, sys: usize, planet: usize) -> bool {
    let on = select(rs, on_planet(sys, planet));
    select(on, of_species(target)).len() > 0 && select(on, not_species(target)).len() > 0
}

/// Some region of `rs` has a species named `t`.
pub open spec fn has_species_named(rs: Seq<Region>, t: Seq<char>) -> bool {
    exists|k: int| 0 <= k < rs.len() && name_of((#[trigger] rs[k]).species) == t
}

/// A planet where the target lives beside other species.
#[derive(Debug)]
pub struct RiskPlanet {
    pub sys_idx: usize,
    pub planet_idx: usize,
    pub name: String,
    /// The target's population there, in raw units.
    pub target_pop: i128,
    /// Everyone else's population there, in raw units.
    pub other_pop: i128,
    /// The other species' names, sorted, each once.
    pub other_species: Vec<String>,
    /// All of the planet's regions, in file order.
    pub regions: Vec<Region>,
}

/// `p` describes its planet's share of the target and of everyone else.
pub open spec fn risk_ok(g: GalaxyView, target: Species, p: RiskPlanet) -> bool {
    let on = select(g.regions, on_planet(p.sys_idx, p.planet_idx));
    let others = select(on, not_species(target));
    &&& shared_planet(g.regions, target, p.sys_idx, p.planet_idx)
    &&& p.regions@ == on
    &&& p.name@ == planet_name_of(g, on[0])
    &&& p.target_pop == pop_sum(select(on, of_species(target)))
    &&& p.other_pop == pop_sum(others)
    &&& texts_increasing(p.other_species@.map_values(|t: String| t@))
    &&& forall|i: int|
        0 <= i < p.other_species@.len() ==> #[trigger] has_species_named(others, p.other_species@[i]@)
    &&& forall|k: int| 0 <= k < others.len() ==> #[trigger] has_text(p.other_species@, name_of(others[k].species))
}

/// `a` lists before `b`: more of the target first, then by planet.
pub open spec fn riskier(a: RiskPlanet, b: RiskPlanet) -> bool {
    a.target_pop > b.target_pop || (a.target_pop == b.target_pop && key_lt(
        a.sys_idx,
        a.planet_idx,
        b.sys_idx,
        b.planet_idx,
    ))
}

/// Some entry of `ps` is planet `planet` of system `sys`.
pub open spec fn has_risk(ps: Seq<RiskPlanet>, sys: usize, planet: usize) -> bool {
    exists|i: int| 0 <= i < ps.len() && #[trigger] ps[i].sys_idx == sys && ps[i].planet_idx == planet
}

/// Whether some region of `rs` has species `target` (`same`), or some has
/// another species (`!same`).
fn any_species(rs: &Vec<Region>, target: Species, same: bool) -> (b: bool)
    ensures
        same ==> b == (select(rs@, of_species(target)).len() > 0),
        !same ==> b == (select(rs@, not_species(target)).len() > 0),
{
    let mut i: usize = 0;
    while i < rs.len()
        invariant
            i <= rs@.len(),
            forall|k: int| 0 <= k < i ==> ((#[trigger] rs@[k]).species == target) != same,
        decreases rs@.len() - i,
    {
        if (rs[i].species == target) == same {
            proof {
                if same {
                    lemma_select_some(rs@, of_species(target), i as int);
                } else {
                    lemma_select_some(rs@, not_species(target), i as int);
                }
            }
            return true;
        }
        i = i + 1;
    }
    proof {
        if same {
            lemma_select_none(rs@, of_species(target));
        } else {
            lemma_select_none(rs@, not_species(target));
        }
    }
    false
}

/// Describe one shared planet.
fn risk_planet(galaxy: &Galaxy, group: &PlanetGroup, target: Species) -> (p: RiskPlanet)
    requires
        group.regions@.len() > 0,
        group.regions@[0].planet_idx < usize::MAX,
    ensures
        p.sys_idx == group.sys_idx,
        p.planet_idx == group.planet_idx,
        p.regions@ == group.regions@,
        p.name@ == planet_name_of(galaxy@, group.regions@[0]),
        p.target_pop == pop_sum(select(group.regions@, of_species(target))),
        p.other_pop == pop_sum(select(group.regions@, not_species(target))),
        texts_increasing(p.other_species@.map_values(|t: String| t@)),
        forall|i: int|
            0 <= i < p.other_species@.len() ==> #[trigger] has_species_named(
                select(group.regions@, not_species(target)),
                p.other_species@[i]@,
            ),
        forall|k: int|
            0 <= k < select(group.regions@, not_species(target)).len() ==> #[trigger] has_text(
                p.other_species@,
                name_of(select(group.regions@, not_species(target))[k].species),
            ),
{
    let mine = regions_of_species(&group.regions, target);
    let others = regions_not_of_species(&group.regions, target);
    let mut names: Vec<String> = Vec::new();
    let mut k: usize = 0;
    while k < others.len()
        invariant
            k <= others@.len(),
            names@.len() == k,
            forall|a: int| 0 <= a < k ==> (#[trigger] names@[a])@ == name_of(others@[a].species),
        decreases others@.len() - k,
    {
        names.push(others[k].species.name());
        k = k + 1;
    }
    let other_species = sorted_distinct_texts(&names);
    proof {
        assert forall|i: int| 0 <= i < other_species@.len() implies #[trigger] has_species_named(
            others@,
            other_species@[i]@,
        ) by {
            assert(has_text(names@, other_species@[i]@));
            let a = choose|a: int| 0 <= a < names@.len() && (#[trigger] names@[a])@ == other_species@[i]@;
            assert(name_of(others@[a].species) == other_species@[i]@);
        }
        assert forall|k: int| 0 <= k < others@.len() implies #[trigger] has_text(
            other_species@,
            name_of(others@[k].species),
        ) by {
            assert(names@[k]@ == name_of(others@[k].species));
            assert(has_text(other_species@, names@[k]@));
        }
    }
    RiskPlanet {
        sys_idx: group.sys_idx,
        planet_idx: group.planet_idx,
        name: galaxy.planet_name(&group.regions[0]),
        target_pop: total_pop(&mine),
        other_pop: total_pop(&others),
        other_species,
        regions: copy_regions(&group.regions),
    }
}

/// Group `p` of `gs` is a shared planet and `w` is the target's population
/// there.
pub open spec fn picked_ok(rs: Seq<Region>, gs: Seq<PlanetGroup>, target: Species, p: usize, w: i128) -> bool {
    &&& p < gs.len()
    &&& shared_planet(rs, target, gs[p as int].sys_idx, gs[p as int].planet_idx)
    &&& w == pop_sum(select(gs[p as int].regions@, of_species(target)))
}

/// The planets where `target` lives beside other species (at risk of
/// bioharvesting), most target population first, ties in planet order.
pub fn at_risk_report(galaxy: &Galaxy, target: Species) -> (out: Vec<RiskPlanet>)
    requires
        nameable(galaxy@.regions),
    ensures
        forall|i: int, j: int| 0 <= i < j < out@.len() ==> riskier(out@[i], out@[j]),
        forall|i: int| 0 <= i < out@.len() ==> risk_ok(galaxy@, target, #[trigger] out@[i]),
        forall|k: int|
            0 <= k < galaxy@.regions.len() && shared_planet(
                galaxy@.regions,
                target,
                galaxy@.regions[k].sys_idx,
                galaxy@.regions[k].planet_idx,
            ) ==> #[trigger] has_risk(out@, galaxy@.regions[k].sys_idx, galaxy@.regions[k].planet_idx),
{
    let ghost rs = galaxy@.regions;
    let groups = by_planet(galaxy);
    let mut picked: Vec<usize> = Vec::new();
    let mut weights: Vec<i128> = Vec::new();
    let mut a: usize = 0;
    while a < groups.len()
        invariant
            grouped_by_planet(rs, groups@),
            a <= groups@.len(),
            picked@.len() == weights@.len(),
            forall|x: int| 0 <= x < picked@.len() ==> #[trigger] picked@[x] < a,
            forall|x: int, y: int| 0 <= x < y < picked@.len() ==> picked@[x] < picked@[y],
            forall|x: int| 0 <= x < picked@.len() ==> #[trigger] picked_ok(rs, groups@, target, picked@[x], weights@[x]),
            forall|b: int|
                0 <= b < a && shared_planet(rs, target, groups@[b].sys_idx, groups@[b].planet_idx) ==> #[trigger] picked@.contains(
                    b as usize,
                ),
        decreases groups@.len() - a,
    {
        let g = &groups[a];
        let ghost before = picked@;
        let ghost old_weights = weights@;
        proof {
            assert(g.regions@ == select(rs, on_planet(g.sys_idx, g.planet_idx)));
        }
        if any_species(&g.regions, target, true) && any_species(&g.regions, target, false) {
            let mine = regions_of_species(&g.regions, target);
            picked.push(a);
            weights.push(total_pop(&mine));
            proof {
                assert(picked@.last() == a);
                assert forall|x: int| 0 <= x < picked@.len() implies #[trigger] picked_ok(
                    rs,
                    groups@,
                    target,
                    picked@[x],
                    weights@[x],
                ) by {
                    if x < before.len() {
                        assert(picked@[x] == before[x]);
                        assert(weights@[x] == old_weights[x]);
                        assert(picked_ok(rs, groups@, target, before[x], old_weights[x]));
                    } else {
                        assert(picked@[x] == a);
                    }
                }
                assert forall|b: int|
                    0 <= b < a + 1 && shared_planet(rs, target, groups@[b].sys_idx, groups@[b].planet_idx) implies #[trigger] picked@.contains(
                    b as usize,
                ) by {
                    if b < a {
                        assert(before.contains(b as usize));
                        let x = choose|x: int| 0 <= x < before.len() && before[x] == b as usize;
                        assert(picked@[x] == b as usize);
                    } else {
                        assert(picked@[picked@.len() - 1] == b as usize);
                    }
                }
            }
        } else {
            proof {
                assert forall|b: int|
                    0 <= b < a + 1 && shared_planet(rs, target, groups@[b].sys_idx, groups@[b].planet_idx) implies #[trigger] picked@.contains(
                    b as usize,
                ) by {
                    if b == a {
                        assert(groups@[b].regions@ == select(rs, on_planet(groups@[b].sys_idx, groups@[b].planet_idx)));
                    }
                }
            }
        }
        a = a + 1;
    }
    let order = rank(&weights);
    let mut out: Vec<RiskPlanet> = Vec::new();
    let mut i: usize = 0;
    while i < order.len()
        invariant
            rs == galaxy@.regions,
            nameable(rs),
            grouped_by_planet(rs, groups@),
            picked@.len() == weights@.len(),
            forall|x: int| 0 <= x < picked@.len() ==> #[trigger] picked@[x] < groups@.len(),
            forall|x: int, y: int| 0 <= x < y < picked@.len() ==> picked@[x] < picked@[y],
            forall|x: int| 0 <= x < picked@.len() ==> #[trigger] picked_ok(rs, groups@, target, picked@[x], weights@[x]),
            order@.len() == weights@.len(),
            forall|x: int| 0 <= x < order@.len() ==> #[trigger] order@[x] < weights@.len(),
            forall|x: int, y: int| 0 <= x < y < order@.len() ==> crate::order::ranks_before(weights@, order@[x], order@[y]),
            i <= order@.len(),
            out@.len() == i,
            forall|x: int|
                0 <= x < i ==> (#[trigger] out@[x]).sys_idx == groups@[picked@[order@[x] as int] as int].sys_idx
                    && out@[x].planet_idx == groups@[picked@[order@[x] as int] as int].planet_idx
                    && out@[x].target_pop == weights@[order@[x] as int],
            forall|x: int| 0 <= x < i ==> risk_ok(galaxy@, target, #[trigger] out@[x]),
        decreases order@.len() - i,
    {
        let g = &groups[picked[order[i]]];
        proof {
            assert(picked_ok(rs, groups@, target, picked@[order@[i as int] as int], weights@[order@[i as int] as int]));
            lemma_select_members(rs, on_planet(g.sys_idx, g.planet_idx));
            assert(rs.contains(g.regions@[0]));
            let k = choose|k: int| 0 <= k < rs.len() && rs[k] == g.regions@[0];
            assert(rs[k].planet_idx < usize::MAX);
        }
        let p = risk_planet(galaxy, g, target);
        let ghost old_out = out@;
        out.push(p);
        proof {
            assert(g.regions@ == select(rs, on_planet(g.sys_idx, g.planet_idx)));
            assert(risk_ok(galaxy@, target, out@[i as int]));
            assert forall|x: int| 0 <= x < i + 1 implies risk_ok(galaxy@, target, #[trigger] out@[x]) by {
                if x < i {
                    assert(out@[x] == old_out[x]);
                }
            }
        }
        i = i + 1;
    }
    proof {
        assert forall|x: int, y: int| 0 <= x < y < out@.len() implies riskier(out@[x], out@[y]) by {
            assert(crate::order::ranks_before(weights@, order@[x], order@[y]));
            assert(picked_ok(rs, groups@, target, picked@[order@[x] as int], weights@[order@[x] as int]));
            assert(picked_ok(rs, groups@, target, picked@[order@[y] as int], weights@[order@[y] as int]));
            let px = picked@[order@[x] as int] as int;
            let py = picked@[order@[y] as int] as int;
            if order@[x] < order@[y] {
                assert(px < py);
                assert(key_lt(groups@[px].sys_idx, groups@[px].planet_idx, groups@[py].sys_idx, groups@[py].planet_idx));
            }
        }
        assert forall|k: int|
            0 <= k < rs.len() && shared_planet(rs, target, rs[k].sys_idx, rs[k].planet_idx) implies #[trigger] has_risk(
            out@,
            rs[k].sys_idx,
            rs[k].planet_idx,
        ) by {
            assert(has_group(groups@, rs[k]));
            let b = choose|b: int|
                0 <= b < groups@.len() && #[trigger] groups@[b].sys_idx == rs[k].sys_idx && groups@[b].planet_idx
                    == rs[k].planet_idx;
            assert(picked@.contains(b as usize));
            let x = choose|x: int| 0 <= x < picked@.len() && picked@[x] == b as usize;
            assert(order@.contains(x as usize));
            let y = choose|y: int| 0 <= y < order@.len() && order@[y] == x as usize;
            assert(out@[y].sys_idx == rs[k].sys_idx);
        }
    }
    out
}

/// A region whose species has `race1` byte `b`.
pub open spec fn of_race1(b: u8) -> spec_fn(Region) -> bool {
    |r: Region| race1_of(r.species) == b
}

/// The number of distinct systems among the regions.
pub open spec fn distinct_systems(rs: Seq<Region>) -> nat {
    rs.map_values(|r: Region| r.sys_idx).to_set().len()
}

/// One species' totals across the galaxy.
#[derive(Debug)]
pub struct SpeciesTotal {
    pub race1: u8,
    /// The display name of the species.
    pub name: String,
    /// Population in raw units.
    pub pop: i128,
    pub regions: usize,
    /// Systems where it holds at least one region.
    pub systems: usize,
}

/// `t` totals the regions of `rs` whose species has its `race1` byte; there
/// is at least one, and the name is that of the first.
pub open spec fn total_ok(rs: Seq<Region>, t: SpeciesTotal) -> bool {
    let group = select(rs, of_race1(t.race1));
    &&& group.len() > 0
    &&& t.name@ == name_of(group[0].species)
    &&& t.pop == pop_sum(group)
    &&& t.regions == group.len()
    &&& t.systems == distinct_systems(group)
}

/// `a` lists before `b`: more population first, then the lower `race1`.
pub open spec fn heavier_total(a: SpeciesTotal, b: SpeciesTotal) -> bool {
    a.pop > b.pop || (a.pop == b.pop && a.race1 < b.race1)
}

/// Some total of `ts` is for `race1` byte `b`.
pub open spec fn has_total(ts: Seq<SpeciesTotal>, b: u8) -> bool {
    exists|i: int| 0 <= i < ts.len() && #[trigger] ts[i].race1 == b
}

/// The regions whose species has `race1` byte `b`, in order.
fn regions_of_race(rs: &Vec<Region>, b: u8) -> (out: Vec<Region>)
    ensures
        out@ == select(rs@, of_race1(b)),
{
    let mut out: Vec<Region> = Vec::new();
    let mut i: usize = 0;
    while i < rs.len()
        invariant
            i <= rs@.len(),
            out@ == select(rs@.subrange(0, i as int), of_race1(b)),
        decreases rs@.len() - i,
    {
        proof {
            lemma_select_step(rs@, i as int, of_race1(b));
        }
        if rs[i].species.race1() == b {
            out.push(rs[i]);
        } else {
            assert(out@ + Seq::<Region>::empty() =~= out@);
        }
        i = i + 1;
    }
    assert(rs@.subrange(0, rs@.len() as int) =~= rs@);
    out
}

/// The number of distinct systems among the regions.
pub fn count_systems(rs: &Vec<Region>) -> (n: usize)
    ensures
        n == distinct_systems(rs@),
{
    let sys_vals = sys_indices(rs);
    let distinct = sorted_distinct(&sys_vals);
    proof {
        let m = rs@.map_values(|r: Region| r.sys_idx);
        assert(sys_vals@ =~= m);
        assert(distinct@.no_duplicates()) by {
            assert forall|i: int, j: int| 0 <= i < distinct@.len() && 0 <= j < distinct@.len() && i != j implies distinct@[i]
                != distinct@[j] by {
                if i < j {
                    assert(distinct@[i] < distinct@[j]);
                } else {
                    assert(distinct@[j] < distinct@[i]);
                }
            }
        }
        distinct@.unique_seq_to_set();
        assert forall|x: usize| distinct@.to_set().contains(x) <==> m.to_set().contains(x) by {
            if distinct@.contains(x) {
                let i = choose|i: int| 0 <= i < distinct@.len() && distinct@[i] == x;
                assert(sys_vals@.contains(distinct@[i]));
            }
            if m.contains(x) {
                let k = choose|k: int| 0 <= k < m.len() && m[k] == x;
                assert(distinct@.contains(sys_vals@[k]));
            }
        }
        assert(distinct@.to_set() =~= m.to_set());
    }
    distinct.len()
}

/// The race byte of each region.
fn race_bytes(rs: &Vec<Region>) -> (out: Vec<usize>)
    ensures
        out@.len() == rs@.len(),
        forall|k: int| 0 <= k < rs@.len() ==> #[trigger] out@[k] == race1_of(rs@[k].species),
{
    let mut out: Vec<usize> = Vec::new();
    let mut i: usize = 0;
    while i < rs.len()
        invariant
            i <= rs@.len(),
            out@.len() == i,
            forall|k: int| 0 <= k < i ==> #[trigger] out@[k] == race1_of(rs@[k].species),
        decreases rs@.len() - i,
    {
        let b = rs[i].species.race1();
        out.push(b as usize);
        i = i + 1;
    }
    out
}

/// Per-species totals, one per `race1` byte present, most populous first
/// (ties by `race1`).
pub fn species_totals(rs: &Vec<Region>) -> (out: Vec<SpeciesTotal>)
    ensures
        forall|i: int, j: int| 0 <= i < j < out@.len() ==> heavier_total(out@[i], out@[j]),
        forall|i: int| 0 <= i < out@.len() ==> total_ok(rs@, #[trigger] out@[i]),
        forall|k: int| 0 <= k < rs@.len() ==> #[trigger] has_total(out@, race1_of(rs@[k].species)),
{
    let bytes = race_bytes(rs);
    let keys = sorted_distinct(&bytes);
    let mut weights: Vec<i128> = Vec::new();
    let mut a: usize = 0;
    while a < keys.len()
        invariant
            forall|x: int| 0 <= x < keys@.len() ==> bytes@.contains(#[trigger] keys@[x]),
            forall|k: int| 0 <= k < rs@.len() ==> #[trigger] bytes@[k] == race1_of(rs@[k].species),
            bytes@.len() == rs@.len(),
            a <= keys@.len(),
            weights@.len() == a,
            forall|x: int| 0 <= x < a ==> #[trigger] weights@[x] == pop_sum(select(rs@, of_race1(keys@[x] as u8))),
        decreases keys@.len() - a,
    {
        proof {
            let k = choose|k: int| 0 <= k < bytes@.len() && bytes@[k] == keys@[a as int];
            assert(keys@[a as int] < 256);
        }
        let group = regions_of_race(rs, keys[a] as u8);
        weights.push(total_pop(&group));
        a = a + 1;
    }
    let order = rank(&weights);
    let mut out: Vec<SpeciesTotal> = Vec::new();
    let mut i: usize = 0;
    while i < order.len()
        invariant
            forall|k: int| 0 <= k < rs@.len() ==> #[trigger] bytes@[k] == race1_of(rs@[k].species),
            bytes@.len() == rs@.len(),
            crate::order::increasing(keys@),
            forall|x: int| 0 <= x < keys@.len() ==> bytes@.contains(#[trigger] keys@[x]),
            weights@.len() == keys@.len(),
            forall|x: int| 0 <= x < keys@.len() ==> #[trigger] weights@[x] == pop_sum(select(rs@, of_race1(keys@[x] as u8))),
            order@.len() == weights@.len(),
            forall|x: int| 0 <= x < order@.len() ==> #[trigger] order@[x] < weights@.len(),
            forall|x: int, y: int| 0 <= x < y < order@.len() ==> crate::order::ranks_before(weights@, order@[x], order@[y]),
            i <= order@.len(),
            out@.len() == i,
            forall|x: int| 0 <= x < i ==> (#[trigger] out@[x]).race1 == keys@[order@[x] as int],
            forall|x: int| 0 <= x < i ==> total_ok(rs@, #[trigger] out@[x]),
        decreases order@.len() - i,
    {
        let key = keys[order[i]];
        proof {
            let k = choose|k: int| 0 <= k < bytes@.len() && bytes@[k] == key;
            assert(key < 256);
            assert(of_race1(key as u8)(rs@[k]));
            lemma_select_some(rs@, of_race1(key as u8), k);
        }
        let b = key as u8;
        let group = regions_of_race(rs, b);
        let total = SpeciesTotal {
            race1: b,
            name: group[0].species.name(),
            pop: total_pop(&group),
            regions: group.len(),
            systems: count_systems(&group),
        };
        out.push(total);
        i = i + 1;
    }
    proof {
        assert forall|x: int, y: int| 0 <= x < y < out@.len() implies heavier_total(out@[x], out@[y]) by {
            assert(crate::order::ranks_before(weights@, order@[x], order@[y]));
            if order@[x] > order@[y] {
                assert(keys@[order@[y] as int] < keys@[order@[x] as int]);
            }
            let kx = keys@[order@[x] as int];
            let ky = keys@[order@[y] as int];
            let wx = choose|k: int| 0 <= k < bytes@.len() && bytes@[k] == kx;
            let wy = choose|k: int| 0 <= k < bytes@.len() && bytes@[k] == ky;
            assert(kx < 256 && ky < 256);
        }
        assert forall|k: int| 0 <= k < rs@.len() implies #[trigger] has_total(out@, race1_of(rs@[k].species)) by {
            assert(bytes@[k] == race1_of(rs@[k].species));
            assert(keys@.contains(bytes@[k]));
            let x = choose|x: int| 0 <= x < keys@.len() && keys@[x] == bytes@[k];
            assert(order@.contains(x as usize));
            let y = choose|y: int| 0 <= y < order@.len() && order@[y] == x as usize;
            assert(out@[y].race1 == race1_of(rs@[k].species));
        }
    }
    out
}

/// The sum, over systems `ks`, of the population `rs` holds in each.
pub open spec fn keyed_pop(ks: Seq<usize>, rs: Seq<Region>) -> int
    decreases ks.len(),
{
    if ks.len() == 0 {
        0
    } else {
        keyed_pop(ks.drop_last(), rs) + pop_sum(select(rs, in_system(ks.last())))
    }
}

/// The sum, over systems `ks`, of the number of regions `rs` holds in each.
pub open spec fn keyed_count(ks: Seq<usize>, rs: Seq<Region>) -> int
    decreases ks.len(),
{
    if ks.len() == 0 {
        0
    } else {
        keyed_count(ks.drop_last(), rs) + select(rs, in_system(ks.last())).len()
    }
}

proof fn lemma_keyed_empty(ks: Seq<usize>, rs: Seq<Region>)
    requires
        rs.len() == 0,
    ensures
        keyed_pop(ks, rs) == 0,
        keyed_count(ks, rs) == 0,
    decreases ks.len(),
{
    if ks.len() > 0 {
        lemma_keyed_empty(ks.drop_last(), rs);
    }
}

proof fn lemma_keyed_push(ks: Seq<usize>, rs: Seq<Region>, t: Region)
    requires
        ks.no_duplicates(),
    ensures
        keyed_pop(ks, rs.push(t)) == keyed_pop(ks, rs) + if ks.contains(t.sys_idx) {
            t.pop as int
        } else {
            0
        },
        keyed_count(ks, rs.push(t)) == keyed_count(ks, rs) + if ks.contains(t.sys_idx) {
            1int
        } else {
            0
        },
    decreases ks.len(),
{
    if ks.len() > 0 {
        let init = ks.drop_last();
        assert(init.no_duplicates());
        lemma_keyed_push(init, rs, t);
        let k = ks.last();
        let grown = rs.push(t);
        assert(grown.drop_last() =~= rs);
        assert(grown.last() == t);
        let sel = select(grown, in_system(k));
        if t.sys_idx == k {
            assert(sel.drop_last() =~= select(rs, in_system(k)));
            assert(!init.contains(t.sys_idx)) by {
                if init.contains(t.sys_idx) {
                    let j = choose|j: int| 0 <= j < init.len() && init[j] == t.sys_idx;
                    assert(ks[j] == ks[ks.len() - 1]);
                }
            }
            assert(ks.contains(t.sys_idx)) by {
                assert(ks[ks.len() - 1] == t.sys_idx);
            }
        } else {
            assert(sel =~= select(rs, in_system(k)));
            assert(ks.contains(t.sys_idx) == init.contains(t.sys_idx)) by {
                if ks.contains(t.sys_idx) {
                    let j = choose|j: int| 0 <= j < ks.len() && ks[j] == t.sys_idx;
                    assert(j < ks.len() - 1);
                    assert(init[j] == t.sys_idx);
                }
                if init.contains(t.sys_idx) {
                    let j = choose|j: int| 0 <= j < init.len() && init[j] == t.sys_idx;
                    assert(ks[j] == t.sys_idx);
                }
            }
        }
    }
}

/// Splitting regions by system loses none and counts none twice: over
/// distinct systems `ks` that cover every region of `rs`, the per-system
/// populations and region counts add up to those of `rs`.
pub proof fn lemma_split_by_system(ks: Seq<usize>, rs: Seq<Region>)
    requires
        ks.no_duplicates(),
        forall|i: int| 0 <= i < rs.len() ==> ks.contains(#[trigger] rs[i].sys_idx),
    ensures
        keyed_pop(ks, rs) == pop_sum(rs),
        keyed_count(ks, rs) == rs.len(),
    decreases rs.len(),
{
    if rs.len() == 0 {
        lemma_keyed_empty(ks, rs);
    } else {
        let init = rs.drop_last();
        assert forall|i: int| 0 <= i < init.len() implies ks.contains(#[trigger] init[i].sys_idx) by {
            assert(init[i] == rs[i]);
        }
        lemma_split_by_system(ks, init);
        assert(init.push(rs.last()) =~= rs);
        assert(ks.contains(rs[rs.len() - 1].sys_idx));
        lemma_keyed_push(ks, init, rs.last());
    }
}

/// The sum of the tallies' populations.
pub open spec fn tallied_pop(ts: Seq<SystemTally>) -> int
    decreases ts.len(),
{
    if ts.len() == 0 {
        0
    } else {
        tallied_pop(ts.drop_last()) + ts.last().pop
    }
}

/// The sum of the tallies' region counts.
pub open spec fn tallied_regions(ts: Seq<SystemTally>) -> int
    decreases ts.len(),
{
    if ts.len() == 0 {
        0
    } else {
        tallied_regions(ts.drop_last()) + ts.last().regions
    }
}

proof fn lemma_tallied_keyed(g: GalaxyView, target: Species, owned: Set<usize>, ts: Seq<SystemTally>)
    requires
        forall|i: int| 0 <= i < ts.len() ==> system_tally_ok(g, target, owned, #[trigger] ts[i]),
    ensures
        tallied_pop(ts) == keyed_pop(ts.map_values(|t: SystemTally| t.sys_idx), select(g.regions, of_species(target))),
        tallied_regions(ts) == keyed_count(
            ts.map_values(|t: SystemTally| t.sys_idx),
            select(g.regions, of_species(target)),
        ),
    decreases ts.len(),
{
    if ts.len() > 0 {
        let init = ts.drop_last();
        assert forall|i: int| 0 <= i < init.len() implies system_tally_ok(g, target, owned, #[trigger] init[i]) by {
            assert(init[i] == ts[i]);
        }
        lemma_tallied_keyed(g, target, owned, init);
        let keys = ts.map_values(|t: SystemTally| t.sys_idx);
        assert(keys.drop_last() =~= init.map_values(|t: SystemTally| t.sys_idx));
        assert(system_tally_ok(g, target, owned, ts[ts.len() - 1]));
    }
}

} // verus!
