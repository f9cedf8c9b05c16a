//! Self-checks used by the corpus runner and the tests.
//!
//! [`verify`] exercises the full public surface against one save: parse the
//! galaxy, parse the empire table, detect player ownership, then apply a
//! representative species replacement to a copy and re-parse, checking
//! that exactly the planned regions changed and nothing else in the parsed
//! structure moved.

use vstd::prelude::*;
use vstd::string::StringExecFns;

use crate::empire::{empires, empires_of, player_systems, player_systems_of};
use crate::error::{error_text, Error};
use crate::galaxy::{galaxy_at, parsed_regions_spaced, Galaxy, GalaxyView, Region, System, SystemView};
use crate::owned::set_len;
use crate::replace::{
    apply, apply_all, everywhere_plan_covers_targets, fresh_plan_applies_in_full, plan, plan_of, plan_selects_targets,
    replacement_rereads, Scope, ScopeView,
};
use crate::species::{name_of, Species};
use crate::text::{decimal, hex_text, push_decimal, push_hex, push_signed, signed_decimal};

verus! {

/// Result of verifying one file.
#[derive(Debug, PartialEq, Eq)]
pub enum Outcome {
    /// All checks passed; the string summarizes what was exercised.
    Pass(String),
    /// The file has no galaxy marker (not a MOO3 save).
    NotSave,
    /// A check failed.
    Fail(String),
}

/// An outcome as a value.
pub enum OutcomeView {
    Pass(Seq<char>),
    NotSave,
    Fail(Seq<char>),
}

impl View for Outcome {
    type V = OutcomeView;

    open spec fn view(&self) -> OutcomeView {
        match self {
            Outcome::Pass(s) => OutcomeView::Pass(s@),
            Outcome::NotSave => OutcomeView::NotSave,
            Outcome::Fail(s) => OutcomeView::Fail(s@),
        }
    }
}

/// A species as its derived `Debug` prints it.
pub open spec fn species_debug(s: Species) -> Seq<char> {
    match s {
        Species::Unknown(b) => "Unknown("@ + decimal(b as nat) + ")"@,
        _ => name_of(s),
    }
}

/// A region as its derived `Debug` prints it.
pub open spec fn region_text(r: Region) -> Seq<char> {
    "Region { sys_idx: "@ + decimal(r.sys_idx as nat) + ", planet_idx: "@ + decimal(r.planet_idx as nat)
        + ", region_idx: "@ + decimal(r.region_idx as nat) + ", owner: "@ + decimal(r.owner as nat)
        + ", species: "@ + species_debug(r.species) + ", race2: "@ + decimal(r.race2 as nat) + ", pop: "@
        + signed_decimal(r.pop as int) + ", terrain: "@ + decimal(r.terrain as nat) + ", eco_base: "@
        + signed_decimal(r.eco_base as int) + ", eco_modified: "@ + signed_decimal(r.eco_modified as int)
        + ", offset: "@ + decimal(r.offset as nat) + " }"@
}

/// The species the battery's trial edit turns the first region's species
/// into.
pub open spec fn replacement_for(target: Species) -> Species {
    if target == Species::Silicoid {
        Species::Human
    } else {
        Species::Silicoid
    }
}

/// What a region should read after the edit: planned regions carry the
/// replacement and a reset sub-race; others are unchanged.
pub open spec fn expected_region(before: Region, planned: Seq<Region>, replacement: Species) -> Region {
    if exists|j: int| 0 <= j < planned.len() && #[trigger] planned[j].offset == before.offset {
        Region { species: replacement, race2: 0, ..before }
    } else {
        before
    }
}

/// The first index from `k` where the re-parsed region differs from the
/// expected one.
pub open spec fn first_mismatch(
    before: Seq<Region>,
    after: Seq<Region>,
    planned: Seq<Region>,
    replacement: Species,
    k: int,
) -> Option<int>
    decreases before.len() - k,
{
    if k < 0 || k >= before.len() || k >= after.len() {
        None
    } else if after[k] != expected_region(before[k], planned, replacement) {
        Some(k)
    } else {
        first_mismatch(before, after, planned, replacement, k + 1)
    }
}

/// The outcome of the edit check: convert every region of the first
/// region's species galaxy-wide on a copy, re-parse, and compare.
pub open spec fn check_edit_of(d: Seq<u8>, g: GalaxyView) -> Result<Seq<char>, Seq<char>> {
    if g.regions.len() == 0 {
        Ok("edit skipped (no populated regions)"@)
    } else {
        let target = g.regions[0].species;
        let replacement = replacement_for(target);
        let planned = plan_of(g, target, ScopeView::Everywhere, None);
        if planned.len() == 0 {
            Err("plan for the first region's species selected nothing"@)
        } else {
            let (e, patched, skipped, _) = apply_all(d, planned, target, replacement);
            if patched != planned.len() || skipped != 0 {
                Err("apply patched "@ + decimal(patched as nat) + "/"@ + decimal(planned.len()) + " with "@
                    + decimal(skipped as nat) + " skips"@)
            } else {
                match galaxy_at(e) {
                    Err(err) => Err("reparse after edit: "@ + error_text(err)),
                    Ok(g2) => if g2.systems != g.systems {
                        Err("system list changed across edit"@)
                    } else if g2.regions.len() != g.regions.len() {
                        Err("region count changed across edit: "@ + decimal(g.regions.len()) + " -> "@
                            + decimal(g2.regions.len()))
                    } else {
                        match first_mismatch(g.regions, g2.regions, planned, replacement, 0) {
                            Some(k) => Err("region at "@ + hex_text(g.regions[k].offset as nat)
                                + " changed unexpectedly: "@ + region_text(g.regions[k]) + " -> "@
                                + region_text(g2.regions[k])),
                            None => Ok("edit ok ("@ + decimal(patched as nat) + " "@ + name_of(target)
                                + " regions -> "@ + name_of(replacement) + ")"@),
                        }
                    },
                }
            }
        }
    }
}

/// The outcome of the full check battery on a file.
pub open spec fn verify_of(d: Seq<u8>) -> OutcomeView {
    match galaxy_at(d) {
        Err(Error::NoGalaxyMarker) => OutcomeView::NotSave,
        Err(e) => OutcomeView::Fail("parse: "@ + error_text(e)),
        Ok(g) => if g.systems.len() == 0 {
            OutcomeView::Fail("galaxy parsed to zero systems"@)
        } else {
            match check_edit_of(d, g) {
                Err(reason) => OutcomeView::Fail(reason),
                Ok(edit) => OutcomeView::Pass(
                    decimal(g.systems.len()) + " systems, "@ + decimal(g.regions.len())
                        + " populated regions, "@ + decimal(empires_of(d).len()) + " empires, "@
                        + decimal(player_systems_of(d, g.regions).len()) + " owned systems, "@ + edit,
                ),
            }
        },
    }
}

fn species_debug_text(s: &mut String, species: Species)
    ensures
        final(s)@ == old(s)@ + species_debug(species),
{
    match species {
        Species::Unknown(b) => {
            s.append("Unknown(");
            push_decimal(s, b as u64);
            s.append(")");
        },
        _ => {
            let name = species.name();
            s.append(name.as_str());
        },
    }
}

/// Append a region as its derived `Debug` prints it.
#[verifier::spinoff_prover]
#[verifier::rlimit(40)]
fn push_region(s: &mut String, r: &Region)
    ensures
        final(s)@ == old(s)@ + region_text(*r),
{
    s.append("Region { sys_idx: ");
    push_decimal(s, r.sys_idx as u64);
    s.append(", planet_idx: ");
    push_decimal(s, r.planet_idx as u64);
    s.append(", region_idx: ");
    push_decimal(s, r.region_idx as u64);
    s.append(", owner: ");
    push_decimal(s, r.owner as u64);
    s.append(", species: ");
    species_debug_text(s, r.species);
    s.append(", race2: ");
    push_decimal(s, r.race2 as u64);
    s.append(", pop: ");
    push_signed(s, r.pop);
    s.append(", terrain: ");
    push_decimal(s, r.terrain as u64);
    s.append(", eco_base: ");
    push_signed(s, r.eco_base as i64);
    s.append(", eco_modified: ");
    push_signed(s, r.eco_modified as i64);
    s.append(", offset: ");
    push_decimal(s, r.offset as u64);
    s.append(" }");
    assert(final(s)@ =~= old(s)@ + region_text(*r));
}

fn systems_equal(a: &Vec<System>, b: &Vec<System>) -> (r: bool)
    ensures
        r == (a@.map_values(|s: System| s@) == b@.map_values(|s: System| s@)),
{
    let ghost av = a@.map_values(|s: System| s@);
    let ghost bv = b@.map_values(|s: System| s@);
    if a.len() != b.len() {
        assert(av.len() != bv.len());
        return false;
    }
    let mut i: usize = 0;
    while i < a.len()
        invariant
            av == a@.map_values(|s: System| s@),
            bv == b@.map_values(|s: System| s@),
            a@.len() == b@.len(),
            i <= a@.len(),
            forall|k: int| 0 <= k < i ==> #[trigger] av[k] == bv[k],
        decreases a@.len() - i,
    {
        if a[i].name != b[i].name || a[i].kind != b[i].kind {
            assert(av[i as int] != bv[i as int]);
            return false;
        }
        assert(av[i as int] == bv[i as int]);
        i = i + 1;
    }
    assert(av =~= bv);
    true
}

fn planned_has(planned: &Vec<Region>, offset: usize) -> (b: bool)
    ensures
        b == exists|j: int| 0 <= j < planned@.len() && #[trigger] planned@[j].offset == offset,
{
    let mut j: usize = 0;
    while j < planned.len()
        invariant
            j <= planned@.len(),
            forall|k: int| 0 <= k < j ==> #[trigger] planned@[k].offset != offset,
        decreases planned@.len() - j,
    {
        if planned[j].offset == offset {
            return true;
        }
        j = j + 1;
    }
    false
}

fn first_changed(before: &Vec<Region>, after: &Vec<Region>, planned: &Vec<Region>, replacement: Species) -> (r: Option<usize>)
    requires
        before@.len() == after@.len(),
    ensures
        r matches Some(x) ==> x < before@.len() && first_mismatch(before@, after@, planned@, replacement, 0) == Some(x as int),
        r is None ==> first_mismatch(before@, after@, planned@, replacement, 0) is None,
{
    let mut k: usize = 0;
    while k < before.len()
        invariant
            before@.len() == after@.len(),
            k <= before@.len(),
            first_mismatch(before@, after@, planned@, replacement, 0) == first_mismatch(
                before@,
                after@,
                planned@,
                replacement,
                k as int,
            ),
        decreases before@.len() - k,
    {
        let b = before[k];
        let expected = if planned_has(planned, b.offset) {
            Region { species: replacement, race2: 0, ..b }
        } else {
            b
        };
        assert(expected == expected_region(before@[k as int], planned@, replacement));
        if after[k] != expected {
            return Some(k);
        }
        k = k + 1;
    }
    None
}

fn check_edit(bytes: &[u8], galaxy: &Galaxy) -> (r: Result<String, String>)
    ensures
        match check_edit_of(bytes@, galaxy@) {
            Ok(m) => r matches Ok(s) && s@ == m,
            Err(m) => r matches Err(s) && s@ == m,
        },
{
    if galaxy.regions.len() == 0 {
        return Ok(String::from_str("edit skipped (no populated regions)"));
    }
    let target = galaxy.regions[0].species;
    let replacement = if target == Species::Silicoid {
        Species::Human
    } else {
        Species::Silicoid
    };
    let planned = plan(galaxy, target, &Scope::Everywhere, None);
    if planned.len() == 0 {
        return Err(String::from_str("plan for the first region's species selected nothing"));
    }
    let mut edited = vstd::slice::slice_to_vec(bytes);
    let outcome = apply(edited.as_mut_slice(), planned.as_slice(), target, replacement);
    if outcome.patched != planned.len() || outcome.skipped != 0 {
        let mut s = String::from_str("apply patched ");
        push_decimal(&mut s, outcome.patched as u64);
        s.append("/");
        push_decimal(&mut s, planned.len() as u64);
        s.append(" with ");
        push_decimal(&mut s, outcome.skipped as u64);
        s.append(" skips");
        return Err(s);
    }
    let reparsed = match Galaxy::parse(edited.as_slice()) {
        Ok(g) => g,
        Err(error) => {
            let mut s = String::from_str("reparse after edit: ");
            let message = error.message();
            s.append(message.as_str());
            return Err(s);
        },
    };
    if !systems_equal(&reparsed.systems, &galaxy.systems) {
        return Err(String::from_str("system list changed across edit"));
    }
    if reparsed.regions.len() != galaxy.regions.len() {
        let mut s = String::from_str("region count changed across edit: ");
        push_decimal(&mut s, galaxy.regions.len() as u64);
        s.append(" -> ");
        push_decimal(&mut s, reparsed.regions.len() as u64);
        return Err(s);
    }
    match first_changed(&galaxy.regions, &reparsed.regions, &planned, replacement) {
        Some(k) => {
            let mut s = String::from_str("region at ");
            push_hex(&mut s, galaxy.regions[k].offset as u64);
            s.append(" changed unexpectedly: ");
            push_region(&mut s, &galaxy.regions[k]);
            s.append(" -> ");
            push_region(&mut s, &reparsed.regions[k]);
            Err(s)
        },
        None => {
            let mut s = String::from_str("edit ok (");
            push_decimal(&mut s, outcome.patched as u64);
            s.append(" ");
            let t = target.name();
            s.append(t.as_str());
            s.append(" regions -> ");
            let rname = replacement.name();
            s.append(rname.as_str());
            s.append(")");
            Ok(s)
        },
    }
}

/// Run the full check battery against raw save bytes.
pub fn verify(bytes: &[u8]) -> (r: Outcome)
    ensures
        r@ == verify_of(bytes@),
{
    let galaxy = match Galaxy::parse(bytes) {
        Ok(galaxy) => galaxy,
        Err(Error::NoGalaxyMarker) => return Outcome::NotSave,
        Err(error) => {
            let mut s = String::from_str("parse: ");
            let message = error.message();
            s.append(message.as_str());
            return Outcome::Fail(s);
        },
    };
    if galaxy.systems.len() == 0 {
        return Outcome::Fail(String::from_str("galaxy parsed to zero systems"));
    }
    let table = empires(bytes);
    let owned = player_systems(bytes, &galaxy);
    let edit = match check_edit(bytes, &galaxy) {
        Ok(edit) => edit,
        Err(reason) => return Outcome::Fail(reason),
    };
    let mut s = String::new();
    push_decimal(&mut s, galaxy.systems.len() as u64);
    s.append(" systems, ");
    push_decimal(&mut s, galaxy.regions.len() as u64);
    s.append(" populated regions, ");
    push_decimal(&mut s, table.len() as u64);
    s.append(" empires, ");
    push_decimal(&mut s, set_len(&owned) as u64);
    s.append(" owned systems, ");
    s.append(edit.as_str());
    proof {
        assert(table@.map_values(|e: crate::empire::Empire| e@).len() == table@.len());
    }
    Outcome::Pass(s)
}

proof fn lemma_no_mismatch(before: Seq<Region>, after: Seq<Region>, planned: Seq<Region>, replacement: Species, k: int)
    requires
        0 <= k,
        before.len() == after.len(),
        forall|i: int| k <= i < before.len() ==> #[trigger] after[i] == expected_region(before[i], planned, replacement),
    ensures
        first_mismatch(before, after, planned, replacement, k) is None,
    decreases before.len() - k,
{
    if k < before.len() {
        lemma_no_mismatch(before, after, planned, replacement, k + 1);
    }
}

/// The check battery passes on every save whose galaxy parses with at least
/// one system: the trial replacement patches every planned region, and the
/// re-parse finds the same systems and exactly the planned regions changed.
pub proof fn battery_passes_on_parsed_saves(d: Seq<u8>)
    requires
        d.len() <= usize::MAX,
        galaxy_at(d) matches Ok(g) && g.systems.len() > 0,
    ensures
        verify_of(d) is Pass,
{
    let g = galaxy_at(d)->Ok_0;
    let rs = g.regions;
    if rs.len() > 0 {
        let target = rs[0].species;
        let replacement = replacement_for(target);
        let planned = plan_of(g, target, ScopeView::Everywhere, None);
        everywhere_plan_covers_targets(g, target, None, 0);
        assert(planned.len() > 0);
        fresh_plan_applies_in_full(d, target, ScopeView::Everywhere, None, replacement);
        replacement_rereads(d, target, ScopeView::Everywhere, None, replacement);
        plan_selects_targets(g, target, ScopeView::Everywhere, None);
        parsed_regions_spaced(d);
        let e = apply_all(d, planned, target, replacement).0;
        let rs2 = galaxy_at(e)->Ok_0.regions;
        assert forall|i: int| 0 <= i < rs.len() implies #[trigger] rs2[i] == expected_region(
            rs[i],
            planned,
            replacement,
        ) by {
            if exists|j: int| 0 <= j < planned.len() && #[trigger] planned[j].offset == rs[i].offset {
                let j = choose|j: int| 0 <= j < planned.len() && #[trigger] planned[j].offset == rs[i].offset;
                assert(rs.contains(planned[j]));
                let a = choose|a: int| 0 <= a < rs.len() && rs[a] == planned[j];
                if a < i {
                    assert(rs[a].offset + 54 <= rs[i].offset);
                } else if i < a {
                    assert(rs[i].offset + 54 <= rs[a].offset);
                }
                assert(planned.contains(rs[i]));
            } else if planned.contains(rs[i]) {
                let j = choose|j: int| 0 <= j < planned.len() && planned[j] == rs[i];
                assert(planned[j].offset == rs[i].offset);
            }
        }
        lemma_no_mismatch(rs, rs2, planned, replacement, 0);
    }
}

} // verus!
