use std::collections::BTreeSet;

use moo3_save::edit::{set_ecosystem, set_owner, set_population, set_terrain};
use moo3_save::galaxy::{Galaxy, Region, SystemKind};
use moo3_save::header::{set_turn, turn};
use moo3_save::options::ReplaceOptions;
use moo3_save::replace::{apply, plan, Scope};
use moo3_save::report::{at_risk_report, by_planet, infestation_report, species_totals};
use moo3_save::session::{
    apply_edits, apply_replace, matching_planets, plan_replace, select_edit_region, summarize,
    EditFailure, EditTargetError,
};
use moo3_save::verify::{verify, Outcome};
use moo3_save::{Error, Species};

const UNIT: i64 = 65536;

fn region(owner: u8, pop: i64, race1: u8, terrain: u8, eco_base: i32, eco_modified: i32) -> Vec<u8> {
    let mut v = vec![0u8, owner];
    v.extend_from_slice(&pop.to_be_bytes());
    v.push(race1);
    v.push(3);
    let mut fixed = [0u8; 42];
    fixed[9] = terrain;
    fixed[10..14].copy_from_slice(&eco_base.to_be_bytes());
    fixed[14..18].copy_from_slice(&eco_modified.to_be_bytes());
    v.extend_from_slice(&fixed);
    v.extend_from_slice(&[0, 0, 0xFF]);
    v
}

fn planet(regions: &[Vec<u8>]) -> Vec<u8> {
    let mut v = vec![regions.len() as u8];
    for r in regions {
        v.extend_from_slice(r);
    }
    // Post-region block: head, no big block, tail.
    v.push(0);
    v.extend_from_slice(&[0, 0, 0, 0, 0, 0, 0, 0]);
    v.extend_from_slice(&[0u8; 35]);
    v.extend_from_slice(&[0, 0, 0, 0]);
    v.push(0);
    v.extend_from_slice(&[0u8; 18]);
    v.push(0);
    v.push(0);
    v.extend_from_slice(&[0u8; 23]);
    v.push(0);
    v.extend_from_slice(&[0u8; 5]);
    v.push(0xFF);
    v.extend_from_slice(&[0, 0, 0, 0]);
    v.push(0);
    v.push(0);
    v
}

fn system(flag: u8, name: &str, planets: &[Vec<u8>]) -> Vec<u8> {
    let mut v = vec![flag, 0, 0];
    let units: Vec<u16> = name.encode_utf16().collect();
    v.extend_from_slice(&(units.len() as u32).to_be_bytes());
    for unit in units {
        v.extend_from_slice(&unit.to_be_bytes());
    }
    v.extend_from_slice(&[0u8; 34]);
    v.push(0);
    v.extend_from_slice(&[0, 0]);
    v.push(0);
    v.extend_from_slice(&[0, 0]);
    v.push(0);
    v.extend_from_slice(&[0u8; 3]);
    v.extend_from_slice(&[0, 0, 0, 0, 0, 0, 0, 0]);
    v.extend_from_slice(&[0u8; 32]);
    if flag != 0x4E && flag != 0x42 {
        v.push(planets.len() as u8);
        for p in planets {
            v.extend_from_slice(p);
        }
    }
    v
}

fn save(systems: &[Vec<u8>]) -> Vec<u8> {
    let mut v = b"VS3RDAEH".to_vec();
    v.extend_from_slice(&[0u8; 5]);
    v.extend_from_slice(&115u32.to_be_bytes());
    v.extend_from_slice(&[0u8; 15]);
    v.extend_from_slice(b"VSYXALAG");
    v.extend_from_slice(&[0u8; 65]);
    v.push(systems.len() as u8);
    for s in systems {
        v.extend_from_slice(s);
    }
    v.extend_from_slice(&[0u8; 16]);
    v
}

const HUMAN: u8 = 0;
const ITHKUL: u8 = 5;
const KLACKON: u8 = 6;

/// Alrisha: I holds Ithkul 2.0 and Klackon 1.0, II holds Ithkul 0.5 and an
/// empty region. A black hole. Zeta: I holds Human 3.0, II holds Ithkul 4.0
/// and Human 1.0.
fn sample() -> Vec<u8> {
    save(&[
        system(
            0x47,
            "Alrisha",
            &[
                planet(&[
                    region(1, 2 * UNIT, ITHKUL, 4, 1, 2),
                    region(1, UNIT, KLACKON, 5, 0, 0),
                ]),
                planet(&[region(2, UNIT / 2, ITHKUL, 6, -1, 0), region(0, 0, HUMAN, 0, 0, 0)]),
            ],
        ),
        system(0x42, "Void", &[]),
        system(
            0x59,
            "Zeta",
            &[
                planet(&[region(3, 3 * UNIT, HUMAN, 7, 2, 2)]),
                planet(&[region(3, 4 * UNIT, ITHKUL, 8, 0, 1), region(3, UNIT, HUMAN, 9, 0, 0)]),
            ],
        ),
    ])
}

fn parsed() -> (Vec<u8>, Galaxy) {
    let bytes = sample();
    let galaxy = Galaxy::parse(&bytes).expect("sample parses");
    (bytes, galaxy)
}

fn options(target: &str, replacement: &str, scope: &str, planets: &[&str]) -> ReplaceOptions {
    ReplaceOptions {
        target: target.to_string(),
        replacement: replacement.to_string(),
        scope: scope.to_string(),
        planets: planets.iter().map(|p| p.to_string()).collect(),
        protect: None,
        mine: false,
    }
}

#[test]
fn synthetic_save_parses() {
    let (_, galaxy) = parsed();
    assert_eq!(galaxy.systems.len(), 3);
    assert_eq!(galaxy.systems[0].name, "Alrisha");
    assert_eq!(galaxy.systems[1].kind, SystemKind::BlackHole);
    assert_eq!(galaxy.systems[2].kind, SystemKind::Star(0x59));
    // The empty region is parsed but not recorded.
    assert_eq!(galaxy.regions.len(), 6);
    let first = galaxy.regions[0];
    assert_eq!(first.species, Species::Ithkul);
    assert_eq!(first.pop, 2 * UNIT);
    assert_eq!(first.owner, 1);
    assert_eq!(first.race2, 3);
    assert_eq!(first.terrain, 4);
    assert_eq!((first.eco_base, first.eco_modified), (1, 2));
    assert_eq!(galaxy.regions[2].eco_base, -1);
    assert_eq!(galaxy.planet_name(&galaxy.regions[2]), "Alrisha II");
    assert_eq!(galaxy.planet_name(&galaxy.regions[4]), "Zeta II");
    let last = galaxy.regions[5];
    assert_eq!((last.sys_idx, last.planet_idx, last.region_idx), (2, 1, 1));
}

#[test]
fn truncated_save_reports_truncation() {
    let bytes = sample();
    let cut = &bytes[..bytes.len() - 40];
    assert!(matches!(Galaxy::parse(cut), Err(Error::Truncated { .. })));
}

#[test]
fn bad_system_name_is_rejected() {
    let mut bytes = save(&[system(0x47, "A", &[])]);
    let marker = bytes.windows(8).position(|w| w == b"VSYXALAG").unwrap();
    let name_len_at = marker + 74 + 3;
    bytes[name_len_at..name_len_at + 4].copy_from_slice(&0u32.to_be_bytes());
    assert_eq!(
        Galaxy::parse(&bytes),
        Err(Error::BadSystemName {
            offset: marker + 74,
            len: 0
        })
    );
}

#[test]
fn turn_counter_reads_and_writes() {
    let mut bytes = sample();
    assert_eq!(turn(&bytes), Ok(115));
    set_turn(&mut bytes, 7).expect("header present");
    assert_eq!(turn(&bytes), Ok(7));
    let mut plain = vec![0u8; 20];
    assert_eq!(turn(&plain), Err(Error::NoHeaderMagic));
    assert_eq!(set_turn(&mut plain, 1), Err(Error::NoHeaderMagic));
}

#[test]
fn groups_by_planet_in_order() {
    let (_, galaxy) = parsed();
    let groups = by_planet(&galaxy);
    let keys: Vec<(usize, usize, usize)> = groups
        .iter()
        .map(|g| (g.sys_idx, g.planet_idx, g.regions.len()))
        .collect();
    assert_eq!(keys, vec![(0, 0, 2), (0, 1, 1), (2, 0, 1), (2, 1, 2)]);
}

#[test]
fn infestation_report_orders_systems_by_population() {
    let (_, galaxy) = parsed();
    let mut owned = BTreeSet::new();
    owned.insert(0usize);
    let report = infestation_report(&galaxy, Species::Ithkul, &owned);
    assert_eq!(report.systems.len(), 2);
    assert_eq!(report.systems[0].name, "Zeta");
    assert_eq!(report.systems[0].pop, 4 * UNIT as i128);
    assert!(!report.systems[0].mine);
    assert_eq!(report.systems[1].name, "Alrisha");
    assert_eq!(report.systems[1].pop, (5 * UNIT / 2) as i128);
    assert!(report.systems[1].mine);
    assert_eq!(report.systems[1].regions, 2);
    let planets: Vec<(String, i128, usize)> = report.systems[1]
        .planets
        .iter()
        .map(|p| (p.name.clone(), p.pop, p.regions))
        .collect();
    assert_eq!(
        planets,
        vec![
            ("Alrisha I".to_string(), 2 * UNIT as i128, 1),
            ("Alrisha II".to_string(), (UNIT / 2) as i128, 1)
        ]
    );
    assert_eq!(report.pop, (13 * UNIT / 2) as i128);
    assert_eq!(report.regions, 3);
    assert_eq!(report.mine, 1);
}

#[test]
fn at_risk_report_lists_shared_planets() {
    let (_, galaxy) = parsed();
    let risky = at_risk_report(&galaxy, Species::Ithkul);
    assert_eq!(risky.len(), 2);
    assert_eq!(risky[0].name, "Zeta II");
    assert_eq!(risky[0].target_pop, 4 * UNIT as i128);
    assert_eq!(risky[0].other_pop, UNIT as i128);
    assert_eq!(risky[0].other_species, vec!["Human".to_string()]);
    assert_eq!(risky[0].regions.len(), 2);
    assert_eq!(risky[1].name, "Alrisha I");
    assert_eq!(risky[1].other_species, vec!["Klackon".to_string()]);
    assert!(at_risk_report(&galaxy, Species::Darlok).is_empty());
}

#[test]
fn species_totals_rank_by_population() {
    let (_, galaxy) = parsed();
    let totals = species_totals(&galaxy.regions);
    let rows: Vec<(String, i128, usize, usize)> = totals
        .iter()
        .map(|t| (t.name.clone(), t.pop, t.regions, t.systems))
        .collect();
    assert_eq!(
        rows,
        vec![
            ("Ithkul".to_string(), (13 * UNIT / 2) as i128, 3, 2),
            ("Human".to_string(), 4 * UNIT as i128, 2, 1),
            ("Klackon".to_string(), UNIT as i128, 1, 1),
        ]
    );
}

#[test]
fn plan_scopes_select_the_expected_regions() {
    let (_, galaxy) = parsed();
    let shared = plan(&galaxy, Species::Ithkul, &Scope::Shared { protect: None }, None);
    let offsets: Vec<usize> = shared.iter().map(|r| r.sys_idx).collect();
    assert_eq!(offsets, vec![0, 2]);
    let protect = plan(
        &galaxy,
        Species::Ithkul,
        &Scope::Shared {
            protect: Some(Species::Klackon),
        },
        None,
    );
    assert_eq!(protect.len(), 1);
    assert_eq!(protect[0].sys_idx, 0);
    let everywhere = plan(&galaxy, Species::Ithkul, &Scope::Everywhere, None);
    assert_eq!(everywhere.len(), 3);
    let named = plan(
        &galaxy,
        Species::Ithkul,
        &Scope::Planets(vec!["ALRISHA".to_string()]),
        None,
    );
    assert_eq!(named.len(), 2);
    let exact = plan(
        &galaxy,
        Species::Ithkul,
        &Scope::Planets(vec!["zeta ii".to_string()]),
        None,
    );
    assert_eq!(exact.len(), 1);
    let mut owned = BTreeSet::new();
    owned.insert(2usize);
    let mine = plan(&galaxy, Species::Ithkul, &Scope::Everywhere, Some(&owned));
    assert_eq!(mine.len(), 1);
    assert_eq!(mine[0].sys_idx, 2);
}

#[test]
fn apply_patches_species_and_resets_subrace() {
    let (mut bytes, galaxy) = parsed();
    let planned = plan(&galaxy, Species::Ithkul, &Scope::Everywhere, None);
    let outcome = apply(&mut bytes, &planned, Species::Ithkul, Species::Klackon);
    assert_eq!(outcome.patched, 3);
    assert_eq!(outcome.skipped, 0);
    assert_eq!(outcome.pop, (13 * UNIT / 2) as i128);
    let after = Galaxy::parse(&bytes).expect("still parses");
    for (before, now) in galaxy.regions.iter().zip(after.regions.iter()) {
        if before.species == Species::Ithkul {
            assert_eq!(now.species, Species::Klackon);
            assert_eq!(now.race2, 0);
        } else {
            assert_eq!(now, before);
        }
        assert_eq!(now.pop, before.pop);
    }
    // A second application finds nothing left to patch.
    let again = apply(&mut bytes, &planned, Species::Ithkul, Species::Klackon);
    assert_eq!((again.patched, again.skipped, again.pop), (0, 3, 0));
}

#[test]
fn apply_skips_regions_past_the_end() {
    let mut bytes = vec![0u8; 4];
    let stray = Region {
        sys_idx: 0,
        planet_idx: 0,
        region_idx: 0,
        owner: 0,
        species: Species::Ithkul,
        race2: 0,
        pop: UNIT,
        terrain: 0,
        eco_base: 0,
        eco_modified: 0,
        offset: usize::MAX - 3,
    };
    let outcome = apply(&mut bytes, &[stray], Species::Ithkul, Species::Human);
    assert_eq!((outcome.patched, outcome.skipped), (0, 1));
    assert_eq!(bytes, vec![0u8; 4]);
}

#[test]
fn bridge_plan_and_apply() {
    let bytes = sample();
    let preview = plan_replace(&bytes, &options("ithkul", "klackon", "shared", &[])).expect("plans");
    assert_eq!(preview.count, 2);
    assert_eq!(preview.pop, 6 * UNIT as i128);
    let rows: Vec<(String, usize)> = preview
        .rows
        .iter()
        .map(|r| (r.planet.clone(), r.region))
        .collect();
    assert_eq!(
        rows,
        vec![("Alrisha I".to_string(), 0), ("Zeta II".to_string(), 0)]
    );
    let edited = apply_replace(&bytes, &options("ithkul", "klackon", "everywhere", &[])).expect("applies");
    let after = Galaxy::parse(&edited).expect("parses");
    assert!(after.regions.iter().all(|r| r.species != Species::Ithkul));
    assert_eq!(after.regions.len(), 6);
}

#[test]
fn bridge_refusals_carry_their_messages() {
    let bytes = sample();
    let refuse = |o: ReplaceOptions| plan_replace(&bytes, &o).err().expect("refused");
    assert_eq!(refuse(options("zorg", "klackon", "shared", &[])), "unknown species 'zorg'");
    assert_eq!(refuse(options("ithkul", "zorg", "shared", &[])), "unknown species 'zorg'");
    assert_eq!(
        refuse(options("ithkul", "Ithkul", "shared", &[])),
        "target and replacement are the same species"
    );
    assert_eq!(refuse(options("ithkul", "human", "planets", &[])), "no planet names given");
    assert_eq!(refuse(options("ithkul", "human", "moon", &[])), "unknown scope 'moon'");
    let mut protect = options("ithkul", "human", "shared", &[]);
    protect.protect = Some("gnome".to_string());
    assert_eq!(refuse(protect), "unknown species 'gnome'");
    let mut mine = options("ithkul", "human", "shared", &[]);
    mine.mine = true;
    assert_eq!(refuse(mine), "could not detect player ownership from this save");
    assert_eq!(
        plan_replace(b"nothing here", &options("ithkul", "human", "shared", &[])).err(),
        Some("galaxy marker VSYXALAG not found (not a MOO3 save?)".to_string())
    );
    assert_eq!(
        apply_replace(&bytes, &options("darlok", "human", "everywhere", &[])),
        Err("no Darlok regions match".to_string())
    );
}

#[test]
fn empty_protect_means_no_protection() {
    let bytes = sample();
    let mut o = options("ithkul", "human", "shared", &[]);
    o.protect = Some(String::new());
    assert_eq!(plan_replace(&bytes, &o).expect("plans").count, 2);
}

#[test]
fn summary_counts_the_galaxy() {
    let bytes = sample();
    let summary = summarize(&bytes).expect("summarizes");
    assert_eq!(summary.systems, 3);
    assert_eq!(summary.regions, 6);
    assert_eq!(summary.player_systems, 0);
    assert!(summary.empires.is_empty());
    assert_eq!(summary.species.len(), 3);
    assert_eq!(summary.species[0].name, "Ithkul");
    assert_eq!(summary.known_species.len(), 21);
    assert_eq!(summary.known_species[9], "NonCorporeal");
    assert!(matches!(summarize(b"nope"), Err(Error::NoGalaxyMarker)));
}

#[test]
fn verification_battery_passes_on_the_sample() {
    let bytes = sample();
    match verify(&bytes) {
        Outcome::Pass(summary) => {
            assert!(summary.starts_with("3 systems, 6 populated regions, 0 empires, 0 owned systems, "));
        }
        other => panic!("expected pass, got {other:?}"),
    }
    assert_eq!(verify(b"not a save at all"), Outcome::NotSave);
    let no_systems = save(&[]);
    assert_eq!(
        verify(&no_systems),
        Outcome::Fail("galaxy parsed to zero systems".to_string())
    );
}

#[test]
fn field_edits_write_in_place() {
    let (mut bytes, galaxy) = parsed();
    let target = galaxy.regions[0];
    set_population(&mut bytes, &target, 5 * UNIT + UNIT / 2).expect("edit ok");
    set_terrain(&mut bytes, &target, 11).expect("edit ok");
    set_ecosystem(&mut bytes, &target, 2).expect("edit ok");
    let after = Galaxy::parse(&bytes).expect("parses");
    let edited = after.regions[0];
    assert_eq!(edited.pop, 5 * UNIT + UNIT / 2);
    assert_eq!(edited.terrain, 11);
    // Base 2 plus the old delta of 1, capped at 2.
    assert_eq!((edited.eco_base, edited.eco_modified), (2, 2));
    set_ecosystem(&mut bytes, &target, -2).expect("edit ok");
    let after = Galaxy::parse(&bytes).expect("parses");
    assert_eq!((after.regions[0].eco_base, after.regions[0].eco_modified), (-2, -1));
    assert_eq!(
        set_population(&mut bytes, &target, i64::MIN),
        Err(Error::ValueOutOfRange {
            what: "population",
            value: i64::MIN
        })
    );
    set_owner(&mut bytes, &target, 9).expect("edit ok");
    // The owner no longer matches the parsed region: the next edit refuses.
    assert_eq!(
        set_terrain(&mut bytes, &target, 1),
        Err(Error::StaleRegion {
            offset: target.offset
        })
    );
}

#[test]
fn edit_target_selection() {
    let (mut bytes, galaxy) = parsed();
    let target = select_edit_region(&galaxy, "zeta ii", 1).expect("found");
    assert_eq!(target.species, Species::Human);
    assert!(matches!(
        select_edit_region(&galaxy, "Alrisha", 0),
        Err(EditTargetError::Ambiguous(names)) if names == vec!["Alrisha I".to_string(), "Alrisha II".to_string()]
    ));
    assert!(matches!(
        select_edit_region(&galaxy, "Nowhere", 0),
        Err(EditTargetError::NoPlanet)
    ));
    assert!(matches!(
        select_edit_region(&galaxy, "Alrisha II", 7),
        Err(EditTargetError::NoRegion { planet, regions }) if planet == "Alrisha II" && regions.len() == 1
    ));
    let after = apply_edits(&mut bytes, &target, Some(2 * UNIT), None, Some(3), None).expect("applied");
    assert_eq!(after.pop, 2 * UNIT);
    assert_eq!(after.terrain, 3);
    assert_eq!(after.offset, target.offset);
    let stale = apply_edits(&mut bytes, &target, None, Some(4), Some(5), None);
    assert!(matches!(stale, Err(EditFailure::Edit(Error::StaleRegion { .. }))));
    let names: Vec<String> = matching_planets(&galaxy, "ZETA")
        .iter()
        .map(|p| galaxy.planet_name(&p.regions[0]))
        .collect();
    assert_eq!(names, vec!["Zeta I".to_string(), "Zeta II".to_string()]);
}

#[test]
fn shared_scope_replacement_clears_cohabitation() {
    let (mut bytes, galaxy) = parsed();
    let scope = Scope::Shared { protect: None };
    let planned = plan(&galaxy, Species::Ithkul, &scope, None);
    let everywhere = plan(&galaxy, Species::Ithkul, &Scope::Everywhere, None);
    assert!(planned.len() <= everywhere.len());
    let outcome = apply(&mut bytes, &planned, Species::Ithkul, Species::Silicoid);
    assert_eq!(outcome.patched, planned.len());
    assert_eq!(outcome.skipped, 0);
    let reparsed = Galaxy::parse(&bytes).expect("reparses");
    assert_eq!(reparsed.regions.len(), galaxy.regions.len());
    assert_eq!(reparsed.systems, galaxy.systems);
    assert!(plan(&reparsed, Species::Ithkul, &scope, None).is_empty());
    // The lone Ithkul on Alrisha II shared its planet with no one.
    assert_eq!(plan(&reparsed, Species::Ithkul, &Scope::Everywhere, None).len(), 1);
}

#[test]
fn replacement_changes_only_race_bytes() {
    let (mut bytes, galaxy) = parsed();
    let before = bytes.clone();
    let planned = plan(&galaxy, Species::Ithkul, &Scope::Everywhere, None);
    apply(&mut bytes, &planned, Species::Ithkul, Species::Human);
    let race_bytes: Vec<usize> = planned
        .iter()
        .flat_map(|r| [r.offset + 10, r.offset + 11])
        .collect();
    for (k, (old, new)) in before.iter().zip(bytes.iter()).enumerate() {
        if !race_bytes.contains(&k) {
            assert_eq!(old, new, "byte {k}");
        }
    }
    let reparsed = Galaxy::parse(&bytes).expect("reparses");
    for (old, new) in galaxy.regions.iter().zip(reparsed.regions.iter()) {
        let expected = if planned.contains(old) {
            Region {
                species: Species::Human,
                race2: 0,
                ..*old
            }
        } else {
            *old
        };
        assert_eq!(*new, expected);
    }
}

#[test]
fn planet_scope_matches_partial_names() {
    let (_, galaxy) = parsed();
    let first = plan(&galaxy, Species::Ithkul, &Scope::Everywhere, None)[0];
    let planet = galaxy.planet_name(&first);
    let system = planet.rsplit_once(' ').map(|(system, _)| system).expect("has numeral");
    let exact = plan(
        &galaxy,
        Species::Ithkul,
        &Scope::Planets(vec![planet.to_lowercase()]),
        None,
    );
    assert!(exact.iter().any(|region| region.offset == first.offset));
    let by_system = plan(
        &galaxy,
        Species::Ithkul,
        &Scope::Planets(vec![system.to_lowercase()]),
        None,
    );
    assert!(by_system.len() >= exact.len());
    // "alrisha i" also occurs in "alrisha ii".
    assert_eq!((exact.len(), by_system.len()), (2, 2));
}

#[test]
fn parsed_regions_do_not_overlap() {
    let (bytes, galaxy) = parsed();
    for pair in galaxy.regions.windows(2) {
        assert!(pair[0].offset + 54 <= pair[1].offset);
    }
    for region in &galaxy.regions {
        assert!(region.offset + 54 <= bytes.len());
        assert_eq!(Species::from(bytes[region.offset + 10]), region.species);
        assert!(region.sys_idx < 256 && region.planet_idx < 256 && region.region_idx < 256);
    }
}

#[test]
fn infestation_totals_are_the_sums_of_its_rows() {
    let (_, galaxy) = parsed();
    let report = infestation_report(&galaxy, Species::Ithkul, &BTreeSet::new());
    let pop: i128 = report.systems.iter().map(|s| s.pop).sum();
    let regions: usize = report.systems.iter().map(|s| s.regions).sum();
    assert_eq!((pop, regions), (report.pop, report.regions));
    assert_eq!(report.mine, 0);
}

#[test]
fn a_fresh_request_applies_in_full() {
    let bytes = sample();
    for scope in ["shared", "everywhere"] {
        let edited = apply_replace(&bytes, &options("ithkul", "darlok", scope, &[])).expect("applies");
        assert_eq!(edited.len(), bytes.len());
    }
    let edited = apply_replace(&bytes, &options("human", "ithkul", "planets", &["zeta"])).expect("applies");
    let after = Galaxy::parse(&edited).expect("parses");
    assert!(after.regions.iter().all(|r| r.species != Species::Human));
}

#[test]
fn reparse_after_field_edits_keeps_everything_else() {
    let (mut bytes, galaxy) = parsed();
    let target = galaxy.regions[1];
    set_population(&mut bytes, &target, 7 * UNIT).expect("edit ok");
    let after = Galaxy::parse(&bytes).expect("parses");
    assert_eq!(after.systems, galaxy.systems);
    assert_eq!(after.regions.len(), galaxy.regions.len());
    for (old, new) in galaxy.regions.iter().zip(after.regions.iter()) {
        if old.offset == target.offset {
            assert_eq!(new.pop, 7 * UNIT);
            assert_eq!((new.owner, new.species, new.terrain), (old.owner, old.species, old.terrain));
        } else {
            assert_eq!(new, old);
        }
    }
    // A population that is no longer positive drops the region from the parse.
    set_population(&mut bytes, &target, 0).expect("edit ok");
    let after = Galaxy::parse(&bytes).expect("parses");
    assert_eq!(after.systems, galaxy.systems);
    let expected: Vec<Region> = galaxy
        .regions
        .iter()
        .copied()
        .filter(|r| r.offset != target.offset)
        .collect();
    assert_eq!(after.regions, expected);
}

#[test]
fn stale_plans_are_skipped_not_applied() {
    let (mut bytes, galaxy) = parsed();
    let planned = plan(&galaxy, Species::Ithkul, &Scope::Everywhere, None);
    assert!(!planned.is_empty());

    let first = apply(&mut bytes, &planned, Species::Ithkul, Species::Darlok);
    assert_eq!(first.skipped, 0);
    let again = apply(&mut bytes, &planned, Species::Ithkul, Species::Darlok);
    assert_eq!(again.patched, 0);
    assert_eq!(again.skipped, planned.len());
}
