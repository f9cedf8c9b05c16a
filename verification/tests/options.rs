use moo3_save::options::{
    edit_request, parse_edit_args, parse_i32, parse_planet_args, parse_replace_args, parse_scan_args,
    parse_species, parse_turn_args, parse_unsigned, resolve, ArgsError, NumberKind, ReplaceOptions,
};
use moo3_save::replace::Scope;
use moo3_save::session::{choose_scope, latest_save, scope_note};
use moo3_save::Species;

fn args(list: &[&str]) -> Vec<String> {
    list.iter().map(|a| a.to_string()).collect()
}

fn floats(list: &[String]) -> Vec<bool> {
    list.iter().map(|a| a.parse::<f64>().is_ok()).collect()
}

#[test]
fn species_names_parse_case_insensitively() {
    assert_eq!(parse_species("Darlok"), Ok(Species::Darlok));
    let message = parse_species("zorg").unwrap_err();
    assert_eq!(
        message,
        "unknown species 'zorg'; expected one of: human, imsaeis, silicoid, meklar, trilarian, ithkul, klackon, sakkra, darlok, noncorporeal, protoplasmic, plant, fungal, avian, gargantua, bulrathi, mrrshan, elerian, gnolam, elder, combot"
    );
}

#[test]
fn replace_args_default_to_the_ithkul_purge() {
    let parsed = parse_replace_args(&[]).expect("defaults");
    assert_eq!(parsed.target, Species::Ithkul);
    assert_eq!(parsed.replacement, Species::Klackon);
    assert!(parsed.planets.is_empty() && parsed.protect.is_none() && parsed.path.is_none());
    assert!(!parsed.everywhere && !parsed.mine && !parsed.dry_run);
}

#[test]
fn replace_args_read_every_option() {
    let list = args(&[
        "save.gam",
        "--target",
        "klackon",
        "--replace-with",
        "HUMAN",
        "--planet",
        "Psi Tauri I",
        "--planet",
        "Alrisha",
        "--protect",
        "darlok",
        "--all",
        "--mine",
        "--dry-run",
    ]);
    let parsed = parse_replace_args(&list).expect("valid");
    assert_eq!(parsed.path.as_deref(), Some("save.gam"));
    assert_eq!(parsed.target, Species::Klackon);
    assert_eq!(parsed.replacement, Species::Human);
    assert_eq!(parsed.planets, vec!["Psi Tauri I".to_string(), "Alrisha".to_string()]);
    assert_eq!(parsed.protect, Some(Species::Darlok));
    assert!(parsed.everywhere && parsed.mine && parsed.dry_run);
}

#[test]
fn replace_args_refusals() {
    assert_eq!(parse_replace_args(&args(&["--target"])).unwrap_err(), ArgsError::Usage);
    assert_eq!(parse_replace_args(&args(&["--bogus"])).unwrap_err(), ArgsError::Usage);
    assert_eq!(
        parse_replace_args(&args(&["--protect", "ithkul"])).unwrap_err(),
        ArgsError::Message("cannot protect Ithkul from themselves".to_string())
    );
    assert_eq!(
        parse_replace_args(&args(&["--replace-with", "ithkul"])).unwrap_err(),
        ArgsError::Message("target and replacement are both Ithkul".to_string())
    );
    assert!(matches!(
        parse_replace_args(&args(&["--target", "zorg"])).unwrap_err(),
        ArgsError::Message(m) if m.starts_with("unknown species 'zorg'; expected one of: human")
    ));
}

#[test]
fn edit_args_parse_numbers() {
    let list = args(&[
        "--planet", "Alrisha I", "--region", "+3", "--pop", "5.5", "--owner", "2", "--terrain", "17",
        "--eco", "-2", "--dry-run", "file.gam",
    ]);
    let parsed = parse_edit_args(&list, &floats(&list)).expect("valid");
    assert_eq!(parsed.planet.as_deref(), Some("Alrisha I"));
    assert_eq!(parsed.region, Some(3));
    assert_eq!(parsed.pop.as_deref(), Some("5.5"));
    assert_eq!(parsed.owner, Some(2));
    assert_eq!(parsed.terrain, Some(17));
    assert_eq!(parsed.eco, Some(-2));
    assert!(parsed.dry_run);
    assert_eq!(parsed.path.as_deref(), Some("file.gam"));
}

#[test]
fn edit_args_refuse_bad_numbers() {
    let bad = |list: &[&str]| {
        let list = args(list);
        parse_edit_args(&list, &floats(&list)).unwrap_err()
    };
    assert_eq!(
        bad(&["--owner", "256"]),
        ArgsError::BadNumber {
            text: "256".to_string(),
            kind: NumberKind::Byte
        }
    );
    assert_eq!(
        bad(&["--region", "-1"]),
        ArgsError::BadNumber {
            text: "-1".to_string(),
            kind: NumberKind::Index
        }
    );
    assert_eq!(
        bad(&["--pop", "lots"]),
        ArgsError::BadNumber {
            text: "lots".to_string(),
            kind: NumberKind::Float
        }
    );
    assert_eq!(
        bad(&["--eco", "2147483648"]),
        ArgsError::BadNumber {
            text: "2147483648".to_string(),
            kind: NumberKind::Signed
        }
    );
    assert_eq!(bad(&["--eco"]), ArgsError::Usage);
    assert_eq!(bad(&["-x"]), ArgsError::Usage);
}

#[test]
fn edit_requests_need_a_target_and_a_field() {
    let request = |list: &[&str]| {
        let list = args(list);
        edit_request(&list, &floats(&list))
    };
    assert_eq!(request(&["--planet", "A", "--pop", "1"]).unwrap_err(), ArgsError::Usage);
    assert_eq!(
        request(&["--planet", "A", "--region", "0"]).unwrap_err(),
        ArgsError::Message(
            "nothing to edit: pass at least one of --pop, --owner, --terrain, --eco".to_string()
        )
    );
    let ok = request(&["--planet", "A", "--region", "0", "--owner", "1"]).expect("complete");
    assert_eq!((ok.planet.as_str(), ok.region, ok.owner), ("A", 0, Some(1)));
}

#[test]
fn decimal_parsing_follows_str_parse() {
    for text in ["0", "+7", "255", "256", "-0", "", "+", "1a", "007"] {
        assert_eq!(
            parse_unsigned(text, 255),
            text.parse::<u8>().ok().map(u64::from),
            "{text}"
        );
    }
    for text in ["-2147483648", "2147483647", "2147483648", "-2147483649", "-", "+-1", "-+1", "12"] {
        assert_eq!(parse_i32(text), text.parse::<i32>().ok(), "{text}");
    }
}

#[test]
fn turn_scan_and_planet_args() {
    let turn = parse_turn_args(&args(&["save.gam", "--set", "100"])).expect("valid");
    assert_eq!((turn.path.as_deref(), turn.set), (Some("save.gam"), Some(100)));
    assert_eq!(
        parse_turn_args(&args(&["--set", "x"])).unwrap_err(),
        ArgsError::BadNumber {
            text: "x".to_string(),
            kind: NumberKind::Turn
        }
    );
    let scan = parse_scan_args(&args(&["--target", "klackon"])).expect("valid");
    assert_eq!((scan.path, scan.target), (None, Species::Klackon));
    assert_eq!(parse_scan_args(&args(&["--target"])).unwrap_err(), ArgsError::Usage);
    let planet = parse_planet_args(&args(&["--verbose", "Alrisha", "save.gam", "extra"])).expect("valid");
    assert_eq!((planet.name.as_str(), planet.path.as_deref()), ("Alrisha", Some("save.gam")));
    assert_eq!(parse_planet_args(&args(&["-v"])).unwrap_err(), ArgsError::Usage);
}

#[test]
fn scopes_and_their_notes() {
    let names = args(&["Psi Tauri I", "Alrisha"]);
    let scope = choose_scope(&names, true, None);
    assert_eq!(scope, Scope::Planets(names.clone()));
    assert_eq!(scope_note(&scope, true), "on \"Psi Tauri I\", \"Alrisha\" (your systems only)");
    assert_eq!(choose_scope(&[].to_vec(), true, None), Scope::Everywhere);
    assert_eq!(scope_note(&Scope::Everywhere, false), "galaxy-wide");
    let shared = choose_scope(&Vec::new(), false, Some(Species::Human));
    assert_eq!(
        shared,
        Scope::Shared {
            protect: Some(Species::Human)
        }
    );
    assert_eq!(scope_note(&shared, false), "on shared planets");
}

#[test]
fn web_options_resolve() {
    let options = ReplaceOptions {
        target: "Ithkul".to_string(),
        replacement: "klackon".to_string(),
        scope: "planets".to_string(),
        planets: args(&["Zeta"]),
        protect: None,
        mine: true,
    };
    let resolved = resolve(&options).expect("valid");
    assert_eq!(resolved.target, Species::Ithkul);
    assert_eq!(resolved.replacement, Species::Klackon);
    assert_eq!(resolved.scope, Scope::Planets(args(&["Zeta"])));
    assert!(resolved.mine);
}

#[test]
fn newest_save_wins_and_ties_keep_the_first() {
    assert_eq!(latest_save(&[]), None);
    assert_eq!(latest_save(&[None, None]), None);
    assert_eq!(latest_save(&[Some(5), None, Some(9), Some(9), Some(-3)]), Some(2));
    assert_eq!(latest_save(&[None, Some(-1)]), Some(1));
}
