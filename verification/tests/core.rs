use moo3_save::cursor::{encode_fixed, Cursor};
use moo3_save::galaxy::{roman, Galaxy};
use moo3_save::species::KNOWN;
use moo3_save::{Error, Species};

#[test]
fn encode_decode_roundtrip() {
    for value in [0.0_f64, 1.5, -1.5, 123.4375, 140_000.0, 7077.0] {
        let raw = (value * 65536.0) as i64;
        let bytes = encode_fixed(raw).expect("in range");
        let mut cursor = Cursor::new(&bytes, 0);
        let decoded = cursor.fixed().expect("8 bytes") as f64 / 65536.0;
        assert!(
            (decoded - value).abs() < 1.0 / 65536.0,
            "{value} -> {decoded}"
        );
    }
    assert!(encode_fixed(i64::MIN).is_none());
}

#[test]
fn fixed_point_decodes_sign_and_fraction() {
    let data = [0xFF, 0xFF, 0xFF, 0xFF, 0xFF, 0xFE, 0x80, 0x00];
    let mut cursor = Cursor::new(&data, 0);
    let value = cursor.fixed().expect("in bounds") as f64 / 65536.0;
    assert!((value - (-1.5)).abs() < 1e-9);
}

#[test]
fn reads_past_end_are_errors() {
    let mut cursor = Cursor::new(&[1, 2], 0);
    assert!(cursor.u32be().is_err());
}

#[test]
fn roman_numerals() {
    assert_eq!(roman(1), "I");
    assert_eq!(roman(4), "IV");
    assert_eq!(roman(9), "IX");
    assert_eq!(roman(14), "XIV");
}

#[test]
fn non_save_bytes_are_rejected() {
    assert!(matches!(
        Galaxy::parse(b"definitely not a save"),
        Err(Error::NoGalaxyMarker)
    ));
}

#[test]
fn race1_roundtrips_for_known_species() {
    for species in KNOWN {
        assert_eq!(Species::from(species.race1()), species);
    }
}

#[test]
fn name_lookup_is_case_insensitive() {
    assert_eq!(Species::from_name("ithkul"), Some(Species::Ithkul));
    assert_eq!(Species::from_name("KLACKON"), Some(Species::Klackon));
    assert_eq!(Species::from_name("nope"), None);
}

#[test]
fn subrace_lookup_maps_to_parent() {
    assert_eq!(
        Species::from_name_or_subrace("Tachidi"),
        Some(Species::Klackon)
    );
    assert_eq!(
        Species::from_name_or_subrace("Grendarl"),
        Some(Species::Sakkra)
    );
}

#[test]
fn cursor_reads_big_endian_values() {
    let data = [0x00, 0x00, 0x01, 0x02, 0xFF, 0xFF, 0xFF, 0xFE, 0x07];
    let mut cursor = Cursor::new(&data, 0);
    assert_eq!(cursor.u32be(), Ok(0x0102));
    assert_eq!(cursor.i32be(), Ok(-2));
    assert_eq!(cursor.pos(), 8);
    assert_eq!(cursor.peek_u8(), Ok(7));
    assert_eq!(cursor.u8(), Ok(7));
    assert_eq!(
        cursor.u8(),
        Err(Error::Truncated {
            offset: 9,
            needed: 1,
            len: 9
        })
    );
}

#[test]
fn cursor_take_reports_where_it_ran_out() {
    let data = [1u8, 2, 3];
    let mut cursor = Cursor::new(&data, 1);
    assert_eq!(
        cursor.take(5),
        Err(Error::Truncated {
            offset: 1,
            needed: 5,
            len: 3
        })
    );
    assert_eq!(cursor.pos(), 1);
    assert_eq!(cursor.take(2), Ok(&data[1..3]));
    assert_eq!(cursor.pos(), 3);
    assert!(cursor.skip(1).is_err());
}

#[test]
fn utf16_decoding_replaces_unpaired_surrogates() {
    // "Hi", then a lone high surrogate, then U+1F600 as a surrogate pair.
    let data = [0x00, 0x48, 0x00, 0x69, 0xD8, 0x00, 0xD8, 0x3D, 0xDE, 0x00];
    let mut cursor = Cursor::new(&data, 0);
    assert_eq!(cursor.utf16be(5).expect("in bounds"), "Hi\u{FFFD}\u{1F600}");
    assert!(Cursor::new(&data, 0).utf16be(6).is_err());
}

#[test]
fn skip_prefixed_skips_the_declared_length() {
    let data = [0x00, 0x00, 0x00, 0x02, 0xAA, 0xBB, 0x05];
    let mut cursor = Cursor::new(&data, 0);
    cursor.skip_prefixed().expect("in bounds");
    assert_eq!(cursor.pos(), 6);
    let short = [0x00, 0x00, 0x00, 0x09, 0xAA];
    assert!(Cursor::new(&short, 0).skip_prefixed().is_err());
}

#[test]
fn fixed_point_encodes_big_endian_integer_and_fraction() {
    assert_eq!(
        encode_fixed(-98304),
        Some(vec![0xFF, 0xFF, 0xFF, 0xFF, 0xFF, 0xFE, 0x80, 0x00])
    );
    assert_eq!(
        encode_fixed(7077 * 65536),
        Some(vec![0x00, 0x00, 0x00, 0x00, 0x1B, 0xA5, 0x00, 0x00])
    );
}

#[test]
fn species_names_and_bytes() {
    assert_eq!(Species::Ithkul.race1(), 5);
    assert_eq!(Species::from(5u8), Species::Ithkul);
    assert_eq!(Species::from(200u8), Species::Unknown(200));
    assert_eq!(Species::Unknown(200).race1(), 200);
    assert_eq!(Species::NonCorporeal.name(), "NonCorporeal");
    assert_eq!(Species::Unknown(42).name(), "race1=42");
    assert_eq!(Species::from_name("noncorporeal"), Some(Species::NonCorporeal));
    assert_eq!(Species::from_name_or_subrace("EVON"), Some(Species::Human));
    assert_eq!(Species::from_name_or_subrace("nobody"), None);
}

#[test]
fn every_known_species_is_found_by_its_name() {
    for species in KNOWN {
        let name = species.name();
        assert_eq!(Species::from_name(&name), Some(species));
        assert_eq!(Species::from_name(&name.to_uppercase()), Some(species));
        assert_eq!(Species::from_name_or_subrace(&name), Some(species));
    }
}

#[test]
fn roman_numerals_repeat_tens_above_ten() {
    assert_eq!(roman(0), "");
    assert_eq!(roman(19), "XIX");
    assert_eq!(roman(40), "XXXX");
}

#[test]
fn error_messages_read_like_the_display_text() {
    assert_eq!(
        Error::NoGalaxyMarker.message(),
        "galaxy marker VSYXALAG not found (not a MOO3 save?)"
    );
    assert_eq!(
        Error::Truncated {
            offset: 0x1B,
            needed: 4,
            len: 20
        }
        .message(),
        "truncated read: 4 bytes at offset 0x1B (file len 20)"
    );
    assert_eq!(
        Error::BadSystemName { offset: 255, len: 0 }.message(),
        "implausible system name length 0 at offset 0xFF"
    );
    assert_eq!(
        Error::NoHeaderMagic.message(),
        "header magic VS3RDAEH not found (not a MOO3 save?)"
    );
    assert_eq!(
        Error::StaleRegion { offset: 0xABC }.message(),
        "region at offset 0xABC does not match the parsed record (stale plan or wrong file)"
    );
    assert_eq!(
        Error::ValueOutOfRange {
            what: "population",
            value: -5
        }
        .message(),
        "population -5 does not fit the save format's range"
    );
    assert_eq!(
        Error::EmpireRecordNotFound {
            name: "Zog".to_string()
        }
        .message(),
        "empire record for \"Zog\" not found in PLAYERSV"
    );
}
