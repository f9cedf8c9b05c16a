use moo3_save::empire::{empires, set_treasury, treasury, Empire};
use moo3_save::Error;

fn utf16(text: &str) -> Vec<u8> {
    text.encode_utf16().flat_map(|unit| unit.to_be_bytes()).collect()
}

fn record(id: u8, species: &str, name: &str) -> Vec<u8> {
    let mut v = vec![id, 0, 0, 0, 0];
    v.extend_from_slice(b"ECAR");
    v.extend_from_slice(&(species.encode_utf16().count() as u32).to_be_bytes());
    v.extend_from_slice(&utf16(species));
    v.extend_from_slice(&(name.encode_utf16().count() as u32).to_be_bytes());
    v.extend_from_slice(&utf16(name));
    v
}

fn header_with_players(treasury: i32) -> Vec<u8> {
    let mut v = b"VS3RDAEH".to_vec();
    v.extend_from_slice(&[0u8; 8]);
    v.extend_from_slice(&record(1, "Tachidi", "Zorg Hive"));
    v.extend_from_slice(&record(2, "Human", "Terrans"));
    v.extend_from_slice(b"VSEICEPS");
    v.extend_from_slice(&[0u8; 32]);
    v.extend_from_slice(b"VSREYALP");
    v.extend_from_slice(&[0u8; 3]);
    v.extend_from_slice(&utf16("Zorg Hive"));
    v.extend_from_slice(&[0u8; 20]);
    v.extend_from_slice(&treasury.to_be_bytes());
    v.extend_from_slice(&[0u8; 4]);
    v
}

#[test]
fn empire_table_reads_ids_and_names() {
    let bytes = header_with_players(1234);
    let table = empires(&bytes);
    assert_eq!(
        table,
        vec![
            Empire {
                id: 1,
                species: "Tachidi".to_string(),
                name: "Zorg Hive".to_string()
            },
            Empire {
                id: 2,
                species: "Human".to_string(),
                name: "Terrans".to_string()
            },
        ]
    );
    assert!(empires(b"no table here").is_empty());
}

#[test]
fn treasury_reads_and_writes() {
    let mut bytes = header_with_players(-7);
    let table = empires(&bytes);
    assert_eq!(treasury(&bytes, &table[0]), Some(-7));
    set_treasury(&mut bytes, &table[0], 7_777_777).expect("treasury writes");
    assert_eq!(treasury(&bytes, &table[0]), Some(7_777_777));
    assert_eq!(treasury(&bytes, &table[1]), None);
    assert_eq!(
        set_treasury(&mut bytes, &table[1], 5),
        Err(Error::EmpireRecordNotFound {
            name: "Terrans".to_string()
        })
    );
}
