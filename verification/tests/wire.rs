use altered_catalog::catalog::{CardRecord, PowerStats};
use altered_catalog::compression::{decompress, Codec};
use altered_catalog::delta::DeltaOperation;
use altered_catalog::delta_manager::{create_sample_delta, DeltaPackage, DeltaStatistics};
use altered_catalog::error::CatalogError;
use altered_catalog::wire::{deserialize, package_artifacts, package_outcome, serialize};

fn card(reference: &str, name: &str, suspended: bool) -> CardRecord {
    CardRecord {
        reference: reference.to_string(),
        name: name.to_string(),
        type_ref: "HERO".to_string(),
        faction_ref: "AX".to_string(),
        rarity_ref: String::new(),
        image_path: "/path/é/日本.jpg".to_string(),
        qr_url: "https://example.com/qr".to_string(),
        main_cost: 3,
        recall_cost: 255,
        is_suspended: suspended,
        power: PowerStats { m: 255, o: 0, f: 128 },
    }
}

fn package(operations: Vec<DeltaOperation>, generated_at: i64) -> DeltaPackage {
    DeltaPackage {
        base_version: "2.0.0".to_string(),
        target_version: "2.0.1".to_string(),
        generated_at,
        operations,
        checksum: "66".to_string(),
        statistics: DeltaStatistics {
            total_operations: 2,
            cards_added: 1,
            cards_modified: 1,
            cards_removed: 0,
            size_bytes: 1024,
        },
    }
}

fn number(n: u64) -> Vec<u8> {
    n.to_le_bytes().to_vec()
}

fn text(t: &str) -> Vec<u8> {
    let mut bytes = number(t.len() as u64);
    bytes.extend_from_slice(t.as_bytes());
    bytes
}

#[test]
fn a_package_is_read_back_as_it_was() {
    let packages = vec![
        package(vec![], 0),
        package(vec![DeltaOperation::Remove("R1".to_string())], -1),
        package(
            vec![
                DeltaOperation::Add(card("R2", "Beta", true)),
                DeltaOperation::Remove(String::new()),
                DeltaOperation::Modify(card("R1", "Alpha \"quoted\"\n", false)),
                DeltaOperation::Add(card("", "", false)),
            ],
            i64::MAX,
        ),
        package(vec![DeltaOperation::Modify(card("clé", "日本語", true))], i64::MIN),
        create_sample_delta(12),
    ];
    for p in packages {
        let bytes = serialize(&p);
        assert_eq!(deserialize(&bytes), Ok(p));
    }
}

#[test]
fn the_byte_form_is_laid_out_field_by_field() {
    let p = package(vec![DeltaOperation::Remove("R1".to_string())], 0x0102_0304_0506_0708);
    let mut expected = b"ADPK".to_vec();
    expected.extend(text("2.0.0"));
    expected.extend(text("2.0.1"));
    expected.extend(number(0x0102_0304_0506_0708));
    expected.extend(number(1));
    expected.push(2);
    expected.extend(text("R1"));
    expected.extend(text("66"));
    for n in [2u64, 1, 1, 0, 1024] {
        expected.extend(number(n));
    }
    assert_eq!(serialize(&p), expected);
    assert_eq!(&expected[4 + 13 + 13..4 + 13 + 13 + 8], &[8, 7, 6, 5, 4, 3, 2, 1]);
}

#[test]
fn a_record_is_written_as_seven_texts_and_six_bytes() {
    let c = card("R2", "Beta", true);
    let p = package(vec![DeltaOperation::Add(c)], 5);
    let bytes = serialize(&p);
    let mut record = vec![0u8];
    for t in ["R2", "Beta", "HERO", "AX", "", "/path/é/日本.jpg", "https://example.com/qr"] {
        record.extend(text(t));
    }
    record.extend_from_slice(&[3, 255, 1, 255, 0, 128]);
    let start = 4 + 13 + 13 + 8 + 8;
    assert_eq!(&bytes[start..start + record.len()], &record[..]);
}

#[test]
fn damaged_bytes_are_refused() {
    let operations = || {
        vec![
            DeltaOperation::Add(card("R2", "Beta", true)),
            DeltaOperation::Remove("R1".to_string()),
        ]
    };
    let good = serialize(&package(operations(), 7));
    assert_eq!(deserialize(&good), Ok(package(operations(), 7)));

    assert_eq!(deserialize(&[]), Err(CatalogError::MalformedPackage));
    assert_eq!(deserialize(b"ADP"), Err(CatalogError::MalformedPackage));
    assert_eq!(deserialize(b"ADPK"), Err(CatalogError::MalformedPackage));

    let mut wrong_magic = good.clone();
    wrong_magic[0] = b'B';
    assert_eq!(deserialize(&wrong_magic), Err(CatalogError::MalformedPackage));

    for cut in 0..good.len() {
        assert_eq!(deserialize(&good[..cut]), Err(CatalogError::MalformedPackage));
    }

    let mut trailing = good.clone();
    trailing.push(0);
    assert_eq!(deserialize(&trailing), Err(CatalogError::MalformedPackage));

    // the kind of the first operation
    let kind_at = 4 + 13 + 13 + 8 + 8;
    assert_eq!(good[kind_at], 0);
    let mut wrong_kind = good.clone();
    wrong_kind[kind_at] = 3;
    assert_eq!(deserialize(&wrong_kind), Err(CatalogError::MalformedPackage));

    // the suspended flag of the record
    let flag_at = good.iter().rposition(|b| *b == 128).unwrap() - 3;
    assert_eq!(good[flag_at], 1);
    let mut wrong_flag = good.clone();
    wrong_flag[flag_at] = 2;
    assert_eq!(deserialize(&wrong_flag), Err(CatalogError::MalformedPackage));

    // a text that is no UTF-8
    let mut wrong_text = good.clone();
    wrong_text[4 + 8] = 0xFF;
    assert_eq!(deserialize(&wrong_text), Err(CatalogError::MalformedPackage));

    // more operations announced than written
    let mut wrong_count = good.clone();
    wrong_count[4 + 13 + 13 + 8 + 7] = 0x7F;
    assert_eq!(deserialize(&wrong_count), Err(CatalogError::MalformedPackage));
}

#[test]
fn a_changed_flag_reads_as_a_changed_package() {
    let p = package(vec![DeltaOperation::Add(card("R2", "Beta", true))], 7);
    let mut bytes = serialize(&p);
    let flag_at = bytes.iter().rposition(|b| *b == 128).unwrap() - 3;
    bytes[flag_at] = 0;
    assert_eq!(
        deserialize(&bytes),
        Ok(package(vec![DeltaOperation::Add(card("R2", "Beta", false))], 7))
    );
}

#[test]
fn nothing_read_is_a_malformed_package() {
    assert_eq!(package_outcome(None), Err(CatalogError::MalformedPackage));
    let p = package(vec![], 1);
    assert_eq!(package_outcome(Some(package(vec![], 1))), Ok(p));
}

#[test]
fn the_companion_unpacks_to_the_byte_form() {
    let mut operations = Vec::new();
    for i in 0..200 {
        operations.push(DeltaOperation::Add(card(&format!("R{}", i), "Same Name", false)));
    }
    let p = package(operations, 3);
    let artifacts = package_artifacts(&p).unwrap();
    assert_eq!(artifacts.canonical, serialize(&p));
    assert!(artifacts.compressed.len() < artifacts.canonical.len());
    assert_eq!(decompress(&artifacts.compressed, Codec::Gzip), Ok(artifacts.canonical.clone()));
    assert_eq!(deserialize(&artifacts.canonical), Ok(p));
}
