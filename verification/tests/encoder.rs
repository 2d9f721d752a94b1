use altered_catalog::catalog::{CardRecord, CardTable, Meta, OptimizedData, PowerStats};
use altered_catalog::encoder::{encode_catalog, has_identity_collision};
use altered_catalog::error::CatalogError;
use altered_catalog::identity::generate_numeric_id;
use altered_catalog::lookup::{CardTypeInfo, FactionInfo, LookupTables, RarityInfo};
use altered_catalog::ordering::{sort_by_id, OptimizedCard};
use altered_catalog::packing::unpack_power_values;

fn card(reference: &str, name: &str, faction: &str, rarity: &str, kind: &str) -> CardRecord {
    CardRecord {
        reference: reference.to_string(),
        name: name.to_string(),
        type_ref: kind.to_string(),
        faction_ref: faction.to_string(),
        rarity_ref: rarity.to_string(),
        image_path: format!("/img/{}.jpg", reference),
        qr_url: "https://example.com/qr".to_string(),
        main_cost: 3,
        recall_cost: 1,
        is_suspended: false,
        power: PowerStats { m: 255, o: 0, f: 128 },
    }
}

fn tables() -> LookupTables {
    let mut tables = LookupTables::new();
    for (code, name) in [("MU", "Muna"), ("AX", "Axiom"), ("BR", "Bravos")] {
        tables.factions.insert_if_absent(
            code.to_string(),
            FactionInfo { name: name.to_string(), color: String::new() },
        );
    }
    for code in ["RARE", "COMMON"] {
        tables.rarities.insert_if_absent(code.to_string(), RarityInfo { name: code.to_string() });
    }
    for code in ["SPELL", "HERO", "CHARACTER"] {
        tables
            .card_types
            .insert_if_absent(code.to_string(), CardTypeInfo { name: code.to_string() });
    }
    tables
}

fn catalog(cards: Vec<CardRecord>) -> OptimizedData {
    let mut table = CardTable::new();
    for c in cards {
        table.insert(c);
    }
    OptimizedData {
        meta: Meta {
            script_version: "2.0.0".to_string(),
            generated_at_utc: 1_700_000_000_000,
            source_set: "Multiple Sets".to_string(),
            data_sources: vec![],
            total_cards: table.len(),
        },
        lookup_tables: tables(),
        cards: table,
    }
}

fn blank(id: u32, mark: u16) -> OptimizedCard {
    OptimizedCard {
        id,
        reference_idx: mark,
        name_idx: 0,
        faction_id: 0,
        rarity_id: 0,
        card_type_id: 0,
        main_cost: 0,
        recall_cost: 0,
        power_packed: 0,
        image_path_idx: 0,
        qr_url_idx: 0,
        flags: 0,
    }
}

#[test]
fn an_empty_catalog_encodes_to_nothing() {
    let db = encode_catalog(&catalog(vec![])).unwrap();
    assert!(db.strings.is_empty());
    assert!(db.cards.is_empty());
}

#[test]
fn strings_are_pooled_in_key_order_of_the_records() {
    let data = catalog(vec![
        card("R2", "Beta", "BR", "RARE", "HERO"),
        card("R1", "Alpha", "AX", "COMMON", "SPELL"),
        card("R3", "Alpha", "MU", "COMMON", "CHARACTER"),
    ]);
    let db = encode_catalog(&data).unwrap();
    assert_eq!(
        db.strings,
        vec![
            "R1",
            "Alpha",
            "/img/R1.jpg",
            "https://example.com/qr",
            "R2",
            "Beta",
            "/img/R2.jpg",
            "R3",
            "/img/R3.jpg",
        ]
    );
}

#[test]
fn a_record_carries_handles_indices_and_packed_power() {
    let mut suspended = card("R2", "Beta", "BR", "RARE", "HERO");
    suspended.is_suspended = true;
    suspended.main_cost = 7;
    suspended.recall_cost = 9;
    suspended.power = PowerStats { m: 1, o: 2, f: 3 };
    let data = catalog(vec![card("R1", "Alpha", "AX", "COMMON", "SPELL"), suspended]);
    let db = encode_catalog(&data).unwrap();
    assert_eq!(db.cards.len(), 2);
    let r1 = db.cards.iter().find(|c| c.id == generate_numeric_id("R1")).unwrap();
    let r2 = db.cards.iter().find(|c| c.id == generate_numeric_id("R2")).unwrap();
    assert_eq!(
        *r1,
        OptimizedCard {
            id: generate_numeric_id("R1"),
            reference_idx: 0,
            name_idx: 1,
            faction_id: 0,
            rarity_id: 0,
            card_type_id: 2,
            main_cost: 3,
            recall_cost: 1,
            power_packed: 0xFF00_8000,
            image_path_idx: 2,
            qr_url_idx: 3,
            flags: 0,
        }
    );
    assert_eq!(
        *r2,
        OptimizedCard {
            id: generate_numeric_id("R2"),
            reference_idx: 4,
            name_idx: 5,
            faction_id: 1,
            rarity_id: 1,
            card_type_id: 1,
            main_cost: 7,
            recall_cost: 9,
            power_packed: 0x0102_0300,
            image_path_idx: 6,
            qr_url_idx: 3,
            flags: 1,
        }
    );
    assert_eq!(unpack_power_values(r1.power_packed), (255, 0, 128));
}

#[test]
fn a_code_that_its_table_lacks_gets_index_zero() {
    let data = catalog(vec![card("R1", "Alpha", "ZZ", "MYTHIC", "")]);
    let db = encode_catalog(&data).unwrap();
    assert_eq!(db.cards[0].faction_id, 0);
    assert_eq!(db.cards[0].rarity_id, 0);
    assert_eq!(db.cards[0].card_type_id, 0);
    assert_eq!(data.lookup_tables.factions.position("ZZ"), None);
    assert_eq!(data.lookup_tables.factions.position("AX"), Some(0));
}

#[test]
fn records_ascend_by_identity() {
    let mut cards = Vec::new();
    for i in 0..200 {
        cards.push(card(&format!("CARD_{}", i), &format!("Name {}", i % 7), "AX", "RARE", "HERO"));
    }
    let data = catalog(cards);
    let db = encode_catalog(&data).unwrap();
    assert_eq!(db.cards.len(), 200);
    for pair in db.cards.windows(2) {
        assert!(pair[0].id <= pair[1].id);
    }
    let mut expected: Vec<u32> =
        (0..200).map(|i| generate_numeric_id(&format!("CARD_{}", i))).collect();
    expected.sort();
    let ids: Vec<u32> = db.cards.iter().map(|c| c.id).collect();
    assert_eq!(ids, expected);
    for c in &db.cards {
        let key = &db.strings[c.reference_idx as usize];
        assert_eq!(generate_numeric_id(key), c.id);
        assert!(data.cards.contains_key(key));
    }
}

#[test]
fn encoding_twice_gives_the_same_database() {
    let data = catalog(vec![
        card("R2", "Beta", "BR", "RARE", "HERO"),
        card("R1", "Alpha", "AX", "COMMON", "SPELL"),
    ]);
    assert_eq!(encode_catalog(&data), encode_catalog(&data));
}

#[test]
fn records_of_equal_identity_keep_their_order() {
    let mut records: Vec<OptimizedCard> = Vec::new();
    for (id, mark) in [(5, 0), (3, 1), (5, 2), (1, 3), (3, 4), (5, 5), (0, 6), (9, 7)] {
        records.push(blank(id, mark));
    }
    let sorted = sort_by_id(&records);
    let order: Vec<(u32, u16)> = sorted.iter().map(|c| (c.id, c.reference_idx)).collect();
    assert_eq!(order, vec![(0, 6), (1, 3), (3, 1), (3, 4), (5, 0), (5, 2), (5, 5), (9, 7)]);
    assert!(sort_by_id(&Vec::new()).is_empty());
    assert_eq!(sort_by_id(&vec![blank(4, 9)]), vec![blank(4, 9)]);
    let mut many: Vec<OptimizedCard> = Vec::new();
    let mut state: u32 = 7;
    for mark in 0..1000u16 {
        state = state.wrapping_mul(1_664_525).wrapping_add(1_013_904_223);
        many.push(blank(state >> 26, mark));
    }
    let mut expected = many.clone();
    expected.sort_by_key(|c| c.id);
    assert_eq!(sort_by_id(&many), expected);
}

#[test]
fn a_record_without_a_key_fails_the_encoding() {
    let data = catalog(vec![
        card("R1", "Alpha", "AX", "COMMON", "SPELL"),
        card("", "Nameless", "AX", "COMMON", "SPELL"),
    ]);
    assert_eq!(encode_catalog(&data), Err(CatalogError::MissingKey));
}

#[test]
fn more_strings_than_handles_fail_the_encoding() {
    let mut table = CardTable::new();
    for i in 0..16_384 {
        let mut c = card(&format!("K{:05}", i), &format!("N{}", i), "AX", "COMMON", "HERO");
        c.qr_url = format!("Q{}", i);
        table.insert(c);
    }
    let mut data = catalog(vec![]);
    data.cards = table;
    // 16384 records with four strings of their own each fill the pool
    let db = encode_catalog(&data).unwrap();
    assert_eq!(db.strings.len(), 65_536);
    assert_eq!(db.cards.len(), 16_384);
    // a record that brings nothing new still fits
    let mut repeat = card("K99999", "N0", "AX", "COMMON", "HERO");
    repeat.image_path = "Q0".to_string();
    repeat.qr_url = "Q1".to_string();
    data.cards.insert(repeat);
    assert_eq!(encode_catalog(&data), Err(CatalogError::PoolOverflow));
    // the key failure comes first
    data.cards.insert(card("", "Nameless", "AX", "COMMON", "HERO"));
    assert_eq!(encode_catalog(&data), Err(CatalogError::MissingKey));
}

#[test]
fn equal_identities_are_found() {
    let distinct: Vec<OptimizedCard> = vec![blank(1, 0), blank(2, 1), blank(5, 2)];
    assert!(!has_identity_collision(&distinct));
    let collide: Vec<OptimizedCard> = vec![blank(1, 0), blank(2, 1), blank(2, 2), blank(5, 3)];
    assert!(has_identity_collision(&collide));
    let at_the_end: Vec<OptimizedCard> = vec![blank(1, 0), blank(5, 1), blank(5, 2)];
    assert!(has_identity_collision(&at_the_end));
    assert!(!has_identity_collision(&Vec::new()));
    assert!(!has_identity_collision(&vec![blank(7, 0)]));
    let db = encode_catalog(&catalog(vec![
        card("R1", "Alpha", "AX", "COMMON", "SPELL"),
        card("R2", "Beta", "BR", "RARE", "HERO"),
    ]))
    .unwrap();
    assert!(!has_identity_collision(&db.cards));
}

#[test]
fn more_codes_than_indices_fail_the_encoding() {
    let mut data = catalog(vec![card("R1", "Alpha", "AX", "COMMON", "SPELL")]);
    for i in 0..65_534 {
        data.lookup_tables
            .rarities
            .insert_if_absent(format!("{:05}", i), RarityInfo { name: String::new() });
    }
    // 65536 codes have an index each
    assert_eq!(data.lookup_tables.rarities.len(), 65_536);
    let db = encode_catalog(&data).unwrap();
    assert_eq!(db.cards[0].rarity_id, 65_534);
    // one more has none
    data.lookup_tables
        .rarities
        .insert_if_absent("ZZZ".to_string(), RarityInfo { name: String::new() });
    assert_eq!(encode_catalog(&data), Err(CatalogError::TableOverflow));
    // the key failure comes first
    data.cards.insert(card("", "Nameless", "AX", "COMMON", "HERO"));
    assert_eq!(encode_catalog(&data), Err(CatalogError::MissingKey));
}
