use altered_catalog::catalog::{CardRecord, CardTable, PowerStats};
use altered_catalog::lookup::{
    CardTypeInfo, FactionInfo, LookupEntry, LookupTable, LookupTables, RarityInfo, TABLE_CAPACITY,
};

fn card(reference: &str, name: &str) -> CardRecord {
    CardRecord {
        reference: reference.to_string(),
        name: name.to_string(),
        type_ref: "HERO".to_string(),
        faction_ref: "AX".to_string(),
        rarity_ref: "COMMON".to_string(),
        image_path: format!("/img/{}.jpg", reference),
        qr_url: format!("https://example.com/{}", reference),
        main_cost: 1,
        recall_cost: 2,
        is_suspended: false,
        power: PowerStats { m: 1, o: 2, f: 3 },
    }
}

fn keys(table: &CardTable) -> Vec<String> {
    table.as_slice().iter().map(|c| c.reference.clone()).collect()
}

#[test]
fn a_new_table_is_empty() {
    let table = CardTable::new();
    assert_eq!(table.len(), 0);
    assert!(table.as_slice().is_empty());
    assert!(!table.contains_key("R1"));
    assert_eq!(table.get("R1"), None);
}

#[test]
fn records_are_kept_in_key_order() {
    let mut table = CardTable::new();
    for key in ["R3", "R1", "R2", "A", "R10", ""] {
        table.insert(card(key, key));
    }
    assert_eq!(keys(&table), vec!["", "A", "R1", "R10", "R2", "R3"]);
    assert_eq!(table.len(), 6);
}

#[test]
fn insert_overwrites_the_record_under_the_same_key() {
    let mut table = CardTable::new();
    table.insert(card("R1", "first"));
    table.insert(card("R2", "other"));
    table.insert(card("R1", "second"));
    assert_eq!(table.len(), 2);
    assert_eq!(table.get("R1").map(|c| c.name.as_str()), Some("second"));
    assert_eq!(table.get("R2").map(|c| c.name.as_str()), Some("other"));
}

#[test]
fn remove_takes_out_the_record_and_tolerates_absence() {
    let mut table = CardTable::new();
    table.insert(card("R1", "one"));
    table.insert(card("R2", "two"));
    table.insert(card("R3", "three"));
    let removed = table.remove("R2");
    assert_eq!(removed, Some(card("R2", "two")));
    assert_eq!(keys(&table), vec!["R1", "R3"]);
    assert_eq!(table.remove("R2"), None);
    assert_eq!(table.remove("nope"), None);
    assert_eq!(keys(&table), vec!["R1", "R3"]);
}

#[test]
fn records_compare_field_by_field() {
    let a = card("R1", "Alpha");
    let mut b = a.clone();
    assert!(a.same_as(&b));
    assert_eq!(a, b);
    b.is_suspended = true;
    assert!(!a.same_as(&b));
    let mut c = a.clone();
    c.power.f = 4;
    assert!(!a.same_as(&c));
    let mut d = a.clone();
    d.qr_url.push('x');
    assert!(!a.same_as(&d));
    let mut e = a.clone();
    e.main_cost = 9;
    assert!(!a.same_as(&e));
}

#[test]
fn lookup_entries_are_never_replaced() {
    let mut table: LookupTable<FactionInfo> = LookupTable::new();
    assert!(table.insert_if_absent(
        "AX".to_string(),
        FactionInfo { name: "Axiom".to_string(), color: "#8A5A3B".to_string() }
    ));
    assert!(!table.insert_if_absent(
        "AX".to_string(),
        FactionInfo { name: "Other".to_string(), color: "#000000".to_string() }
    ));
    assert_eq!(table.len(), 1);
    assert_eq!(table.get("AX").map(|i| i.name.as_str()), Some("Axiom"));
    assert_eq!(table.get("AX").map(|i| i.color.as_str()), Some("#8A5A3B"));
    assert_eq!(table.get("BR"), None);
}

#[test]
fn lookup_indices_follow_the_order_of_the_codes() {
    let mut table: LookupTable<RarityInfo> = LookupTable::new();
    for code in ["RARE", "COMMON", "UNIQUE"] {
        assert!(table.insert_if_absent(code.to_string(), RarityInfo { name: code.to_lowercase() }));
    }
    assert_eq!(table.position("COMMON"), Some(0));
    assert_eq!(table.position("RARE"), Some(1));
    assert_eq!(table.position("UNIQUE"), Some(2));
    assert_eq!(table.position("MYTHIC"), None);
    assert_eq!(table.index_or_zero("RARE"), 1);
    assert_eq!(table.index_or_zero("COMMON"), 0);
    assert_eq!(table.index_or_zero("MYTHIC"), 0);
    let codes: Vec<&str> = table.entries().iter().map(|e| e.reference.as_str()).collect();
    assert_eq!(codes, vec!["COMMON", "RARE", "UNIQUE"]);
    assert_eq!(
        table.entries()[1],
        LookupEntry { reference: "RARE".to_string(), info: RarityInfo { name: "rare".to_string() } }
    );
}

#[test]
fn lookup_texts_list_code_then_description() {
    let mut tables = LookupTables::new();
    tables.factions.insert_if_absent(
        "BR".to_string(),
        FactionInfo { name: "Bravos".to_string(), color: "red".to_string() },
    );
    tables.factions.insert_if_absent(
        "AX".to_string(),
        FactionInfo { name: "Axiom".to_string(), color: "brown".to_string() },
    );
    tables
        .card_types
        .insert_if_absent("HERO".to_string(), CardTypeInfo { name: "Hero".to_string() });
    assert_eq!(tables.factions.texts(), vec!["AX", "Axiom", "brown", "BR", "Bravos", "red"]);
    assert_eq!(tables.card_types.texts(), vec!["HERO", "Hero"]);
    assert!(tables.rarities.texts().is_empty());
}

#[test]
fn a_lookup_table_grows_beyond_the_indices() {
    let mut table: LookupTable<RarityInfo> = LookupTable::new();
    for i in 0..TABLE_CAPACITY {
        assert!(table.insert_if_absent(format!("{:05}", i), RarityInfo { name: String::new() }));
    }
    assert_eq!(table.len(), TABLE_CAPACITY);
    assert!(table.fits_indices());
    assert_eq!(table.index_or_zero("65535"), 65535);
    assert!(table.insert_if_absent("zzz".to_string(), RarityInfo { name: String::new() }));
    assert!(!table.insert_if_absent("zzz".to_string(), RarityInfo { name: String::new() }));
    assert_eq!(table.len(), TABLE_CAPACITY + 1);
    assert!(!table.fits_indices());
    assert_eq!(table.position("65535"), Some(65535));
    assert_eq!(table.position("zzz"), Some(65536));
    assert_eq!(table.position("none"), None);
    assert_eq!(table.index_byte("00255"), 255);
    assert_eq!(table.index_byte("00256"), 0);
    assert_eq!(table.index_byte("00513"), 1);
    assert_eq!(table.index_byte("zzz"), 0);
    assert_eq!(table.index_byte("none"), 0);
}
