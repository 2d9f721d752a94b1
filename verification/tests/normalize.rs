use altered_catalog::catalog::PowerStats;
use altered_catalog::delta_update::create_delta_update;
use altered_catalog::identity::generate_numeric_id;
use altered_catalog::database::create_optimized_database;
use altered_catalog::encoder::encode_catalog;
use altered_catalog::error::CatalogError;
use altered_catalog::lookup::TABLE_CAPACITY;
use altered_catalog::normalize::{
    clamp_to_byte, normalize, number_or_zero, text_or_empty, to_record, RawCard, RawCode,
};

fn code(reference: &str, name: &str, color: &str) -> Option<RawCode> {
    Some(RawCode {
        reference: reference.to_string(),
        name: name.to_string(),
        color: color.to_string(),
    })
}

fn raw(reference: &str, name: &str) -> RawCard {
    RawCard {
        reference: reference.to_string(),
        name: name.to_string(),
        image_path: "/img.jpg".to_string(),
        qr_url: "https://qr".to_string(),
        rarity: code("COMMON", "Commun", ""),
        faction: code("AX", "Axiom", "#8A5A3B"),
        card_type: code("HERO", "Héros", ""),
        main_cost: 3,
        recall_cost: 1,
        mountain_power: 2,
        ocean_power: 1,
        forest_power: 3,
        is_suspended: false,
    }
}

#[test]
fn numbers_are_brought_into_the_range_of_a_byte() {
    assert_eq!(clamp_to_byte(0), 0);
    assert_eq!(clamp_to_byte(255), 255);
    assert_eq!(clamp_to_byte(256), 255);
    assert_eq!(clamp_to_byte(-1), 0);
    assert_eq!(clamp_to_byte(i64::MAX), 255);
    assert_eq!(clamp_to_byte(i64::MIN), 0);
    assert_eq!(clamp_to_byte(128), 128);
}

#[test]
fn a_harvested_card_becomes_a_record() {
    let mut card = raw("R1", "Alpha");
    card.main_cost = 300;
    card.ocean_power = -5;
    card.faction = None;
    card.is_suspended = true;
    let record = to_record(&card);
    assert_eq!(record.reference, "R1");
    assert_eq!(record.name, "Alpha");
    assert_eq!(record.type_ref, "HERO");
    assert_eq!(record.faction_ref, "");
    assert_eq!(record.rarity_ref, "COMMON");
    assert_eq!(record.image_path, "/img.jpg");
    assert_eq!(record.qr_url, "https://qr");
    assert_eq!(record.main_cost, 255);
    assert_eq!(record.recall_cost, 1);
    assert!(record.is_suspended);
    assert_eq!(record.power, PowerStats { m: 2, o: 0, f: 3 });
}

#[test]
fn later_cards_replace_earlier_ones_and_keyless_cards_are_passed_over() {
    let mut suspended = raw("R1", "Alpha");
    suspended.is_suspended = true;
    let harvest = vec![raw("R2", "Beta"), raw("R1", "Alpha"), raw("", "Nameless"), suspended];
    let catalog =
        normalize(&harvest, true, "2.0.0", "Multiple Sets", vec!["q".to_string()], 99);
    let keys: Vec<&str> = catalog.cards.as_slice().iter().map(|c| c.reference.as_str()).collect();
    assert_eq!(keys, vec!["R1", "R2"]);
    assert!(catalog.cards.get("R1").unwrap().is_suspended);
    assert!(!catalog.cards.get("R2").unwrap().is_suspended);
    assert_eq!(catalog.meta.total_cards, 2);
    assert_eq!(catalog.meta.script_version, "2.0.0");
    assert_eq!(catalog.meta.source_set, "Multiple Sets");
    assert_eq!(catalog.meta.data_sources, vec!["q".to_string()]);
    assert_eq!(catalog.meta.generated_at_utc, 99);
}

#[test]
fn the_first_description_of_a_code_stays() {
    let mut second = raw("R2", "Beta");
    second.faction = code("AX", "Renamed", "#000000");
    second.rarity = code("RARE", "Rare", "");
    let mut keyless = raw("", "Nameless");
    keyless.card_type = code("SPELL", "Sort", "");
    let harvest = vec![raw("R1", "Alpha"), second, keyless];
    let catalog = normalize(&harvest, true, "v", "s", vec![], 0);
    let tables = &catalog.lookup_tables;
    assert_eq!(tables.factions.len(), 1);
    assert_eq!(tables.factions.get("AX").unwrap().name, "Axiom");
    assert_eq!(tables.factions.get("AX").unwrap().color, "#8A5A3B");
    assert_eq!(tables.rarities.texts(), vec!["COMMON", "Commun", "RARE", "Rare"]);
    // the code of a card without a key is listed all the same
    assert_eq!(tables.card_types.texts(), vec!["HERO", "Héros", "SPELL", "Sort"]);
}

#[test]
fn codes_without_a_reference_are_kept_only_on_request() {
    let mut card = raw("R1", "Alpha");
    card.rarity = code("", "Unnamed", "");
    card.faction = None;
    let harvest = vec![card];
    let kept = normalize(&harvest, true, "v", "s", vec![], 0);
    assert_eq!(kept.lookup_tables.rarities.texts(), vec!["", "Unnamed"]);
    assert_eq!(kept.lookup_tables.factions.len(), 0);
    let dropped = normalize(&harvest, false, "v", "s", vec![], 0);
    assert_eq!(dropped.lookup_tables.rarities.len(), 0);
    assert_eq!(dropped.lookup_tables.card_types.texts(), vec!["HERO", "Héros"]);
    assert_eq!(kept.cards, dropped.cards);
    assert_eq!(kept.cards.get("R1").unwrap().rarity_ref, "");
}

#[test]
fn an_empty_harvest_gives_an_empty_catalog() {
    let catalog = normalize(&vec![], false, "v", "s", vec![], 0);
    assert_eq!(catalog.cards.len(), 0);
    assert_eq!(catalog.meta.total_cards, 0);
    assert_eq!(catalog.lookup_tables.rarities.len(), 0);
}

#[test]
fn a_delta_update_lists_the_identities_that_are_gone() {
    let old = normalize(
        &vec![raw("R1", "a"), raw("R2", "b"), raw("R3", "c"), raw("R4", "d")],
        true,
        "v",
        "s",
        vec![],
        0,
    );
    let mut changed = raw("R2", "b");
    changed.is_suspended = true;
    let new =
        normalize(&vec![changed, raw("R4", "d"), raw("R5", "e")], true, "v", "s", vec![], 0);
    let update = create_delta_update(&old, &new, 7, 8);
    assert_eq!(
        update.removed_card_ids,
        vec![generate_numeric_id("R1"), generate_numeric_id("R3")]
    );
    assert!(update.added_cards.is_empty());
    assert!(update.modified_cards.is_empty());
    assert_eq!(update.base_version, 7);
    assert_eq!(update.delta_version, 8);
    let same = create_delta_update(&old, &old, 1, 2);
    assert!(same.removed_card_ids.is_empty());
}

#[test]
fn a_table_takes_every_code() {
    let mut harvest = Vec::new();
    for i in 0..TABLE_CAPACITY + 1 {
        let mut card = raw(&format!("R{}", i % 10), "x");
        card.rarity = code(&format!("{:05}", i), &format!("first {}", i), "");
        harvest.push(card);
    }
    // a code seen before keeps its first description
    let mut again = raw("R1", "later");
    again.rarity = code("00007", "second", "");
    again.is_suspended = true;
    harvest.push(again);

    let catalog = normalize(&harvest, true, "v", "s", vec![], 0);
    let rarities = &catalog.lookup_tables.rarities;
    assert_eq!(rarities.len(), TABLE_CAPACITY + 1);
    assert!(!rarities.fits_indices());
    assert!(!catalog.lookup_tables.fit_indices());
    assert!(catalog.lookup_tables.factions.fits_indices());
    assert_eq!(rarities.position("65536"), Some(65536));
    assert_eq!(rarities.get("65536").unwrap().name, "first 65536");
    assert_eq!(rarities.get("00007").unwrap().name, "first 7");

    // one record for each key, the later card in place of the earlier
    assert_eq!(catalog.cards.len(), 10);
    assert_eq!(catalog.meta.total_cards, 10);
    let r1 = catalog.cards.get("R1").unwrap();
    assert_eq!(r1.name, "later");
    assert!(r1.is_suspended);
    assert_eq!(r1.rarity_ref, "00007");

    // the catalog is there; only its encoding has no index for every code
    assert_eq!(encode_catalog(&catalog), Err(CatalogError::TableOverflow));
    assert_eq!(create_optimized_database(&catalog), Err(CatalogError::TableOverflow));
}

#[test]
fn a_missing_text_is_empty() {
    assert_eq!(text_or_empty(None), "");
    assert_eq!(text_or_empty(Some("")), "");
    assert_eq!(text_or_empty(Some("Héros")), "Héros");
}

#[test]
fn a_missing_or_unreadable_number_is_zero() {
    assert_eq!(number_or_zero(None), 0);
    for text in ["", "+", "-", " 5", "5 ", "1.5", "0x10", "--1", "+-1", "١٢", "1e3", "five"] {
        assert_eq!(number_or_zero(Some(text)), 0);
    }
    assert_eq!(number_or_zero(Some("9223372036854775808")), 0);
    assert_eq!(number_or_zero(Some("-9223372036854775809")), 0);
    assert_eq!(number_or_zero(Some("99999999999999999999999999")), 0);
}

#[test]
fn a_number_is_read_as_it_is_spelled() {
    assert_eq!(number_or_zero(Some("0")), 0);
    assert_eq!(number_or_zero(Some("3")), 3);
    assert_eq!(number_or_zero(Some("+3")), 3);
    assert_eq!(number_or_zero(Some("-3")), -3);
    assert_eq!(number_or_zero(Some("007")), 7);
    assert_eq!(number_or_zero(Some("-0")), 0);
    assert_eq!(number_or_zero(Some("255")), 255);
    assert_eq!(number_or_zero(Some("9223372036854775807")), i64::MAX);
    assert_eq!(number_or_zero(Some("-9223372036854775808")), i64::MIN);
    assert_eq!(number_or_zero(Some("-9223372036854775807")), i64::MIN + 1);
    let samples = [
        "12", "-12", "+0", "0000", "1234567890123", "-", "9", "92233720368547758070", "a1", "1a",
        "+9223372036854775807", "-00000000000000000000001",
    ];
    for text in samples {
        assert_eq!(number_or_zero(Some(text)), text.parse::<i64>().unwrap_or(0));
    }
}
