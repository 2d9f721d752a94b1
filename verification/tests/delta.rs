use altered_catalog::catalog::{CardRecord, CardTable, Meta, OptimizedData, PowerStats};
use altered_catalog::delta::DeltaOperation;
use altered_catalog::delta_manager::{
    apply_delta_at, build_delta, create_sample_delta, verify_checksum, DeltaManager,
    DeltaPackage, DeltaStatistics,
};
use altered_catalog::error::CatalogError;
use altered_catalog::lookup::{FactionInfo, LookupTables};

fn card(reference: &str, name: &str, power: (u8, u8, u8), suspended: bool) -> CardRecord {
    CardRecord {
        reference: reference.to_string(),
        name: name.to_string(),
        type_ref: String::new(),
        faction_ref: String::new(),
        rarity_ref: String::new(),
        image_path: String::new(),
        qr_url: String::new(),
        main_cost: 0,
        recall_cost: 0,
        is_suspended: suspended,
        power: PowerStats { m: power.0, o: power.1, f: power.2 },
    }
}

fn meta(total_cards: usize) -> Meta {
    Meta {
        script_version: "2.0.0".to_string(),
        generated_at_utc: 1_700_000_000_000,
        source_set: "Multiple Sets".to_string(),
        data_sources: vec!["test".to_string()],
        total_cards,
    }
}

fn catalog(cards: Vec<CardRecord>) -> OptimizedData {
    let mut table = CardTable::new();
    let count = cards.len();
    for c in cards {
        table.insert(c);
    }
    OptimizedData { meta: meta(count), lookup_tables: LookupTables::new(), cards: table }
}

#[test]
fn one_added_and_one_modified_record() {
    let a = catalog(vec![card("R1", "Alpha", (1, 2, 3), false)]);
    let r1_changed = card("R1", "Alpha", (1, 2, 3), true);
    let r2 = card("R2", "Beta", (0, 0, 0), true);
    let b = catalog(vec![r1_changed.clone(), r2.clone()]);

    let manager = DeltaManager::new("./deltas/");
    let delta = manager.create_delta(&a, &b, "v1", "v2", 1_700_000_000_123).unwrap();
    assert_eq!(
        delta.operations,
        vec![DeltaOperation::Add(r2), DeltaOperation::Modify(r1_changed)]
    );
    assert_eq!(
        delta.statistics,
        DeltaStatistics {
            total_operations: 2,
            cards_added: 1,
            cards_modified: 1,
            cards_removed: 0,
            size_bytes: 0,
        }
    );
    assert_eq!(delta.base_version, "v1");
    assert_eq!(delta.target_version, "v2");
    assert_eq!(delta.checksum, "66");
    assert_eq!(delta.generated_at, 1_700_000_000_123);

    let mut applied = catalog(vec![card("R1", "Alpha", (1, 2, 3), false)]);
    assert_eq!(manager.apply_delta(&mut applied, &delta, 1_700_000_000_456), Ok(()));
    assert_eq!(applied.cards, b.cards);
    assert_eq!(applied.lookup_tables, b.lookup_tables);
    assert_eq!(applied.meta.total_cards, 2);
    assert_eq!(applied.meta.generated_at_utc, 1_700_000_000_456);
}

#[test]
fn a_catalog_against_itself_gives_no_operations() {
    let c = catalog(vec![
        card("R1", "Alpha", (1, 2, 3), false),
        card("R2", "Beta", (0, 0, 0), true),
        card("R3", "Gamma", (255, 0, 128), false),
    ]);
    let delta = build_delta(&c, &c, "v1", "v1", 7);
    assert!(delta.operations.is_empty());
    assert_eq!(
        delta.statistics,
        DeltaStatistics {
            total_operations: 0,
            cards_added: 0,
            cards_modified: 0,
            cards_removed: 0,
            size_bytes: 0,
        }
    );
    assert_eq!(delta.checksum, "0");
    assert_eq!(delta.generated_at, 7);

    let empty = catalog(vec![]);
    assert!(build_delta(&empty, &empty, "a", "b", 0).operations.is_empty());
}

#[test]
fn operations_come_as_adds_then_removes_then_modifies_in_key_order() {
    let base = catalog(vec![
        card("B", "b", (0, 0, 0), false),
        card("D", "d", (0, 0, 0), false),
        card("F", "f", (0, 0, 0), false),
        card("H", "h", (0, 0, 0), false),
        card("K", "k", (0, 0, 0), false),
    ]);
    let target = catalog(vec![
        card("Z", "z", (0, 0, 0), false),
        card("A", "a", (0, 0, 0), false),
        card("B", "b2", (0, 0, 0), false),
        card("F", "f", (0, 0, 0), false),
        card("K", "k", (9, 0, 0), false),
        card("C", "c", (0, 0, 0), false),
    ]);
    let delta = build_delta(&base, &target, "1", "2", 0);
    assert_eq!(
        delta.operations,
        vec![
            DeltaOperation::Add(card("A", "a", (0, 0, 0), false)),
            DeltaOperation::Add(card("C", "c", (0, 0, 0), false)),
            DeltaOperation::Add(card("Z", "z", (0, 0, 0), false)),
            DeltaOperation::Remove("D".to_string()),
            DeltaOperation::Remove("H".to_string()),
            DeltaOperation::Modify(card("B", "b2", (0, 0, 0), false)),
            DeltaOperation::Modify(card("K", "k", (9, 0, 0), false)),
        ]
    );
    assert_eq!(delta.statistics.total_operations, 7);
    assert_eq!(delta.statistics.cards_added, 3);
    assert_eq!(delta.statistics.cards_removed, 2);
    assert_eq!(delta.statistics.cards_modified, 2);
    // 7 * 17 + 3 * 31 + 2 * 37 = 286
    assert_eq!(delta.checksum, "11e");
    assert_eq!(verify_checksum(&delta), Ok(()));
}

#[test]
fn applying_the_delta_of_two_catalogs_gives_the_target() {
    let pairs = vec![
        (vec![], vec![]),
        (vec![], vec![card("R1", "x", (1, 1, 1), false)]),
        (vec![card("R1", "x", (1, 1, 1), false)], vec![]),
        (
            vec![card("R1", "x", (1, 1, 1), false), card("R2", "y", (2, 2, 2), true)],
            vec![card("R2", "y", (2, 2, 3), true), card("R3", "z", (0, 0, 0), false)],
        ),
        (
            vec![card("A", "a", (0, 0, 0), false), card("B", "b", (0, 0, 0), false)],
            vec![card("A", "a", (0, 0, 0), false), card("B", "b", (0, 0, 0), false)],
        ),
    ];
    for (from, to) in pairs {
        let base = catalog(from.clone());
        let target = catalog(to);
        let delta = build_delta(&base, &target, "1", "2", 5);
        let mut replayed = catalog(from);
        apply_delta_at(&mut replayed, &delta, 42);
        assert_eq!(replayed.cards, target.cards);
        assert_eq!(replayed.meta.total_cards, target.cards.len());
        assert_eq!(replayed.meta.generated_at_utc, 42);
        assert_eq!(replayed.meta.script_version, "2.0.0");
        assert_eq!(replayed.meta.source_set, "Multiple Sets");
        assert_eq!(replayed.meta.data_sources, vec!["test".to_string()]);
    }
}

#[test]
fn apply_leaves_the_lookup_tables_of_the_base() {
    let mut base = catalog(vec![card("R1", "x", (1, 1, 1), false)]);
    base.lookup_tables.factions.insert_if_absent(
        "AX".to_string(),
        FactionInfo { name: "Axiom".to_string(), color: "brown".to_string() },
    );
    let tables_before = base.lookup_tables.clone();
    let target = catalog(vec![card("R2", "y", (1, 1, 1), false)]);
    let delta = build_delta(&base, &target, "1", "2", 0);
    apply_delta_at(&mut base, &delta, 1);
    assert_eq!(base.cards, target.cards);
    assert_eq!(base.lookup_tables, tables_before);
    assert_ne!(base.lookup_tables, target.lookup_tables);
}

#[test]
fn replay_follows_the_stored_order() {
    let mut data = catalog(vec![card("R1", "one", (0, 0, 0), false)]);
    let delta = DeltaPackage {
        base_version: "1".to_string(),
        target_version: "2".to_string(),
        generated_at: 0,
        operations: vec![
            DeltaOperation::Remove("R1".to_string()),
            DeltaOperation::Remove("R1".to_string()),
            DeltaOperation::Remove("missing".to_string()),
            DeltaOperation::Add(card("R1", "two", (0, 0, 0), false)),
            DeltaOperation::Modify(card("R9", "nine", (0, 0, 0), false)),
            DeltaOperation::Add(card("R1", "three", (0, 0, 0), false)),
            DeltaOperation::Add(card("R5", "five", (0, 0, 0), false)),
            DeltaOperation::Remove("R5".to_string()),
        ],
        checksum: String::new(),
        statistics: DeltaStatistics {
            total_operations: 8,
            cards_added: 3,
            cards_modified: 1,
            cards_removed: 4,
            size_bytes: 0,
        },
    };
    apply_delta_at(&mut data, &delta, 3);
    let expected = catalog(vec![
        card("R1", "three", (0, 0, 0), false),
        card("R9", "nine", (0, 0, 0), false),
    ]);
    assert_eq!(data.cards, expected.cards);
    assert_eq!(data.meta.total_cards, 2);
}

#[test]
fn a_checked_apply_refuses_another_base_version() {
    let a = catalog(vec![card("R1", "x", (1, 1, 1), false)]);
    let b = catalog(vec![card("R2", "y", (1, 1, 1), false)]);
    let manager = DeltaManager::new("./deltas/");
    let delta = build_delta(&a, &b, "v1", "v2", 0);
    let mut data = catalog(vec![card("R1", "x", (1, 1, 1), false)]);
    assert_eq!(
        manager.apply_delta_checked(&mut data, &delta, "v0", 9),
        Err(CatalogError::VersionMismatch)
    );
    assert_eq!(data, a);
    assert_eq!(manager.apply_delta_checked(&mut data, &delta, "v1", 9), Ok(()));
    assert_eq!(data.cards, b.cards);
    assert_eq!(data.meta.generated_at_utc, 9);
}

#[test]
fn a_checked_apply_refuses_a_wrong_checksum() {
    let a = catalog(vec![card("R1", "x", (1, 1, 1), false)]);
    let b = catalog(vec![card("R2", "y", (1, 1, 1), false)]);
    let manager = DeltaManager::new("./deltas/");
    let mut delta = build_delta(&a, &b, "v1", "v2", 0);
    // one add, one remove: 2 * 17 + 31 = 65
    assert_eq!(delta.checksum, "41");
    delta.checksum = "42".to_string();
    assert_eq!(verify_checksum(&delta), Err(CatalogError::ChecksumMismatch));
    let mut data = catalog(vec![card("R1", "x", (1, 1, 1), false)]);
    assert_eq!(
        manager.apply_delta_checked(&mut data, &delta, "v1", 9),
        Err(CatalogError::ChecksumMismatch)
    );
    assert_eq!(data, a);
    // the version is looked at first
    assert_eq!(
        manager.apply_delta_checked(&mut data, &delta, "other", 9),
        Err(CatalogError::VersionMismatch)
    );
    // the unchecked replay takes the package as it is
    assert_eq!(manager.apply_delta(&mut data, &delta, -5), Ok(()));
    assert_eq!(data.cards, b.cards);
    assert_eq!(data.meta.generated_at_utc, -5);
}

#[test]
fn the_checksum_counts_what_the_operations_are() {
    let mut delta = build_delta(&catalog(vec![]), &catalog(vec![]), "1", "2", 0);
    delta.operations.push(DeltaOperation::Modify(card("R1", "x", (0, 0, 0), false)));
    // one modify: 17 + 37 = 54
    assert_eq!(verify_checksum(&delta), Err(CatalogError::ChecksumMismatch));
    delta.checksum = "36".to_string();
    assert_eq!(verify_checksum(&delta), Ok(()));
}

#[test]
fn the_sample_delta_adds_one_card() {
    let delta = create_sample_delta(1_700_000_000_000);
    assert_eq!(delta.base_version, "2.0.0");
    assert_eq!(delta.target_version, "2.0.1");
    assert_eq!(delta.checksum, "sample_checksum");
    assert_eq!(delta.operations.len(), 1);
    match &delta.operations[0] {
        DeltaOperation::Add(c) => {
            assert_eq!(c.reference, "SAMPLE_NEW_CARD");
            assert_eq!(c.name, "Sample New Card");
            assert_eq!(c.type_ref, "HERO");
            assert_eq!(c.faction_ref, "AX");
            assert_eq!(c.rarity_ref, "COMMON");
            assert_eq!(c.image_path, "/path/to/image.jpg");
            assert_eq!(c.qr_url, "https://example.com/qr");
            assert_eq!((c.main_cost, c.recall_cost), (3, 1));
            assert!(!c.is_suspended);
            assert_eq!(c.power, PowerStats { m: 2, o: 1, f: 3 });
        }
        _ => panic!("the sample holds an addition"),
    }
    assert_eq!(
        delta.statistics,
        DeltaStatistics {
            total_operations: 1,
            cards_added: 1,
            cards_modified: 0,
            cards_removed: 0,
            size_bytes: 1024,
        }
    );
    assert_eq!(delta.generated_at, 1_700_000_000_000);
    assert_eq!(verify_checksum(&delta), Err(CatalogError::ChecksumMismatch));
}

#[test]
fn versions_are_registered_oldest_first() {
    let mut manager = DeltaManager::new("./deltas/");
    assert_eq!(manager.base_path(), "./deltas/");
    assert!(manager.get_versions().is_empty());
    let first = manager.register_version("2.0.0", 1000, 10, 111);
    assert_eq!(first.version, "2.0.0");
    assert_eq!(first.timestamp, 111);
    assert_eq!(first.file_size, 1000);
    assert_eq!(first.card_count, 10);
    // 1000 * 31 + 10 * 17 = 31170
    assert_eq!(first.checksum, "79c2");
    let second = manager.register_version("2.0.1", 0, 0, -7);
    assert_eq!(second.checksum, "0");
    assert_eq!(second.timestamp, -7);
    let listed = manager.get_versions();
    assert_eq!(listed.len(), 2);
    assert_eq!(listed[0], first);
    assert_eq!(listed[1], second);
}

#[test]
fn the_update_chain_is_the_one_direct_delta() {
    let mut manager = DeltaManager::new("./deltas/");
    assert_eq!(manager.create_update_chain("2.0.0", "2.0.1"), vec!["delta_2.0.0_2.0.1.json"]);
    manager.register_version("a", 1, 1, 1);
    manager.register_version("b", 1, 1, 2);
    manager.register_version("c", 1, 1, 3);
    assert_eq!(manager.create_update_chain("a", "c"), vec!["delta_a_c.json"]);
    assert_eq!(manager.create_update_chain("", ""), vec!["delta__.json"]);
}
