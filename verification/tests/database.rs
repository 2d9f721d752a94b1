use altered_catalog::catalog::{CardRecord, CardTable, Meta, OptimizedData, PowerStats};
use altered_catalog::database::{
    buffer_outcome, create_optimized_database, write_database, RECORD_WIDTH,
};
use altered_catalog::encoder::{encode_catalog, EncodedDatabase};
use altered_catalog::error::CatalogError;
use altered_catalog::formats::optimized_formats;
use altered_catalog::compression::{decompress, Codec};
use altered_catalog::identity::generate_numeric_id;
use altered_catalog::lookup::{CardTypeInfo, FactionInfo, LookupTables, RarityInfo};

fn card(reference: &str, name: &str, faction: &str) -> CardRecord {
    CardRecord {
        reference: reference.to_string(),
        name: name.to_string(),
        type_ref: "HERO".to_string(),
        faction_ref: faction.to_string(),
        rarity_ref: "RARE".to_string(),
        image_path: format!("/img/{}.jpg", reference),
        qr_url: "https://example.com/qr".to_string(),
        main_cost: 3,
        recall_cost: 1,
        is_suspended: reference == "R2",
        power: PowerStats { m: 1, o: 2, f: 3 },
    }
}

fn catalog(cards: Vec<CardRecord>, generated_at: i64) -> OptimizedData {
    let mut tables = LookupTables::new();
    tables.factions.insert_if_absent(
        "BR".to_string(),
        FactionInfo { name: "Bravos".to_string(), color: "red".to_string() },
    );
    tables.factions.insert_if_absent(
        "AX".to_string(),
        FactionInfo { name: "Axiom".to_string(), color: "brown".to_string() },
    );
    tables.rarities.insert_if_absent("RARE".to_string(), RarityInfo { name: "Rare".to_string() });
    tables
        .card_types
        .insert_if_absent("HERO".to_string(), CardTypeInfo { name: "Hero".to_string() });
    let mut table = CardTable::new();
    for c in cards {
        table.insert(c);
    }
    OptimizedData {
        meta: Meta {
            script_version: "2.0.0".to_string(),
            generated_at_utc: generated_at,
            source_set: "Multiple Sets".to_string(),
            data_sources: vec![],
            total_cards: table.len(),
        },
        lookup_tables: tables,
        cards: table,
    }
}

fn word(buffer: &[u8], at: usize) -> usize {
    u32::from_le_bytes([buffer[at], buffer[at + 1], buffer[at + 2], buffer[at + 3]]) as usize
}

/// Where the offset stored at `at` points.
fn follow(buffer: &[u8], at: usize) -> usize {
    at + word(buffer, at)
}

/// The places that the vector of offsets at `at` points to.
fn targets(buffer: &[u8], at: usize) -> Vec<usize> {
    (0..word(buffer, at)).map(|i| follow(buffer, at + 4 + 4 * i)).collect()
}

fn bytes_at(buffer: &[u8], at: usize) -> &[u8] {
    &buffer[at + 4..at + 4 + word(buffer, at)]
}

fn text_at(buffer: &[u8], at: usize) -> String {
    let bytes = bytes_at(buffer, at);
    assert_eq!(buffer[at + 4 + bytes.len()], 0);
    String::from_utf8(bytes.to_vec()).unwrap()
}

fn texts_at(buffer: &[u8], at: usize) -> Vec<String> {
    targets(buffer, at).into_iter().map(|t| text_at(buffer, t)).collect()
}

fn sections(buffer: &[u8]) -> Vec<usize> {
    targets(buffer, follow(buffer, 0))
}

#[test]
fn the_buffer_holds_seven_sections() {
    let data =
        catalog(vec![card("R2", "Beta", "BR"), card("R1", "Alpha", "AX")], 1_700_000_000_123);
    let buffer = create_optimized_database(&data).unwrap();
    let parts = sections(&buffer);
    assert_eq!(parts.len(), 7);

    assert_eq!(
        texts_at(&buffer, parts[0]),
        vec![
            "R1",
            "Alpha",
            "/img/R1.jpg",
            "https://example.com/qr",
            "R2",
            "Beta",
            "/img/R2.jpg",
        ]
    );
    assert_eq!(texts_at(&buffer, parts[1]), vec!["RARE", "Rare"]);
    assert_eq!(texts_at(&buffer, parts[2]), vec!["AX", "Axiom", "brown", "BR", "Bravos", "red"]);
    assert_eq!(texts_at(&buffer, parts[3]), vec!["HERO", "Hero"]);
    assert_eq!(text_at(&buffer, parts[5]), "2.0.0");

    let trailer = bytes_at(&buffer, parts[6]);
    assert_eq!(trailer.len(), 16);
    assert_eq!(&trailer[..8], &1_700_000_000_123i64.to_le_bytes());
    assert_eq!(&trailer[8..], &2u64.to_le_bytes());
}

#[test]
fn records_are_written_in_their_fixed_width() {
    let data = catalog(vec![card("R2", "Beta", "BR"), card("R1", "Alpha", "AX")], 0);
    let buffer = create_optimized_database(&data).unwrap();
    let parts = sections(&buffer);
    let records = bytes_at(&buffer, parts[4]);
    assert_eq!(RECORD_WIDTH, 28);
    assert_eq!(records.len(), 2 * RECORD_WIDTH);

    let id1 = generate_numeric_id("R1");
    let id2 = generate_numeric_id("R2");
    let mut expected = Vec::new();
    let mut r1 = Vec::new();
    r1.extend_from_slice(&id1.to_le_bytes());
    r1.extend_from_slice(&0x0102_0300u32.to_le_bytes());
    for v in [0u16, 1, 2, 3, 0, 0, 0] {
        r1.extend_from_slice(&v.to_le_bytes());
    }
    r1.extend_from_slice(&[3, 1, 0, 0, 0, 0]);
    let mut r2 = Vec::new();
    r2.extend_from_slice(&id2.to_le_bytes());
    r2.extend_from_slice(&0x0102_0300u32.to_le_bytes());
    for v in [4u16, 5, 6, 3, 1, 0, 0] {
        r2.extend_from_slice(&v.to_le_bytes());
    }
    r2.extend_from_slice(&[3, 1, 1, 0, 0, 0]);
    if id1 <= id2 {
        expected.extend_from_slice(&r1);
        expected.extend_from_slice(&r2);
    } else {
        expected.extend_from_slice(&r2);
        expected.extend_from_slice(&r1);
    }
    assert_eq!(records, &expected[..]);
}

#[test]
fn a_negative_time_is_written_in_twos_complement() {
    let data = catalog(vec![], -2);
    let buffer = create_optimized_database(&data).unwrap();
    let parts = sections(&buffer);
    let trailer = bytes_at(&buffer, parts[6]);
    assert_eq!(&trailer[..8], &(-2i64).to_le_bytes());
    assert_eq!(&trailer[8..], &0u64.to_le_bytes());
    assert!(texts_at(&buffer, parts[0]).is_empty());
    assert!(bytes_at(&buffer, parts[4]).is_empty());
}

#[test]
fn the_same_catalog_gives_the_same_bytes() {
    let cards = vec![card("R2", "Beta", "BR"), card("R1", "Alpha", "AX"), card("R3", "Gamma", "")];
    let first = create_optimized_database(&catalog(cards.clone(), 5)).unwrap();
    let second = create_optimized_database(&catalog(cards.clone(), 5)).unwrap();
    assert_eq!(first, second);
    let mut reversed = cards;
    reversed.reverse();
    assert_eq!(create_optimized_database(&catalog(reversed, 5)).unwrap(), first);
}

#[test]
fn the_buffer_is_what_the_encoded_database_writes_to() {
    let data = catalog(vec![card("R2", "Beta", "BR"), card("R1", "Alpha", "AX")], 9);
    let db = encode_catalog(&data).unwrap();
    let written = write_database(&db, &data.lookup_tables, &data.meta).unwrap();
    assert_eq!(create_optimized_database(&data), Ok(written));
    let nothing = EncodedDatabase { strings: vec![], cards: vec![] };
    let small = write_database(&nothing, &LookupTables::new(), &data.meta).unwrap();
    assert_eq!(sections(&small).len(), 7);
}

#[test]
fn encoding_failures_pass_through() {
    let data = catalog(vec![card("", "Nameless", "AX")], 0);
    assert_eq!(create_optimized_database(&data), Err(CatalogError::MissingKey));
    assert_eq!(optimized_formats(&data), Err(CatalogError::MissingKey));
}

#[test]
fn a_buffer_that_could_not_be_written_is_an_overflow() {
    assert_eq!(buffer_outcome(None), Err(CatalogError::BufferOverflow));
    assert_eq!(buffer_outcome(Some(vec![1, 2])), Ok(vec![1, 2]));
}

#[test]
fn the_packed_formats_unpack_to_the_database() {
    let mut cards = Vec::new();
    for i in 0..300 {
        cards.push(card(&format!("CARD_{:04}", i), "Same Name", "AX"));
    }
    let data = catalog(cards, 77);
    let formats = optimized_formats(&data).unwrap();
    assert_eq!(Ok(formats.database.clone()), create_optimized_database(&data));
    assert_eq!(decompress(&formats.gzip, Codec::Gzip), Ok(formats.database.clone()));
    assert_eq!(decompress(&formats.lz4, Codec::Lz4), Ok(formats.database.clone()));
    assert!(formats.gzip.len() < formats.database.len());
    assert!(formats.lz4.len() < formats.database.len());
    assert_eq!(
        formats.sizes_in_kib(),
        (formats.database.len() / 1024, formats.gzip.len() / 1024, formats.lz4.len() / 1024)
    );
}

fn padding(len: usize) -> usize {
    (4 - len % 4) % 4
}

fn framed_bytes(written: &[u8], items: &[u8]) -> Vec<u8> {
    let mut out = (items.len() as u32).to_le_bytes().to_vec();
    out.extend_from_slice(items);
    out.push(0);
    out.extend(vec![0u8; padding(written.len() + items.len() + 1)]);
    out.extend_from_slice(written);
    out
}

fn framed_offsets(written: &[u8], offsets: &[u32]) -> Vec<u8> {
    let base = written.len() + padding(written.len());
    let mut out = (offsets.len() as u32).to_le_bytes().to_vec();
    for (i, offset) in offsets.iter().enumerate() {
        let value = (base + 4 * (offsets.len() - i)) as u32 - offset;
        out.extend_from_slice(&value.to_le_bytes());
    }
    out.extend(vec![0u8; padding(written.len())]);
    out.extend_from_slice(written);
    out
}

fn finished_buffer(written: &[u8], root: u32) -> Vec<u8> {
    let pad = padding(written.len());
    let mut out = ((written.len() + pad + 4) as u32 - root).to_le_bytes().to_vec();
    out.extend(vec![0u8; pad]);
    out.extend_from_slice(written);
    out
}

fn with_texts(written: Vec<u8>, texts: &[&str]) -> Vec<u8> {
    let mut written = written;
    let mut marks = Vec::new();
    for text in texts {
        written = framed_bytes(&written, text.as_bytes());
        marks.push(written.len() as u32);
    }
    framed_offsets(&written, &marks)
}

fn record(id: u32, power: u32, words: [u16; 7], tail: [u8; 3]) -> Vec<u8> {
    let mut out = id.to_le_bytes().to_vec();
    out.extend_from_slice(&power.to_le_bytes());
    for w in words {
        out.extend_from_slice(&w.to_le_bytes());
    }
    out.extend_from_slice(&tail);
    out.extend_from_slice(&[0, 0, 0]);
    out
}

#[test]
fn the_buffer_is_laid_out_byte_for_byte() {
    let data =
        catalog(vec![card("R2", "Beta", "BR"), card("R1", "Alpha", "AX")], 1_700_000_000_123);
    let mut marks = Vec::new();
    let mut written = with_texts(
        Vec::new(),
        &[
            "R1",
            "Alpha",
            "/img/R1.jpg",
            "https://example.com/qr",
            "R2",
            "Beta",
            "/img/R2.jpg",
        ],
    );
    marks.push(written.len() as u32);
    written = with_texts(written, &["RARE", "Rare"]);
    marks.push(written.len() as u32);
    written = with_texts(written, &["AX", "Axiom", "brown", "BR", "Bravos", "red"]);
    marks.push(written.len() as u32);
    written = with_texts(written, &["HERO", "Hero"]);
    marks.push(written.len() as u32);

    let r1 = record(generate_numeric_id("R1"), 0x0102_0300, [0, 1, 2, 3, 0, 0, 0], [3, 1, 0]);
    let r2 = record(generate_numeric_id("R2"), 0x0102_0300, [4, 5, 6, 3, 1, 0, 0], [3, 1, 1]);
    let mut records = Vec::new();
    if generate_numeric_id("R1") <= generate_numeric_id("R2") {
        records.extend(r1);
        records.extend(r2);
    } else {
        records.extend(r2);
        records.extend(r1);
    }
    written = framed_bytes(&written, &records);
    marks.push(written.len() as u32);
    written = framed_bytes(&written, b"2.0.0");
    marks.push(written.len() as u32);
    let mut trailer = 1_700_000_000_123i64.to_le_bytes().to_vec();
    trailer.extend_from_slice(&2u64.to_le_bytes());
    written = framed_bytes(&written, &trailer);
    marks.push(written.len() as u32);

    written = framed_offsets(&written, &marks);
    let root = written.len() as u32;
    let expected = finished_buffer(&written, root);
    assert_eq!(create_optimized_database(&data).unwrap(), expected);
}

#[test]
fn an_empty_database_is_laid_out_byte_for_byte() {
    let nothing = EncodedDatabase { strings: vec![], cards: vec![] };
    let meta = Meta {
        script_version: "é".to_string(),
        generated_at_utc: -1,
        source_set: String::new(),
        data_sources: vec![],
        total_cards: 0,
    };
    let mut marks = Vec::new();
    let mut written = Vec::new();
    for _ in 0..4 {
        written = with_texts(written, &[]);
        marks.push(written.len() as u32);
    }
    written = framed_bytes(&written, &[]);
    marks.push(written.len() as u32);
    written = framed_bytes(&written, "é".as_bytes());
    marks.push(written.len() as u32);
    let mut trailer = (-1i64).to_le_bytes().to_vec();
    trailer.extend_from_slice(&0u64.to_le_bytes());
    written = framed_bytes(&written, &trailer);
    marks.push(written.len() as u32);
    written = framed_offsets(&written, &marks);
    let root = written.len() as u32;
    let expected = finished_buffer(&written, root);
    assert_eq!(write_database(&nothing, &LookupTables::new(), &meta), Some(expected));
}
