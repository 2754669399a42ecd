//! End-to-end tests: containers built in memory with a real record
//! store, run through the whole pipeline.

use std::io::Cursor;
use std::io::Write;
use std::sync::atomic::AtomicU32;
use std::sync::atomic::Ordering;

use anki_parser::models::AnkiProgress;
use anki_parser::models::AnkiProgressCallback;
use anki_parser::parse_anki_bytes;

fn build_zip(entries: &[(&str, &[u8])]) -> Vec<u8> {
    let mut writer = zip::ZipWriter::new(Cursor::new(Vec::new()));
    let options = zip::write::SimpleFileOptions::default();
    for (name, data) in entries {
        writer.start_file(*name, options).unwrap();
        writer.write_all(data).unwrap();
    }
    writer.finish().unwrap().into_inner()
}

fn build_db(sql: &str) -> Vec<u8> {
    let conn = rusqlite::Connection::open_in_memory().unwrap();
    conn.execute_batch(sql).unwrap();
    let data = conn.serialize(rusqlite::MAIN_DB).unwrap();
    data.to_vec()
}

struct CountingCallback {
    calls: AtomicU32,
}

impl AnkiProgressCallback for CountingCallback {
    fn on_progress(&self, _progress: AnkiProgress) {
        self.calls.fetch_add(1, Ordering::SeqCst);
    }
}

#[test]
fn test_end_to_end_modern_container() {
    let db = build_db(
        "CREATE TABLE decks (id INTEGER PRIMARY KEY, name TEXT);
         INSERT INTO decks VALUES (1, 'Deck::Sub');
         CREATE TABLE cards (id INTEGER, nid INTEGER, did INTEGER);
         CREATE TABLE notes (id INTEGER, flds TEXT);
         INSERT INTO notes VALUES (100, 'Q' || char(31) || 'A');
         INSERT INTO cards VALUES (10, 100, 1);",
    );
    let id3 = vec![0x49, 0x44, 0x33, 0x04, 0x00, 0x00];
    let container = build_zip(&[
        ("collection.anki21", &db),
        ("media", b"{\"0\": \"x.mp3\"}"),
        ("0", &id3),
    ]);
    let callback = CountingCallback { calls: AtomicU32::new(0) };
    let collection = parse_anki_bytes(container, &callback).unwrap();

    assert_eq!(callback.calls.load(Ordering::SeqCst), 5);
    assert_eq!(collection.decks.len(), 1);
    assert_eq!(collection.decks[0].name, "Deck::Sub");
    assert_eq!(collection.decks[0].short_name, "Sub");
    assert!(collection.root_decks.is_empty());

    assert_eq!(collection.cards_by_deck.len(), 1);
    let (deck_id, cards) = &collection.cards_by_deck[0];
    assert_eq!(*deck_id, 1);
    assert_eq!(cards.len(), 1);
    assert_eq!(cards[0].fields, vec!["Q".to_string(), "A".to_string()]);
    assert!(cards[0].media_references.is_empty());

    assert_eq!(collection.media.count(), 1);
    assert_eq!(collection.media.data_for("x.mp3".to_string()), Some(id3));
}

#[test]
fn test_orphan_category_synthesized() {
    let db = build_db(
        "CREATE TABLE decks (id INTEGER PRIMARY KEY, name TEXT);
         CREATE TABLE cards (id INTEGER, nid INTEGER, did INTEGER);
         CREATE TABLE notes (id INTEGER, flds TEXT);
         INSERT INTO notes VALUES (100, 'front');
         INSERT INTO cards VALUES (10, 100, 99);",
    );
    let container = build_zip(&[("collection.anki21", &db)]);
    let callback = CountingCallback { calls: AtomicU32::new(0) };
    let collection = parse_anki_bytes(container, &callback).unwrap();

    assert_eq!(collection.decks.len(), 1);
    assert_eq!(collection.decks[0].id, 99);
    assert_eq!(collection.decks[0].name, "Deck 99");
    assert_eq!(collection.cards_by_deck.len(), 1);
    assert_eq!(collection.cards_by_deck[0].0, 99);
    assert_eq!(collection.cards_by_deck[0].1.len(), 1);
}

#[test]
fn test_legacy_schema_and_catalog_json() {
    let db = build_db(
        "CREATE TABLE col (decks TEXT);
         INSERT INTO col VALUES ('{\"5\": {\"name\": \"L::M\"}, \"1\": {\"name\": \"Default\"}}');
         CREATE TABLE cards (id INTEGER, nid INTEGER, did INTEGER);
         CREATE TABLE notes (id INTEGER, flds TEXT);",
    );
    let container = build_zip(&[("collection.anki2", &db)]);
    let callback = CountingCallback { calls: AtomicU32::new(0) };
    let collection = parse_anki_bytes(container, &callback).unwrap();

    assert_eq!(collection.decks.len(), 2);
    assert_eq!(collection.decks[0].name, "Default");
    assert_eq!(collection.decks[0].id, 1);
    assert_eq!(collection.decks[1].name, "L::M");
    assert_eq!(collection.decks[1].id, 5);
    assert_eq!(collection.root_decks.len(), 1);
    assert_eq!(collection.root_decks[0].name, "Default");
}

#[test]
fn test_compressed_container_end_to_end() {
    let db = build_db(
        "CREATE TABLE decks (id INTEGER PRIMARY KEY, name TEXT);
         INSERT INTO decks VALUES (3, 'Solo');
         CREATE TABLE cards (id INTEGER, nid INTEGER, did INTEGER);
         CREATE TABLE notes (id INTEGER, flds TEXT);",
    );
    let framed = zstd::encode_all(&db[..], 0).unwrap();
    let container = build_zip(&[("collection.anki21b", &framed)]);
    let callback = CountingCallback { calls: AtomicU32::new(0) };
    let collection = parse_anki_bytes(container, &callback).unwrap();
    assert_eq!(collection.decks.len(), 1);
    assert_eq!(collection.decks[0].name, "Solo");
}

#[test]
fn test_invalid_signature_still_stored() {
    let db = build_db(
        "CREATE TABLE decks (id INTEGER PRIMARY KEY, name TEXT);
         CREATE TABLE cards (id INTEGER, nid INTEGER, did INTEGER);
         CREATE TABLE notes (id INTEGER, flds TEXT);",
    );
    let junk = vec![0u8; 16];
    let container = build_zip(&[
        ("collection.anki21", &db),
        ("media", b"{\"0\": \"bad.png\", \"1\": \"skip.xyz\"}"),
        ("0", &junk),
        ("1", &junk),
    ]);
    let callback = CountingCallback { calls: AtomicU32::new(0) };
    let collection = parse_anki_bytes(container, &callback).unwrap();
    // The invalid image is stored anyway; the unknown extension is not.
    assert_eq!(collection.media.count(), 1);
    assert_eq!(collection.media.data_for("bad.png".to_string()), Some(junk));
    assert_eq!(collection.media.data_for("skip.xyz".to_string()), None);
}

#[test]
fn test_cards_with_references_end_to_end() {
    let db = build_db(
        "CREATE TABLE decks (id INTEGER PRIMARY KEY, name TEXT);
         INSERT INTO decks VALUES (1, 'D');
         CREATE TABLE cards (id INTEGER, nid INTEGER, did INTEGER);
         CREATE TABLE notes (id INTEGER, flds TEXT);
         INSERT INTO notes VALUES (100, '[sound:a.mp3]' || char(31) || '<img src=\"b.png\">');
         INSERT INTO cards VALUES (10, 100, 1);",
    );
    let container = build_zip(&[("collection.anki21", &db)]);
    let callback = CountingCallback { calls: AtomicU32::new(0) };
    let collection = parse_anki_bytes(container, &callback).unwrap();
    let cards = &collection.cards_by_deck[0].1;
    assert_eq!(cards[0].media_references, vec!["a.mp3".to_string(), "b.png".to_string()]);
}

#[test]
fn test_legacy_unparseable_key_becomes_zero() {
    let db = build_db(
        "CREATE TABLE col (decks TEXT);
         INSERT INTO col VALUES ('{\"abc\": {\"name\": \"Odd\"}}');
         CREATE TABLE cards (id INTEGER, nid INTEGER, did INTEGER);
         CREATE TABLE notes (id INTEGER, flds TEXT);",
    );
    let container = build_zip(&[("collection.anki2", &db)]);
    let callback = CountingCallback { calls: AtomicU32::new(0) };
    let collection = parse_anki_bytes(container, &callback).unwrap();
    assert_eq!(collection.decks.len(), 1);
    assert_eq!(collection.decks[0].id, 0);
    assert_eq!(collection.decks[0].name, "Odd");
}

#[test]
fn test_legacy_malformed_catalog_degrades_to_no_decks() {
    let db = build_db(
        "CREATE TABLE col (decks TEXT);
         INSERT INTO col VALUES ('{not json');
         CREATE TABLE cards (id INTEGER, nid INTEGER, did INTEGER);
         CREATE TABLE notes (id INTEGER, flds TEXT);",
    );
    let container = build_zip(&[("collection.anki2", &db)]);
    let callback = CountingCallback { calls: AtomicU32::new(0) };
    let collection = parse_anki_bytes(container, &callback).unwrap();
    assert!(collection.decks.is_empty());
}

#[test]
fn test_modern_decks_ordered_parents_first() {
    let db = build_db(
        "CREATE TABLE decks (id INTEGER PRIMARY KEY, name TEXT);
         INSERT INTO decks VALUES (4, 'A::B::C');
         INSERT INTO decks VALUES (2, 'Zeta');
         INSERT INTO decks VALUES (3, 'A::B');
         INSERT INTO decks VALUES (1, 'Alpha::X');
         CREATE TABLE cards (id INTEGER, nid INTEGER, did INTEGER);
         CREATE TABLE notes (id INTEGER, flds TEXT);",
    );
    let container = build_zip(&[("collection.anki21", &db)]);
    let callback = CountingCallback { calls: AtomicU32::new(0) };
    let collection = parse_anki_bytes(container, &callback).unwrap();
    let names: Vec<String> = collection.decks.iter().map(|d| d.name.clone()).collect();
    assert_eq!(names, vec!["Zeta", "A::B", "Alpha::X", "A::B::C"]);
}

#[test]
fn test_zero_deck_id_dropped_in_modern_schema() {
    let db = build_db(
        "CREATE TABLE decks (id INTEGER PRIMARY KEY, name TEXT);
         INSERT INTO decks VALUES (0, 'Ghost');
         INSERT INTO decks VALUES (6, 'Real');
         CREATE TABLE cards (id INTEGER, nid INTEGER, did INTEGER);
         CREATE TABLE notes (id INTEGER, flds TEXT);",
    );
    let container = build_zip(&[("collection.anki21", &db)]);
    let callback = CountingCallback { calls: AtomicU32::new(0) };
    let collection = parse_anki_bytes(container, &callback).unwrap();
    assert_eq!(collection.decks.len(), 1);
    assert_eq!(collection.decks[0].name, "Real");
}
