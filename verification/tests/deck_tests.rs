//! Tests for category decoding, ordering, the binary-record name scan,
//! and placeholder synthesis.

use anki_parser::database::DeckRow;
use anki_parser::database::SqlId;
use anki_parser::database::decks_from_rows;
use anki_parser::database::extract_name_from_protobuf;
use anki_parser::database::sort_decks;
use anki_parser::models::AnkiCard;
use anki_parser::models::AnkiDeck;
use anki_parser::synthesize_missing_decks;

#[test]
fn test_deck_hierarchy() {
    let deck = AnkiDeck::from_name(1, "Parent::Child::Grandchild".to_string());
    assert_eq!(deck.short_name, "Grandchild");
    assert_eq!(deck.parent_path(), Some("Parent::Child".to_string()));
    assert!(!deck.is_root());

    let root_deck = AnkiDeck::from_name(2, "RootDeck".to_string());
    assert_eq!(root_deck.short_name, "RootDeck");
    assert_eq!(root_deck.parent_path(), None);
    assert!(root_deck.is_root());
}

#[test]
fn test_deck_sort_by_depth_then_name() {
    let mut decks = vec![
        AnkiDeck::from_name(4, "A::B::C".to_string()),
        AnkiDeck::from_name(2, "Zeta".to_string()),
        AnkiDeck::from_name(3, "A::B".to_string()),
        AnkiDeck::from_name(1, "Alpha::X".to_string()),
    ];
    sort_decks(&mut decks);
    let names: Vec<String> = decks.iter().map(|d| d.name.clone()).collect();
    assert_eq!(names, vec!["Zeta", "A::B", "Alpha::X", "A::B::C"]);
}

#[test]
fn test_decks_from_rows_decodes_and_orders() {
    let rows = vec![
        DeckRow { id: SqlId::Int(2), name_bytes: b"B::Sub".to_vec() },
        DeckRow { id: SqlId::Int(0), name_bytes: b"Dropped".to_vec() },
        DeckRow { id: SqlId::Int(1), name_bytes: b"A".to_vec() },
        DeckRow { id: SqlId::Int(3), name_bytes: Vec::new() },
    ];
    let decks = decks_from_rows(&rows);
    assert_eq!(decks.len(), 2);
    assert_eq!(decks[0].name, "A");
    assert_eq!(decks[1].name, "B::Sub");
    assert_eq!(decks[1].short_name, "Sub");
}

#[test]
fn test_deck_id_from_le_blob() {
    let rows = vec![
        DeckRow { id: SqlId::Bytes(vec![5, 0, 0, 0, 0, 0, 0, 0]), name_bytes: b"Blob".to_vec() },
    ];
    let decks = decks_from_rows(&rows);
    assert_eq!(decks.len(), 1);
    assert_eq!(decks[0].id, 5);
}

#[test]
fn test_protobuf_name_extraction() {
    // Field 1 varint, then field 2 (wire tag 0x12): length-prefixed name.
    let data = vec![0x08, 0x01, 0x12, 0x04, b'D', b'e', b'c', b'k'];
    assert_eq!(extract_name_from_protobuf(&data), Some("Deck".to_string()));
}

#[test]
fn test_protobuf_name_absent() {
    // Only a varint field: no name to find.
    let data = vec![0x08, 0x96, 0x01];
    assert_eq!(extract_name_from_protobuf(&data), None);
}

#[test]
fn test_protobuf_name_from_blob_row() {
    // Leading bytes are not valid UTF-8, so the record scan applies.
    let name_bytes = vec![0xFF, 0xFE, 0x12, 0x03, b'X', b'Y', b'Z'];
    let rows = vec![DeckRow { id: SqlId::Int(7), name_bytes }];
    let decks = decks_from_rows(&rows);
    assert_eq!(decks.len(), 1);
    assert_eq!(decks[0].name, "XYZ");
}

fn card(id: i64, deck_id: i64) -> AnkiCard {
    AnkiCard {
        id,
        note_id: id,
        deck_id,
        fields: Vec::new(),
        media_references: Vec::new(),
    }
}

#[test]
fn test_synthesize_missing_decks() {
    let mut decks = vec![AnkiDeck::from_name(1, "Known".to_string())];
    let groups = vec![(1i64, vec![card(10, 1)]), (42i64, vec![card(11, 42)])];
    synthesize_missing_decks(&mut decks, &groups);
    assert_eq!(decks.len(), 2);
    assert_eq!(decks[1].id, 42);
    assert_eq!(decks[1].name, "Deck 42");
    assert_eq!(decks[1].short_name, "Deck 42");
}

#[test]
fn test_synthesize_no_duplicates() {
    let mut decks: Vec<AnkiDeck> = Vec::new();
    let groups = vec![(-3i64, vec![card(1, -3)]), (-3i64, vec![card(2, -3)])];
    synthesize_missing_decks(&mut decks, &groups);
    assert_eq!(decks.len(), 1);
    assert_eq!(decks[0].name, "Deck -3");
}
