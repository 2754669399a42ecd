//! Tests for container opening, format detection, entry extraction, the
//! asset index, field splitting and reference extraction.

use std::io::Cursor;
use std::io::Write;

use anki_parser::archive::AnkiArchive;
use anki_parser::archive::AnkiFormat;
use anki_parser::database::extract_media_references;
use anki_parser::database::fields_of_blob;
use anki_parser::error::AnkiError;

fn build_zip(entries: &[(&str, &[u8])]) -> Vec<u8> {
    let mut writer = zip::ZipWriter::new(Cursor::new(Vec::new()));
    let options = zip::write::SimpleFileOptions::default();
    for (name, data) in entries {
        writer.start_file(*name, options).unwrap();
        writer.write_all(data).unwrap();
    }
    writer.finish().unwrap().into_inner()
}

#[test]
fn test_zstd_magic_detection() {
    let zstd_data = vec![0x28, 0xB5, 0x2F, 0xFD, 0x00, 0x00];
    assert_eq!(&zstd_data[0..4], &[0x28, 0xB5, 0x2F, 0xFD]);

    let regular_data = vec![0x53, 0x51, 0x4C, 0x69]; // "SQLi"
    assert_ne!(&regular_data[0..4], &[0x28, 0xB5, 0x2F, 0xFD]);
}

#[test]
fn test_format_detection_prefers_newest() {
    let data = build_zip(&[
        ("collection.anki2", b"old"),
        ("collection.anki21", b"new"),
        ("collection.anki21b", b"framed"),
    ]);
    let archive = AnkiArchive::from_bytes(data).unwrap();
    assert_eq!(archive.format(), AnkiFormat::Compressed);

    let data = build_zip(&[("collection.anki2", b"old"), ("collection.anki21", b"new")]);
    let archive = AnkiArchive::from_bytes(data).unwrap();
    assert_eq!(archive.format(), AnkiFormat::Modern);

    let data = build_zip(&[("collection.anki2", b"old")]);
    let archive = AnkiArchive::from_bytes(data).unwrap();
    assert_eq!(archive.format(), AnkiFormat::Legacy);
}

#[test]
fn test_open_without_record_store_is_invalid() {
    let data = build_zip(&[("something.txt", b"hello")]);
    match AnkiArchive::from_bytes(data) {
        Err(AnkiError::InvalidArchive) => {},
        _ => panic!("expected InvalidArchive"),
    }
}

#[test]
fn test_db_filenames() {
    assert_eq!(AnkiFormat::Legacy.db_filename(), "collection.anki2");
    assert_eq!(AnkiFormat::Modern.db_filename(), "collection.anki21");
    assert_eq!(AnkiFormat::Compressed.db_filename(), "collection.anki21b");
}

#[test]
fn test_extract_database_decompresses_framed_store() {
    let payload = b"pretend this is a database".to_vec();
    let framed = zstd::encode_all(&payload[..], 0).unwrap();
    let data = build_zip(&[("collection.anki21b", &framed)]);
    let mut archive = AnkiArchive::from_bytes(data).unwrap();
    assert_eq!(archive.extract_database().unwrap(), payload);
}

#[test]
fn test_extract_media_passthrough_when_not_framed() {
    // Any other leading bytes come back unchanged from the sniffing step.
    let raw = vec![0x01, 0x02, 0x03, 0x04, 0x05];
    let data = build_zip(&[("collection.anki21", b"db"), ("0", &raw)]);
    let mut archive = AnkiArchive::from_bytes(data).unwrap();
    assert_eq!(archive.extract_media("0").unwrap(), Some(raw));
    assert_eq!(archive.extract_media("missing").unwrap(), None);
}

#[test]
fn test_extract_media_inflates_framed_asset() {
    let payload = vec![9u8; 64];
    let framed = zstd::encode_all(&payload[..], 0).unwrap();
    let data = build_zip(&[("collection.anki21", b"db"), ("7", &framed)]);
    let mut archive = AnkiArchive::from_bytes(data).unwrap();
    assert_eq!(archive.extract_media("7").unwrap(), Some(payload));
}

#[test]
fn test_media_mapping_parsing() {
    let data = build_zip(&[
        ("collection.anki21", b"db"),
        ("media", b" {\"0\": \"a.mp3\", \"1\": \"b.png\"} "),
    ]);
    let mut archive = AnkiArchive::from_bytes(data).unwrap();
    let mut mapping = archive.extract_media_mapping().unwrap();
    mapping.sort();
    assert_eq!(
        mapping,
        vec![("0".to_string(), "a.mp3".to_string()), ("1".to_string(), "b.png".to_string())],
    );
}

#[test]
fn test_media_mapping_degrades_to_empty() {
    // Absent entry.
    let data = build_zip(&[("collection.anki21", b"db")]);
    let mut archive = AnkiArchive::from_bytes(data).unwrap();
    assert_eq!(archive.extract_media_mapping().unwrap(), Vec::new());

    // Malformed JSON.
    let data = build_zip(&[("collection.anki21", b"db"), ("media", b"not json")]);
    let mut archive = AnkiArchive::from_bytes(data).unwrap();
    assert_eq!(archive.extract_media_mapping().unwrap(), Vec::new());

    // Empty payload.
    let data = build_zip(&[("collection.anki21", b"db"), ("media", b"")]);
    let mut archive = AnkiArchive::from_bytes(data).unwrap();
    assert_eq!(archive.extract_media_mapping().unwrap(), Vec::new());
}

#[test]
fn test_file_names_and_len() {
    let data = build_zip(&[("collection.anki21", b"db"), ("media", b"{}")]);
    let archive = AnkiArchive::from_bytes(data).unwrap();
    assert_eq!(archive.len(), 2);
    assert!(!archive.is_empty());
    let mut names = archive.file_names();
    names.sort();
    assert_eq!(names, vec!["collection.anki21".to_string(), "media".to_string()]);
}

#[test]
fn test_field_splitting() {
    let fields = fields_of_blob(b"front\x1Fback\x1Fextra");
    assert_eq!(
        fields,
        vec!["front".to_string(), "back".to_string(), "extra".to_string()],
    );
}

#[test]
fn test_extract_media_references() {
    let fields = vec![
        "[sound:audio.mp3] Some text".to_string(),
        "<img src=\"image.jpg\">".to_string(),
        "Plain text".to_string(),
        "[sound:korean_audio.wav]<img src='photo.png'>".to_string(),
    ];

    let refs = extract_media_references(&fields);

    assert_eq!(refs.len(), 4);
    assert!(refs.contains(&"audio.mp3".to_string()));
    assert!(refs.contains(&"image.jpg".to_string()));
    assert!(refs.contains(&"korean_audio.wav".to_string()));
    assert!(refs.contains(&"photo.png".to_string()));
}

#[test]
fn test_reference_order_sound_then_image_per_field() {
    let fields = vec![
        "<img src=\"one.png\"> [sound:one.mp3]".to_string(),
        "[sound:two.mp3]".to_string(),
    ];
    let refs = extract_media_references(&fields);
    assert_eq!(
        refs,
        vec!["one.mp3".to_string(), "one.png".to_string(), "two.mp3".to_string()],
    );
}
