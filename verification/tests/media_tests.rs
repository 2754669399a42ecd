//! Tests for media classification, validation, zstd framing and the
//! media store.

use anki_parser::media::MediaType;
use anki_parser::media::decompress_zstd;
use anki_parser::media::is_valid_audio;
use anki_parser::media::is_valid_image;
use anki_parser::media::is_zstd_compressed;
use anki_parser::media::media_type_from_extension;
use anki_parser::models::AnkiMediaStore;

#[test]
fn test_media_type_detection() {
    assert_eq!(media_type_from_extension("audio.mp3"), MediaType::Audio);
    assert_eq!(media_type_from_extension("image.jpg"), MediaType::Image);
    assert_eq!(media_type_from_extension("image.PNG"), MediaType::Image);
    assert_eq!(media_type_from_extension("unknown.xyz"), MediaType::Unknown);
}

#[test]
fn test_zstd_detection() {
    let zstd_data = vec![0x28, 0xB5, 0x2F, 0xFD, 0x00];
    assert!(is_zstd_compressed(&zstd_data));

    let regular_data = vec![0xFF, 0xD8, 0xFF, 0xE0];
    assert!(!is_zstd_compressed(&regular_data));
}

#[test]
fn test_image_validation() {
    // JPEG
    let jpeg = vec![0xFF, 0xD8, 0xFF, 0xE0, 0x00, 0x10, 0x4A, 0x46];
    assert!(is_valid_image(&jpeg));

    // PNG
    let png = vec![0x89, 0x50, 0x4E, 0x47, 0x0D, 0x0A, 0x1A, 0x0A];
    assert!(is_valid_image(&png));

    // Invalid
    let invalid = vec![0x00, 0x00, 0x00, 0x00, 0x00, 0x00, 0x00, 0x00];
    assert!(!is_valid_image(&invalid));
}

#[test]
fn test_audio_validation() {
    // MP3 with ID3
    let mp3_id3 = vec![0x49, 0x44, 0x33, 0x04, 0x00];
    assert!(is_valid_audio(&mp3_id3));

    // WAV
    let wav = vec![0x52, 0x49, 0x46, 0x46, 0x00, 0x00, 0x00, 0x00, 0x57, 0x41, 0x56, 0x45];
    assert!(is_valid_audio(&wav));
}

#[test]
fn test_svg_prologue_validation() {
    let svg = b"  <svg xmlns='x'></svg>".to_vec();
    assert!(is_valid_image(&svg));
    let xml = b"<?xml version=\"1.0\"?><svg/>".to_vec();
    assert!(is_valid_image(&xml));
}

#[test]
fn test_zstd_roundtrip() {
    let payload = b"record store payload".to_vec();
    let compressed = zstd::encode_all(&payload[..], 0).unwrap();
    assert!(is_zstd_compressed(&compressed));
    let restored = decompress_zstd(&compressed).unwrap();
    assert_eq!(restored, payload);
}

#[test]
fn test_zstd_decode_error() {
    // Magic number followed by garbage fails to decompress.
    let bad = vec![0x28, 0xB5, 0x2F, 0xFD, 0xFF, 0xFF, 0xFF, 0xFF];
    assert!(decompress_zstd(&bad).is_err());
}

#[test]
fn test_media_store_insert_and_lookup() {
    let mut store = AnkiMediaStore::new();
    store.insert("a.mp3".to_string(), vec![1, 2, 3]);
    store.insert("b.png".to_string(), vec![4]);
    store.insert("a.mp3".to_string(), vec![9, 9]);
    assert_eq!(store.count(), 2);
    assert_eq!(store.filenames(), vec!["a.mp3".to_string(), "b.png".to_string()]);
    assert_eq!(store.data_for("a.mp3".to_string()), Some(vec![9, 9]));
    assert_eq!(store.data_for("b.png".to_string()), Some(vec![4]));
    assert_eq!(store.data_for("missing".to_string()), None);
}

#[test]
fn test_media_store_placeholder_upgrade() {
    let mut store = AnkiMediaStore::new();
    store.add_filename("lazy.mp3".to_string());
    store.add_filename("lazy.mp3".to_string());
    assert_eq!(store.count(), 1);
    assert_eq!(store.data_for("lazy.mp3".to_string()), None);
    store.insert("lazy.mp3".to_string(), vec![7]);
    assert_eq!(store.count(), 1);
    assert_eq!(store.filenames(), vec!["lazy.mp3".to_string()]);
    assert_eq!(store.data_for("lazy.mp3".to_string()), Some(vec![7]));
}
