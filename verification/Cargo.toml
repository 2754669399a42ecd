[package]
name = "anki_parser"
version = "0.1.0"
edition = "2021"
publish = false

[dependencies]
zip = "*"
zstd = "*"
rusqlite = { version = "*", features = ["bundled", "serialize"] }
serde_json = "*"
fsrs = "*"
