//! Container reader: opens the zip archive, detects which generation of
//! record store it carries, and extracts entries, decompressing zstd
//! frames where the format or an individual asset calls for it.
//!
//! The archive is modeled as a map from each entry's stored raw name (a
//! byte sequence: legacy tools write names that are not UTF-8) to that
//! entry's decompressed contents. A lookup by string addresses the entry
//! whose raw name is the string's UTF-8 encoding.

use vstd::prelude::*;

use crate::error::AnkiError;
use crate::media::spec_is_zstd;
use crate::media::is_zstd_compressed;
use crate::media::zstd_inflated;
use crate::media::decompress_zstd;
use crate::text::bytes_to_string_lossy;
use crate::text::chars_to_string;
use crate::text::str_to_chars;
use crate::text::utf8_lossy;
use crate::html::trim_chars;
use crate::html::spec_trim;
use vstd::utf8::encode_utf8;

verus! {

/// Declares zip's archive reader so it can stand in fields and
/// signatures; Verus sees nothing inside it.
#[verifier::external_type_specification]
#[verifier::external_body]
#[verifier::reject_recursive_types(R)]
pub struct ExZipArchive<R>(zip::ZipArchive<R>);

/// Declares the in-memory cursor the archive reads from.
#[verifier::external_type_specification]
#[verifier::external_body]
#[verifier::reject_recursive_types(T)]
pub struct ExCursor<T>(std::io::Cursor<T>);

/// What the archive holds: the decompressed contents of each entry,
/// keyed by the entry's stored raw name bytes.
pub uninterp spec fn zip_entries(a: zip::ZipArchive<std::io::Cursor<Vec<u8>>>) -> Map<
    Seq<u8>,
    Seq<u8>,
>;

/// What zip central-directory parsing yields on the given bytes: the
/// entry table, or nothing when the directory is corrupt. The result
/// depends on the input bytes alone.
pub uninterp spec fn zip_parsed(data: Seq<u8>) -> Option<Map<Seq<u8>, Seq<u8>>>;

/// Relies on `zip::ZipArchive::new`: parses the central directory of the
/// archive held in the cursor, deterministically in the bytes; a corrupt
/// directory is an error.
#[verifier::external_body]
fn zip_from_bytes(data: Vec<u8>) -> (r: Result<
    zip::ZipArchive<std::io::Cursor<Vec<u8>>>,
    AnkiError,
>)
    ensures
        (r is Ok) == (zip_parsed(data@) is Some),
        r is Ok ==> zip_entries(r->Ok_0) == zip_parsed(data@)->0,
        r is Err ==> (r->Err_0 is InvalidArchive || r->Err_0 is IoError),
{
    match zip::ZipArchive::new(std::io::Cursor::new(data)) {
        Ok(a) => Ok(a),
        Err(zip::result::ZipError::FileNotFound) => Err(AnkiError::InvalidArchive),
        Err(zip::result::ZipError::InvalidArchive(_)) => Err(AnkiError::InvalidArchive),
        Err(e) => Err(AnkiError::IoError(e.to_string())),
    }
}

/// Relies on `zip::ZipArchive::index_for_name`: a name is indexed exactly
/// when an entry whose raw name is the query's UTF-8 bytes is present.
#[verifier::external_body]
fn zip_contains(a: &zip::ZipArchive<std::io::Cursor<Vec<u8>>>, name: &str) -> (r: bool)
    ensures
        r == zip_entries(*a).dom().contains(encode_utf8(name@)),
{
    a.index_for_name(name).is_some()
}

/// Relies on `zip::ZipArchive::by_name` and `Read::read_to_end`: reads
/// the decompressed contents of the entry whose raw name is the query's
/// UTF-8 bytes; a missing name reports `FileNotFound`; reading does not
/// change the entry table.
#[verifier::external_body]
fn zip_read(a: &mut zip::ZipArchive<std::io::Cursor<Vec<u8>>>, name: &str) -> (r: Result<
    Option<Vec<u8>>,
    AnkiError,
>)
    ensures
        zip_entries(*final(a)) == zip_entries(*old(a)),
        match r {
            Ok(Some(d)) => zip_entries(*old(a)).dom().contains(encode_utf8(name@)) && d@
                == zip_entries(*old(a))[encode_utf8(name@)],
            Ok(None) => !zip_entries(*old(a)).dom().contains(encode_utf8(name@)),
            Err(e) => e is InvalidArchive || e is IoError,
        },
{
    match a.by_name(name) {
        Ok(mut f) => {
            let mut data = Vec::new();
            match std::io::Read::read_to_end(&mut f, &mut data) {
                Ok(_) => Ok(Some(data)),
                Err(e) => Err(AnkiError::IoError(e.to_string())),
            }
        },
        Err(zip::result::ZipError::FileNotFound) => Ok(None),
        Err(zip::result::ZipError::InvalidArchive(_)) => Err(AnkiError::InvalidArchive),
        Err(e) => Err(AnkiError::IoError(e.to_string())),
    }
}

/// Relies on `zip::ZipArchive::len`: the number of entries in the table,
/// one per stored raw name.
#[verifier::external_body]
fn zip_len(a: &zip::ZipArchive<std::io::Cursor<Vec<u8>>>) -> (r: usize)
    ensures
        r as nat == zip_entries(*a).dom().len(),
{
    a.len()
}

/// Relies on `zip::ZipArchive::file_names`: yields one name per entry,
/// each the entry's stored raw name decoded to text (so a name whose raw
/// bytes were not UTF-8 comes back in decoded form, not as a key of the
/// entry table).
#[verifier::external_body]
fn zip_file_names(a: &zip::ZipArchive<std::io::Cursor<Vec<u8>>>) -> (r: Vec<String>)
    ensures
        r@.len() == zip_entries(*a).dom().len(),
{
    a.file_names().map(|s| s.to_string()).collect()
}

/// The pair list holds exactly the document's key-to-value pairs: keys
/// pairwise distinct, every pair in the document, every document key
/// present.
pub open spec fn mapping_matches_index(
    m: Seq<(String, String)>,
    doc: Map<Seq<char>, Seq<char>>,
) -> bool {
    &&& forall|i: int, j: int| 0 <= i < j < m.len() ==> (#[trigger] m[i]).0@ != (#[trigger] m[j]).0@
    &&& forall|i: int| 0 <= i < m.len() ==> doc.contains_pair((#[trigger] m[i]).0@, m[i].1@)
    &&& forall|k: Seq<char>|
        #[trigger] doc.dom().contains(k) ==> exists|i: int|
            0 <= i < m.len() && (#[trigger] m[i]).0@ == k
}

/// What parsing the given text as a flat string-to-string JSON object
/// yields: the key-to-value map, or nothing when the document has any
/// other shape. The map depends on the text alone; only the order in
/// which `serde_json` hands the pairs out varies between processes.
pub uninterp spec fn json_string_map(s: Seq<char>) -> Option<Map<Seq<char>, Seq<char>>>;

/// Relies on `serde_json::from_str` deserializing a flat string-to-string
/// object into a map; any other document is an error. The entries come
/// back with distinct keys, in hash map order, which varies from process
/// to process.
#[verifier::external_body]
fn parse_string_map(s: &str) -> (r: Option<Vec<(String, String)>>)
    ensures
        (r is Some) == (json_string_map(s@) is Some),
        r is Some ==> mapping_matches_index(r->0@, json_string_map(s@)->0),
{
    match serde_json::from_str::<std::collections::HashMap<String, String>>(s) {
        Ok(m) => Some(m.into_iter().collect()),
        Err(_) => None,
    }
}

/// The three container generations, named by their record-store entry.
#[derive(Debug, Clone, Copy, PartialEq, Eq, Structural)]
pub enum AnkiFormat {
    /// `collection.anki2`: SQLite, no compression.
    Legacy,
    /// `collection.anki21`: SQLite, no compression.
    Modern,
    /// `collection.anki21b`: zstd-compressed SQLite.
    Compressed,
}

/// The record-store entry name of each format.
pub open spec fn spec_db_filename(f: AnkiFormat) -> Seq<char> {
    match f {
        AnkiFormat::Legacy => "collection.anki2"@,
        AnkiFormat::Modern => "collection.anki21"@,
        AnkiFormat::Compressed => "collection.anki21b"@,
    }
}

impl AnkiFormat {
    /// The record-store entry name for this format.
    pub fn db_filename(&self) -> (r: &'static str)
        ensures
            r@ == spec_db_filename(*self),
    {
        match self {
            AnkiFormat::Legacy => "collection.anki2",
            AnkiFormat::Modern => "collection.anki21",
            AnkiFormat::Compressed => "collection.anki21b",
        }
    }
}

/// Which format a set of entries announces: the probe prefers the
/// compressed store, then the modern one, then the legacy one; with none
/// of the three names present the container is not recognized.
pub open spec fn format_of(entries: Map<Seq<u8>, Seq<u8>>) -> Option<AnkiFormat> {
    if entries.dom().contains(encode_utf8("collection.anki21b"@)) {
        Some(AnkiFormat::Compressed)
    } else if entries.dom().contains(encode_utf8("collection.anki21"@)) {
        Some(AnkiFormat::Modern)
    } else if entries.dom().contains(encode_utf8("collection.anki2"@)) {
        Some(AnkiFormat::Legacy)
    } else {
        None
    }
}

/// The asset index a set of entries denotes: the `media` entry's bytes,
/// decoded UTF-8-lossy and trimmed, parsed as a flat string-to-string
/// object. An absent entry, a blank payload and a malformed document all
/// denote the empty index.
pub open spec fn spec_asset_index(entries: Map<Seq<u8>, Seq<u8>>) -> Map<Seq<char>, Seq<char>> {
    let key = encode_utf8("media"@);
    if !entries.dom().contains(key) {
        Map::empty()
    } else {
        let doc_text = spec_trim(utf8_lossy(entries[key]));
        if doc_text.len() == 0 {
            Map::empty()
        } else {
            match json_string_map(doc_text) {
                Some(doc) => doc,
                None => Map::empty(),
            }
        }
    }
}

/// Apply zstd frame decompression exactly when the payload announces it:
/// data with any other leading bytes passes through unchanged.
fn decompress_if_framed(data: Vec<u8>) -> (r: Result<Vec<u8>, AnkiError>)
    ensures
        match r {
            Ok(d) => if spec_is_zstd(data@) {
                zstd_inflated(data@) == Some(d@)
            } else {
                d@ == data@
            },
            Err(e) => spec_is_zstd(data@) && zstd_inflated(data@) is None
                && e is DecompressionError,
        },
{
    if is_zstd_compressed(data.as_slice()) {
        decompress_zstd(data.as_slice())
    } else {
        Ok(data)
    }
}

/// The opened container: the parsed archive and the format fixed at open
/// time.
pub struct AnkiArchive {
    archive: zip::ZipArchive<std::io::Cursor<Vec<u8>>>,
    format: AnkiFormat,
}

impl AnkiArchive {
    /// The entry table, as the contracts speak of it.
    pub closed spec fn spec_entries(&self) -> Map<Seq<u8>, Seq<u8>> {
        zip_entries(self.archive)
    }

    /// The format fixed when the container was opened.
    pub closed spec fn spec_format(&self) -> AnkiFormat {
        self.format
    }

    /// The stored format is the one the entry table announces.
    pub open spec fn wf(&self) -> bool {
        format_of(self.spec_entries()) == Some(self.spec_format())
    }

    /// Open a container from its raw bytes, probing for the three known
    /// record-store names, newest format first. Opening succeeds exactly
    /// when the bytes parse as an archive that announces a record store;
    /// a parseable archive with none of the three names is rejected as
    /// `InvalidArchive`.
    pub fn from_bytes(data: Vec<u8>) -> (r: Result<AnkiArchive, AnkiError>)
        ensures
            (r is Ok) <==> (zip_parsed(data@) is Some && format_of(zip_parsed(data@)->0) is Some),
            r is Ok ==> {
                &&& r->Ok_0.wf()
                &&& r->Ok_0.spec_entries() == zip_parsed(data@)->0
                &&& Some(r->Ok_0.spec_format()) == format_of(zip_parsed(data@)->0)
            },
            r is Err ==> (r->Err_0 is InvalidArchive || r->Err_0 is IoError),
            r is Err && zip_parsed(data@) is Some ==> r->Err_0 is InvalidArchive,
    {
        let archive: zip::ZipArchive<std::io::Cursor<Vec<u8>>> = match zip_from_bytes(data) {
            Ok(a) => a,
            Err(e) => {
                return Err(e);
            },
        };
        let format: AnkiFormat = match Self::detect_format(&archive) {
            Ok(f) => f,
            Err(e) => {
                return Err(e);
            },
        };
        Ok(AnkiArchive { archive, format })
    }

    /// Probe for the record-store entry, newest format first.
    fn detect_format(archive: &zip::ZipArchive<std::io::Cursor<Vec<u8>>>) -> (r: Result<
        AnkiFormat,
        AnkiError,
    >)
        ensures
            match r {
                Ok(f) => format_of(zip_entries(*archive)) == Some(f),
                Err(e) => format_of(zip_entries(*archive)) is None && e is InvalidArchive,
            },
    {
        if zip_contains(archive, "collection.anki21b") {
            Ok(AnkiFormat::Compressed)
        } else if zip_contains(archive, "collection.anki21") {
            Ok(AnkiFormat::Modern)
        } else if zip_contains(archive, "collection.anki2") {
            Ok(AnkiFormat::Legacy)
        } else {
            Err(AnkiError::InvalidArchive)
        }
    }

    /// The format fixed when the container was opened.
    pub fn format(&self) -> (r: AnkiFormat)
        ensures
            r == self.spec_format(),
    {
        self.format
    }

    /// Read the record store, decompressing it when the container uses
    /// the compressed format.
    pub fn extract_database(&mut self) -> (r: Result<Vec<u8>, AnkiError>)
        requires
            old(self).wf(),
        ensures
            final(self).spec_entries() == old(self).spec_entries(),
            final(self).spec_format() == old(self).spec_format(),
            final(self).wf(),
            match r {
                Ok(d) => {
                    let entries = old(self).spec_entries();
                    let raw = entries[encode_utf8(spec_db_filename(old(self).spec_format()))];
                    &&& entries.dom().contains(
                        encode_utf8(spec_db_filename(old(self).spec_format())),
                    )
                    &&& if old(self).spec_format() is Compressed && spec_is_zstd(raw) {
                        zstd_inflated(raw) == Some(d@)
                    } else {
                        d@ == raw
                    }
                },
                Err(e) => e is InvalidArchive || e is IoError || e is DecompressionError,
            },
    {
        let db_name: &str = self.format.db_filename();
        let compressed: bool = match self.format {
            AnkiFormat::Compressed => true,
            _ => false,
        };
        let data: Vec<u8> = match zip_read(&mut self.archive, db_name) {
            Ok(Some(d)) => d,
            Ok(None) => {
                return Err(AnkiError::InvalidArchive);
            },
            Err(e) => {
                return Err(e);
            },
        };
        if compressed {
            decompress_if_framed(data)
        } else {
            Ok(data)
        }
    }

    /// Read the asset index from the well-known `media` entry. An absent
    /// entry, a blank payload and a malformed document all degrade to an
    /// empty index, never an error; otherwise the result holds exactly
    /// the document's key-to-filename pairs, with distinct keys, in an
    /// unspecified order.
    pub fn extract_media_mapping(&mut self) -> (r: Result<Vec<(String, String)>, AnkiError>)
        ensures
            final(self).spec_entries() == old(self).spec_entries(),
            final(self).spec_format() == old(self).spec_format(),
            match r {
                Ok(m) => mapping_matches_index(m@, spec_asset_index(old(self).spec_entries())),
                Err(e) => e is InvalidArchive || e is IoError,
            },
    {
        let ghost entries = old(self).spec_entries();
        let ghost media_key = encode_utf8("media"@);
        let data: Vec<u8> = match zip_read(&mut self.archive, "media") {
            Ok(Some(d)) => d,
            Ok(None) => {
                let empty: Vec<(String, String)> = Vec::new();
                proof {
                    broadcast use vstd::map::group_map_axioms;

                    assert(spec_asset_index(entries) =~= Map::<Seq<char>, Seq<char>>::empty());
                    assert(mapping_matches_index(empty@, spec_asset_index(entries)));
                }
                return Ok(empty);
            },
            Err(e) => {
                return Err(e);
            },
        };
        let content: String = bytes_to_string_lossy(data.as_slice());
        let chars: Vec<char> = str_to_chars(content.as_str());
        let trimmed: Vec<char> = trim_chars(chars.as_slice());
        proof {
            assert(trimmed@ == spec_trim(utf8_lossy(entries[media_key])));
        }
        if trimmed.len() == 0 {
            let empty: Vec<(String, String)> = Vec::new();
            proof {
                broadcast use vstd::map::group_map_axioms;

                assert(spec_asset_index(entries) =~= Map::<Seq<char>, Seq<char>>::empty());
                assert(mapping_matches_index(empty@, spec_asset_index(entries)));
            }
            return Ok(empty);
        }
        let trimmed_str: String = chars_to_string(&trimmed);
        match parse_string_map(trimmed_str.as_str()) {
            Some(m) => {
                proof {
                    assert(spec_asset_index(entries) == json_string_map(trimmed_str@)->0);
                    assert(mapping_matches_index(m@, spec_asset_index(entries)));
                }
                Ok(m)
            },
            None => {
                let empty: Vec<(String, String)> = Vec::new();
                proof {
                    broadcast use vstd::map::group_map_axioms;

                    assert(json_string_map(trimmed_str@) is None);
                    assert(spec_asset_index(entries) =~= Map::<Seq<char>, Seq<char>>::empty());
                    assert(mapping_matches_index(empty@, spec_asset_index(entries)));
                }
                Ok(empty)
            },
        }
    }

    /// The entries' names, one per entry, each decoded to text (a raw
    /// name that was not UTF-8 comes back in decoded form).
    pub fn file_names(&self) -> (r: Vec<String>)
        ensures
            r@.len() == self.spec_entries().dom().len(),
    {
        zip_file_names(&self.archive)
    }

    /// Read one entry verbatim by its name; absence is `None`, not an
    /// error.
    pub fn extract_file_by_index(&mut self, index: &str) -> (r: Result<Option<Vec<u8>>, AnkiError>)
        ensures
            final(self).spec_entries() == old(self).spec_entries(),
            final(self).spec_format() == old(self).spec_format(),
            match r {
                Ok(Some(d)) => old(self).spec_entries().dom().contains(encode_utf8(index@)) && d@
                    == old(self).spec_entries()[encode_utf8(index@)],
                Ok(None) => !old(self).spec_entries().dom().contains(encode_utf8(index@)),
                Err(e) => e is InvalidArchive || e is IoError,
            },
    {
        zip_read(&mut self.archive, index)
    }

    /// Read one asset by its index key, decompressing it when it carries
    /// the zstd magic number of its own accord.
    pub fn extract_media(&mut self, index: &str) -> (r: Result<Option<Vec<u8>>, AnkiError>)
        ensures
            final(self).spec_entries() == old(self).spec_entries(),
            final(self).spec_format() == old(self).spec_format(),
            match r {
                Ok(Some(d)) => {
                    let raw = old(self).spec_entries()[encode_utf8(index@)];
                    &&& old(self).spec_entries().dom().contains(encode_utf8(index@))
                    &&& if spec_is_zstd(raw) {
                        zstd_inflated(raw) == Some(d@)
                    } else {
                        d@ == raw
                    }
                },
                Ok(None) => !old(self).spec_entries().dom().contains(encode_utf8(index@)),
                Err(e) => e is InvalidArchive || e is IoError || e is DecompressionError,
            },
    {
        match self.extract_file_by_index(index) {
            Ok(Some(data)) => match decompress_if_framed(data) {
                Ok(d) => Ok(Some(d)),
                Err(e) => Err(e),
            },
            Ok(None) => Ok(None),
            Err(e) => Err(e),
        }
    }

    /// The number of entries in the container.
    pub fn len(&self) -> (r: usize)
        ensures
            r as nat == self.spec_entries().dom().len(),
    {
        zip_len(&self.archive)
    }

    /// Whether the container holds no entries.
    pub fn is_empty(&self) -> (r: bool)
        ensures
            r == (self.spec_entries().dom().len() == 0),
    {
        zip_len(&self.archive) == 0
    }
}

} // verus!
