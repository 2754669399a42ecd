//! Media asset handling: classification by filename extension, zstd frame
//! detection and decompression, and advisory signature validation of
//! image and audio payloads.

use vstd::prelude::*;

use crate::error::AnkiError;
use crate::text::chars_eq;
use crate::text::lemma_find_pat_back_props;
use crate::text::lower_chars;
use crate::text::lower_chars_exec;
use crate::text::matches_at;
use crate::text::spec_find_pat_back;
use crate::text::str_to_chars;

verus! {

/// The classification of an asset by its filename extension.
#[derive(Debug, Clone, Copy, PartialEq, Eq, Structural)]
pub enum MediaType {
    Audio,
    Image,
    Unknown,
}

/// The recognized audio extensions, lower case.
pub open spec fn audio_exts() -> Seq<Seq<char>> {
    seq![
        seq!['m', 'p', '3'],
        seq!['w', 'a', 'v'],
        seq!['m', '4', 'a'],
        seq!['o', 'g', 'g'],
        seq!['f', 'l', 'a', 'c'],
        seq!['a', 'a', 'c'],
        seq!['o', 'p', 'u', 's'],
        seq!['w', 'm', 'a'],
    ]
}

/// The recognized image extensions, lower case.
pub open spec fn image_exts() -> Seq<Seq<char>> {
    seq![
        seq!['j', 'p', 'g'],
        seq!['j', 'p', 'e', 'g'],
        seq!['p', 'n', 'g'],
        seq!['g', 'i', 'f'],
        seq!['w', 'e', 'b', 'p'],
        seq!['b', 'm', 'p'],
        seq!['s', 'v', 'g'],
        seq!['i', 'c', 'o'],
        seq!['t', 'i', 'f', 'f'],
    ]
}

/// What follows the last `.` of a filename, or the whole name when it has
/// no dot.
pub open spec fn spec_extension(name: Seq<char>) -> Seq<char> {
    if name.len() >= 1 {
        match spec_find_pat_back(name, seq!['.'], name.len() - 1) {
            Some(p) => name.skip(p + 1),
            None => name,
        }
    } else {
        name
    }
}

/// Classification of a filename: by its extension, lower-cased,
/// case-insensitively against the two extension sets.
pub open spec fn spec_media_type(name: Seq<char>) -> MediaType {
    let e = lower_chars(spec_extension(name));
    if audio_exts().contains(e) {
        MediaType::Audio
    } else if image_exts().contains(e) {
        MediaType::Image
    } else {
        MediaType::Unknown
    }
}

/// Whether `e` is one of the sequences in `list`.
fn ext_list_contains(list: &Vec<Vec<char>>, e: &[char]) -> (r: bool)
    ensures
        r == list.deep_view().contains(e@),
{
    let mut k: usize = 0;
    while k < list.len()
        invariant
            0 <= k <= list@.len(),
            forall|m: int| 0 <= m < k ==> list.deep_view()[m] != e@,
        decreases list.len() - k,
    {
        proof {
            assert(list.deep_view()[k as int] == list@[k as int]@);
        }
        if chars_eq(list[k].as_slice(), e) {
            proof {
                assert(list.deep_view().contains(e@));
            }
            return true;
        }
        k += 1;
    }
    proof {
        assert(!list.deep_view().contains(e@));
    }
    false
}

/// Classify a filename by its extension, case-insensitively.
pub fn media_type_from_extension(filename: &str) -> (r: MediaType)
    ensures
        r == spec_media_type(filename@),
{
    let chars: Vec<char> = str_to_chars(filename);
    let n: usize = chars.len();
    let mut i: usize = n;
    let mut dot_at: Option<usize> = None;
    while i > 0
        invariant_except_break
            dot_at is None,
        invariant
            0 <= i <= n == chars@.len(),
            chars@ == filename@,
            spec_find_pat_back(filename@, seq!['.'], i - 1) == spec_find_pat_back(
                filename@,
                seq!['.'],
                n - 1,
            ),
        ensures
            match dot_at {
                Some(p) => n >= 1 && spec_find_pat_back(filename@, seq!['.'], n - 1) == Some(
                    p as int,
                ),
                None => spec_find_pat_back(filename@, seq!['.'], n - 1) is None || n == 0,
            },
        decreases i,
    {
        if chars[i - 1] == '.' {
            proof {
                assert(matches_at(filename@, seq!['.'], i - 1)) by {
                    assert(seq!['.'][0] == '.');
                    assert(filename@[i - 1 + 0] == seq!['.'][0]);
                }
            }
            dot_at = Some(i - 1);
            break ;
        }
        proof {
            assert(!matches_at(filename@, seq!['.'], i - 1)) by {
                assert(seq!['.'][0] == '.');
                assert(filename@[i - 1 + 0] != seq!['.'][0]);
            }
        }
        i -= 1;
    }
    let ext: Vec<char> = match dot_at {
        Some(p) => {
            proof {
                lemma_find_pat_back_props(filename@, seq!['.'], n - 1);
                assert(p + 1 <= n);
            }
            let cs: &[char] = chars.as_slice();
            let tail: Vec<char> = vstd::slice::slice_to_vec(&cs[p + 1..n]);
            proof {
                assert(tail@ =~= spec_extension(filename@));
            }
            tail
        },
        None => {
            proof {
                assert(chars@ =~= spec_extension(filename@));
            }
            chars
        },
    };
    let lowered: Vec<char> = lower_chars_exec(ext.as_slice());
    let audio: Vec<Vec<char>> = vec![
        vec!['m', 'p', '3'],
        vec!['w', 'a', 'v'],
        vec!['m', '4', 'a'],
        vec!['o', 'g', 'g'],
        vec!['f', 'l', 'a', 'c'],
        vec!['a', 'a', 'c'],
        vec!['o', 'p', 'u', 's'],
        vec!['w', 'm', 'a'],
    ];
    let image: Vec<Vec<char>> = vec![
        vec!['j', 'p', 'g'],
        vec!['j', 'p', 'e', 'g'],
        vec!['p', 'n', 'g'],
        vec!['g', 'i', 'f'],
        vec!['w', 'e', 'b', 'p'],
        vec!['b', 'm', 'p'],
        vec!['s', 'v', 'g'],
        vec!['i', 'c', 'o'],
        vec!['t', 'i', 'f', 'f'],
    ];
    proof {
        assert(audio.deep_view() =~~= audio_exts());
        assert(image.deep_view() =~~= image_exts());
    }
    if ext_list_contains(&audio, lowered.as_slice()) {
        MediaType::Audio
    } else if ext_list_contains(&image, lowered.as_slice()) {
        MediaType::Image
    } else {
        MediaType::Unknown
    }
}

/// The zstd frame magic number heads the data.
pub open spec fn spec_is_zstd(d: Seq<u8>) -> bool {
    d.len() >= 4 && d[0] == 0x28 && d[1] == 0xB5 && d[2] == 0x2F && d[3] == 0xFD
}

/// Whether the data starts with the zstd frame magic number.
pub fn is_zstd_compressed(data: &[u8]) -> (r: bool)
    ensures
        r == spec_is_zstd(data@),
{
    data.len() >= 4 && data[0] == 0x28 && data[1] == 0xB5 && data[2] == 0x2F && data[3] == 0xFD
}

/// What zstd frame decoding yields on the given bytes: the decompressed
/// payload, or nothing when the frames are malformed. The result depends
/// on the input bytes alone.
pub uninterp spec fn zstd_inflated(data: Seq<u8>) -> Option<Seq<u8>>;

/// Relies on `zstd::decode_all`: decodes the concatenated frames of the
/// input completely, deterministically in the input bytes; fails exactly
/// on malformed input.
#[verifier::external_body]
pub fn decompress_zstd(data: &[u8]) -> (r: Result<Vec<u8>, AnkiError>)
    ensures
        match r {
            Ok(d) => zstd_inflated(data@) == Some(d@),
            Err(e) => zstd_inflated(data@) is None && e is DecompressionError,
        },
{
    zstd::decode_all(data).map_err(|e| AnkiError::DecompressionError(e.to_string()))
}

/// First index at or after `i` whose byte is not blank (space, tab,
/// newline, carriage return).
pub open spec fn blank_run_end(d: Seq<u8>, i: int) -> int
    decreases d.len() - i,
{
    if i < 0 {
        0
    } else if i >= d.len() {
        d.len() as int
    } else if d[i] == 0x20 || d[i] == 0x09 || d[i] == 0x0A || d[i] == 0x0D {
        blank_run_end(d, i + 1)
    } else {
        i
    }
}

/// Bounds of `blank_run_end`.
pub proof fn lemma_blank_run_end(d: Seq<u8>, i: int)
    requires
        0 <= i <= d.len(),
    ensures
        i <= blank_run_end(d, i) <= d.len(),
    decreases d.len() - i,
{
    if i < d.len() && (d[i] == 0x20 || d[i] == 0x09 || d[i] == 0x0A || d[i] == 0x0D) {
        lemma_blank_run_end(d, i + 1);
    }
}

/// The data opens, after leading blanks, with an XML or SVG prologue.
pub open spec fn spec_svg_prologue(d: Seq<u8>) -> bool {
    let w = blank_run_end(d, 0);
    ||| (w + 5 <= d.len() && d[w] == 0x3C && d[w + 1] == 0x3F && d[w + 2] == 0x78 && d[w + 3]
        == 0x6D && d[w + 4] == 0x6C)
    ||| (w + 4 <= d.len() && d[w] == 0x3C && d[w + 1] == 0x73 && d[w + 2] == 0x76 && d[w + 3]
        == 0x67)
}

/// The data carries a known image signature: JPEG SOI, PNG, GIF87a or
/// GIF89a, RIFF-WEBP, BMP, or an XML/SVG prologue; anything shorter than
/// eight bytes does not qualify.
pub open spec fn spec_valid_image(d: Seq<u8>) -> bool {
    &&& d.len() >= 8
    &&& ({
        ||| (d[0] == 0xFF && d[1] == 0xD8)
        ||| (d[0] == 0x89 && d[1] == 0x50 && d[2] == 0x4E && d[3] == 0x47 && d[4] == 0x0D && d[5]
            == 0x0A && d[6] == 0x1A && d[7] == 0x0A)
        ||| (d[0] == 0x47 && d[1] == 0x49 && d[2] == 0x46 && d[3] == 0x38 && (d[4] == 0x37 || d[4]
            == 0x39) && d[5] == 0x61)
        ||| (d[0] == 0x52 && d[1] == 0x49 && d[2] == 0x46 && d[3] == 0x46 && d.len() >= 12 && d[8]
            == 0x57 && d[9] == 0x45 && d[10] == 0x42 && d[11] == 0x50)
        ||| (d[0] == 0x42 && d[1] == 0x4D)
        ||| spec_svg_prologue(d)
    })
}

/// Whether the data looks like a valid image by its leading bytes.
pub fn is_valid_image(data: &[u8]) -> (r: bool)
    ensures
        r == spec_valid_image(data@),
{
    if data.len() < 8 {
        return false;
    }
    if data[0] == 0xFF && data[1] == 0xD8 {
        return true;
    }
    if data[0] == 0x89 && data[1] == 0x50 && data[2] == 0x4E && data[3] == 0x47 && data[4] == 0x0D
        && data[5] == 0x0A && data[6] == 0x1A && data[7] == 0x0A {
        return true;
    }
    if data[0] == 0x47 && data[1] == 0x49 && data[2] == 0x46 && data[3] == 0x38 && (data[4] == 0x37
        || data[4] == 0x39) && data[5] == 0x61 {
        return true;
    }
    if data[0] == 0x52 && data[1] == 0x49 && data[2] == 0x46 && data[3] == 0x46 && data.len() >= 12
        && data[8] == 0x57 && data[9] == 0x45 && data[10] == 0x42 && data[11] == 0x50 {
        return true;
    }
    if data[0] == 0x42 && data[1] == 0x4D {
        return true;
    }
    proof {
        lemma_blank_run_end(data@, 0);
    }
    let mut w: usize = 0;
    while w < data.len() && (data[w] == 0x20 || data[w] == 0x09 || data[w] == 0x0A || data[w]
        == 0x0D)
        invariant
            0 <= w <= data@.len(),
            blank_run_end(data@, w as int) == blank_run_end(data@, 0),
        decreases data.len() - w,
    {
        w += 1;
    }
    proof {
        assert(blank_run_end(data@, 0) == w as int);
    }
    if data.len() - w >= 5 && data[w] == 0x3C && data[w + 1] == 0x3F && data[w + 2] == 0x78
        && data[w + 3] == 0x6D && data[w + 4] == 0x6C {
        return true;
    }
    if data.len() - w >= 4 && data[w] == 0x3C && data[w + 1] == 0x73 && data[w + 2] == 0x76
        && data[w + 3] == 0x67 {
        return true;
    }
    false
}

/// The data carries a known audio signature: an ID3 tag, an MP3 frame
/// sync, OGG, FLAC, RIFF-WAVE, or an `ftyp` box at offset four; anything
/// shorter than four bytes does not qualify.
pub open spec fn spec_valid_audio(d: Seq<u8>) -> bool {
    &&& d.len() >= 4
    &&& ({
        ||| (d[0] == 0x49 && d[1] == 0x44 && d[2] == 0x33)
        ||| (d[0] == 0xFF && d[1] & 0xE0 == 0xE0)
        ||| (d[0] == 0x4F && d[1] == 0x67 && d[2] == 0x67 && d[3] == 0x53)
        ||| (d[0] == 0x66 && d[1] == 0x4C && d[2] == 0x61 && d[3] == 0x43)
        ||| (d[0] == 0x52 && d[1] == 0x49 && d[2] == 0x46 && d[3] == 0x46 && d.len() >= 12 && d[8]
            == 0x57 && d[9] == 0x41 && d[10] == 0x56 && d[11] == 0x45)
        ||| (d.len() >= 8 && d[4] == 0x66 && d[5] == 0x74 && d[6] == 0x79 && d[7] == 0x70)
    })
}

/// Whether the data looks like valid audio by its leading bytes.
pub fn is_valid_audio(data: &[u8]) -> (r: bool)
    ensures
        r == spec_valid_audio(data@),
{
    if data.len() < 4 {
        return false;
    }
    if data[0] == 0x49 && data[1] == 0x44 && data[2] == 0x33 {
        return true;
    }
    if data[0] == 0xFF && data[1] & 0xE0 == 0xE0 {
        return true;
    }
    if data[0] == 0x4F && data[1] == 0x67 && data[2] == 0x67 && data[3] == 0x53 {
        return true;
    }
    if data[0] == 0x66 && data[1] == 0x4C && data[2] == 0x61 && data[3] == 0x43 {
        return true;
    }
    if data[0] == 0x52 && data[1] == 0x49 && data[2] == 0x46 && data[3] == 0x46 && data.len() >= 12
        && data[8] == 0x57 && data[9] == 0x41 && data[10] == 0x56 && data[11] == 0x45 {
        return true;
    }
    if data.len() >= 8 && data[4] == 0x66 && data[5] == 0x74 && data[6] == 0x79 && data[7] == 0x70 {
        return true;
    }
    false
}

/// Some entry of the store carries this filename.
pub open spec fn store_has(entries: Seq<(String, Option<Vec<u8>>)>, name: Seq<char>) -> bool {
    exists|e: int| 0 <= e < entries.len() && (#[trigger] entries[e]).0@ == name
}

/// An index-key/filename pair names an asset that can actually be
/// produced: its extension is recognized, the container holds an entry
/// whose raw name is the key's UTF-8 bytes, and a framed payload
/// decompresses.
pub open spec fn asset_available(
    entries: Map<Seq<u8>, Seq<u8>>,
    key: Seq<char>,
    name: Seq<char>,
) -> bool {
    let kb = vstd::utf8::encode_utf8(key);
    &&& spec_media_type(name) != MediaType::Unknown
    &&& entries.dom().contains(kb)
    &&& (spec_is_zstd(entries[kb]) ==> zstd_inflated(entries[kb]) is Some)
}

/// The bytes an asset decodes to: the entry's payload, decompressed when
/// it announces a zstd frame.
pub open spec fn asset_bytes(entries: Map<Seq<u8>, Seq<u8>>, key: Seq<char>, d: Seq<u8>) -> bool {
    let kb = vstd::utf8::encode_utf8(key);
    if spec_is_zstd(entries[kb]) {
        zstd_inflated(entries[kb]) == Some(d)
    } else {
        d == entries[kb]
    }
}

/// Fill a media store from the asset index: entries with unrecognized
/// extensions are skipped; absent container entries are skipped; an
/// asset whose own frame fails to decompress is skipped; everything else
/// is stored under its filename, whether or not its signature validates.
/// The sink hears about every hundredth index entry and once at the end.
pub fn store_media_assets<P: crate::models::BatchProgress>(
    archive: &mut crate::archive::AnkiArchive,
    mapping: &Vec<(String, String)>,
    progress: &mut P,
) -> (r: Result<crate::models::AnkiMediaStore, AnkiError>)
    ensures
        final(archive).spec_entries() == old(archive).spec_entries(),
        final(archive).spec_format() == old(archive).spec_format(),
        match r {
            Ok(store) => {
                let entries = old(archive).spec_entries();
                &&& store.wf()
                &&& forall|e: int|
                    0 <= e < store@.len() ==> {
                        let ent = #[trigger] store@[e];
                        &&& ent.1 is Some
                        &&& exists|j: int|
                            0 <= j < mapping@.len() && {
                                let key = (#[trigger] mapping@[j]).0@;
                                &&& mapping@[j].1@ == ent.0@
                                &&& spec_media_type(ent.0@) != MediaType::Unknown
                                &&& entries.dom().contains(vstd::utf8::encode_utf8(key))
                                &&& asset_bytes(entries, key, ent.1->0@)
                            }
                    }
                &&& forall|j: int|
                    0 <= j < mapping@.len() && asset_available(
                        entries,
                        (#[trigger] mapping@[j]).0@,
                        mapping@[j].1@,
                    ) ==> store_has(store@, mapping@[j].1@)
            },
            Err(e) => e is InvalidArchive || e is IoError,
        },
{
    let mut store: crate::models::AnkiMediaStore = crate::models::AnkiMediaStore::new();
    let total: usize = mapping.len();
    if total == 0 {
        proof {
            assert(store@.len() == 0);
        }
        return Ok(store);
    }
    let ghost entries = archive.spec_entries();
    let ghost fmt0 = archive.spec_format();
    let mut current: usize = 0;
    let mut j: usize = 0;
    while j < mapping.len()
        invariant
            0 <= j <= mapping@.len(),
            current == j,
            archive.spec_entries() == entries,
            archive.spec_format() == fmt0,
            entries == old(archive).spec_entries(),
            fmt0 == old(archive).spec_format(),
            store.wf(),
            forall|e: int|
                0 <= e < store@.len() ==> {
                    let ent = #[trigger] store@[e];
                    &&& ent.1 is Some
                    &&& exists|jj: int|
                        0 <= jj < mapping@.len() && {
                            let key = (#[trigger] mapping@[jj]).0@;
                            &&& mapping@[jj].1@ == ent.0@
                            &&& spec_media_type(ent.0@) != MediaType::Unknown
                            &&& entries.dom().contains(vstd::utf8::encode_utf8(key))
                            &&& asset_bytes(entries, key, ent.1->0@)
                        }
                },
            forall|jj: int|
                0 <= jj < j && asset_available(entries, (#[trigger] mapping@[jj]).0@, mapping@[jj].1@)
                    ==> store_has(store@, mapping@[jj].1@),
        decreases mapping.len() - j,
    {
        let ghost prev_store = store@;
        let key: &String = &mapping[j].0;
        let filename: &String = &mapping[j].1;
        let mt: MediaType = media_type_from_extension(filename.as_str());
        let mut stored: bool = false;
        if !(mt == MediaType::Unknown) {
            match archive.extract_file_by_index(key.as_str()) {
                Ok(Some(raw)) => {
                    let data: Option<Vec<u8>> = if is_zstd_compressed(raw.as_slice()) {
                        match decompress_zstd(raw.as_slice()) {
                            Ok(d) => Some(d),
                            Err(_) => None,
                        }
                    } else {
                        Some(raw)
                    };
                    match data {
                        Some(payload) => {
                            let valid: bool = match mt {
                                MediaType::Image => is_valid_image(payload.as_slice()),
                                MediaType::Audio => is_valid_audio(payload.as_slice()),
                                MediaType::Unknown => false,
                            };
                            if valid {
                                store.insert(filename.clone(), payload);
                            } else {
                                // The signature check is advisory: this
                                // arm is where a host would log the
                                // mismatch; the asset is stored all the
                                // same, and the host decides later.
                                store.insert(filename.clone(), payload);
                            }
                            stored = true;
                            proof {
                                crate::models::lemma_entry_index(prev_store, filename@, 0);
                            }
                        },
                        None => {},
                    }
                },
                Ok(None) => {},
                Err(e) => {
                    return Err(e);
                },
            }
        }
        proof {
            assert forall|jj: int|
                0 <= jj < j + 1 && asset_available(
                    entries,
                    (#[trigger] mapping@[jj]).0@,
                    mapping@[jj].1@,
                ) implies store_has(store@, mapping@[jj].1@) by {
                if jj < j {
                    let w = choose|e: int|
                        0 <= e < prev_store.len() && (#[trigger] prev_store[e]).0@
                            == mapping@[jj].1@;
                    if store@ == prev_store {
                        assert((store@[w]).0@ == mapping@[jj].1@);
                    } else {
                        crate::models::lemma_entry_index(prev_store, filename@, 0);
                        match crate::models::entry_index(prev_store, filename@, 0) {
                            Some(u) => {
                                assert((store@[w]).0@ == mapping@[jj].1@);
                            },
                            None => {
                                assert((store@[w]).0@ == mapping@[jj].1@);
                            },
                        }
                    }
                } else {
                    assert(stored);
                    match crate::models::entry_index(prev_store, filename@, 0) {
                        Some(u) => {
                            assert((store@[u]).0@ == mapping@[jj].1@);
                        },
                        None => {
                            assert((store@[store@.len() - 1]).0@ == mapping@[jj].1@);
                        },
                    }
                }
            }
        }
        j += 1;
        current += 1;
        if current % 100 == 0 {
            progress.on_batch(current, total);
        }
    }
    progress.on_batch(current, total);
    Ok(store)
}

/// Read the asset index out of the container and fill the media store
/// from it: every stored entry traces to an index pair and carries that
/// asset's exact (decompressed) bytes, and every index pair whose asset
/// is available ends up stored.
pub fn process_media<P: crate::models::BatchProgress>(
    archive: &mut crate::archive::AnkiArchive,
    progress: &mut P,
) -> (r: Result<crate::models::AnkiMediaStore, AnkiError>)
    ensures
        final(archive).spec_entries() == old(archive).spec_entries(),
        final(archive).spec_format() == old(archive).spec_format(),
        match r {
            Ok(store) => {
                let entries = old(archive).spec_entries();
                let index = crate::archive::spec_asset_index(entries);
                &&& store.wf()
                &&& forall|e: int|
                    0 <= e < store@.len() ==> {
                        let ent = #[trigger] store@[e];
                        &&& ent.1 is Some
                        &&& exists|k: Seq<char>|
                            {
                                &&& #[trigger] index.contains_pair(k, ent.0@)
                                &&& spec_media_type(ent.0@) != MediaType::Unknown
                                &&& entries.dom().contains(vstd::utf8::encode_utf8(k))
                                &&& asset_bytes(entries, k, ent.1->0@)
                            }
                    }
                &&& forall|k: Seq<char>|
                    #[trigger] index.dom().contains(k) && asset_available(entries, k, index[k])
                        ==> store_has(store@, index[k])
            },
            Err(e) => e is InvalidArchive || e is IoError,
        },
{
    let ghost entries0 = archive.spec_entries();
    let ghost index = crate::archive::spec_asset_index(entries0);
    let mapping: Vec<(String, String)> = match archive.extract_media_mapping() {
        Ok(m) => m,
        Err(e) => {
            return Err(e);
        },
    };
    match store_media_assets(archive, &mapping, progress) {
        Ok(store) => {
            proof {
                assert forall|e: int| 0 <= e < store@.len() implies {
                    let ent = #[trigger] store@[e];
                    &&& ent.1 is Some
                    &&& exists|k: Seq<char>|
                        {
                            &&& #[trigger] index.contains_pair(k, ent.0@)
                            &&& spec_media_type(ent.0@) != MediaType::Unknown
                            &&& entries0.dom().contains(vstd::utf8::encode_utf8(k))
                            &&& asset_bytes(entries0, k, ent.1->0@)
                        }
                } by {
                    let ent = store@[e];
                    let j = choose|j: int|
                        0 <= j < mapping@.len() && {
                            let key = (#[trigger] mapping@[j]).0@;
                            &&& mapping@[j].1@ == ent.0@
                            &&& spec_media_type(ent.0@) != MediaType::Unknown
                            &&& entries0.dom().contains(vstd::utf8::encode_utf8(key))
                            &&& asset_bytes(entries0, key, ent.1->0@)
                        };
                    assert(index.contains_pair(mapping@[j].0@, mapping@[j].1@));
                }
                assert forall|k: Seq<char>|
                    #[trigger] index.dom().contains(k) && asset_available(
                        entries0,
                        k,
                        index[k],
                    ) implies store_has(store@, index[k]) by {
                    let i = choose|i: int|
                        0 <= i < mapping@.len() && (#[trigger] mapping@[i]).0@ == k;
                    assert(index.contains_pair(mapping@[i].0@, mapping@[i].1@));
                    assert(index[k] == mapping@[i].1@);
                    assert(asset_available(entries0, mapping@[i].0@, mapping@[i].1@));
                    assert(store_has(store@, mapping@[i].1@));
                }
            }
            Ok(store)
        },
        Err(e) => Err(e),
    }
}

} // verus!
