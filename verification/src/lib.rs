//! Parser for flashcard export bundles: a zip container holding a SQLite
//! record store (two historical schemas) plus named media assets.
//!
//! The library detects the container format, decompresses zstd-framed
//! payloads, reads categories ("decks") and items ("cards") out of the
//! record store, normalizes field markup to plain text, and classifies
//! and validates media assets. The pipeline entry point is
//! [`parse_anki_bytes`]; the markup normalizer is exposed on its own as
//! [`clean_html_to_markdown`].

use vstd::prelude::*;

pub mod archive;
pub mod database;
pub mod error;
pub mod html;
pub mod media;
pub mod models;
pub mod text;

use crate::archive::AnkiArchive;
use crate::database::AnkiDatabase;
use crate::database::spec_card_wf;
use crate::error::AnkiError;
use crate::models::AnkiCard;
use crate::models::AnkiCollection;
use crate::models::AnkiDeck;
use crate::models::AnkiProgress;
use crate::models::AnkiProgressCallback;
use crate::models::BatchProgress;
use crate::models::spec_is_root;
use crate::models::spec_leaf_name;
use crate::text::chars_to_string;
use crate::text::i64_to_dec_chars;
use crate::text::push_all;
use crate::text::spec_i64_dec;

verus! {

/// A row-progress sink that ignores every report.
struct SilentBatch {
}

impl BatchProgress for SilentBatch {
    fn on_batch(&mut self, current: usize, total: usize) {
    }
}

/// The name given to a synthesized placeholder category for an
/// otherwise unknown id.
pub open spec fn placeholder_name(id: int) -> Seq<char> {
    seq!['D', 'e', 'c', 'k', ' '] + spec_i64_dec(id)
}

/// Some deck in the list carries this id.
pub open spec fn decks_have_id(decks: Seq<AnkiDeck>, id: i64) -> bool {
    exists|d: int| 0 <= d < decks.len() && (#[trigger] decks[d]).id == id
}

/// Append a placeholder category for every category id that items
/// reference but no parsed category carries, so that every item's
/// category resolves in the final collection.
pub fn synthesize_missing_decks(decks: &mut Vec<AnkiDeck>, groups: &Vec<(i64, Vec<AnkiCard>)>)
    ensures
        final(decks)@.len() >= old(decks)@.len(),
        final(decks)@.take(old(decks)@.len() as int) == old(decks)@,
        forall|k: int|
            0 <= k < groups@.len() ==> decks_have_id(final(decks)@, (#[trigger] groups@[k]).0),
        forall|m: int|
            old(decks)@.len() <= m < final(decks)@.len() ==> {
                let d = #[trigger] final(decks)@[m];
                &&& d.name@ == placeholder_name(d.id as int)
                &&& d.short_name@ == spec_leaf_name(d.name@)
                &&& !decks_have_id(old(decks)@, d.id)
                &&& exists|k: int| 0 <= k < groups@.len() && (#[trigger] groups@[k]).0 == d.id
            },
        forall|m1: int, m2: int|
            old(decks)@.len() <= m1 < m2 < final(decks)@.len()
                ==> (#[trigger] final(decks)@[m1]).id != (#[trigger] final(decks)@[m2]).id,
{
    let base: usize = decks.len();
    let mut k: usize = 0;
    while k < groups.len()
        invariant
            0 <= k <= groups@.len(),
            base == old(decks)@.len() <= decks@.len(),
            decks@.take(base as int) == old(decks)@,
            forall|kk: int| 0 <= kk < k ==> decks_have_id(decks@, (#[trigger] groups@[kk]).0),
            forall|m: int|
                base <= m < decks@.len() ==> {
                    let d = #[trigger] decks@[m];
                    &&& d.name@ == placeholder_name(d.id as int)
                    &&& d.short_name@ == spec_leaf_name(d.name@)
                    &&& !decks_have_id(old(decks)@, d.id)
                    &&& exists|kk: int| 0 <= kk < groups@.len() && (#[trigger] groups@[kk]).0
                        == d.id
                },
            forall|m1: int, m2: int|
                base <= m1 < m2 < decks@.len() ==> (#[trigger] decks@[m1]).id != (
                #[trigger] decks@[m2]).id,
        decreases groups.len() - k,
    {
        let did: i64 = groups[k].0;
        let mut present: bool = false;
        let mut d: usize = 0;
        let n: usize = decks.len();
        while d < n
            invariant_except_break
                !present,
            invariant
                0 <= d <= n == decks@.len(),
                forall|m: int| 0 <= m < d ==> (#[trigger] decks@[m]).id != did,
            ensures
                present ==> decks_have_id(decks@, did),
                !present ==> forall|m: int| 0 <= m < decks@.len() ==> (#[trigger] decks@[m]).id
                    != did,
            decreases n - d,
        {
            if decks[d].id == did {
                present = true;
                break ;
            }
            d += 1;
        }
        if !present {
            let ghost before = decks@;
            let mut name_chars: Vec<char> = Vec::new();
            name_chars.push('D');
            name_chars.push('e');
            name_chars.push('c');
            name_chars.push('k');
            name_chars.push(' ');
            let digits: Vec<char> = i64_to_dec_chars(did);
            push_all(&mut name_chars, digits.as_slice());
            proof {
                assert(name_chars@ =~= placeholder_name(did as int));
            }
            let name: String = chars_to_string(&name_chars);
            let deck: AnkiDeck = AnkiDeck::from_name(did, name);
            decks.push(deck);
            proof {
                assert(decks@.take(base as int) =~= before.take(base as int));
                assert(decks@[decks@.len() - 1].id == did);
                assert forall|kk: int| 0 <= kk < k + 1 implies decks_have_id(
                    decks@,
                    (#[trigger] groups@[kk]).0,
                ) by {
                    if kk < k {
                        let w = choose|w: int|
                            0 <= w < before.len() && (#[trigger] before[w]).id == groups@[kk].0;
                        assert(decks@[w].id == groups@[kk].0);
                    } else {
                        assert(decks@[decks@.len() - 1].id == groups@[kk].0);
                    }
                }
            }
        } else {
            proof {
                assert forall|kk: int| 0 <= kk < k + 1 implies decks_have_id(
                    decks@,
                    (#[trigger] groups@[kk]).0,
                ) by {
                }
            }
        }
        k += 1;
    }
}

/// Run the whole ingestion pipeline on the raw bytes of a container.
///
/// The five phases are signalled in order, each exactly once: extracting
/// the container, reading categories, reading items, processing media,
/// and completion. Every item's category id resolves in the returned
/// collection, through a synthesized placeholder category when the store
/// did not define it.
pub fn parse_anki_bytes<C: AnkiProgressCallback>(data: Vec<u8>, progress: &C) -> (r: Result<
    AnkiCollection,
    AnkiError,
>)
    ensures
        match r {
            Ok(c) => {
                &&& c.root_decks@ == c.decks@.filter(|d: AnkiDeck| spec_is_root(d.name@))
                &&& forall|k1: int, k2: int|
                    0 <= k1 < k2 < c.cards_by_deck@.len() ==> (#[trigger] c.cards_by_deck@[k1]).0
                        != (#[trigger] c.cards_by_deck@[k2]).0
                &&& forall|k: int, m: int|
                    0 <= k < c.cards_by_deck@.len() && 0 <= m < (
                    #[trigger] c.cards_by_deck@[k]).1@.len() ==> {
                        &&& (#[trigger] c.cards_by_deck@[k].1@[m]).deck_id == c.cards_by_deck@[k].0
                        &&& spec_card_wf(c.cards_by_deck@[k].1@[m])
                    }
                &&& forall|k: int|
                    0 <= k < c.cards_by_deck@.len() ==> decks_have_id(
                        c.decks@,
                        (#[trigger] c.cards_by_deck@[k]).0,
                    )
                &&& c.media.wf()
            },
            Err(e) => e is InvalidArchive || e is IoError || e is DatabaseError
                || e is DecompressionError,
        },
{
    progress.on_progress(AnkiProgress::Extracting);
    let mut archive: AnkiArchive = match AnkiArchive::from_bytes(data) {
        Ok(a) => a,
        Err(e) => {
            return Err(e);
        },
    };
    progress.on_progress(AnkiProgress::ReadingDecks);
    let db_data: Vec<u8> = match archive.extract_database() {
        Ok(d) => d,
        Err(e) => {
            return Err(e);
        },
    };
    let db: AnkiDatabase = match AnkiDatabase::open_from_bytes(db_data.as_slice()) {
        Ok(d) => d,
        Err(e) => {
            return Err(e);
        },
    };
    let mut decks: Vec<AnkiDeck> = match db.parse_decks() {
        Ok(d) => d,
        Err(e) => {
            return Err(e);
        },
    };
    progress.on_progress(AnkiProgress::ReadingCards);
    let mut card_sink: SilentBatch = SilentBatch {  };
    let cards_by_deck: Vec<(i64, Vec<AnkiCard>)> = match db.parse_cards(&mut card_sink) {
        Ok(g) => g,
        Err(e) => {
            return Err(e);
        },
    };
    synthesize_missing_decks(&mut decks, &cards_by_deck);
    progress.on_progress(AnkiProgress::ProcessingMedia);
    let mut media_sink: SilentBatch = SilentBatch {  };
    let media: crate::models::AnkiMediaStore = match crate::media::process_media(
        &mut archive,
        &mut media_sink,
    ) {
        Ok(m) => m,
        Err(e) => {
            return Err(e);
        },
    };
    progress.on_progress(AnkiProgress::Complete);
    Ok(AnkiCollection::new(decks, cards_by_deck, media))
}

/// Normalize markup in arbitrary text, exactly as item fields are
/// normalized.
pub fn clean_html_to_markdown(html: String) -> (r: String)
    ensures
        r@ == crate::html::spec_clean_html(html@),
{
    crate::html::clean_html(html.as_str())
}

} // verus!
