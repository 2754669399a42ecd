//! The domain model: categories ("decks"), items ("cards"), the media
//! store, the final collection, and the progress notification types.

use vstd::prelude::*;

use crate::text::contains_pat;
use crate::text::join_from;
use crate::text::lemma_find_pat_back_props;
use crate::text::matches_at;
use crate::text::spec_find_pat_back;
use crate::text::split_from;
use crate::text::split_on_pat;
use crate::text::join_with;
use crate::text::str_to_chars;
use crate::text::chars_to_string;
use crate::text::find_pat_from;

verus! {

/// Progress phases of one ingestion run, signalled in this order, each
/// exactly once.
#[derive(Debug, Clone, Copy, PartialEq, Eq, Structural)]
pub enum AnkiProgress {
    Extracting,
    ReadingDecks,
    ReadingCards,
    ProcessingMedia,
    Complete,
}

/// Phase observer the host implements; called synchronously, once per
/// phase.
pub trait AnkiProgressCallback: Send + Sync {
    fn on_progress(&self, progress: AnkiProgress);
}

/// Row-progress observer for long card and media scans: called with
/// `(processed, total)` at a fixed batch granularity and once at the end.
pub trait BatchProgress {
    fn on_batch(&mut self, current: usize, total: usize);
}

/// The deck hierarchy separator, `::`.
pub open spec fn sep() -> Seq<char> {
    seq![':', ':']
}

/// The last segment of `name`: what follows the rightmost `::`, or the
/// whole name when none occurs.
pub open spec fn spec_leaf_name(name: Seq<char>) -> Seq<char> {
    if name.len() >= 2 {
        match spec_find_pat_back(name, sep(), name.len() - 2) {
            Some(p) => name.skip(p + 2),
            None => name,
        }
    } else {
        name
    }
}

/// A deck has no parent exactly when its name holds no separator.
pub open spec fn spec_is_root(name: Seq<char>) -> bool {
    !contains_pat(name, sep())
}

/// The pieces of a deck name, split at each separator.
pub open spec fn spec_name_pieces(name: Seq<char>) -> Seq<Seq<char>> {
    split_from(name, sep(), 0)
}

/// The parent path of a deck name: all pieces but the last, rejoined.
pub open spec fn spec_parent_path(name: Seq<char>) -> Seq<char> {
    join_from(spec_name_pieces(name).take(spec_name_pieces(name).len() - 1), sep(), 0)
}

/// A category of items. `name` is the full hierarchy path with `::`
/// separators; `short_name` is its last segment.
#[derive(Debug)]
pub struct AnkiDeck {
    pub id: i64,
    pub name: String,
    pub short_name: String,
}

impl Clone for AnkiDeck {
    fn clone(&self) -> (res: Self)
        ensures
            res == *self,
    {
        AnkiDeck { id: self.id, name: self.name.clone(), short_name: self.short_name.clone() }
    }
}

impl AnkiDeck {
    /// Build a deck from its id and full name, deriving the leaf segment.
    pub fn from_name(id: i64, name: String) -> (r: AnkiDeck)
        ensures
            r.id == id,
            r.name@ == name@,
            r.short_name@ == spec_leaf_name(name@),
    {
        let chars: Vec<char> = str_to_chars(name.as_str());
        let sep_pat: Vec<char> = vec![':', ':'];
        proof {
            assert(sep_pat@ =~= sep());
        }
        let mut last: Option<usize> = None;
        let mut from: usize = 0;
        let n: usize = chars.len();
        loop
            invariant
                0 <= from <= n + 1,
                n == chars@.len(),
                chars@ == name@,
                sep_pat@ == sep(),
                match last {
                    Some(p) => {
                        &&& p < from
                        &&& matches_at(name@, sep(), p as int)
                        &&& forall|k: int| p < k < from ==> !matches_at(name@, sep(), k)
                    },
                    None => forall|k: int| 0 <= k < from ==> !matches_at(name@, sep(), k),
                },
            ensures
                match last {
                    Some(p) => matches_at(name@, sep(), p as int) && (forall|k: int|
                        p < k ==> !matches_at(name@, sep(), k)),
                    None => forall|k: int| !matches_at(name@, sep(), k),
                },
            decreases n + 1 - from,
        {
            match find_pat_from(chars.as_slice(), sep_pat.as_slice(), from) {
                Some(j) => {
                    proof {
                        assert(j + 2 <= n);
                    }
                    last = Some(j);
                    from = j + 1;
                },
                None => {
                    proof {
                        match last {
                            Some(p) => {
                                assert(forall|k: int| p < k ==> !matches_at(name@, sep(), k));
                            },
                            None => {
                                assert(forall|k: int| 0 <= k ==> !matches_at(name@, sep(), k));
                            },
                        }
                    }
                    break;
                },
            }
        }
        let short: String = match last {
            Some(p) => {
                proof {
                    lemma_find_pat_back_props(name@, sep(), name@.len() - 2);
                    assert(spec_find_pat_back(name@, sep(), name@.len() - 2) == Some(p as int));
                }
                let cs: &[char] = chars.as_slice();
                let tail: Vec<char> = vstd::slice::slice_to_vec(&cs[p + 2..chars.len()]);
                proof {
                    assert(tail@ =~= spec_leaf_name(name@));
                }
                chars_to_string(&tail)
            },
            None => {
                proof {
                    if name@.len() >= 2 {
                        lemma_find_pat_back_props(name@, sep(), name@.len() - 2);
                        assert(spec_find_pat_back(name@, sep(), name@.len() - 2) is None);
                    }
                    assert(spec_leaf_name(name@) == name@);
                }
                name.clone()
            },
        };
        AnkiDeck { id, name, short_name: short }
    }

    /// A root deck has no separator in its name.
    pub fn is_root(&self) -> (r: bool)
        ensures
            r == spec_is_root(self.name@),
    {
        let chars: Vec<char> = str_to_chars(self.name.as_str());
        let sep_pat: Vec<char> = vec![':', ':'];
        proof {
            assert(sep_pat@ =~= sep());
        }
        match find_pat_from(chars.as_slice(), sep_pat.as_slice(), 0) {
            Some(_) => false,
            None => true,
        }
    }

    /// The parent path (`A::B` for `A::B::C`), or `None` for a root deck.
    pub fn parent_path(&self) -> (r: Option<String>)
        ensures
            match r {
                Some(p) => {
                    &&& spec_name_pieces(self.name@).len() > 1
                    &&& p@ == spec_parent_path(self.name@)
                },
                None => spec_name_pieces(self.name@).len() <= 1,
            },
    {
        let chars: Vec<char> = str_to_chars(self.name.as_str());
        let sep_pat: Vec<char> = vec![':', ':'];
        proof {
            assert(sep_pat@ =~= sep());
        }
        let pieces: Vec<Vec<char>> = split_on_pat(chars.as_slice(), sep_pat.as_slice());
        if pieces.len() > 1 {
            let joined: Vec<char> = join_with(&pieces, pieces.len() - 1, sep_pat.as_slice());
            Some(chars_to_string(&joined))
        } else {
            None
        }
    }
}

/// One item, joined with its owning content record: positional text
/// fields and the asset references found in them.
#[derive(Debug, Clone)]
pub struct AnkiCard {
    pub id: i64,
    pub note_id: i64,
    pub deck_id: i64,
    pub fields: Vec<String>,
    pub media_references: Vec<String>,
}

/// Index of the entry holding `name`, if any.
pub open spec fn entry_index(entries: Seq<(String, Option<Vec<u8>>)>, name: Seq<char>, i: int) ->
    Option<int>
    decreases entries.len() - i,
{
    if i < 0 || i >= entries.len() {
        None
    } else if entries[i].0@ == name {
        Some(i)
    } else {
        entry_index(entries, name, i + 1)
    }
}

/// `entry_index` yields exactly the first entry with the name.
pub proof fn lemma_entry_index(entries: Seq<(String, Option<Vec<u8>>)>, name: Seq<char>, i: int)
    requires
        0 <= i,
    ensures
        match entry_index(entries, name, i) {
            Some(j) => i <= j < entries.len() && entries[j].0@ == name && (forall|k: int|
                i <= k < j ==> entries[k].0@ != name),
            None => forall|k: int| i <= k < entries.len() ==> entries[k].0@ != name,
        },
    decreases entries.len() - i,
{
    if i < entries.len() && entries[i].0@ != name {
        lemma_entry_index(entries, name, i + 1);
    }
}

/// The media store: filename-keyed entries in insertion order. An entry
/// may be a placeholder (`None` data) that a later insertion upgrades in
/// place, so enumeration order never changes.
#[derive(Debug)]
pub struct AnkiMediaStore {
    entries: Vec<(String, Option<Vec<u8>>)>,
}

impl AnkiMediaStore {
    /// The entries, as the contracts speak of them.
    pub closed spec fn view(&self) -> Seq<(String, Option<Vec<u8>>)> {
        self.entries@
    }

    /// Filenames are unique across entries.
    pub open spec fn wf(&self) -> bool {
        forall|i: int, j: int| 0 <= i < j < self@.len() ==> self@[i].0@ != self@[j].0@
    }

    /// An empty store.
    pub fn new() -> (r: AnkiMediaStore)
        ensures
            r@.len() == 0,
            r.wf(),
    {
        AnkiMediaStore { entries: Vec::new() }
    }

    /// Store `data` under `filename`: a present entry (placeholder or
    /// not) is upgraded in place, keeping its position; otherwise the
    /// entry is appended.
    pub fn insert(&mut self, filename: String, data: Vec<u8>)
        requires
            old(self).wf(),
        ensures
            final(self).wf(),
            match entry_index(old(self)@, filename@, 0) {
                Some(k) => final(self)@ == old(self)@.update(k, (filename, Some(data))),
                None => final(self)@ == old(self)@.push((filename, Some(data))),
            },
    {
        let mut k: usize = 0;
        let n: usize = self.entries.len();
        while k < n
            invariant
                old(self).wf(),
                self@ == old(self)@,
                0 <= k <= n == self@.len(),
                forall|m: int| 0 <= m < k ==> self@[m].0@ != filename@,
            decreases n - k,
        {
            if compare_strings(&self.entries[k].0, &filename) {
                proof {
                    lemma_entry_index(self@, filename@, 0);
                    assert(entry_index(self@, filename@, 0) == Some(k as int));
                }
                self.entries[k] = (filename, Some(data));
                proof {
                    assert(self@ =~= old(self)@.update(k as int, self@[k as int]));
                }
                return ;
            }
            k += 1;
        }
        proof {
            lemma_entry_index(self@, filename@, 0);
            assert(entry_index(self@, filename@, 0) is None);
        }
        self.entries.push((filename, Some(data)));
    }

    /// Record `filename` for enumeration without any data yet; a present
    /// entry is left alone.
    pub fn add_filename(&mut self, filename: String)
        requires
            old(self).wf(),
        ensures
            final(self).wf(),
            match entry_index(old(self)@, filename@, 0) {
                Some(_) => final(self)@ == old(self)@,
                None => final(self)@ == old(self)@.push((filename, Option::<Vec<u8>>::None)),
            },
    {
        let mut k: usize = 0;
        let n: usize = self.entries.len();
        while k < n
            invariant
                old(self).wf(),
                self@ == old(self)@,
                0 <= k <= n == self@.len(),
                forall|m: int| 0 <= m < k ==> self@[m].0@ != filename@,
            decreases n - k,
        {
            if compare_strings(&self.entries[k].0, &filename) {
                proof {
                    lemma_entry_index(self@, filename@, 0);
                    assert(entry_index(self@, filename@, 0) == Some(k as int));
                }
                return ;
            }
            k += 1;
        }
        proof {
            lemma_entry_index(self@, filename@, 0);
            assert(entry_index(self@, filename@, 0) is None);
        }
        self.entries.push((filename, None));
    }

    /// All filenames, in insertion order.
    pub fn filenames(&self) -> (r: Vec<String>)
        ensures
            r@.len() == self@.len(),
            forall|i: int| 0 <= i < r@.len() ==> r@[i]@ == self@[i].0@,
    {
        let mut out: Vec<String> = Vec::new();
        let mut k: usize = 0;
        let n: usize = self.entries.len();
        while k < n
            invariant
                0 <= k <= n == self@.len(),
                out@.len() == k,
                forall|i: int| 0 <= i < k ==> out@[i]@ == self@[i].0@,
            decreases n - k,
        {
            out.push(self.entries[k].0.clone());
            k += 1;
        }
        out
    }

    /// The data stored under `filename`, if any; a placeholder yields
    /// `None`.
    pub fn data_for(&self, filename: String) -> (r: Option<Vec<u8>>)
        ensures
            match entry_index(self@, filename@, 0) {
                Some(k) => match r {
                    Some(d) => self@[k].1 is Some && d@ == self@[k].1->0@,
                    None => self@[k].1 is None,
                },
                None => r is None,
            },
    {
        let mut k: usize = 0;
        let n: usize = self.entries.len();
        while k < n
            invariant
                0 <= k <= n == self@.len(),
                forall|m: int| 0 <= m < k ==> self@[m].0@ != filename@,
            decreases n - k,
        {
            if compare_strings(&self.entries[k].0, &filename) {
                proof {
                    lemma_entry_index(self@, filename@, 0);
                    assert(entry_index(self@, filename@, 0) == Some(k as int));
                }
                return match &self.entries[k].1 {
                    Some(d) => Some(copy_bytes(d)),
                    None => None,
                };
            }
            k += 1;
        }
        proof {
            lemma_entry_index(self@, filename@, 0);
            assert(entry_index(self@, filename@, 0) is None);
        }
        None
    }

    /// The number of entries, as a 32-bit count.
    pub fn count(&self) -> (r: u32)
        ensures
            self@.len() <= u32::MAX ==> r as int == self@.len(),
    {
        let n: usize = self.entries.len();
        if n > 0xFFFF_FFFFusize {
            0xFFFF_FFFFu32
        } else {
            assert(n <= u32::MAX);
            n as u32
        }
    }
}

/// A fresh copy of a byte vector.
pub fn copy_bytes(d: &Vec<u8>) -> (r: Vec<u8>)
    ensures
        r@ == d@,
{
    let mut out: Vec<u8> = Vec::new();
    let mut i: usize = 0;
    while i < d.len()
        invariant
            0 <= i <= d@.len(),
            out@ == d@.take(i as int),
        decreases d@.len() - i,
    {
        out.push(d[i]);
        proof {
            assert(out@ =~= d@.take(i + 1));
        }
        i += 1;
    }
    proof {
        assert(out@ =~= d@);
    }
    out
}

/// String equality by characters.
pub fn compare_strings(a: &String, b: &String) -> (r: bool)
    ensures
        r == (a@ == b@),
{
    a.eq(b)
}

/// The terminal artifact of one ingestion run.
#[derive(Debug)]
pub struct AnkiCollection {
    /// Every deck, parsed or synthesized.
    pub decks: Vec<AnkiDeck>,
    /// The decks without a parent.
    pub root_decks: Vec<AnkiDeck>,
    /// Cards grouped by deck id, in the order the store yielded them.
    pub cards_by_deck: Vec<(i64, Vec<AnkiCard>)>,
    /// The media entries read out of the container.
    pub media: AnkiMediaStore,
}

impl AnkiCollection {
    /// Assemble the collection, deriving the root-deck list.
    pub fn new(
        decks: Vec<AnkiDeck>,
        cards_by_deck: Vec<(i64, Vec<AnkiCard>)>,
        media: AnkiMediaStore,
    ) -> (r: AnkiCollection)
        ensures
            r.decks == decks,
            r.cards_by_deck == cards_by_deck,
            r.media == media,
            r.root_decks@ == decks@.filter(|d: AnkiDeck| spec_is_root(d.name@)),
    {
        let mut roots: Vec<AnkiDeck> = Vec::new();
        let mut k: usize = 0;
        while k < decks.len()
            invariant
                0 <= k <= decks@.len(),
                roots@ == decks@.take(k as int).filter(|d: AnkiDeck| spec_is_root(d.name@)),
            decreases decks@.len() - k,
        {
            let ghost prev = roots@;
            if decks[k].is_root() {
                roots.push(decks[k].clone());
            }
            proof {
                reveal(Seq::filter);
                assert(decks@.take(k + 1).drop_last() =~= decks@.take(k as int));
                assert(decks@.take(k + 1).last() == decks@[k as int]);
                if spec_is_root(decks@[k as int].name@) {
                    assert(roots@ =~= prev.push(decks@[k as int]));
                }
                assert(roots@ =~= decks@.take(k + 1).filter(|d: AnkiDeck| spec_is_root(d.name@)));
            }
            k += 1;
        }
        proof {
            assert(decks@.take(decks@.len() as int) =~= decks@);
        }
        AnkiCollection { decks, root_decks: roots, cards_by_deck, media }
    }
}

} // verus!
