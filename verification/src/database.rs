//! Record-store reader: materializes the SQLite database from bytes,
//! enumerates categories under the modern and the legacy schema, and
//! streams items joined with their content records. Row values come back
//! as plain data; everything done with them is specified exactly.

use vstd::prelude::*;

use crate::error::AnkiError;
use rusqlite::types::ValueRef;
use crate::models::AnkiCard;
use crate::models::AnkiDeck;
use crate::models::BatchProgress;
use crate::models::sep;
use crate::models::spec_leaf_name;
use crate::text::count_pat;
use crate::text::count_pat_chars;
use crate::text::lex_lt;
use crate::text::lex_lt_chars;
use crate::text::str_to_chars;
use crate::text::bytes_to_string_strict;
use crate::text::bytes_to_string_lossy;
use crate::text::chars_to_string;
use crate::text::parse_i64_or_zero;
use crate::text::spec_parse_i64;
use crate::text::split_from;
use crate::text::split_on_pat;
use crate::text::utf8_lossy;
use crate::text::spec_find_char;
use crate::text::lemma_find_char_props;
use crate::text::matches_at;
use crate::text::starts_with_at;
use crate::text::find_char_from;
use crate::html::sound_open;
use crate::html::img_open;
use crate::html::img_cap_start;
use crate::html::find_src_back;
use crate::html::lemma_find_src_back;
use crate::html::first_stop;
use crate::html::lemma_first_stop;
use crate::html::is_quote;
use crate::html::find_src_back_exec;
use crate::html::first_stop_exec;
use vstd::utf8::valid_utf8;
use vstd::utf8::decode_utf8;

verus! {

/// Declares rusqlite's connection so it can stand in fields and
/// signatures; Verus sees nothing inside it.
#[verifier::external_type_specification]
#[verifier::external_body]
pub struct ExConnection(rusqlite::Connection);

/// An id column value, as the store yielded it: an integer, a raw blob,
/// or something else entirely.
#[derive(Debug, Clone)]
pub enum SqlId {
    Int(i64),
    Bytes(Vec<u8>),
    Other,
}

/// One row of the modern category table: the id cell and the raw name
/// bytes (text and blob names carry the same bytes).
#[derive(Debug, Clone)]
pub struct DeckRow {
    pub id: SqlId,
    pub name_bytes: Vec<u8>,
}

/// One row of the item join: the item, its owning content record, its
/// category, and the raw field blob.
#[derive(Debug, Clone)]
pub struct CardRow {
    pub id: i64,
    pub note_id: i64,
    pub deck_id: i64,
    pub field_blob: Vec<u8>,
}

/// Relies on `rusqlite::Connection::open_in_memory` and
/// `Connection::deserialize_read_exact`: materializes the database held
/// in the byte slice as a read-only in-memory database.
#[verifier::external_body]
fn db_open_from_bytes(data: &[u8]) -> (r: Result<rusqlite::Connection, AnkiError>)
    ensures
        r is Err ==> r->Err_0 is DatabaseError,
{
    let res = (|| -> Result<rusqlite::Connection, rusqlite::Error> {
        let mut conn = rusqlite::Connection::open_in_memory()?;
        conn.deserialize_read_exact(rusqlite::MAIN_DB, data, data.len(), true)?;
        Ok(conn)
    })();
    res.map_err(|e| AnkiError::DatabaseError(e.to_string()))
}

/// Relies on `rusqlite::Connection::query_row` over `sqlite_master`:
/// whether the modern category table exists; a query failure counts as
/// absent.
#[verifier::external_body]
fn db_decks_table_exists(conn: &rusqlite::Connection) -> (r: bool)
{
    conn.query_row(
        "SELECT COUNT(*) > 0 FROM sqlite_master WHERE type='table' AND name='decks'",
        [],
        |row| row.get(0),
    ).unwrap_or(false)
}

/// Relies on `rusqlite::Statement::query_map`: reads every row of the
/// modern category table, moving each cell out as plain data.
#[verifier::external_body]
fn db_query_deck_rows(conn: &rusqlite::Connection) -> (r: Result<Vec<DeckRow>, AnkiError>)
    ensures
        r is Err ==> r->Err_0 is DatabaseError,
{
    let res = (|| -> Result<Vec<DeckRow>, rusqlite::Error> {
        let mut stmt = conn.prepare("SELECT id, name FROM decks")?;
        let rows = stmt.query_map([], |row| {
            let id = match row.get_ref(0)? { ValueRef::Integer(i) => SqlId::Int(i), ValueRef::Blob(b) => SqlId::Bytes(b.to_vec()), _ => SqlId::Other };
            let name_bytes = match row.get_ref(1)? { ValueRef::Text(b) => b.to_vec(), ValueRef::Blob(b) => b.to_vec(), _ => Vec::new() };
            Ok(DeckRow { id, name_bytes })
        })?;
        rows.collect()
    })();
    res.map_err(|e| AnkiError::DatabaseError(e.to_string()))
}

/// Relies on `rusqlite::Connection::query_row`: the decks JSON of the
/// legacy catalog row; any failure (absent table, wrong type) is `None`.
#[verifier::external_body]
fn db_query_decks_json(conn: &rusqlite::Connection) -> (r: Option<String>)
{
    conn.query_row("SELECT decks FROM col", [], |row| row.get(0)).ok()
}

/// Relies on `rusqlite::Connection::query_row` over `COUNT(*)`: the
/// number of item rows, which a count query never reports negative.
#[verifier::external_body]
fn db_query_card_count(conn: &rusqlite::Connection) -> (r: Result<i64, AnkiError>)
    ensures
        match r {
            Ok(n) => n >= 0,
            Err(e) => e is DatabaseError,
        },
{
    let res: Result<i64, rusqlite::Error> = conn.query_row("SELECT COUNT(*) FROM cards", [], |row| row.get(0));
    res.map_err(|e| AnkiError::DatabaseError(e.to_string()))
}

/// Relies on `rusqlite::Statement::query_map`: reads every row of the
/// item join, moving each cell out as plain data; text and blob field
/// columns both come back as raw bytes.
#[verifier::external_body]
fn db_query_card_rows(conn: &rusqlite::Connection) -> (r: Result<Vec<CardRow>, AnkiError>)
    ensures
        r is Err ==> r->Err_0 is DatabaseError,
{
    let res = (|| -> Result<Vec<CardRow>, rusqlite::Error> {
        let mut stmt = conn.prepare("SELECT c.id, c.nid, c.did, n.flds FROM cards c JOIN notes n ON c.nid = n.id")?;
        let rows = stmt.query_map([], |row| {
            let field_blob = match row.get_ref(3)? { ValueRef::Text(b) => b.to_vec(), ValueRef::Blob(b) => b.to_vec(), _ => Vec::new() };
            Ok(CardRow { id: row.get(0)?, note_id: row.get(1)?, deck_id: row.get(2)?, field_blob })
        })?;
        rows.collect()
    })();
    res.map_err(|e| AnkiError::DatabaseError(e.to_string()))
}

/// Clamp an index to the length of the scanned data.
pub open spec fn clip_idx(n: int, t: int) -> int {
    if t > n {
        n
    } else {
        t
    }
}

/// Where a varint that starts at `j` ends: one past its last byte (every
/// byte with the continuation bit set is part of it).
pub open spec fn varint_end(d: Seq<u8>, j: int) -> int
    decreases d.len() - j,
{
    if j < 0 || j >= d.len() || d[j] & 0x80 == 0 {
        j + 1
    } else {
        varint_end(d, j + 1)
    }
}

/// `varint_end` advances.
pub proof fn lemma_varint_end(d: Seq<u8>, j: int)
    ensures
        varint_end(d, j) > j,
    decreases d.len() - j,
{
    if !(j < 0 || j >= d.len() || d[j] & 0x80 == 0) {
        lemma_varint_end(d, j + 1);
    }
}

/// Best-effort name recovery from an encoded binary record, scanning from
/// index `i`: the first field with wire tag 0x12 whose one-byte length
/// fits and whose payload is UTF-8 yields the name; other fields are
/// skipped by their wire type (varint, 8-byte, one-byte-length-prefixed,
/// 4-byte); anything else ends the scan with no name.
pub open spec fn pb_name_from(d: Seq<u8>, i: int) -> Option<Seq<char>>
    decreases d.len() - i,
    via pb_name_dec
{
    if i < 0 || i >= d.len() {
        None
    } else if i + 1 >= d.len() {
        None
    } else {
        let tag = d[i];
        let j = i + 1;
        if tag == 0x12 {
            let len = d[j] as int;
            let start = j + 1;
            if start + len <= d.len() && valid_utf8(d.subrange(start, start + len)) {
                Some(decode_utf8(d.subrange(start, start + len)))
            } else {
                pb_name_from(d, clip_idx(d.len() as int, start))
            }
        } else {
            let wt = tag & 0x07;
            if wt == 0 {
                pb_name_from(d, clip_idx(d.len() as int, varint_end(d, j)))
            } else if wt == 1 {
                pb_name_from(d, clip_idx(d.len() as int, j + 8))
            } else if wt == 2 {
                pb_name_from(d, clip_idx(d.len() as int, j + 1 + d[j] as int))
            } else if wt == 5 {
                pb_name_from(d, clip_idx(d.len() as int, j + 4))
            } else {
                pb_name_from(d, clip_idx(d.len() as int, j + 1))
            }
        }
    }
}

#[via_fn]
proof fn pb_name_dec(d: Seq<u8>, i: int) {
    if 0 <= i && i + 1 < d.len() {
        lemma_varint_end(d, i + 1);
    }
}

/// Recover a category name from an encoded binary record, best-effort.
pub fn extract_name_from_protobuf(data: &[u8]) -> (r: Option<String>)
    ensures
        match pb_name_from(data@, 0) {
            Some(cs) => r is Some && r->0@ == cs,
            None => r is None,
        },
{
    let n: usize = data.len();
    let mut i: usize = 0;
    while i < n
        invariant
            0 <= i <= n == data@.len(),
            pb_name_from(data@, i as int) == pb_name_from(data@, 0),
        decreases n - i,
    {
        let tag: u8 = data[i];
        let j: usize = i + 1;
        if j >= n {
            return None;
        }
        if tag == 0x12 {
            let len: usize = data[j] as usize;
            let start: usize = j + 1;
            if len <= n - start {
                match bytes_to_string_strict(&data[start..start + len]) {
                    Some(s) => {
                        return Some(s);
                    },
                    None => {},
                }
            }
            i = if start > n {
                n
            } else {
                start
            };
        } else {
            let wt: u8 = tag & 0x07;
            let target: usize = if wt == 0 {
                let mut k: usize = j;
                while k < n && data[k] & 0x80 != 0
                    invariant
                        j <= k <= n == data@.len(),
                        varint_end(data@, k as int) == varint_end(data@, j as int),
                    decreases n - k,
                {
                    k += 1;
                }
                proof {
                    assert(varint_end(data@, j as int) == k + 1);
                }
                if k >= n {
                    n
                } else {
                    k + 1
                }
            } else if wt == 1 {
                if 8 <= n - j {
                    j + 8
                } else {
                    n
                }
            } else if wt == 2 {
                let skip: usize = 1 + data[j] as usize;
                if skip <= n - j {
                    j + skip
                } else {
                    n
                }
            } else if wt == 5 {
                if 4 <= n - j {
                    j + 4
                } else {
                    n
                }
            } else {
                j + 1
            };
            i = target;
        }
    }
    None
}

/// Two's-complement value of eight little-endian bytes.
pub open spec fn spec_le_i64(b: Seq<u8>) -> int {
    let u = vstd::bytes::spec_u64_from_le_bytes(b) as int;
    if u >= 0x8000000000000000 {
        u - 0x10000000000000000
    } else {
        u
    }
}

/// The category id a raw id cell denotes: integers stand for themselves;
/// a blob of at least eight bytes is read as a little-endian signed
/// integer; anything else counts as zero.
pub open spec fn spec_deck_id(id: SqlId) -> int {
    match id {
        SqlId::Int(i) => i as int,
        SqlId::Bytes(b) => if b@.len() >= 8 {
            spec_le_i64(b@.take(8))
        } else {
            0
        },
        SqlId::Other => 0,
    }
}

/// Decode a raw id cell.
pub fn decode_deck_id(id: &SqlId) -> (r: i64)
    ensures
        r as int == spec_deck_id(*id),
{
    match id {
        SqlId::Int(i) => *i,
        SqlId::Bytes(b) => {
            if b.len() >= 8 {
                let u: u64 = vstd::bytes::u64_from_le_bytes(&b.as_slice()[0..8]);
                proof {
                    assert(b@.take(8) =~= b@.subrange(0, 8));
                }
                if u < 0x8000000000000000u64 {
                    u as i64
                } else if u == 0x8000000000000000u64 {
                    i64::MIN
                } else {
                    let m: u64 = u - 0x8000000000000000u64;
                    let neg: u64 = 0x8000000000000000u64 - m;
                    -(neg as i64)
                }
            } else {
                0
            }
        },
        SqlId::Other => 0,
    }
}

/// The category name raw name bytes denote: UTF-8 text stands for
/// itself; otherwise the binary-record scan is tried; with no name found
/// the result is empty.
pub open spec fn spec_deck_name(b: Seq<u8>) -> Seq<char> {
    if valid_utf8(b) {
        decode_utf8(b)
    } else {
        match pb_name_from(b, 0) {
            Some(cs) => cs,
            None => Seq::empty(),
        }
    }
}

/// Decode raw name bytes.
pub fn decode_deck_name(b: &Vec<u8>) -> (r: String)
    ensures
        r@ == spec_deck_name(b@),
{
    match bytes_to_string_strict(b.as_slice()) {
        Some(s) => s,
        None => match extract_name_from_protobuf(b.as_slice()) {
            Some(s) => s,
            None => {
                let r: String = String::new();
                proof {
                    assert(r@ =~= spec_deck_name(b@));
                }
                r
            },
        },
    }
}

/// Declares serde_json's document value so the legacy-catalog wrappers
/// can hand it through; Verus sees nothing inside it.
#[verifier::external_type_specification]
#[verifier::external_body]
pub struct ExValue(serde_json::Value);

/// Relies on `serde_json::from_str::<Value>`: parses a JSON document.
#[verifier::external_body]
fn json_parse(s: &str) -> (r: Option<serde_json::Value>)
{
    serde_json::from_str(s).ok()
}

/// Relies on `serde_json::Value::as_object`: the members of an object,
/// in the map's own (key-sorted) order; `None` for any other document.
#[verifier::external_body]
fn json_object_entries(v: &serde_json::Value) -> (r: Option<Vec<(String, serde_json::Value)>>)
{
    v.as_object().map(|m| m.iter().map(|(k, x)| (k.clone(), x.clone())).collect())
}

/// Relies on `serde_json::Value::get` and `Value::as_str`: the string
/// under the key, when the value is an object holding a string there.
#[verifier::external_body]
fn json_get_str(v: &serde_json::Value, key: &str) -> (r: Option<String>)
{
    v.get(key).and_then(|x| x.as_str()).map(|s| s.to_string())
}

/// The hierarchy depth of a category name: how many separators it holds.
pub open spec fn spec_deck_depth(name: Seq<char>) -> nat {
    count_pat(name, sep())
}

/// Category order: ascending depth, ties broken by name, so parents
/// always precede their descendants.
pub open spec fn deck_le(a: AnkiDeck, b: AnkiDeck) -> bool {
    ||| spec_deck_depth(a.name@) < spec_deck_depth(b.name@)
    ||| (spec_deck_depth(a.name@) == spec_deck_depth(b.name@) && !lex_lt(b.name@, a.name@))
}

/// The sequence is ordered by `deck_le`.
pub open spec fn decks_sorted(s: Seq<AnkiDeck>) -> bool {
    forall|i: int, j: int| 0 <= i < j < s.len() ==> deck_le(s[i], s[j])
}

/// `deck_le` relates every pair one way or the other.
proof fn lemma_deck_le_total(a: AnkiDeck, b: AnkiDeck)
    ensures
        deck_le(a, b) || deck_le(b, a),
{
    if spec_deck_depth(a.name@) == spec_deck_depth(b.name@) && lex_lt(b.name@, a.name@) && lex_lt(
        a.name@,
        b.name@,
    ) {
        crate::text::lemma_lex_lt_trans(a.name@, b.name@, a.name@);
        crate::text::lemma_lex_lt_irrefl(a.name@);
    }
}

/// `deck_le` is transitive.
proof fn lemma_deck_le_trans(a: AnkiDeck, b: AnkiDeck, c: AnkiDeck)
    requires
        deck_le(a, b),
        deck_le(b, c),
    ensures
        deck_le(a, c),
{
    if spec_deck_depth(a.name@) == spec_deck_depth(b.name@) && spec_deck_depth(b.name@)
        == spec_deck_depth(c.name@) {
        if lex_lt(c.name@, a.name@) {
            if lex_lt(a.name@, b.name@) {
                crate::text::lemma_lex_lt_trans(c.name@, a.name@, b.name@);
            } else {
                crate::text::lemma_lex_lt_connex(a.name@, b.name@);
            }
        }
    }
}

/// Exec form of `deck_le`.
fn deck_le_exec(a: &AnkiDeck, b: &AnkiDeck) -> (r: bool)
    ensures
        r == deck_le(*a, *b),
{
    let sep_pat: Vec<char> = vec![':', ':'];
    proof {
        assert(sep_pat@ =~= sep());
    }
    let ac: Vec<char> = str_to_chars(a.name.as_str());
    let bc: Vec<char> = str_to_chars(b.name.as_str());
    let da: usize = count_pat_chars(ac.as_slice(), sep_pat.as_slice());
    let db: usize = count_pat_chars(bc.as_slice(), sep_pat.as_slice());
    if da < db {
        true
    } else if da > db {
        false
    } else {
        !lex_lt_chars(bc.as_slice(), ac.as_slice())
    }
}

/// Sort categories by depth, then name.
pub fn sort_decks(v: &mut Vec<AnkiDeck>)
    ensures
        decks_sorted(final(v)@),
        final(v)@.to_multiset() == old(v)@.to_multiset(),
{
    broadcast use vstd::seq_lib::group_to_multiset_ensures;

    let n: usize = v.len();
    if n <= 1 {
        return ;
    }
    let mut i: usize = 1;
    while i < n
        invariant
            1 <= i <= n == v@.len(),
            v@.to_multiset() == old(v)@.to_multiset(),
            forall|a: int, b: int| 0 <= a < b < i ==> deck_le(v@[a], v@[b]),
        decreases n - i,
    {
        let mut j: usize = i;
        while j > 0 && !deck_le_exec(&v[j - 1], &v[j])
            invariant
                0 <= j <= i < n == v@.len(),
                v@.to_multiset() == old(v)@.to_multiset(),
                forall|a: int, b: int|
                    0 <= a < b <= i && a != j && b != j ==> deck_le(v@[a], v@[b]),
                forall|b: int| j < b <= i ==> deck_le(v@[j as int], v@[b]),
            decreases j,
        {
            proof {
                lemma_deck_le_total(v@[j - 1], v@[j as int]);
            }
            let ghost before = v@;
            let x: AnkiDeck = v[j - 1].clone();
            let y: AnkiDeck = v[j].clone();
            v.set(j - 1, y);
            v.set(j, x);
            proof {
                broadcast use vstd::multiset::group_multiset_axioms;
                broadcast use vstd::multiset::group_multiset_properties;
                broadcast use vstd::seq_lib::group_to_multiset_ensures;

                let mid = before.update(j - 1, before[j as int]);
                assert(v@ =~= mid.update(j as int, before[j - 1]));
                vstd::seq_lib::to_multiset_update(before, j - 1, before[j as int]);
                vstd::seq_lib::to_multiset_update(mid, j as int, before[j - 1]);
                assert(mid[j as int] == before[j as int]);
                assert(before.contains(before[j - 1]));
                assert(before.to_multiset().count(before[j - 1]) >= 1);
                assert(v@.to_multiset() =~= before.to_multiset());
            }
            j -= 1;
        }
        proof {
            assert forall|a: int, b: int| 0 <= a < b <= i implies deck_le(v@[a], v@[b]) by {
                if b == j as int {
                    assert(deck_le(v@[j - 1], v@[j as int]));
                    if a < j - 1 {
                        assert(deck_le(v@[a], v@[j - 1]));
                        lemma_deck_le_trans(v@[a], v@[j - 1], v@[j as int]);
                    }
                }
            }
        }
        i += 1;
    }
}

/// The plain (id, name) list a modern row sequence denotes, from row `k`
/// on: zero ids and rows without a decodable name are dropped.
pub open spec fn rows_decks_from(rows: Seq<DeckRow>, k: int) -> Seq<(int, Seq<char>)>
    decreases rows.len() - k,
{
    if k < 0 || k >= rows.len() {
        Seq::empty()
    } else {
        let id = spec_deck_id(rows[k].id);
        let nm = spec_deck_name(rows[k].name_bytes@);
        if id != 0 && nm.len() > 0 {
            seq![(id, nm)] + rows_decks_from(rows, k + 1)
        } else {
            rows_decks_from(rows, k + 1)
        }
    }
}

/// Sorting one way or the other keeps the mapped multiset.
proof fn lemma_map_to_multiset<A, B>(s1: Seq<A>, s2: Seq<A>, f: spec_fn(A) -> B)
    requires
        s1.to_multiset() == s2.to_multiset(),
    ensures
        s1.map_values(f).to_multiset() == s2.map_values(f).to_multiset(),
    decreases s1.len(),
{
    broadcast use vstd::seq_lib::group_to_multiset_ensures;

    if s1.len() == 0 {
        assert(s1.to_multiset().len() == s1.len());
        assert(s2.to_multiset().len() == s2.len());
        assert(s2.len() == 0);
        assert(s1.map_values(f) =~= s2.map_values(f));
    } else {
        let x = s1.last();
        assert(s1.contains(x));
        assert(s1.to_multiset().count(x) > 0);
        assert(s2.contains(x));
        let j = choose|j: int| 0 <= j < s2.len() && s2[j] == x;
        let s1h = s1.drop_last();
        let s2r = s2.remove(j);
        assert(s1 =~= s1h.push(x));
        assert(s1.to_multiset() == s1h.to_multiset().insert(x));
        assert(s2r.to_multiset() == s2.to_multiset().remove(x));
        assert(s1h.to_multiset() =~= s2r.to_multiset());
        lemma_map_to_multiset(s1h, s2r, f);
        assert(s1.map_values(f) =~= s1h.map_values(f).push(f(x)));
        assert(s2.map_values(f).remove(j) =~= s2r.map_values(f));
        assert(s2.map_values(f).remove(j).to_multiset() == s2.map_values(f).to_multiset().remove(
            f(x),
        ));
        assert(s1.map_values(f).to_multiset() =~= s2.map_values(f).to_multiset());
    }
}

/// The deck a verified constructor yields from one (id, name) pair.
pub open spec fn deck_pair(d: AnkiDeck) -> (int, Seq<char>) {
    (d.id as int, d.name@)
}

/// Categories are decoded as their contracts state, each with the
/// correct leaf segment.
pub open spec fn decks_wf(s: Seq<AnkiDeck>) -> bool {
    forall|i: int|
        0 <= i < s.len() ==> (#[trigger] s[i]).short_name@ == spec_leaf_name(s[i].name@)
}

/// Build the sorted category list out of modern rows: decode each id and
/// name, drop zero ids and empty names, and order by depth then name.
pub fn decks_from_rows(rows: &Vec<DeckRow>) -> (r: Vec<AnkiDeck>)
    ensures
        decks_sorted(r@),
        decks_wf(r@),
        r@.map_values(|d: AnkiDeck| deck_pair(d)).to_multiset() == rows_decks_from(
            rows@,
            0,
        ).to_multiset(),
{
    let mut out: Vec<AnkiDeck> = Vec::new();
    let mut k: usize = 0;
    while k < rows.len()
        invariant
            0 <= k <= rows@.len(),
            decks_wf(out@),
            out@.map_values(|d: AnkiDeck| deck_pair(d)) + rows_decks_from(rows@, k as int)
                == rows_decks_from(rows@, 0),
        decreases rows.len() - k,
    {
        let ghost prev = out@;
        let id: i64 = decode_deck_id(&rows[k].id);
        let name: String = decode_deck_name(&rows[k].name_bytes);
        let name_chars: Vec<char> = str_to_chars(name.as_str());
        if id != 0 && name_chars.len() != 0 {
            let deck: AnkiDeck = AnkiDeck::from_name(id, name);
            out.push(deck);
            proof {
                assert(out@.map_values(|d: AnkiDeck| deck_pair(d)) =~= prev.map_values(
                    |d: AnkiDeck| deck_pair(d),
                ).push((id as int, deck.name@)));
                assert(out@.map_values(|d: AnkiDeck| deck_pair(d)) + rows_decks_from(rows@, k + 1)
                    =~= rows_decks_from(rows@, 0));
            }
        }
        k += 1;
    }
    proof {
        assert(rows_decks_from(rows@, rows@.len() as int) =~= Seq::<(int, Seq<char>)>::empty());
        assert(out@.map_values(|d: AnkiDeck| deck_pair(d)) =~= rows_decks_from(rows@, 0));
    }
    let ghost unsorted = out@;
    sort_decks(&mut out);
    proof {
        lemma_map_to_multiset(out@, unsorted, |d: AnkiDeck| deck_pair(d));
        assert(decks_wf(out@)) by {
            broadcast use vstd::seq_lib::group_to_multiset_ensures;

            assert forall|i: int| 0 <= i < out@.len() implies (#[trigger] out@[i]).short_name@
                == spec_leaf_name(out@[i].name@) by {
                assert(out@.to_multiset().count(out@[i]) > 0);
                assert(unsorted.contains(out@[i]));
            }
        }
    }
    out
}

/// The plain (id, name) list legacy catalog members denote, from member
/// `k` on: the key parses as the id (zero when it does not parse), and
/// members without a name string are dropped.
pub open spec fn pairs_decks_from(pairs: Seq<(String, Option<String>)>, k: int) -> Seq<
    (int, Seq<char>),
>
    decreases pairs.len() - k,
{
    if k < 0 || k >= pairs.len() {
        Seq::empty()
    } else {
        let id = match spec_parse_i64(pairs[k].0@) {
            Some(v) => v,
            None => 0,
        };
        let nm = match pairs[k].1 {
            Some(s) => s@,
            None => Seq::empty(),
        };
        if nm.len() > 0 {
            seq![(id, nm)] + pairs_decks_from(pairs, k + 1)
        } else {
            pairs_decks_from(pairs, k + 1)
        }
    }
}

/// Build the sorted category list out of legacy catalog members.
pub fn legacy_decks_from_pairs(pairs: &Vec<(String, Option<String>)>) -> (r: Vec<AnkiDeck>)
    ensures
        decks_sorted(r@),
        decks_wf(r@),
        r@.map_values(|d: AnkiDeck| deck_pair(d)).to_multiset() == pairs_decks_from(
            pairs@,
            0,
        ).to_multiset(),
{
    let mut out: Vec<AnkiDeck> = Vec::new();
    let mut k: usize = 0;
    while k < pairs.len()
        invariant
            0 <= k <= pairs@.len(),
            decks_wf(out@),
            out@.map_values(|d: AnkiDeck| deck_pair(d)) + pairs_decks_from(pairs@, k as int)
                == pairs_decks_from(pairs@, 0),
        decreases pairs.len() - k,
    {
        let ghost prev = out@;
        let key_chars: Vec<char> = str_to_chars(pairs[k].0.as_str());
        proof {
            assert(key_chars@ == pairs@[k as int].0@);
        }
        let id: i64 = parse_i64_or_zero(key_chars.as_slice());
        match &pairs[k].1 {
            Some(s) => {
                let name_chars: Vec<char> = str_to_chars(s.as_str());
                if name_chars.len() != 0 {
                    let deck: AnkiDeck = AnkiDeck::from_name(id, s.clone());
                    out.push(deck);
                    proof {
                        assert(out@.map_values(|d: AnkiDeck| deck_pair(d)) =~= prev.map_values(
                            |d: AnkiDeck| deck_pair(d),
                        ).push((id as int, deck.name@)));
                        assert(out@.map_values(|d: AnkiDeck| deck_pair(d)) + pairs_decks_from(
                            pairs@,
                            k + 1,
                        ) =~= pairs_decks_from(pairs@, 0));
                    }
                }
            },
            None => {},
        }
        k += 1;
    }
    proof {
        assert(pairs_decks_from(pairs@, pairs@.len() as int) =~= Seq::<(int, Seq<char>)>::empty());
        assert(out@.map_values(|d: AnkiDeck| deck_pair(d)) =~= pairs_decks_from(pairs@, 0));
    }
    let ghost unsorted = out@;
    sort_decks(&mut out);
    proof {
        lemma_map_to_multiset(out@, unsorted, |d: AnkiDeck| deck_pair(d));
        assert(decks_wf(out@)) by {
            broadcast use vstd::seq_lib::group_to_multiset_ensures;

            assert forall|i: int| 0 <= i < out@.len() implies (#[trigger] out@[i]).short_name@
                == spec_leaf_name(out@[i].name@) by {
                assert(out@.to_multiset().count(out@[i]) > 0);
                assert(unsorted.contains(out@[i]));
            }
        }
    }
    out
}

/// The sound-reference captures of one field, in scan order.
pub open spec fn sound_refs_from(s: Seq<char>, i: int) -> Seq<Seq<char>>
    decreases s.len() - i,
    via sound_refs_dec
{
    if i < 0 || i >= s.len() {
        Seq::empty()
    } else if matches_at(s, sound_open(), i) {
        match spec_find_char(s, ']', i + 7) {
            Some(j) => if j > i + 7 {
                seq![s.subrange(i + 7, j)] + sound_refs_from(s, j + 1)
            } else {
                sound_refs_from(s, i + 1)
            },
            None => sound_refs_from(s, i + 1),
        }
    } else {
        sound_refs_from(s, i + 1)
    }
}

#[via_fn]
proof fn sound_refs_dec(s: Seq<char>, i: int) {
    if 0 <= i && i < s.len() {
        lemma_find_char_props(s, ']', i + 7);
    }
}

/// The image-source captures of one field, in scan order. Unlike the
/// rewriting pass, the capture needs no closing `>`: the scan resumes
/// right after the captured value (and its closing quote, if any).
pub open spec fn img_refs_from(s: Seq<char>, i: int) -> Seq<Seq<char>>
    decreases s.len() - i,
    via img_refs_dec
{
    if i < 0 || i >= s.len() {
        Seq::empty()
    } else if matches_at(s, img_open(), i) {
        let e = match spec_find_char(s, '>', i + 4) {
            Some(x) => x,
            None => s.len() as int,
        };
        match find_src_back(s, i + 5, e, e - 4) {
            Some(p) => {
                let q = img_cap_start(s, p);
                let ce = first_stop(s, q);
                let next = if ce < s.len() && is_quote(s[ce]) {
                    ce + 1
                } else {
                    ce
                };
                seq![s.subrange(q, ce)] + img_refs_from(s, next)
            },
            None => img_refs_from(s, i + 1),
        }
    } else {
        img_refs_from(s, i + 1)
    }
}

#[via_fn]
proof fn img_refs_dec(s: Seq<char>, i: int) {
    if 0 <= i && i < s.len() && matches_at(s, img_open(), i) {
        lemma_find_char_props(s, '>', i + 4);
        let e = match spec_find_char(s, '>', i + 4) {
            Some(x) => x,
            None => s.len() as int,
        };
        lemma_find_src_back(s, i + 5, e, e - 4);
        match find_src_back(s, i + 5, e, e - 4) {
            Some(p) => {
                lemma_first_stop(s, img_cap_start(s, p));
            },
            None => {},
        }
    }
}

/// All asset references of one field: every sound capture, then every
/// image capture.
pub open spec fn spec_field_refs(f: Seq<char>) -> Seq<Seq<char>> {
    sound_refs_from(f, 0) + img_refs_from(f, 0)
}

/// All asset references of a field list, field by field.
pub open spec fn refs_from_fields(fields: Seq<Seq<char>>, k: int) -> Seq<Seq<char>>
    decreases fields.len() - k,
{
    if k < 0 || k >= fields.len() {
        Seq::empty()
    } else {
        spec_field_refs(fields[k]) + refs_from_fields(fields, k + 1)
    }
}

/// Collect the sound captures of one field.
fn sound_refs(s: &[char]) -> (r: Vec<String>)
    ensures
        r@.map_values(|x: String| x@) == sound_refs_from(s@, 0),
{
    let open_pat: Vec<char> = vec!['[', 's', 'o', 'u', 'n', 'd', ':'];
    proof {
        assert(open_pat@ =~= sound_open());
    }
    let mut out: Vec<String> = Vec::new();
    let mut i: usize = 0;
    while i < s.len()
        invariant
            0 <= i <= s@.len(),
            open_pat@ == sound_open(),
            out@.map_values(|x: String| x@) + sound_refs_from(s@, i as int) == sound_refs_from(
                s@,
                0,
            ),
        decreases s.len() - i,
    {
        let ghost prev = out@.map_values(|x: String| x@);
        let mut step: usize = 1;
        if starts_with_at(s, open_pat.as_slice(), i) {
            proof {
                lemma_find_char_props(s@, ']', i + 7);
            }
            match find_char_from(s, ']', i + 7) {
                Some(j) => {
                    proof {
                        assert(spec_find_char(s@, ']', i + 7) == Some(j as int));
                    }
                    if j > i + 7 {
                        let cap: Vec<char> = vstd::slice::slice_to_vec(&s[i + 7..j]);
                        let cs: String = chars_to_string(&cap);
                        out.push(cs);
                        proof {
                            assert(out@.map_values(|x: String| x@) =~= prev.push(
                                s@.subrange(i + 7, j as int),
                            ));
                            assert(out@.map_values(|x: String| x@) + sound_refs_from(s@, j + 1)
                                =~= prev + sound_refs_from(s@, i as int));
                        }
                        step = j + 1 - i;
                    }
                },
                None => {
                    proof {
                        assert(spec_find_char(s@, ']', i + 7) is None);
                    }
                },
            }
        }
        proof {
            if step == 1 {
                assert(out@.map_values(|x: String| x@) + sound_refs_from(s@, i + 1) =~= prev
                    + sound_refs_from(s@, i as int));
            }
        }
        i += step;
    }
    proof {
        assert(out@.map_values(|x: String| x@) =~= out@.map_values(|x: String| x@)
            + sound_refs_from(s@, i as int));
    }
    out
}

/// Collect the image-source captures of one field.
#[verifier::rlimit(50)]
fn img_refs(s: &[char]) -> (r: Vec<String>)
    ensures
        r@.map_values(|x: String| x@) == img_refs_from(s@, 0),
{
    let open_pat: Vec<char> = vec!['<', 'i', 'm', 'g'];
    proof {
        assert(open_pat@ =~= img_open());
    }
    let mut out: Vec<String> = Vec::new();
    let mut i: usize = 0;
    while i < s.len()
        invariant
            0 <= i <= s@.len(),
            open_pat@ == img_open(),
            out@.map_values(|x: String| x@) + img_refs_from(s@, i as int) == img_refs_from(s@, 0),
        decreases s.len() - i,
    {
        let ghost prev = out@.map_values(|x: String| x@);
        let mut step: usize = 1;
        if starts_with_at(s, open_pat.as_slice(), i) {
            proof {
                lemma_find_char_props(s@, '>', i + 4);
            }
            let e: usize = match find_char_from(s, '>', i + 4) {
                Some(x) => {
                    proof {
                        assert(spec_find_char(s@, '>', i + 4) == Some(x as int));
                    }
                    x
                },
                None => {
                    proof {
                        assert(spec_find_char(s@, '>', i + 4) is None);
                    }
                    s.len()
                },
            };
            if e - i >= 9 {
                match find_src_back_exec(s, i + 5, e, e - 4) {
                    Some(p) => {
                        proof {
                            lemma_find_src_back(s@, i + 5, e as int, e - 4);
                        }
                        let q: usize = if p + 4 < s.len() && (s[p + 4] == '"' || s[p + 4] == '\'') {
                            p + 5
                        } else {
                            p + 4
                        };
                        proof {
                            assert(q as int == img_cap_start(s@, p as int));
                            lemma_first_stop(s@, q as int);
                        }
                        let ce: usize = first_stop_exec(s, q);
                        let cap: Vec<char> = vstd::slice::slice_to_vec(&s[q..ce]);
                        let cs: String = chars_to_string(&cap);
                        out.push(cs);
                        let next: usize = if ce < s.len() && (s[ce] == '"' || s[ce] == '\'') {
                            ce + 1
                        } else {
                            ce
                        };
                        proof {
                            assert(out@.map_values(|x: String| x@) =~= prev.push(
                                s@.subrange(q as int, ce as int),
                            ));
                            assert(out@.map_values(|x: String| x@) + img_refs_from(
                                s@,
                                next as int,
                            ) =~= prev + img_refs_from(s@, i as int));
                        }
                        step = next - i;
                    },
                    None => {
                        proof {
                            assert(find_src_back(s@, i + 5, e as int, e - 4) is None);
                        }
                    },
                }
            } else {
                proof {
                    assert(find_src_back(s@, i + 5, e as int, e - 4) is None);
                }
            }
        }
        proof {
            if step == 1 {
                assert(out@.map_values(|x: String| x@) + img_refs_from(s@, i + 1) =~= prev
                    + img_refs_from(s@, i as int));
            }
        }
        i += step;
    }
    proof {
        assert(out@.map_values(|x: String| x@) =~= out@.map_values(|x: String| x@)
            + img_refs_from(s@, i as int));
    }
    out
}

/// Collect the asset references of every field: the sound captures of a
/// field, then its image captures, fields in order.
pub fn extract_media_references(fields: &[String]) -> (r: Vec<String>)
    ensures
        r@.map_values(|x: String| x@) == refs_from_fields(
            fields@.map_values(|f: String| f@),
            0,
        ),
{
    let ghost fviews = fields@.map_values(|f: String| f@);
    let mut out: Vec<String> = Vec::new();
    let mut k: usize = 0;
    while k < fields.len()
        invariant
            0 <= k <= fields@.len(),
            fviews == fields@.map_values(|f: String| f@),
            out@.map_values(|x: String| x@) + refs_from_fields(fviews, k as int)
                == refs_from_fields(fviews, 0),
        decreases fields.len() - k,
    {
        let ghost prev = out@.map_values(|x: String| x@);
        let chars: Vec<char> = str_to_chars(fields[k].as_str());
        proof {
            assert(chars@ == fviews[k as int]);
        }
        let snd: Vec<String> = sound_refs(chars.as_slice());
        let img: Vec<String> = img_refs(chars.as_slice());
        let mut m: usize = 0;
        while m < snd.len()
            invariant
                0 <= m <= snd@.len(),
                out@.map_values(|x: String| x@) =~= prev + snd@.map_values(
                    |x: String| x@,
                ).take(m as int),
            decreases snd.len() - m,
        {
            let ghost before_push = out@.map_values(|x: String| x@);
            let one: String = snd[m].clone();
            proof {
                assert(one == snd@[m as int]);
            }
            out.push(one);
            proof {
                assert(out@.map_values(|x: String| x@) =~= before_push.push(one@));
                assert(snd@.map_values(|x: String| x@).take(m + 1) =~= snd@.map_values(
                    |x: String| x@,
                ).take(m as int).push(snd@[m as int]@));
                assert(out@.map_values(|x: String| x@) =~= prev + snd@.map_values(
                    |x: String| x@,
                ).take(m + 1));
            }
            m += 1;
        }
        let ghost mid = out@.map_values(|x: String| x@);
        let mut m2: usize = 0;
        while m2 < img.len()
            invariant
                0 <= m2 <= img@.len(),
                out@.map_values(|x: String| x@) =~= mid + img@.map_values(
                    |x: String| x@,
                ).take(m2 as int),
            decreases img.len() - m2,
        {
            let ghost before_push = out@.map_values(|x: String| x@);
            let one: String = img[m2].clone();
            proof {
                assert(one == img@[m2 as int]);
            }
            out.push(one);
            proof {
                assert(out@.map_values(|x: String| x@) =~= before_push.push(one@));
                assert(img@.map_values(|x: String| x@).take(m2 + 1) =~= img@.map_values(
                    |x: String| x@,
                ).take(m2 as int).push(img@[m2 as int]@));
                assert(out@.map_values(|x: String| x@) =~= mid + img@.map_values(
                    |x: String| x@,
                ).take(m2 + 1));
            }
            m2 += 1;
        }
        proof {
            assert(snd@.map_values(|x: String| x@).take(snd@.len() as int) =~= sound_refs_from(
                fviews[k as int],
                0,
            ));
            assert(img@.map_values(|x: String| x@).take(img@.len() as int) =~= img_refs_from(
                fviews[k as int],
                0,
            ));
            assert(out@.map_values(|x: String| x@) =~= prev + spec_field_refs(fviews[k as int]));
            assert(out@.map_values(|x: String| x@) + refs_from_fields(fviews, k + 1) =~= prev
                + refs_from_fields(fviews, k as int));
        }
        k += 1;
    }
    proof {
        assert(out@.map_values(|x: String| x@) =~= out@.map_values(|x: String| x@)
            + refs_from_fields(fviews, k as int));
    }
    out
}

/// The fields a raw content blob denotes: the blob decoded as UTF-8
/// (lossy), split at each unit-separator character.
pub open spec fn spec_card_fields(blob: Seq<u8>) -> Seq<Seq<char>> {
    split_from(utf8_lossy(blob), seq!['\u{1F}'], 0)
}

/// Split a raw content blob into its fields.
pub fn fields_of_blob(blob: &[u8]) -> (r: Vec<String>)
    ensures
        r@.map_values(|s: String| s@) == spec_card_fields(blob@),
{
    let text: String = bytes_to_string_lossy(blob);
    let chars: Vec<char> = str_to_chars(text.as_str());
    let us: Vec<char> = vec!['\u{1F}'];
    proof {
        assert(us@ =~= seq!['\u{1F}']);
    }
    let pieces: Vec<Vec<char>> = split_on_pat(chars.as_slice(), us.as_slice());
    let mut out: Vec<String> = Vec::new();
    let mut k: usize = 0;
    while k < pieces.len()
        invariant
            0 <= k <= pieces@.len(),
            out@.len() == k,
            forall|m: int| 0 <= m < k ==> (#[trigger] out@[m])@ == pieces.deep_view()[m],
        decreases pieces.len() - k,
    {
        let piece: String = chars_to_string(&pieces[k]);
        out.push(piece);
        proof {
            assert(out@.map_values(|s: String| s@)[k as int] == pieces.deep_view()[k as int]);
        }
        k += 1;
    }
    proof {
        assert(out@.map_values(|s: String| s@) =~= pieces.deep_view());
    }
    out
}

/// An item is internally consistent: its references are exactly those
/// its fields denote.
pub open spec fn spec_card_wf(c: AnkiCard) -> bool {
    c.media_references@.map_values(|x: String| x@) == refs_from_fields(
        c.fields@.map_values(|f: String| f@),
        0,
    )
}

/// The item one join row denotes.
pub open spec fn spec_card_matches(c: AnkiCard, row: CardRow) -> bool {
    &&& c.id == row.id
    &&& c.note_id == row.note_id
    &&& c.deck_id == row.deck_id
    &&& c.fields@.map_values(|s: String| s@) == spec_card_fields(row.field_blob@)
    &&& spec_card_wf(c)
}

/// Build one item from its join row.
pub fn card_from_row(row: &CardRow) -> (r: AnkiCard)
    ensures
        spec_card_matches(r, *row),
{
    let fields: Vec<String> = fields_of_blob(row.field_blob.as_slice());
    let refs: Vec<String> = extract_media_references(fields.as_slice());
    proof {
        assert(refs@.map_values(|x: String| x@) == refs_from_fields(
            fields@.map_values(|f: String| f@),
            0,
        ));
    }
    AnkiCard {
        id: row.id,
        note_id: row.note_id,
        deck_id: row.deck_id,
        fields,
        media_references: refs,
    }
}

/// Every element of a filtered sequence comes from the sequence it was
/// filtered out of.
proof fn lemma_filter_subset<A>(s: Seq<A>, pred: spec_fn(A) -> bool, i: int)
    requires
        0 <= i < s.filter(pred).len(),
    ensures
        s.contains(s.filter(pred)[i]),
    decreases s.len(),
{
    reveal(Seq::filter);
    if s.len() > 0 {
        let sub = s.drop_last().filter(pred);
        if i < sub.len() {
            lemma_filter_subset(s.drop_last(), pred, i);
            assert(s.drop_last().contains(sub[i]));
            let j = choose|j: int| 0 <= j < s.drop_last().len() && s.drop_last()[j] == sub[i];
            assert(s[j] == sub[i]);
        } else {
            assert(s.filter(pred)[i] == s.last());
        }
    }
}

/// No element satisfies the predicate, so the filter is empty.
proof fn lemma_filter_none<A>(s: Seq<A>, pred: spec_fn(A) -> bool)
    requires
        forall|i: int| 0 <= i < s.len() ==> !pred(#[trigger] s[i]),
    ensures
        s.filter(pred) == Seq::<A>::empty(),
    decreases s.len(),
{
    reveal(Seq::filter);
    if s.len() > 0 {
        lemma_filter_none(s.drop_last(), pred);
    }
}

/// Every item's category id appears among the group keys.
pub open spec fn groups_cover(g: Seq<(i64, Vec<AnkiCard>)>, cards: Seq<AnkiCard>) -> bool {
    forall|i: int|
        0 <= i < cards.len() ==> exists|k: int|
            0 <= k < g.len() && (#[trigger] g[k]).0 == (#[trigger] cards[i]).deck_id
}

/// Group items by their category id, keys in first-appearance order,
/// reporting progress at the fixed batch size and once at the end.
pub fn group_cards<P: BatchProgress>(
    cards: Vec<AnkiCard>,
    total: usize,
    progress: &mut P,
) -> (r: Vec<(i64, Vec<AnkiCard>)>)
    ensures
        forall|k1: int, k2: int| 0 <= k1 < k2 < r@.len() ==> (#[trigger] r@[k1]).0 != (
        #[trigger] r@[k2]).0,
        forall|k: int|
            0 <= k < r@.len() ==> (#[trigger] r@[k]).1@ == cards@.filter(
                |c: AnkiCard| c.deck_id == r@[k].0,
            ),
        groups_cover(r@, cards@),
{
    let mut groups: Vec<(i64, Vec<AnkiCard>)> = Vec::new();
    let n: usize = cards.len();
    let mut i: usize = 0;
    let mut rest: Vec<AnkiCard> = cards;
    // Consume the cards front to back, keeping the processed prefix
    // grouped.
    while i < n
        invariant
            0 <= i <= n,
            cards@.len() == n,
            rest@.len() == n - i,
            cards@ == cards@.take(i as int) + rest@,
            forall|k1: int, k2: int|
                0 <= k1 < k2 < groups@.len() ==> (#[trigger] groups@[k1]).0 != (
                #[trigger] groups@[k2]).0,
            forall|k: int|
                0 <= k < groups@.len() ==> (#[trigger] groups@[k]).1@ == cards@.take(
                    i as int,
                ).filter(|c: AnkiCard| c.deck_id == groups@[k].0),
            groups_cover(groups@, cards@.take(i as int)),
        decreases n - i,
    {
        let ghost rest0 = rest@;
        let c: AnkiCard = rest.remove(0);
        proof {
            assert(c == rest0[0]);
            assert(rest0[0] == (cards@.take(i as int) + rest0)[i as int]);
            assert(c == cards@[i as int]);
            assert(rest@ =~= rest0.skip(1));
            assert(cards@.take(i + 1) =~= cards@.take(i as int).push(c));
            assert(cards@ =~= cards@.take(i + 1) + rest@);
        }
        let did: i64 = c.deck_id;
        let mut k: usize = 0;
        let gn: usize = groups.len();
        let mut found: bool = false;
        while k < gn
            invariant_except_break
                !found,
            invariant
                0 <= k <= gn == groups@.len(),
                forall|m: int| 0 <= m < k ==> (#[trigger] groups@[m]).0 != did,
            ensures
                found ==> k < groups@.len() && groups@[k as int].0 == did,
                !found ==> forall|m: int| 0 <= m < groups@.len() ==> (#[trigger] groups@[m]).0
                    != did,
            decreases gn - k,
        {
            if groups[k].0 == did {
                found = true;
                break ;
            }
            k += 1;
        }
        let ghost gprev = groups@;
        if found {
            let entry: (i64, Vec<AnkiCard>) = groups.remove(k);
            let gk: i64 = entry.0;
            let mut gv: Vec<AnkiCard> = entry.1;
            gv.push(c);
            groups.insert(k, (gk, gv));
            proof {
                reveal(Seq::filter);
                assert(groups@ =~= gprev.update(
                    k as int,
                    (gprev[k as int].0, groups@[k as int].1),
                ));
                assert forall|m: int| 0 <= m < groups@.len() implies (#[trigger] groups@[m]).1@
                    == cards@.take(i + 1).filter(|cc: AnkiCard| cc.deck_id == groups@[m].0) by {
                    let pred = |cc: AnkiCard| cc.deck_id == gprev[m].0;
                    assert(cards@.take(i + 1).drop_last() =~= cards@.take(i as int));
                    assert(gprev[m].1@ == cards@.take(i as int).filter(pred));
                    if m == k as int {
                        assert(groups@[m].1@ =~= gprev[m].1@.push(c));
                    } else {
                        assert(groups@[m] == gprev[m]);
                    }
                }
            }
        } else {
            let mut gv: Vec<AnkiCard> = Vec::new();
            gv.push(c);
            groups.push((did, gv));
            proof {
                reveal(Seq::filter);
                assert forall|m: int| 0 <= m < groups@.len() implies (#[trigger] groups@[m]).1@
                    == cards@.take(i + 1).filter(|cc: AnkiCard| cc.deck_id == groups@[m].0) by {
                    let pred = |cc: AnkiCard| cc.deck_id == groups@[m].0;
                    assert(cards@.take(i + 1).drop_last() =~= cards@.take(i as int));
                    if m == groups@.len() - 1 {
                        assert forall|z: int| 0 <= z < cards@.take(i as int).len() implies !pred(
                            #[trigger] cards@.take(i as int)[z],
                        ) by {
                            if pred(cards@.take(i as int)[z]) {
                                assert(exists|kk: int|
                                    0 <= kk < gprev.len() && (#[trigger] gprev[kk]).0 == cards@.take(
                                        i as int,
                                    )[z].deck_id);
                            }
                        }
                        lemma_filter_none(cards@.take(i as int), pred);
                        assert(groups@[m].1@ =~= seq![c]);
                        assert(cards@.take(i + 1).filter(pred) =~= seq![c]);
                    } else {
                        assert(groups@[m] == gprev[m]);
                        assert(gprev[m].1@ == cards@.take(i as int).filter(pred));
                    }
                }
            }
        }
        proof {
            let next = cards@.take(i + 1);
            assert forall|j: int| 0 <= j < next.len() implies exists|k2: int|
                0 <= k2 < groups@.len() && (#[trigger] groups@[k2]).0 == (
                #[trigger] next[j]).deck_id by {
                if j < i {
                    assert(next[j] == cards@.take(i as int)[j]);
                    let k0 = choose|k0: int|
                        0 <= k0 < gprev.len() && (#[trigger] gprev[k0]).0 == (
                        #[trigger] cards@.take(i as int)[j]).deck_id;
                    assert(groups@[k0].0 == gprev[k0].0);
                } else {
                    assert(next[j] == c);
                    if found {
                        assert(groups@[k as int].0 == did);
                    } else {
                        assert(groups@[groups@.len() - 1].0 == did);
                    }
                }
            }
            assert(groups_cover(groups@, next));
        }
        i += 1;
        if i % 1000 == 0 {
            progress.on_batch(i, total);
        }
    }
    progress.on_batch(i, total);
    proof {
        assert(cards@.take(n as int) =~= cards@);
        assert(groups_cover(groups@, cards@));
    }
    groups
}

/// The opened record store.
pub struct AnkiDatabase {
    conn: rusqlite::Connection,
}

impl AnkiDatabase {
    /// Materialize a record store from its raw bytes, read-only.
    pub fn open_from_bytes(data: &[u8]) -> (r: Result<AnkiDatabase, AnkiError>)
        ensures
            r is Err ==> r->Err_0 is DatabaseError,
    {
        match db_open_from_bytes(data) {
            Ok(conn) => Ok(AnkiDatabase { conn }),
            Err(e) => Err(e),
        }
    }

    /// All categories: the modern table when it exists and yields any,
    /// the legacy JSON catalog otherwise; always ordered parents first.
    pub fn parse_decks(&self) -> (r: Result<Vec<AnkiDeck>, AnkiError>)
        ensures
            match r {
                Ok(d) => decks_sorted(d@) && decks_wf(d@),
                Err(e) => e is DatabaseError,
            },
    {
        match self.parse_decks_modern() {
            Ok(d) => {
                if d.len() > 0 {
                    return Ok(d);
                }
            },
            Err(_) => {},
        }
        self.parse_decks_legacy()
    }

    /// Categories under the modern schema: a dedicated table whose name
    /// column may hold text or an encoded binary record.
    fn parse_decks_modern(&self) -> (r: Result<Vec<AnkiDeck>, AnkiError>)
        ensures
            match r {
                Ok(d) => decks_sorted(d@) && decks_wf(d@),
                Err(e) => e is DatabaseError,
            },
    {
        if !db_decks_table_exists(&self.conn) {
            let empty: Vec<AnkiDeck> = Vec::new();
            return Ok(empty);
        }
        let rows: Vec<DeckRow> = match db_query_deck_rows(&self.conn) {
            Ok(rows) => rows,
            Err(e) => {
                return Err(e);
            },
        };
        Ok(decks_from_rows(&rows))
    }

    /// Categories under the legacy schema: a JSON object keyed by id in
    /// the catalog row. A missing row, an empty payload or a malformed
    /// document degrade to no categories rather than an error.
    fn parse_decks_legacy(&self) -> (r: Result<Vec<AnkiDeck>, AnkiError>)
        ensures
            match r {
                Ok(d) => decks_sorted(d@) && decks_wf(d@),
                Err(e) => e is DatabaseError,
            },
    {
        let empty: Vec<AnkiDeck> = Vec::new();
        let json: String = match db_query_decks_json(&self.conn) {
            Some(j) => j,
            None => {
                return Ok(empty);
            },
        };
        let chars: Vec<char> = str_to_chars(json.as_str());
        let trimmed: Vec<char> = crate::html::trim_chars(chars.as_slice());
        if trimmed.len() == 0 {
            return Ok(empty);
        }
        let doc: serde_json::Value = match json_parse(json.as_str()) {
            Some(v) => v,
            None => {
                return Ok(empty);
            },
        };
        let entries: Vec<(String, serde_json::Value)> = match json_object_entries(&doc) {
            Some(e) => e,
            None => {
                return Ok(empty);
            },
        };
        let mut pairs: Vec<(String, Option<String>)> = Vec::new();
        let mut k: usize = 0;
        while k < entries.len()
            decreases entries.len() - k,
        {
            let key: String = entries[k].0.clone();
            let name: Option<String> = json_get_str(&entries[k].1, "name");
            pairs.push((key, name));
            k += 1;
        }
        Ok(legacy_decks_from_pairs(&pairs))
    }

    /// The number of items, for progress sizing.
    pub fn card_count(&self) -> (r: Result<usize, AnkiError>)
        ensures
            r is Err ==> r->Err_0 is DatabaseError,
    {
        match db_query_card_count(&self.conn) {
            Ok(n) => {
                if n as u64 > usize::MAX as u64 {
                    Ok(usize::MAX)
                } else {
                    Ok(n as usize)
                }
            },
            Err(e) => Err(e),
        }
    }

    /// All items joined with their content records, grouped by category
    /// id; the sink hears about every thousandth row and once at the
    /// end.
    pub fn parse_cards<P: BatchProgress>(&self, progress: &mut P) -> (r: Result<
        Vec<(i64, Vec<AnkiCard>)>,
        AnkiError,
    >)
        ensures
            match r {
                Ok(g) => {
                    &&& forall|k1: int, k2: int|
                        0 <= k1 < k2 < g@.len() ==> (#[trigger] g@[k1]).0 != (#[trigger] g@[k2]).0
                    &&& forall|k: int, m: int|
                        0 <= k < g@.len() && 0 <= m < (#[trigger] g@[k]).1@.len() ==> {
                            &&& (#[trigger] g@[k].1@[m]).deck_id == g@[k].0
                            &&& spec_card_wf(g@[k].1@[m])
                        }
                },
                Err(e) => e is DatabaseError,
            },
    {
        let total: usize = match self.card_count() {
            Ok(t) => t,
            Err(e) => {
                return Err(e);
            },
        };
        let rows: Vec<CardRow> = match db_query_card_rows(&self.conn) {
            Ok(rows) => rows,
            Err(e) => {
                return Err(e);
            },
        };
        let mut cards: Vec<AnkiCard> = Vec::new();
        let mut k: usize = 0;
        while k < rows.len()
            invariant
                0 <= k <= rows@.len(),
                cards@.len() == k,
                forall|m: int| 0 <= m < k ==> spec_card_matches(#[trigger] cards@[m], rows@[m]),
            decreases rows.len() - k,
        {
            let card: AnkiCard = card_from_row(&rows[k]);
            cards.push(card);
            k += 1;
        }
        let ghost cards_snap = cards@;
        let groups: Vec<(i64, Vec<AnkiCard>)> = group_cards(cards, total, progress);
        proof {
            broadcast use vstd::seq_lib::group_filter_ensures;

            assert forall|k: int, m: int|
                0 <= k < groups@.len() && 0 <= m < (#[trigger] groups@[k]).1@.len() implies {
                &&& (#[trigger] groups@[k].1@[m]).deck_id == groups@[k].0
                &&& spec_card_wf(groups@[k].1@[m])
            } by {
                let pred = |cc: AnkiCard| cc.deck_id == groups@[k].0;
                assert(groups@[k].1@ == cards_snap.filter(pred));
                assert(pred(cards_snap.filter(pred)[m]));
                lemma_filter_subset(cards_snap, pred, m);
                let j = choose|j: int|
                    0 <= j < cards_snap.len() && cards_snap[j] == cards_snap.filter(pred)[m];
                assert(spec_card_matches(cards_snap[j], rows@[j]));
            }
        }
        Ok(groups)
    }
}

} // verus!
