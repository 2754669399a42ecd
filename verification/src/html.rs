//! Markup normalizer: rewrites sound references and image tags to
//! annotated link placeholders, turns line breaks and block tags into
//! newlines, strips the remaining tags, decodes entities, and tidies
//! whitespace. Every rewriting pass is specified as a left-to-right scan
//! over the character sequence.

use vstd::prelude::*;

use crate::text::push_all;
use crate::text::starts_with_at;
use crate::text::find_char_from;
use crate::text::matches_at;
use crate::text::spec_find_char;
use crate::text::lemma_find_char_props;
use crate::text::is_dec_digit;
use crate::text::is_hex_digit;
use crate::text::all_dec_digits;
use crate::text::all_hex_digits;
use crate::text::dec_val;
use crate::text::hex_val;
use crate::text::spec_replace;
use crate::text::contains_char;

verus! {

/// The opening token of a sound reference.
pub open spec fn sound_open() -> Seq<char> {
    seq!['[', 's', 'o', 'u', 'n', 'd', ':']
}

/// The rewritten form of a sound reference: an annotated audio link that
/// carries the file name both as the label and in a `media:` locator.
pub open spec fn sound_sub(name: Seq<char>) -> Seq<char> {
    seq!['[', '\u{1F50A}', ' '] + name + seq![']', '(', 'm', 'e', 'd', 'i', 'a', ':'] + name
        + seq![')']
}

/// One pass over `s` from index `i`: each `[sound:name]` whose name is
/// non-empty and free of `]` becomes `sound_sub(name)`; everything else is
/// copied unchanged.
pub open spec fn sound_pass_from(s: Seq<char>, i: int) -> Seq<char>
    decreases s.len() - i,
    via sound_pass_dec
{
    if i < 0 || i >= s.len() {
        Seq::empty()
    } else if matches_at(s, sound_open(), i) {
        match spec_find_char(s, ']', i + 7) {
            Some(j) => if j > i + 7 {
                sound_sub(s.subrange(i + 7, j)) + sound_pass_from(s, j + 1)
            } else {
                seq![s[i]] + sound_pass_from(s, i + 1)
            },
            None => seq![s[i]] + sound_pass_from(s, i + 1),
        }
    } else {
        seq![s[i]] + sound_pass_from(s, i + 1)
    }
}

#[via_fn]
proof fn sound_pass_dec(s: Seq<char>, i: int) {
    if 0 <= i && i < s.len() {
        lemma_find_char_props(s, ']', i + 7);
    }
}

/// Rewrite every sound reference in `s`.
pub fn sound_pass(s: &[char]) -> (r: Vec<char>)
    ensures
        r@ == sound_pass_from(s@, 0),
{
    let open_pat: Vec<char> = vec!['[', 's', 'o', 'u', 'n', 'd', ':'];
    proof {
        assert(open_pat@ =~= sound_open());
    }
    let mut out: Vec<char> = Vec::new();
    let mut i: usize = 0;
    while i < s.len()
        invariant
            0 <= i <= s@.len(),
            open_pat@ == sound_open(),
            out@ + sound_pass_from(s@, i as int) == sound_pass_from(s@, 0),
        decreases s.len() - i,
    {
        let ghost prev = out@;
        if starts_with_at(s, open_pat.as_slice(), i) {
            proof {
                lemma_find_char_props(s@, ']', i + 7);
            }
            match find_char_from(s, ']', i + 7) {
                Some(j) => {
                    proof {
                        assert(spec_find_char(s@, ']', i + 7) == Some(j as int));
                    }
                    if j > i + 7 {
                        out.push('[');
                        out.push('\u{1F50A}');
                        out.push(' ');
                        push_all(&mut out, &s[i + 7..j]);
                        let mid: Vec<char> = vec![']', '(', 'm', 'e', 'd', 'i', 'a', ':'];
                        push_all(&mut out, mid.as_slice());
                        push_all(&mut out, &s[i + 7..j]);
                        out.push(')');
                        proof {
                            assert(out@ =~= prev + sound_sub(s@.subrange(i + 7, j as int)));
                            assert(out@ + sound_pass_from(s@, j + 1) =~= prev + sound_pass_from(
                                s@,
                                i as int,
                            ));
                        }
                        i = j + 1;
                    } else {
                        out.push(s[i]);
                        proof {
                            assert(out@ + sound_pass_from(s@, i + 1) =~= prev + sound_pass_from(
                                s@,
                                i as int,
                            ));
                        }
                        i += 1;
                    }
                },
                None => {
                    proof {
                        assert(spec_find_char(s@, ']', i + 7) is None);
                    }
                    out.push(s[i]);
                    proof {
                        assert(out@ + sound_pass_from(s@, i + 1) =~= prev + sound_pass_from(
                            s@,
                            i as int,
                        ));
                    }
                    i += 1;
                },
            }
        } else {
            out.push(s[i]);
            proof {
                assert(out@ + sound_pass_from(s@, i + 1) =~= prev + sound_pass_from(s@, i as int));
            }
            i += 1;
        }
    }
    proof {
        assert(out@ =~= out@ + sound_pass_from(s@, i as int));
    }
    out
}

/// The opening token of an image tag.
pub open spec fn img_open() -> Seq<char> {
    seq!['<', 'i', 'm', 'g']
}

/// The source-attribute token inside an image tag.
pub open spec fn src_eq() -> Seq<char> {
    seq!['s', 'r', 'c', '=']
}

/// Quote characters accepted around an image source.
pub open spec fn is_quote(c: char) -> bool {
    c == '"' || c == '\''
}

/// Characters that terminate an unquoted image source value.
pub open spec fn is_img_stop(c: char) -> bool {
    is_quote(c) || is_space(c) || c == '>'
}

/// Where the captured source value starts after a `src=` at `p`: an
/// opening quote, when present, is skipped.
pub open spec fn img_cap_start(s: Seq<char>, p: int) -> int {
    if p + 4 < s.len() && is_quote(s[p + 4]) {
        p + 5
    } else {
        p + 4
    }
}

/// A `src=` at `p` is followed by a non-empty capturable value inside the
/// region that ends at `e`.
pub open spec fn img_src_ok(s: Seq<char>, e: int, p: int) -> bool {
    &&& matches_at(s, src_eq(), p)
    &&& p + 4 <= e
    &&& img_cap_start(s, p) < e
    &&& !is_img_stop(s[img_cap_start(s, p)])
}

/// The last position in `[lo, p]` holding a usable `src=`, if any. The
/// scan runs backwards because the preceding greedy attribute run claims
/// as much of the tag as possible.
pub open spec fn find_src_back(s: Seq<char>, lo: int, e: int, p: int) -> Option<int>
    decreases p - lo + 1,
{
    if p < lo {
        None
    } else if img_src_ok(s, e, p) {
        Some(p)
    } else {
        find_src_back(s, lo, e, p - 1)
    }
}

/// `find_src_back` yields exactly the last usable `src=`.
pub proof fn lemma_find_src_back(s: Seq<char>, lo: int, e: int, p: int)
    ensures
        match find_src_back(s, lo, e, p) {
            Some(q) => {
                &&& lo <= q <= p
                &&& img_src_ok(s, e, q)
                &&& forall|m: int| q < m <= p ==> !img_src_ok(s, e, m)
            },
            None => forall|m: int| lo <= m <= p ==> !img_src_ok(s, e, m),
        },
    decreases p - lo + 1,
{
    if p >= lo && !img_src_ok(s, e, p) {
        lemma_find_src_back(s, lo, e, p - 1);
    }
}

/// First index at or after `q` holding a stop character (or the length of
/// `s`).
pub open spec fn first_stop(s: Seq<char>, q: int) -> int
    decreases s.len() - q,
{
    if q < 0 {
        0
    } else if q >= s.len() {
        s.len() as int
    } else if is_img_stop(s[q]) {
        q
    } else {
        first_stop(s, q + 1)
    }
}

/// Bounds and content of `first_stop`.
pub proof fn lemma_first_stop(s: Seq<char>, q: int)
    requires
        0 <= q <= s.len(),
    ensures
        q <= first_stop(s, q) <= s.len(),
        forall|k: int| q <= k < first_stop(s, q) ==> !is_img_stop(s[k]),
        first_stop(s, q) < s.len() ==> is_img_stop(s[first_stop(s, q)]),
    decreases s.len() - q,
{
    if q < s.len() && !is_img_stop(s[q]) {
        lemma_first_stop(s, q + 1);
    }
}

/// The rewritten form of an image tag: an annotated image link carrying
/// the source value both as the label and in a `media:` locator.
pub open spec fn img_sub(name: Seq<char>) -> Seq<char> {
    seq!['!', '['] + name + seq![']', '(', 'm', 'e', 'd', 'i', 'a', ':'] + name + seq![')']
}

/// One pass from index `i`: each complete image tag with a usable source
/// value becomes `img_sub(value)`; everything else is copied.
pub open spec fn img_pass_from(s: Seq<char>, i: int) -> Seq<char>
    decreases s.len() - i,
    via img_pass_dec
{
    if i < 0 || i >= s.len() {
        Seq::empty()
    } else if matches_at(s, img_open(), i) {
        match spec_find_char(s, '>', i + 4) {
            Some(e) => match find_src_back(s, i + 5, e, e - 4) {
                Some(p) => {
                    let q = img_cap_start(s, p);
                    img_sub(s.subrange(q, first_stop(s, q))) + img_pass_from(s, e + 1)
                },
                None => seq![s[i]] + img_pass_from(s, i + 1),
            },
            None => seq![s[i]] + img_pass_from(s, i + 1),
        }
    } else {
        seq![s[i]] + img_pass_from(s, i + 1)
    }
}

#[via_fn]
proof fn img_pass_dec(s: Seq<char>, i: int) {
    if 0 <= i && i < s.len() {
        lemma_find_char_props(s, '>', i + 4);
    }
}

/// Exec check of `is_img_stop`.
pub fn is_img_stop_exec(c: char) -> (r: bool)
    ensures
        r == is_img_stop(c),
{
    c == '"' || c == '\'' || is_space_exec(c) || c == '>'
}

/// Exec check of `img_src_ok`.
pub fn img_src_ok_exec(s: &[char], e: usize, p: usize) -> (r: bool)
    requires
        e <= s@.len(),
    ensures
        r == img_src_ok(s@, e as int, p as int),
{
    let src_pat: Vec<char> = vec!['s', 'r', 'c', '='];
    proof {
        assert(src_pat@ =~= src_eq());
    }
    if !starts_with_at(s, src_pat.as_slice(), p) {
        return false;
    }
    let n: usize = s.len();
    proof {
        assert(src_eq().len() == 4);
        assert(p + 4 <= n);
    }
    if p + 4 > e {
        return false;
    }
    let q: usize = if p + 4 < s.len() && (s[p + 4] == '"' || s[p + 4] == '\'') {
        p + 5
    } else {
        p + 4
    };
    q < e && !is_img_stop_exec(s[q])
}

/// Exec form of `find_src_back`.
pub fn find_src_back_exec(s: &[char], lo: usize, e: usize, p: usize) -> (r: Option<usize>)
    requires
        e <= s@.len(),
    ensures
        (r is Some) == (find_src_back(s@, lo as int, e as int, p as int) is Some),
        r is Some ==> r->0 as int == find_src_back(s@, lo as int, e as int, p as int)->0,
{
    let mut cur: usize = p;
    loop
        invariant
            e <= s@.len(),
            cur <= p,
            find_src_back(s@, lo as int, e as int, cur as int) == find_src_back(
                s@,
                lo as int,
                e as int,
                p as int,
            ),
        decreases cur,
    {
        if cur < lo {
            return None;
        }
        if img_src_ok_exec(s, e, cur) {
            return Some(cur);
        }
        if cur == 0 {
            assert(find_src_back(s@, lo as int, e as int, -1) is None);
            return None;
        }
        cur -= 1;
    }
}

/// Exec form of `first_stop`.
pub fn first_stop_exec(s: &[char], q: usize) -> (r: usize)
    requires
        q <= s@.len(),
    ensures
        r as int == first_stop(s@, q as int),
{
    let mut cur: usize = q;
    while cur < s.len() && !is_img_stop_exec(s[cur])
        invariant
            q <= cur <= s@.len(),
            first_stop(s@, cur as int) == first_stop(s@, q as int),
        decreases s.len() - cur,
    {
        cur += 1;
    }
    cur
}

/// Rewrite every image tag with a usable source in `s`.
#[verifier::rlimit(50)]
pub fn img_pass(s: &[char]) -> (r: Vec<char>)
    ensures
        r@ == img_pass_from(s@, 0),
{
    let open_pat: Vec<char> = vec!['<', 'i', 'm', 'g'];
    proof {
        assert(open_pat@ =~= img_open());
    }
    let mut out: Vec<char> = Vec::new();
    let mut i: usize = 0;
    while i < s.len()
        invariant
            0 <= i <= s@.len(),
            open_pat@ == img_open(),
            out@ + img_pass_from(s@, i as int) == img_pass_from(s@, 0),
        decreases s.len() - i,
    {
        let ghost prev = out@;
        let mut step: usize = 0;
        if starts_with_at(s, open_pat.as_slice(), i) {
            proof {
                lemma_find_char_props(s@, '>', i + 4);
            }
            match find_char_from(s, '>', i + 4) {
                Some(e) => {
                    proof {
                        assert(spec_find_char(s@, '>', i + 4) == Some(e as int));
                    }
                    if e - i >= 9 {
                        match find_src_back_exec(s, i + 5, e, e - 4) {
                            Some(p) => {
                                proof {
                                    lemma_find_src_back(s@, i + 5, e as int, e - 4);
                                }
                                let q: usize = if p + 4 < s.len() && (s[p + 4] == '"' || s[p + 4]
                                    == '\'') {
                                    p + 5
                                } else {
                                    p + 4
                                };
                                proof {
                                    assert(q as int == img_cap_start(s@, p as int));
                                    lemma_first_stop(s@, q as int);
                                }
                                let ce: usize = first_stop_exec(s, q);
                                out.push('!');
                                out.push('[');
                                push_all(&mut out, &s[q..ce]);
                                let mid: Vec<char> = vec![']', '(', 'm', 'e', 'd', 'i', 'a', ':'];
                                push_all(&mut out, mid.as_slice());
                                push_all(&mut out, &s[q..ce]);
                                out.push(')');
                                proof {
                                    assert(out@ =~= prev + img_sub(
                                        s@.subrange(q as int, ce as int),
                                    ));
                                    assert(out@ + img_pass_from(s@, e + 1) =~= prev
                                        + img_pass_from(s@, i as int));
                                }
                                step = e + 1 - i;
                            },
                            None => {},
                        }
                    } else {
                        proof {
                            assert(find_src_back(s@, i + 5, e as int, e - 4) is None);
                        }
                    }
                },
                None => {
                    proof {
                        assert(spec_find_char(s@, '>', i + 4) is None);
                    }
                },
            }
        }
        if step == 0 {
            out.push(s[i]);
            proof {
                assert(out@ + img_pass_from(s@, i + 1) =~= prev + img_pass_from(s@, i as int));
            }
            i += 1;
        } else {
            proof {
                assert(out@ + img_pass_from(s@, i + step) =~= prev + img_pass_from(s@, i as int));
            }
            i += step;
        }
    }
    proof {
        assert(out@ =~= out@ + img_pass_from(s@, i as int));
    }
    out
}

/// Unicode whitespace, the set both `char::is_whitespace` and the
/// whitespace class of the reference patterns recognize.
pub open spec fn is_space(c: char) -> bool {
    c == '\u{09}' || c == '\u{0A}' || c == '\u{0B}' || c == '\u{0C}' || c == '\u{0D}' || c == ' '
        || c == '\u{85}' || c == '\u{A0}' || c == '\u{1680}' || ('\u{2000}' <= c && c
        <= '\u{200A}') || c == '\u{2028}' || c == '\u{2029}' || c == '\u{202F}' || c == '\u{205F}'
        || c == '\u{3000}'
}

/// Exec check of `is_space`.
pub fn is_space_exec(c: char) -> (r: bool)
    ensures
        r == is_space(c),
{
    c == '\u{09}' || c == '\u{0A}' || c == '\u{0B}' || c == '\u{0C}' || c == '\u{0D}' || c == ' '
        || c == '\u{85}' || c == '\u{A0}' || c == '\u{1680}' || (c >= '\u{2000}' && c
        <= '\u{200A}') || c == '\u{2028}' || c == '\u{2029}' || c == '\u{202F}' || c == '\u{205F}'
        || c == '\u{3000}'
}

/// First index at or after `from` that does not hold whitespace (or the
/// length of `s`).
pub open spec fn skip_spaces(s: Seq<char>, from: int) -> int
    decreases s.len() - from,
{
    if from < 0 {
        0
    } else if from >= s.len() {
        s.len() as int
    } else if is_space(s[from]) {
        skip_spaces(s, from + 1)
    } else {
        from
    }
}

/// Bounds and content of `skip_spaces`.
pub proof fn lemma_skip_spaces(s: Seq<char>, from: int)
    requires
        0 <= from <= s.len(),
    ensures
        from <= skip_spaces(s, from) <= s.len(),
        forall|k: int| from <= k < skip_spaces(s, from) ==> is_space(s[k]),
        skip_spaces(s, from) < s.len() ==> !is_space(s[skip_spaces(s, from)]),
    decreases s.len() - from,
{
    if from < s.len() && is_space(s[from]) {
        lemma_skip_spaces(s, from + 1);
    }
}

/// The opening token of a line-break tag.
pub open spec fn br_open() -> Seq<char> {
    seq!['<', 'b', 'r']
}

/// One pass from index `i`: `<br>` and `<br/>` (with optional whitespace
/// before the slash) become a newline; everything else is copied.
pub open spec fn br_pass_from(s: Seq<char>, i: int) -> Seq<char>
    decreases s.len() - i,
    via br_pass_dec
{
    if i < 0 || i >= s.len() {
        Seq::empty()
    } else if matches_at(s, br_open(), i) {
        let k = skip_spaces(s, i + 3);
        if k < s.len() && s[k] == '>' {
            seq!['\n'] + br_pass_from(s, k + 1)
        } else if k + 1 < s.len() && s[k] == '/' && s[k + 1] == '>' {
            seq!['\n'] + br_pass_from(s, k + 2)
        } else {
            seq![s[i]] + br_pass_from(s, i + 1)
        }
    } else {
        seq![s[i]] + br_pass_from(s, i + 1)
    }
}

#[via_fn]
proof fn br_pass_dec(s: Seq<char>, i: int) {
    if 0 <= i && i < s.len() && matches_at(s, br_open(), i) {
        lemma_skip_spaces(s, i + 3);
    }
}

/// Rewrite every line-break tag in `s` to a newline.
pub fn br_pass(s: &[char]) -> (r: Vec<char>)
    ensures
        r@ == br_pass_from(s@, 0),
{
    let open_pat: Vec<char> = vec!['<', 'b', 'r'];
    proof {
        assert(open_pat@ =~= br_open());
    }
    let mut out: Vec<char> = Vec::new();
    let mut i: usize = 0;
    while i < s.len()
        invariant
            0 <= i <= s@.len(),
            open_pat@ == br_open(),
            out@ + br_pass_from(s@, i as int) == br_pass_from(s@, 0),
        decreases s.len() - i,
    {
        let ghost prev = out@;
        let mut step: usize = 0;
        if starts_with_at(s, open_pat.as_slice(), i) {
            proof {
                lemma_skip_spaces(s@, i + 3);
            }
            let mut k: usize = i + 3;
            while k < s.len() && is_space_exec(s[k])
                invariant
                    i + 3 <= k <= s@.len(),
                    forall|m: int| i + 3 <= m < k ==> is_space(s@[m]),
                    skip_spaces(s@, i + 3) == skip_spaces(s@, k as int),
                decreases s.len() - k,
            {
                k += 1;
            }
            proof {
                assert(skip_spaces(s@, i + 3) == k as int);
            }
            if k < s.len() && s[k] == '>' {
                out.push('\n');
                step = k + 1 - i;
            } else if k < s.len() && s[k] == '/' && k + 1 < s.len() && s[k + 1] == '>' {
                out.push('\n');
                step = k + 2 - i;
            }
        }
        if step == 0 {
            out.push(s[i]);
            proof {
                assert(out@ + br_pass_from(s@, i + 1) =~= prev + br_pass_from(s@, i as int));
            }
            i += 1;
        } else {
            proof {
                assert(out@ + br_pass_from(s@, i + step) =~= prev + br_pass_from(s@, i as int));
            }
            i += step;
        }
    }
    proof {
        assert(out@ =~= out@ + br_pass_from(s@, i as int));
    }
    out
}

/// One pass from index `i`: every occurrence of `tag` followed (after any
/// run of non-`>` characters) by `>` is removed outright; everything else
/// is copied.
pub open spec fn open_tag_pass_from(s: Seq<char>, tag: Seq<char>, i: int) -> Seq<char>
    decreases s.len() - i,
    via open_tag_pass_dec
{
    if i < 0 || i >= s.len() {
        Seq::empty()
    } else if matches_at(s, tag, i) {
        match spec_find_char(s, '>', i + tag.len() as int) {
            Some(e) => open_tag_pass_from(s, tag, e + 1),
            None => seq![s[i]] + open_tag_pass_from(s, tag, i + 1),
        }
    } else {
        seq![s[i]] + open_tag_pass_from(s, tag, i + 1)
    }
}

#[via_fn]
proof fn open_tag_pass_dec(s: Seq<char>, tag: Seq<char>, i: int) {
    if 0 <= i && i < s.len() {
        lemma_find_char_props(s, '>', i + tag.len() as int);
    }
}

/// Remove every tag opened by `tag` (for example `<div` or `<p`).
pub fn open_tag_pass(s: &[char], tag: &[char]) -> (r: Vec<char>)
    requires
        tag@.len() > 0,
    ensures
        r@ == open_tag_pass_from(s@, tag@, 0),
{
    let mut out: Vec<char> = Vec::new();
    let mut i: usize = 0;
    while i < s.len()
        invariant
            0 <= i <= s@.len(),
            out@ + open_tag_pass_from(s@, tag@, i as int) == open_tag_pass_from(s@, tag@, 0),
        decreases s.len() - i,
    {
        let ghost prev = out@;
        let mut step: usize = 0;
        if starts_with_at(s, tag, i) {
            proof {
                lemma_find_char_props(s@, '>', i + tag@.len() as int);
            }
            match find_char_from(s, '>', i + tag.len()) {
                Some(e) => {
                    proof {
                        assert(spec_find_char(s@, '>', i + tag@.len() as int) == Some(e as int));
                        assert(out@ + open_tag_pass_from(s@, tag@, e + 1) =~= prev
                            + open_tag_pass_from(s@, tag@, i as int));
                    }
                    step = e + 1 - i;
                },
                None => {
                    proof {
                        assert(spec_find_char(s@, '>', i + tag@.len() as int) is None);
                    }
                },
            }
        }
        if step == 0 {
            out.push(s[i]);
            proof {
                assert(out@ + open_tag_pass_from(s@, tag@, i + 1) =~= prev + open_tag_pass_from(
                    s@,
                    tag@,
                    i as int,
                ));
            }
            i += 1;
        } else {
            i += step;
        }
    }
    proof {
        assert(out@ =~= out@ + open_tag_pass_from(s@, tag@, i as int));
    }
    out
}

/// Index of the first name in `names` (from position `k` of the list)
/// that occurs in `s` at `pos`.
pub open spec fn name_match(s: Seq<char>, names: Seq<Seq<char>>, pos: int, k: int) -> Option<int>
    decreases names.len() - k,
{
    if k < 0 || k >= names.len() {
        None
    } else if matches_at(s, names[k], pos) {
        Some(k)
    } else {
        name_match(s, names, pos, k + 1)
    }
}

/// One pass from index `i`: every tag `<name...>` or `</name...>` whose
/// name is listed in `names` is removed without inserting anything;
/// everything else is copied.
pub open spec fn strip_tags_from(s: Seq<char>, names: Seq<Seq<char>>, i: int) -> Seq<char>
    decreases s.len() - i,
    via strip_tags_dec
{
    if i < 0 || i >= s.len() {
        Seq::empty()
    } else if s[i] == '<' {
        let pos = if i + 1 < s.len() && s[i + 1] == '/' {
            i + 2
        } else {
            i + 1
        };
        match name_match(s, names, pos, 0) {
            Some(k) => match spec_find_char(s, '>', pos + names[k].len() as int) {
                Some(e) => strip_tags_from(s, names, e + 1),
                None => seq![s[i]] + strip_tags_from(s, names, i + 1),
            },
            None => seq![s[i]] + strip_tags_from(s, names, i + 1),
        }
    } else {
        seq![s[i]] + strip_tags_from(s, names, i + 1)
    }
}

#[via_fn]
proof fn strip_tags_dec(s: Seq<char>, names: Seq<Seq<char>>, i: int) {
    if 0 <= i && i < s.len() && s[i] == '<' {
        let pos = if i + 1 < s.len() && s[i + 1] == '/' {
            i + 2
        } else {
            i + 1
        };
        match name_match(s, names, pos, 0) {
            Some(k) => {
                lemma_find_char_props(s, '>', pos + names[k].len() as int);
            },
            None => {},
        }
    }
}

/// A found name really does occur at `pos`.
proof fn lemma_name_match(s: Seq<char>, names: Seq<Seq<char>>, pos: int, k: int)
    requires
        0 <= k,
    ensures
        match name_match(s, names, pos, k) {
            Some(j) => k <= j < names.len() && matches_at(s, names[j], pos),
            None => true,
        },
    decreases names.len() - k,
{
    if k < names.len() && !matches_at(s, names[k], pos) {
        lemma_name_match(s, names, pos, k + 1);
    }
}

/// Exec form of `name_match`.
fn name_match_exec(s: &[char], names: &Vec<Vec<char>>, pos: usize) -> (r: Option<usize>)
    ensures
        (r is Some) == (name_match(s@, names.deep_view(), pos as int, 0) is Some),
        r is Some ==> {
            &&& r->0 < names@.len()
            &&& r->0 as int == name_match(s@, names.deep_view(), pos as int, 0)->0
        },
{
    let mut k: usize = 0;
    while k < names.len()
        invariant
            0 <= k <= names@.len(),
            name_match(s@, names.deep_view(), pos as int, k as int) == name_match(
                s@,
                names.deep_view(),
                pos as int,
                0,
            ),
        decreases names.len() - k,
    {
        proof {
            assert(names.deep_view()[k as int] == names@[k as int]@);
        }
        if starts_with_at(s, names[k].as_slice(), pos) {
            return Some(k);
        }
        k += 1;
    }
    None
}

/// Remove every tag (with optional leading slash) whose name is listed in
/// `names`.
pub fn strip_tags(s: &[char], names: &Vec<Vec<char>>) -> (r: Vec<char>)
    ensures
        r@ == strip_tags_from(s@, names.deep_view(), 0),
{
    let mut out: Vec<char> = Vec::new();
    let mut i: usize = 0;
    while i < s.len()
        invariant
            0 <= i <= s@.len(),
            out@ + strip_tags_from(s@, names.deep_view(), i as int) == strip_tags_from(
                s@,
                names.deep_view(),
                0,
            ),
        decreases s.len() - i,
    {
        let ghost prev = out@;
        let mut step: usize = 0;
        if s[i] == '<' {
            let pos: usize = if i + 1 < s.len() && s[i + 1] == '/' {
                i + 2
            } else {
                i + 1
            };
            match name_match_exec(s, names, pos) {
                Some(k) => {
                    let n: usize = s.len();
                    proof {
                        lemma_name_match(s@, names.deep_view(), pos as int, 0);
                        lemma_find_char_props(s@, '>', pos + names.deep_view()[k as int].len() as int);
                        assert(names.deep_view()[k as int] == names@[k as int]@);
                        assert(pos + names@[k as int]@.len() <= n);
                    }
                    match find_char_from(s, '>', pos + names[k].len()) {
                        Some(e) => {
                            proof {
                                assert(spec_find_char(
                                    s@,
                                    '>',
                                    pos + names.deep_view()[k as int].len() as int,
                                ) == Some(e as int));
                                assert(out@ + strip_tags_from(s@, names.deep_view(), e + 1) =~= prev
                                    + strip_tags_from(s@, names.deep_view(), i as int));
                            }
                            step = e + 1 - i;
                        },
                        None => {
                            proof {
                                assert(spec_find_char(
                                    s@,
                                    '>',
                                    pos + names.deep_view()[k as int].len() as int,
                                ) is None);
                            }
                        },
                    }
                },
                None => {},
            }
        }
        if step == 0 {
            out.push(s[i]);
            proof {
                assert(out@ + strip_tags_from(s@, names.deep_view(), i + 1) =~= prev
                    + strip_tags_from(s@, names.deep_view(), i as int));
            }
            i += 1;
        } else {
            i += step;
        }
    }
    proof {
        assert(out@ =~= out@ + strip_tags_from(s@, names.deep_view(), i as int));
    }
    out
}

/// One pass from index `i`: every `<...>` with at least one character
/// between the brackets is removed; everything else is copied.
pub open spec fn tags_pass_from(s: Seq<char>, i: int) -> Seq<char>
    decreases s.len() - i,
    via tags_pass_dec
{
    if i < 0 || i >= s.len() {
        Seq::empty()
    } else if s[i] == '<' {
        match spec_find_char(s, '>', i + 1) {
            Some(e) => if e > i + 1 {
                tags_pass_from(s, e + 1)
            } else {
                seq![s[i]] + tags_pass_from(s, i + 1)
            },
            None => seq![s[i]] + tags_pass_from(s, i + 1),
        }
    } else {
        seq![s[i]] + tags_pass_from(s, i + 1)
    }
}

#[via_fn]
proof fn tags_pass_dec(s: Seq<char>, i: int) {
    if 0 <= i && i < s.len() {
        lemma_find_char_props(s, '>', i + 1);
    }
}

/// Remove every remaining non-empty tag.
pub fn tags_pass(s: &[char]) -> (r: Vec<char>)
    ensures
        r@ == tags_pass_from(s@, 0),
{
    let mut out: Vec<char> = Vec::new();
    let mut i: usize = 0;
    while i < s.len()
        invariant
            0 <= i <= s@.len(),
            out@ + tags_pass_from(s@, i as int) == tags_pass_from(s@, 0),
        decreases s.len() - i,
    {
        let ghost prev = out@;
        let mut step: usize = 0;
        if s[i] == '<' {
            proof {
                lemma_find_char_props(s@, '>', i + 1);
            }
            match find_char_from(s, '>', i + 1) {
                Some(e) => {
                    proof {
                        assert(spec_find_char(s@, '>', i + 1) == Some(e as int));
                    }
                    if e > i + 1 {
                        proof {
                            assert(out@ + tags_pass_from(s@, e + 1) =~= prev + tags_pass_from(
                                s@,
                                i as int,
                            ));
                        }
                        step = e + 1 - i;
                    }
                },
                None => {
                    proof {
                        assert(spec_find_char(s@, '>', i + 1) is None);
                    }
                },
            }
        }
        if step == 0 {
            out.push(s[i]);
            proof {
                assert(out@ + tags_pass_from(s@, i + 1) =~= prev + tags_pass_from(s@, i as int));
            }
            i += 1;
        } else {
            i += step;
        }
    }
    proof {
        assert(out@ =~= out@ + tags_pass_from(s@, i as int));
    }
    out
}

/// The fixed table of named entities, substituted in this order; an
/// earlier substitution can expose a later entity (so `&amp;lt;` becomes
/// `<` after both passes), exactly as sequential text replacement gives.
pub open spec fn entity_pairs() -> Seq<(Seq<char>, Seq<char>)> {
    seq![
        (seq!['&', 'n', 'b', 's', 'p', ';'], seq![' ']),
        (seq!['&', 'a', 'm', 'p', ';'], seq!['&']),
        (seq!['&', 'l', 't', ';'], seq!['<']),
        (seq!['&', 'g', 't', ';'], seq!['>']),
        (seq!['&', 'q', 'u', 'o', 't', ';'], seq!['"']),
        (seq!['&', 'a', 'p', 'o', 's', ';'], seq!['\'']),
        (seq!['&', '#', '3', '9', ';'], seq!['\'']),
        (seq!['&', 'm', 'd', 'a', 's', 'h', ';'], seq!['\u{2014}']),
        (seq!['&', 'n', 'd', 'a', 's', 'h', ';'], seq!['\u{2013}']),
        (seq!['&', 'h', 'e', 'l', 'l', 'i', 'p', ';'], seq!['\u{2026}']),
        (seq!['&', 'c', 'o', 'p', 'y', ';'], seq!['\u{A9}']),
        (seq!['&', 'r', 'e', 'g', ';'], seq!['\u{AE}']),
        (seq!['&', 't', 'r', 'a', 'd', 'e', ';'], seq!['\u{2122}']),
        (seq!['&', 'l', 'a', 'q', 'u', 'o', ';'], seq!['\u{AB}']),
        (seq!['&', 'r', 'a', 'q', 'u', 'o', ';'], seq!['\u{BB}']),
        (seq!['&', 'b', 'u', 'l', 'l', ';'], seq!['\u{2022}']),
        (seq!['&', 'm', 'i', 'd', 'd', 'o', 't', ';'], seq!['\u{B7}']),
        (seq!['&', 't', 'i', 'm', 'e', 's', ';'], seq!['\u{D7}']),
        (seq!['&', 'd', 'i', 'v', 'i', 'd', 'e', ';'], seq!['\u{F7}']),
        (seq!['&', 'p', 'l', 'u', 's', 'm', 'n', ';'], seq!['\u{B1}']),
        (seq!['&', 'd', 'e', 'g', ';'], seq!['\u{B0}']),
        (seq!['&', 'p', 'r', 'i', 'm', 'e', ';'], seq!['\u{2032}']),
        (seq!['&', 'P', 'r', 'i', 'm', 'e', ';'], seq!['\u{2033}']),
    ]
}

/// `s` after the named-entity substitutions from table position `k` on.
pub open spec fn entities_from(s: Seq<char>, k: int) -> Seq<char>
    decreases entity_pairs().len() - k,
{
    if k < 0 || k >= entity_pairs().len() {
        s
    } else {
        entities_from(spec_replace(s, entity_pairs()[k].0, entity_pairs()[k].1), k + 1)
    }
}

/// The `k`-th entry of the entity table, as exec values.
fn entity_pair(k: usize) -> (r: (Vec<char>, Vec<char>))
    requires
        k < 23,
    ensures
        r.0@ == entity_pairs()[k as int].0,
        r.1@ == entity_pairs()[k as int].1,
        r.0@.len() > 0,
{
    let r: (Vec<char>, Vec<char>) = match k {
        0 => (vec!['&', 'n', 'b', 's', 'p', ';'], vec![' ']),
        1 => (vec!['&', 'a', 'm', 'p', ';'], vec!['&']),
        2 => (vec!['&', 'l', 't', ';'], vec!['<']),
        3 => (vec!['&', 'g', 't', ';'], vec!['>']),
        4 => (vec!['&', 'q', 'u', 'o', 't', ';'], vec!['"']),
        5 => (vec!['&', 'a', 'p', 'o', 's', ';'], vec!['\'']),
        6 => (vec!['&', '#', '3', '9', ';'], vec!['\'']),
        7 => (vec!['&', 'm', 'd', 'a', 's', 'h', ';'], vec!['\u{2014}']),
        8 => (vec!['&', 'n', 'd', 'a', 's', 'h', ';'], vec!['\u{2013}']),
        9 => (vec!['&', 'h', 'e', 'l', 'l', 'i', 'p', ';'], vec!['\u{2026}']),
        10 => (vec!['&', 'c', 'o', 'p', 'y', ';'], vec!['\u{A9}']),
        11 => (vec!['&', 'r', 'e', 'g', ';'], vec!['\u{AE}']),
        12 => (vec!['&', 't', 'r', 'a', 'd', 'e', ';'], vec!['\u{2122}']),
        13 => (vec!['&', 'l', 'a', 'q', 'u', 'o', ';'], vec!['\u{AB}']),
        14 => (vec!['&', 'r', 'a', 'q', 'u', 'o', ';'], vec!['\u{BB}']),
        15 => (vec!['&', 'b', 'u', 'l', 'l', ';'], vec!['\u{2022}']),
        16 => (vec!['&', 'm', 'i', 'd', 'd', 'o', 't', ';'], vec!['\u{B7}']),
        17 => (vec!['&', 't', 'i', 'm', 'e', 's', ';'], vec!['\u{D7}']),
        18 => (vec!['&', 'd', 'i', 'v', 'i', 'd', 'e', ';'], vec!['\u{F7}']),
        19 => (vec!['&', 'p', 'l', 'u', 's', 'm', 'n', ';'], vec!['\u{B1}']),
        20 => (vec!['&', 'd', 'e', 'g', ';'], vec!['\u{B0}']),
        21 => (vec!['&', 'p', 'r', 'i', 'm', 'e', ';'], vec!['\u{2032}']),
        _ => (vec!['&', 'P', 'r', 'i', 'm', 'e', ';'], vec!['\u{2033}']),
    };
    proof {
        assert(r.0@ =~= entity_pairs()[k as int].0);
        assert(r.1@ =~= entity_pairs()[k as int].1);
    }
    r
}

/// Substitute the whole named-entity table, in order.
pub fn entity_pass(s: &[char]) -> (r: Vec<char>)
    ensures
        r@ == entities_from(s@, 0),
{
    let mut cur: Vec<char> = vstd::slice::slice_to_vec(s);
    let mut k: usize = 0;
    while k < 23
        invariant
            0 <= k <= 23,
            entity_pairs().len() == 23,
            entities_from(cur@, k as int) == entities_from(s@, 0),
        decreases 23 - k,
    {
        let pair: (Vec<char>, Vec<char>) = entity_pair(k);
        let next: Vec<char> = crate::text::replace_all(
            cur.as_slice(),
            pair.0.as_slice(),
            pair.1.as_slice(),
        );
        proof {
            assert(entities_from(cur@, k as int) == entities_from(next@, k + 1));
        }
        cur = next;
        k += 1;
    }
    cur
}

/// First index at or after `i` that is not a decimal digit.
pub open spec fn dec_run_end(s: Seq<char>, i: int) -> int
    decreases s.len() - i,
{
    if i < 0 {
        0
    } else if i >= s.len() {
        s.len() as int
    } else if is_dec_digit(s[i]) {
        dec_run_end(s, i + 1)
    } else {
        i
    }
}

/// Bounds and content of `dec_run_end`.
pub proof fn lemma_dec_run_end(s: Seq<char>, i: int)
    requires
        0 <= i <= s.len(),
    ensures
        i <= dec_run_end(s, i) <= s.len(),
        forall|k: int| i <= k < dec_run_end(s, i) ==> is_dec_digit(s[k]),
        dec_run_end(s, i) < s.len() ==> !is_dec_digit(s[dec_run_end(s, i)]),
    decreases s.len() - i,
{
    if i < s.len() && is_dec_digit(s[i]) {
        lemma_dec_run_end(s, i + 1);
    }
}

/// First index at or after `i` that is not a hexadecimal digit.
pub open spec fn hex_run_end(s: Seq<char>, i: int) -> int
    decreases s.len() - i,
{
    if i < 0 {
        0
    } else if i >= s.len() {
        s.len() as int
    } else if is_hex_digit(s[i]) {
        hex_run_end(s, i + 1)
    } else {
        i
    }
}

/// Bounds and content of `hex_run_end`.
pub proof fn lemma_hex_run_end(s: Seq<char>, i: int)
    requires
        0 <= i <= s.len(),
    ensures
        i <= hex_run_end(s, i) <= s.len(),
        forall|k: int| i <= k < hex_run_end(s, i) ==> is_hex_digit(s[k]),
        hex_run_end(s, i) < s.len() ==> !is_hex_digit(s[hex_run_end(s, i)]),
    decreases s.len() - i,
{
    if i < s.len() && is_hex_digit(s[i]) {
        lemma_hex_run_end(s, i + 1);
    }
}

/// `code` is a Unicode scalar value.
pub open spec fn scalar_ok(code: int) -> bool {
    (0 <= code && code < 0xD800) || (0xE000 <= code && code <= 0x10FFFF)
}

/// The character with code point `code`.
pub open spec fn scalar_char(code: int) -> char {
    (code as u32) as char
}

/// What a numeric character reference with value `code` decodes to: the
/// code point when it is a scalar value, nothing otherwise.
pub open spec fn code_sub(code: int) -> Seq<char> {
    if scalar_ok(code) {
        seq![scalar_char(code)]
    } else {
        Seq::empty()
    }
}

/// One pass from index `i`: each `&#NNN;` decimal reference is decoded;
/// a value too large for 32 bits decodes as value zero, as a failed
/// numeric parse falls back to zero.
pub open spec fn dec_ref_pass_from(s: Seq<char>, i: int) -> Seq<char>
    decreases s.len() - i,
    via dec_ref_pass_dec
{
    if i < 0 || i >= s.len() {
        Seq::empty()
    } else if s[i] == '&' && i + 1 < s.len() && s[i + 1] == '#' {
        let d = dec_run_end(s, i + 2);
        if d > i + 2 && d < s.len() && s[d] == ';' {
            let v = dec_val(s.subrange(i + 2, d));
            code_sub(if v <= u32::MAX { v } else { 0 }) + dec_ref_pass_from(s, d + 1)
        } else {
            seq![s[i]] + dec_ref_pass_from(s, i + 1)
        }
    } else {
        seq![s[i]] + dec_ref_pass_from(s, i + 1)
    }
}

#[via_fn]
proof fn dec_ref_pass_dec(s: Seq<char>, i: int) {
    if 0 <= i && i < s.len() && s[i] == '&' && i + 1 < s.len() && s[i + 1] == '#' {
        lemma_dec_run_end(s, i + 2);
    }
}

/// One pass from index `i`: each `&#xHHH;` hexadecimal reference is
/// decoded, with the same fallbacks as the decimal form.
pub open spec fn hex_ref_pass_from(s: Seq<char>, i: int) -> Seq<char>
    decreases s.len() - i,
    via hex_ref_pass_dec
{
    if i < 0 || i >= s.len() {
        Seq::empty()
    } else if s[i] == '&' && i + 2 < s.len() && s[i + 1] == '#' && (s[i + 2] == 'x' || s[i + 2]
        == 'X') {
        let h = hex_run_end(s, i + 3);
        if h > i + 3 && h < s.len() && s[h] == ';' {
            let v = hex_val(s.subrange(i + 3, h));
            code_sub(if v <= u32::MAX { v } else { 0 }) + hex_ref_pass_from(s, h + 1)
        } else {
            seq![s[i]] + hex_ref_pass_from(s, i + 1)
        }
    } else {
        seq![s[i]] + hex_ref_pass_from(s, i + 1)
    }
}

#[via_fn]
proof fn hex_ref_pass_dec(s: Seq<char>, i: int) {
    if 0 <= i && i < s.len() && s[i] == '&' && i + 2 < s.len() && s[i + 1] == '#' && (s[i + 2]
        == 'x' || s[i + 2] == 'X') {
        lemma_hex_run_end(s, i + 3);
    }
}

/// Decode every decimal numeric character reference.
pub fn dec_ref_pass(s: &[char]) -> (r: Vec<char>)
    ensures
        r@ == dec_ref_pass_from(s@, 0),
{
    let mut out: Vec<char> = Vec::new();
    let mut i: usize = 0;
    while i < s.len()
        invariant
            0 <= i <= s@.len(),
            out@ + dec_ref_pass_from(s@, i as int) == dec_ref_pass_from(s@, 0),
        decreases s.len() - i,
    {
        let ghost prev = out@;
        let mut step: usize = 0;
        if s[i] == '&' && i + 1 < s.len() && s[i + 1] == '#' {
            proof {
                lemma_dec_run_end(s@, i + 2);
            }
            let mut d: usize = i + 2;
            while d < s.len() && s[d] >= '0' && s[d] <= '9'
                invariant
                    i + 2 <= d <= s@.len(),
                    dec_run_end(s@, d as int) == dec_run_end(s@, i + 2),
                decreases s.len() - d,
            {
                d += 1;
            }
            proof {
                assert(dec_run_end(s@, i + 2) == d as int);
            }
            if d > i + 2 && d < s.len() && s[d] == ';' {
                let digits: &[char] = &s[i + 2..d];
                proof {
                    lemma_dec_run_end(s@, i + 2);
                    assert(digits@ =~= s@.subrange(i + 2, d as int));
                    assert(all_dec_digits(digits@));
                }
                let code: u32 = match crate::text::parse_u64_dec(digits) {
                    Some(v) => if v <= 0xFFFF_FFFFu64 {
                        v as u32
                    } else {
                        0
                    },
                    None => 0,
                };
                let ghost v = dec_val(s@.subrange(i + 2, d as int));
                proof {
                    assert(code as int == if v <= u32::MAX { v } else { 0int });
                }
                match crate::text::char_from_u32(code) {
                    Some(c) => {
                        proof {
                            crate::text::lemma_char_cast_roundtrip(c, code);
                            assert((code as int) as u32 == code);
                            assert(c == scalar_char(code as int));
                        }
                        out.push(c);
                    },
                    None => {},
                }
                proof {
                    assert(out@ =~= prev + code_sub(if v <= u32::MAX { v } else { 0int }));
                    assert(out@ + dec_ref_pass_from(s@, d + 1) =~= prev + dec_ref_pass_from(
                        s@,
                        i as int,
                    ));
                }
                step = d + 1 - i;
            }
        }
        if step == 0 {
            out.push(s[i]);
            proof {
                assert(out@ + dec_ref_pass_from(s@, i + 1) =~= prev + dec_ref_pass_from(
                    s@,
                    i as int,
                ));
            }
            i += 1;
        } else {
            i += step;
        }
    }
    proof {
        assert(out@ =~= out@ + dec_ref_pass_from(s@, i as int));
    }
    out
}

/// Decode every hexadecimal numeric character reference.
pub fn hex_ref_pass(s: &[char]) -> (r: Vec<char>)
    ensures
        r@ == hex_ref_pass_from(s@, 0),
{
    let mut out: Vec<char> = Vec::new();
    let mut i: usize = 0;
    while i < s.len()
        invariant
            0 <= i <= s@.len(),
            out@ + hex_ref_pass_from(s@, i as int) == hex_ref_pass_from(s@, 0),
        decreases s.len() - i,
    {
        let ghost prev = out@;
        let mut step: usize = 0;
        if s[i] == '&' && s.len() - i > 2 && s[i + 1] == '#' && (s[i + 2] == 'x' || s[i + 2]
            == 'X') {
            proof {
                lemma_hex_run_end(s@, i + 3);
            }
            let mut h: usize = i + 3;
            while h < s.len() && (s[h] >= '0' && s[h] <= '9' || s[h] >= 'a' && s[h] <= 'f' || s[h]
                >= 'A' && s[h] <= 'F')
                invariant
                    i + 3 <= h <= s@.len(),
                    hex_run_end(s@, h as int) == hex_run_end(s@, i + 3),
                decreases s.len() - h,
            {
                h += 1;
            }
            proof {
                assert(hex_run_end(s@, i + 3) == h as int);
            }
            if h > i + 3 && h < s.len() && s[h] == ';' {
                let digits: &[char] = &s[i + 3..h];
                proof {
                    lemma_hex_run_end(s@, i + 3);
                    assert(digits@ =~= s@.subrange(i + 3, h as int));
                    assert(all_hex_digits(digits@));
                }
                let code: u32 = match crate::text::parse_u32_hex(digits) {
                    Some(v) => v,
                    None => 0,
                };
                let ghost v = hex_val(s@.subrange(i + 3, h as int));
                proof {
                    assert(code as int == if v <= u32::MAX { v } else { 0int });
                }
                match crate::text::char_from_u32(code) {
                    Some(c) => {
                        proof {
                            crate::text::lemma_char_cast_roundtrip(c, code);
                            assert((code as int) as u32 == code);
                            assert(c == scalar_char(code as int));
                        }
                        out.push(c);
                    },
                    None => {},
                }
                proof {
                    assert(out@ =~= prev + code_sub(if v <= u32::MAX { v } else { 0int }));
                    assert(out@ + hex_ref_pass_from(s@, h + 1) =~= prev + hex_ref_pass_from(
                        s@,
                        i as int,
                    ));
                }
                step = h + 1 - i;
            }
        }
        if step == 0 {
            out.push(s[i]);
            proof {
                assert(out@ + hex_ref_pass_from(s@, i + 1) =~= prev + hex_ref_pass_from(
                    s@,
                    i as int,
                ));
            }
            i += 1;
        } else {
            i += step;
        }
    }
    proof {
        assert(out@ =~= out@ + hex_ref_pass_from(s@, i as int));
    }
    out
}

/// Index just past the last non-whitespace character of `s`.
pub open spec fn trim_end_idx(s: Seq<char>) -> int
    decreases s.len(),
{
    if s.len() == 0 {
        0
    } else if is_space(s.last()) {
        trim_end_idx(s.drop_last())
    } else {
        s.len() as int
    }
}

/// Bounds and content of `trim_end_idx`.
pub proof fn lemma_trim_end_idx(s: Seq<char>)
    ensures
        0 <= trim_end_idx(s) <= s.len(),
        forall|k: int| trim_end_idx(s) <= k < s.len() ==> is_space(s[k]),
        trim_end_idx(s) > 0 ==> !is_space(s[trim_end_idx(s) - 1]),
    decreases s.len(),
{
    if s.len() > 0 && is_space(s.last()) {
        lemma_trim_end_idx(s.drop_last());
        assert(forall|k: int| 0 <= k < s.len() - 1 ==> s.drop_last()[k] == s[k]);
        assert(is_space(s[s.len() - 1]));
    }
}

/// `s` with leading and trailing whitespace removed, as `str::trim`
/// leaves it.
pub open spec fn spec_trim(s: Seq<char>) -> Seq<char> {
    let a = skip_spaces(s, 0);
    let b = trim_end_idx(s);
    if a <= b {
        s.subrange(a, b)
    } else {
        Seq::empty()
    }
}

/// Remove leading and trailing whitespace.
pub fn trim_chars(s: &[char]) -> (r: Vec<char>)
    ensures
        r@ == spec_trim(s@),
{
    proof {
        lemma_skip_spaces(s@, 0);
        lemma_trim_end_idx(s@);
    }
    let mut a: usize = 0;
    while a < s.len() && is_space_exec(s[a])
        invariant
            0 <= a <= s@.len(),
            skip_spaces(s@, a as int) == skip_spaces(s@, 0),
        decreases s.len() - a,
    {
        a += 1;
    }
    proof {
        assert(skip_spaces(s@, 0) == a as int);
    }
    let mut b: usize = s.len();
    proof {
        assert(s@.take(b as int) =~= s@);
    }
    while b > 0 && is_space_exec(s[b - 1])
        invariant
            0 <= b <= s@.len(),
            trim_end_idx(s@.take(b as int)) == trim_end_idx(s@),
        decreases b,
    {
        proof {
            assert(s@.take(b as int).drop_last() =~= s@.take(b - 1));
            assert(s@.take(b as int).last() == s@[b - 1]);
        }
        b -= 1;
    }
    proof {
        if b > 0 {
            assert(s@.take(b as int).last() == s@[b - 1]);
        }
        assert(trim_end_idx(s@.take(b as int)) == b as int);
    }
    if a <= b {
        let mut out: Vec<char> = Vec::new();
        push_all(&mut out, &s[a..b]);
        proof {
            assert(out@ =~= spec_trim(s@));
        }
        out
    } else {
        let out: Vec<char> = Vec::new();
        proof {
            assert(out@ =~= spec_trim(s@));
        }
        out
    }
}

/// Length of the run of newline characters starting at `i`.
pub open spec fn nl_run(s: Seq<char>, i: int) -> int
    decreases s.len() - i,
{
    if i < 0 || i >= s.len() || s[i] != '\n' {
        0
    } else {
        1 + nl_run(s, i + 1)
    }
}

/// Bounds and content of `nl_run`.
pub proof fn lemma_nl_run(s: Seq<char>, i: int)
    requires
        0 <= i <= s.len(),
    ensures
        0 <= nl_run(s, i) <= s.len() - i,
        forall|k: int| i <= k < i + nl_run(s, i) ==> s[k] == '\n',
        i + nl_run(s, i) < s.len() ==> s[i + nl_run(s, i)] != '\n',
    decreases s.len() - i,
{
    if i < s.len() && s[i] == '\n' {
        lemma_nl_run(s, i + 1);
    }
}

/// One pass from index `i`: every run of three or more newlines collapses
/// to exactly two; shorter runs are copied.
pub open spec fn collapse_from(s: Seq<char>, i: int) -> Seq<char>
    decreases s.len() - i,
    via collapse_dec
{
    if i < 0 || i >= s.len() {
        Seq::empty()
    } else if nl_run(s, i) >= 3 {
        seq!['\n', '\n'] + collapse_from(s, i + nl_run(s, i))
    } else {
        seq![s[i]] + collapse_from(s, i + 1)
    }
}

#[via_fn]
proof fn collapse_dec(s: Seq<char>, i: int) {
    if 0 <= i && i < s.len() {
        lemma_nl_run(s, i);
    }
}

/// Collapse every run of three or more newlines to two.
pub fn collapse_newlines(s: &[char]) -> (r: Vec<char>)
    ensures
        r@ == collapse_from(s@, 0),
{
    let mut out: Vec<char> = Vec::new();
    let mut i: usize = 0;
    while i < s.len()
        invariant
            0 <= i <= s@.len(),
            out@ + collapse_from(s@, i as int) == collapse_from(s@, 0),
        decreases s.len() - i,
    {
        let ghost prev = out@;
        proof {
            lemma_nl_run(s@, i as int);
        }
        let mut j: usize = i;
        while j < s.len() && s[j] == '\n'
            invariant
                i <= j <= s@.len(),
                forall|k: int| i <= k < j ==> s@[k] == '\n',
                nl_run(s@, i as int) == j - i + nl_run(s@, j as int),
            decreases s.len() - j,
        {
            j += 1;
        }
        proof {
            assert(nl_run(s@, i as int) == j - i);
        }
        if j - i >= 3 {
            out.push('\n');
            out.push('\n');
            proof {
                assert(out@ + collapse_from(s@, j as int) =~= prev + collapse_from(s@, i as int));
            }
            i = j;
        } else {
            out.push(s[i]);
            proof {
                assert(out@ + collapse_from(s@, i + 1) =~= prev + collapse_from(s@, i as int));
            }
            i += 1;
        }
    }
    proof {
        assert(out@ =~= out@ + collapse_from(s@, i as int));
    }
    out
}

/// The `<div` opening token.
pub open spec fn div_open() -> Seq<char> {
    seq!['<', 'd', 'i', 'v']
}

/// The `</div>` closing tag.
pub open spec fn div_close() -> Seq<char> {
    seq!['<', '/', 'd', 'i', 'v', '>']
}

/// The `<p` opening token.
pub open spec fn p_open() -> Seq<char> {
    seq!['<', 'p']
}

/// The `</p>` closing tag.
pub open spec fn p_close() -> Seq<char> {
    seq!['<', '/', 'p', '>']
}

/// The `span` tag name.
pub open spec fn span_name() -> Seq<char> {
    seq!['s', 'p', 'a', 'n']
}

/// The inline formatting tag names, stripped without inserting anything,
/// tried in this order.
pub open spec fn format_names() -> Seq<Seq<char>> {
    seq![
        seq!['b'],
        seq!['i'],
        seq!['u'],
        seq!['s', 't', 'r', 'o', 'n', 'g'],
        seq!['e', 'm'],
        seq!['f', 'o', 'n', 't'],
        seq!['a'],
    ]
}

/// The whole normalization: sound references, image tags, line breaks,
/// block tags, inline tags, remaining tags, named entities, numeric
/// references, trimming, and newline collapsing, in that order.
pub open spec fn spec_clean_html(s: Seq<char>) -> Seq<char> {
    let t1 = sound_pass_from(s, 0);
    let t2 = img_pass_from(t1, 0);
    let t3 = br_pass_from(t2, 0);
    let t4 = open_tag_pass_from(t3, div_open(), 0);
    let t5 = spec_replace(t4, div_close(), seq!['\n']);
    let t6 = open_tag_pass_from(t5, p_open(), 0);
    let t7 = spec_replace(t6, p_close(), seq!['\n']);
    let t8 = strip_tags_from(t7, seq![span_name()], 0);
    let t9 = strip_tags_from(t8, format_names(), 0);
    let t10 = tags_pass_from(t9, 0);
    let t11 = entities_from(t10, 0);
    let t12 = dec_ref_pass_from(t11, 0);
    let t13 = hex_ref_pass_from(t12, 0);
    let t14 = spec_trim(t13);
    collapse_from(t14, 0)
}

/// Text in which no rewriting pass finds anything to do: no tag or
/// entity openers, no reference openers, trimmed edges, and no run of
/// three or more newlines.
pub open spec fn markup_free(s: Seq<char>) -> bool {
    &&& !contains_char(s, '<')
    &&& !contains_char(s, '[')
    &&& !contains_char(s, '&')
    &&& (s.len() == 0 || (!is_space(s[0]) && !is_space(s[s.len() - 1])))
    &&& forall|i: int| 0 <= i < s.len() ==> nl_run(s, i) <= 2
}

proof fn lemma_sound_pass_id(s: Seq<char>, i: int)
    requires
        !contains_char(s, '['),
        0 <= i <= s.len(),
    ensures
        sound_pass_from(s, i) == s.skip(i),
    decreases s.len() - i,
{
    if i < s.len() {
        if matches_at(s, sound_open(), i) {
            assert(s[i + 0] == '[');
            assert(contains_char(s, '['));
        }
        lemma_sound_pass_id(s, i + 1);
        assert(sound_pass_from(s, i) =~= s.skip(i));
    } else {
        assert(sound_pass_from(s, i) =~= s.skip(i));
    }
}

proof fn lemma_img_pass_id(s: Seq<char>, i: int)
    requires
        !contains_char(s, '<'),
        0 <= i <= s.len(),
    ensures
        img_pass_from(s, i) == s.skip(i),
    decreases s.len() - i,
{
    if i < s.len() {
        if matches_at(s, img_open(), i) {
            assert(s[i + 0] == '<');
            assert(contains_char(s, '<'));
        }
        lemma_img_pass_id(s, i + 1);
        assert(img_pass_from(s, i) =~= s.skip(i));
    } else {
        assert(img_pass_from(s, i) =~= s.skip(i));
    }
}

proof fn lemma_br_pass_id(s: Seq<char>, i: int)
    requires
        !contains_char(s, '<'),
        0 <= i <= s.len(),
    ensures
        br_pass_from(s, i) == s.skip(i),
    decreases s.len() - i,
{
    if i < s.len() {
        if matches_at(s, br_open(), i) {
            assert(s[i + 0] == '<');
            assert(contains_char(s, '<'));
        }
        lemma_br_pass_id(s, i + 1);
        assert(br_pass_from(s, i) =~= s.skip(i));
    } else {
        assert(br_pass_from(s, i) =~= s.skip(i));
    }
}

proof fn lemma_open_tag_pass_id(s: Seq<char>, tag: Seq<char>, i: int)
    requires
        !contains_char(s, '<'),
        tag.len() > 0,
        tag[0] == '<',
        0 <= i <= s.len(),
    ensures
        open_tag_pass_from(s, tag, i) == s.skip(i),
    decreases s.len() - i,
{
    if i < s.len() {
        if matches_at(s, tag, i) {
            assert(s[i + 0] == '<');
            assert(contains_char(s, '<'));
        }
        lemma_open_tag_pass_id(s, tag, i + 1);
        assert(open_tag_pass_from(s, tag, i) =~= s.skip(i));
    } else {
        assert(open_tag_pass_from(s, tag, i) =~= s.skip(i));
    }
}

proof fn lemma_replace_id(s: Seq<char>, pat: Seq<char>, rep: Seq<char>, c: char)
    requires
        !contains_char(s, c),
        pat.len() > 0,
        pat[0] == c,
    ensures
        spec_replace(s, pat, rep) == s,
{
    assert forall|j: int| 0 <= j implies !matches_at(s, pat, j) by {
        if matches_at(s, pat, j) && j < s.len() {
            assert(s[j + 0] == c);
            assert(contains_char(s, c));
        }
    }
    crate::text::lemma_replace_absent(s, pat, rep, 0);
    assert(s.skip(0) =~= s);
}

proof fn lemma_strip_tags_id(s: Seq<char>, names: Seq<Seq<char>>, i: int)
    requires
        !contains_char(s, '<'),
        0 <= i <= s.len(),
    ensures
        strip_tags_from(s, names, i) == s.skip(i),
    decreases s.len() - i,
{
    if i < s.len() {
        if s[i] == '<' {
            assert(contains_char(s, '<'));
        }
        lemma_strip_tags_id(s, names, i + 1);
        assert(strip_tags_from(s, names, i) =~= s.skip(i));
    } else {
        assert(strip_tags_from(s, names, i) =~= s.skip(i));
    }
}

proof fn lemma_tags_pass_id(s: Seq<char>, i: int)
    requires
        !contains_char(s, '<'),
        0 <= i <= s.len(),
    ensures
        tags_pass_from(s, i) == s.skip(i),
    decreases s.len() - i,
{
    if i < s.len() {
        if s[i] == '<' {
            assert(contains_char(s, '<'));
        }
        lemma_tags_pass_id(s, i + 1);
        assert(tags_pass_from(s, i) =~= s.skip(i));
    } else {
        assert(tags_pass_from(s, i) =~= s.skip(i));
    }
}

proof fn lemma_entities_id(s: Seq<char>, k: int)
    requires
        !contains_char(s, '&'),
        0 <= k,
    ensures
        entities_from(s, k) == s,
    decreases entity_pairs().len() - k,
{
    if k < entity_pairs().len() {
        assert(entity_pairs()[k].0.len() > 0 && entity_pairs()[k].0[0] == '&');
        lemma_replace_id(s, entity_pairs()[k].0, entity_pairs()[k].1, '&');
        lemma_entities_id(s, k + 1);
    }
}

proof fn lemma_dec_ref_pass_id(s: Seq<char>, i: int)
    requires
        !contains_char(s, '&'),
        0 <= i <= s.len(),
    ensures
        dec_ref_pass_from(s, i) == s.skip(i),
    decreases s.len() - i,
{
    if i < s.len() {
        if s[i] == '&' {
            assert(contains_char(s, '&'));
        }
        lemma_dec_ref_pass_id(s, i + 1);
        assert(dec_ref_pass_from(s, i) =~= s.skip(i));
    } else {
        assert(dec_ref_pass_from(s, i) =~= s.skip(i));
    }
}

proof fn lemma_hex_ref_pass_id(s: Seq<char>, i: int)
    requires
        !contains_char(s, '&'),
        0 <= i <= s.len(),
    ensures
        hex_ref_pass_from(s, i) == s.skip(i),
    decreases s.len() - i,
{
    if i < s.len() {
        if s[i] == '&' {
            assert(contains_char(s, '&'));
        }
        lemma_hex_ref_pass_id(s, i + 1);
        assert(hex_ref_pass_from(s, i) =~= s.skip(i));
    } else {
        assert(hex_ref_pass_from(s, i) =~= s.skip(i));
    }
}

proof fn lemma_trim_id(s: Seq<char>)
    requires
        s.len() == 0 || (!is_space(s[0]) && !is_space(s[s.len() - 1])),
    ensures
        spec_trim(s) == s,
{
    lemma_trim_end_idx(s);
    if s.len() == 0 {
        assert(spec_trim(s) =~= s);
    } else {
        assert(skip_spaces(s, 0) == 0);
        assert(trim_end_idx(s) == s.len());
        assert(spec_trim(s) =~= s);
    }
}

proof fn lemma_collapse_id(s: Seq<char>, i: int)
    requires
        forall|j: int| 0 <= j < s.len() ==> nl_run(s, j) <= 2,
        0 <= i <= s.len(),
    ensures
        collapse_from(s, i) == s.skip(i),
    decreases s.len() - i,
{
    if i < s.len() {
        lemma_collapse_id(s, i + 1);
        assert(collapse_from(s, i) =~= s.skip(i));
    } else {
        assert(collapse_from(s, i) =~= s.skip(i));
    }
}

/// Markup-free text is a fixed point of normalization: every pass leaves
/// it untouched.
pub proof fn lemma_clean_html_fixed_point(s: Seq<char>)
    requires
        markup_free(s),
    ensures
        spec_clean_html(s) == s,
{
    assert(s.skip(0) =~= s);
    lemma_sound_pass_id(s, 0);
    lemma_img_pass_id(s, 0);
    lemma_br_pass_id(s, 0);
    lemma_open_tag_pass_id(s, div_open(), 0);
    lemma_replace_id(s, div_close(), seq!['\n'], '<');
    lemma_open_tag_pass_id(s, p_open(), 0);
    lemma_replace_id(s, p_close(), seq!['\n'], '<');
    lemma_strip_tags_id(s, seq![span_name()], 0);
    lemma_strip_tags_id(s, format_names(), 0);
    lemma_tags_pass_id(s, 0);
    lemma_entities_id(s, 0);
    lemma_dec_ref_pass_id(s, 0);
    lemma_hex_ref_pass_id(s, 0);
    lemma_trim_id(s);
    lemma_collapse_id(s, 0);
}

/// Normalization is idempotent wherever one pass yields markup-free
/// text: normalizing again changes nothing.
pub proof fn lemma_clean_html_idempotent(s: Seq<char>)
    requires
        markup_free(spec_clean_html(s)),
    ensures
        spec_clean_html(spec_clean_html(s)) == spec_clean_html(s),
{
    lemma_clean_html_fixed_point(spec_clean_html(s));
}

/// Normalize one field's markup to plain, lightly annotated text.
///
/// Sound references and image tags become annotated links whose `media:`
/// locator the host later resolves; line breaks and closing block tags
/// become newlines; other tags are stripped; entities are decoded; the
/// result is trimmed and long newline runs are collapsed.
pub fn clean_html(html: &str) -> (r: String)
    ensures
        r@ == spec_clean_html(html@),
{
    let chars: Vec<char> = crate::text::str_to_chars(html);
    let t1: Vec<char> = sound_pass(chars.as_slice());
    let t2: Vec<char> = img_pass(t1.as_slice());
    let t3: Vec<char> = br_pass(t2.as_slice());
    let div_open_pat: Vec<char> = vec!['<', 'd', 'i', 'v'];
    proof {
        assert(div_open_pat@ =~= div_open());
    }
    let t4: Vec<char> = open_tag_pass(t3.as_slice(), div_open_pat.as_slice());
    let div_close_pat: Vec<char> = vec!['<', '/', 'd', 'i', 'v', '>'];
    let nl: Vec<char> = vec!['\n'];
    proof {
        assert(div_close_pat@ =~= div_close());
        assert(nl@ =~= seq!['\n']);
    }
    let t5: Vec<char> = crate::text::replace_all(
        t4.as_slice(),
        div_close_pat.as_slice(),
        nl.as_slice(),
    );
    let p_open_pat: Vec<char> = vec!['<', 'p'];
    proof {
        assert(p_open_pat@ =~= p_open());
    }
    let t6: Vec<char> = open_tag_pass(t5.as_slice(), p_open_pat.as_slice());
    let p_close_pat: Vec<char> = vec!['<', '/', 'p', '>'];
    proof {
        assert(p_close_pat@ =~= p_close());
    }
    let t7: Vec<char> = crate::text::replace_all(
        t6.as_slice(),
        p_close_pat.as_slice(),
        nl.as_slice(),
    );
    let span_names: Vec<Vec<char>> = vec![vec!['s', 'p', 'a', 'n']];
    proof {
        assert(span_names.deep_view() =~~= seq![span_name()]);
    }
    let t8: Vec<char> = strip_tags(t7.as_slice(), &span_names);
    let fmt_names: Vec<Vec<char>> = vec![
        vec!['b'],
        vec!['i'],
        vec!['u'],
        vec!['s', 't', 'r', 'o', 'n', 'g'],
        vec!['e', 'm'],
        vec!['f', 'o', 'n', 't'],
        vec!['a'],
    ];
    proof {
        assert(fmt_names.deep_view() =~~= format_names());
    }
    let t9: Vec<char> = strip_tags(t8.as_slice(), &fmt_names);
    let t10: Vec<char> = tags_pass(t9.as_slice());
    let t11: Vec<char> = entity_pass(t10.as_slice());
    let t12: Vec<char> = dec_ref_pass(t11.as_slice());
    let t13: Vec<char> = hex_ref_pass(t12.as_slice());
    let t14: Vec<char> = trim_chars(t13.as_slice());
    let t15: Vec<char> = collapse_newlines(t14.as_slice());
    crate::text::chars_to_string(&t15)
}

/// Normalize every field of an item, in order.
pub fn process_card_fields(fields: &[String]) -> (r: Vec<String>)
    ensures
        r@.len() == fields@.len(),
        forall|i: int| 0 <= i < r@.len() ==> r@[i]@ == spec_clean_html(#[trigger] fields@[i]@),
{
    let mut out: Vec<String> = Vec::new();
    let mut i: usize = 0;
    while i < fields.len()
        invariant
            0 <= i <= fields@.len(),
            out@.len() == i,
            forall|k: int| 0 <= k < i ==> out@[k]@ == spec_clean_html(#[trigger] fields@[k]@),
        decreases fields.len() - i,
    {
        let cleaned: String = clean_html(fields[i].as_str());
        out.push(cleaned);
        i += 1;
    }
    out
}

} // verus!
