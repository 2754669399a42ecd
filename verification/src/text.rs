//! Character-level utilities shared by the markup normalizer, the record
//! store reader and the media classifier: substring search, literal
//! replacement, and conversions between `str`, `String` and `Vec<char>`.

use vstd::prelude::*;

verus! {

broadcast use vstd::string::group_string_axioms;

/// `pat` occurs in `s` starting at index `i`.
pub open spec fn matches_at(s: Seq<char>, pat: Seq<char>, i: int) -> bool {
    &&& 0 <= i
    &&& i + pat.len() <= s.len()
    &&& forall|j: int| 0 <= j < pat.len() ==> s[i + j] == pat[j]
}

/// `pat` occurs somewhere in `s`.
pub open spec fn contains_pat(s: Seq<char>, pat: Seq<char>) -> bool {
    exists|i: int| matches_at(s, pat, i)
}

/// `c` occurs in `s`.
pub open spec fn contains_char(s: Seq<char>, c: char) -> bool {
    exists|i: int| 0 <= i < s.len() && s[i] == c
}

/// Result of rewriting every non-overlapping occurrence of `pat` (scanning
/// left to right from index `i`) to `rep`, leaving other characters alone.
/// This is the behaviour of `str::replace` for a non-empty needle.
pub open spec fn replace_from(s: Seq<char>, pat: Seq<char>, rep: Seq<char>, i: int) -> Seq<char>
    decreases s.len() - i,
{
    if pat.len() == 0 {
        Seq::empty()
    } else if i < 0 || i >= s.len() {
        Seq::empty()
    } else if matches_at(s, pat, i) {
        rep + replace_from(s, pat, rep, i + pat.len() as int)
    } else {
        seq![s[i]] + replace_from(s, pat, rep, i + 1)
    }
}

/// Full left-to-right replacement of `pat` by `rep` in `s`.
pub open spec fn spec_replace(s: Seq<char>, pat: Seq<char>, rep: Seq<char>) -> Seq<char> {
    replace_from(s, pat, rep, 0)
}

/// If `pat` never occurs at or after `i`, replacement from `i` keeps the
/// suffix unchanged.
pub proof fn lemma_replace_absent(s: Seq<char>, pat: Seq<char>, rep: Seq<char>, i: int)
    requires
        pat.len() > 0,
        0 <= i <= s.len(),
        forall|j: int| i <= j ==> !matches_at(s, pat, j),
    ensures
        replace_from(s, pat, rep, i) == s.skip(i),
    decreases s.len() - i,
{
    if i >= s.len() {
        assert(replace_from(s, pat, rep, i) =~= s.skip(i));
    } else {
        lemma_replace_absent(s, pat, rep, i + 1);
        assert(replace_from(s, pat, rep, i) =~= s.skip(i));
    }
}

/// True iff `pat` occurs in `s` at index `i` (exec check).
pub fn starts_with_at(s: &[char], pat: &[char], i: usize) -> (r: bool)
    ensures
        r == matches_at(s@, pat@, i as int),
{
    if i > s.len() || pat.len() > s.len() - i {
        return false;
    }
    let mut j: usize = 0;
    while j < pat.len()
        invariant
            0 <= j <= pat.len(),
            i + pat.len() <= s.len(),
            forall|k: int| 0 <= k < j ==> s@[i + k] == pat@[k],
        decreases pat.len() - j,
    {
        if s[i + j] != pat[j] {
            return false;
        }
        j += 1;
    }
    true
}

/// First index `>= from` where `pat` occurs in `s`, if any.
pub fn find_pat_from(s: &[char], pat: &[char], from: usize) -> (r: Option<usize>)
    requires
        pat@.len() > 0,
    ensures
        match r {
            Some(i) => {
                &&& from <= i
                &&& matches_at(s@, pat@, i as int)
                &&& forall|j: int| from <= j < i ==> !matches_at(s@, pat@, j)
            },
            None => forall|j: int| from <= j ==> !matches_at(s@, pat@, j),
        },
{
    let mut i: usize = from;
    while i < s.len()
        invariant
            from <= i,
            forall|j: int| from <= j < i ==> !matches_at(s@, pat@, j),
        decreases s.len() - i,
    {
        if starts_with_at(s, pat, i) {
            return Some(i);
        }
        i += 1;
    }
    None
}

/// First index `>= from` holding character `c`, if any.
pub fn find_char_from(s: &[char], c: char, from: usize) -> (r: Option<usize>)
    ensures
        match r {
            Some(i) => {
                &&& from <= i < s@.len()
                &&& s@[i as int] == c
                &&& forall|j: int| from <= j < i ==> s@[j] != c
            },
            None => forall|j: int| from <= j < s@.len() ==> s@[j] != c,
        },
{
    let mut i: usize = from;
    while i < s.len()
        invariant
            from <= i,
            forall|j: int| from <= j < i && j < s@.len() ==> s@[j] != c,
        decreases s.len() - i,
    {
        if s[i] == c {
            return Some(i);
        }
        i += 1;
    }
    None
}

/// Index of the first occurrence of `c` at or after `from`, if any.
pub open spec fn spec_find_char(s: Seq<char>, c: char, from: int) -> Option<int>
    decreases s.len() - from,
{
    if from < 0 || from >= s.len() {
        None
    } else if s[from] == c {
        Some(from)
    } else {
        spec_find_char(s, c, from + 1)
    }
}

/// `spec_find_char` yields exactly the first occurrence.
pub proof fn lemma_find_char_props(s: Seq<char>, c: char, from: int)
    requires
        0 <= from,
    ensures
        match spec_find_char(s, c, from) {
            Some(j) => {
                &&& from <= j < s.len()
                &&& s[j] == c
                &&& forall|k: int| from <= k < j ==> s[k] != c
            },
            None => forall|k: int| from <= k < s.len() ==> s[k] != c,
        },
    decreases s.len() - from,
{
    if from < s.len() && s[from] != c {
        lemma_find_char_props(s, c, from + 1);
    }
}

/// Index of the first occurrence of `pat` at or after `from`, if any.
pub open spec fn spec_find_pat(s: Seq<char>, pat: Seq<char>, from: int) -> Option<int>
    decreases s.len() - from,
{
    if from < 0 || from >= s.len() {
        None
    } else if matches_at(s, pat, from) {
        Some(from)
    } else {
        spec_find_pat(s, pat, from + 1)
    }
}

/// `spec_find_pat` yields exactly the first occurrence.
pub proof fn lemma_find_pat_props(s: Seq<char>, pat: Seq<char>, from: int)
    requires
        0 <= from,
        pat.len() > 0,
    ensures
        match spec_find_pat(s, pat, from) {
            Some(j) => {
                &&& from <= j
                &&& matches_at(s, pat, j)
                &&& forall|k: int| from <= k < j ==> !matches_at(s, pat, k)
            },
            None => forall|k: int| from <= k ==> !matches_at(s, pat, k),
        },
    decreases s.len() - from,
{
    if from < s.len() && !matches_at(s, pat, from) {
        lemma_find_pat_props(s, pat, from + 1);
    }
}

/// Index of the last occurrence of `pat` at or before `p`, if any.
pub open spec fn spec_find_pat_back(s: Seq<char>, pat: Seq<char>, p: int) -> Option<int>
    decreases p + 1,
{
    if p < 0 {
        None
    } else if matches_at(s, pat, p) {
        Some(p)
    } else {
        spec_find_pat_back(s, pat, p - 1)
    }
}

/// `spec_find_pat_back` yields exactly the last occurrence.
pub proof fn lemma_find_pat_back_props(s: Seq<char>, pat: Seq<char>, p: int)
    ensures
        match spec_find_pat_back(s, pat, p) {
            Some(j) => {
                &&& j <= p
                &&& matches_at(s, pat, j)
                &&& forall|k: int| j < k <= p ==> !matches_at(s, pat, k)
            },
            None => forall|k: int| 0 <= k <= p ==> !matches_at(s, pat, k),
        },
    decreases p + 1,
{
    if p >= 0 && !matches_at(s, pat, p) {
        lemma_find_pat_back_props(s, pat, p - 1);
    }
}

/// Append every character of `xs` to `out`, in order.
pub fn push_all(out: &mut Vec<char>, xs: &[char])
    ensures
        final(out)@ == old(out)@ + xs@,
{
    let mut k: usize = 0;
    while k < xs.len()
        invariant
            0 <= k <= xs@.len(),
            out@ == old(out)@ + xs@.take(k as int),
        decreases xs.len() - k,
    {
        out.push(xs[k]);
        assert(out@ =~= old(out)@ + xs@.take(k + 1));
        k += 1;
    }
    assert(out@ =~= old(out)@ + xs@);
}

/// Replace every non-overlapping occurrence of `pat` in `s` with `rep`,
/// scanning left to right, as `str::replace` does.
pub fn replace_all(s: &[char], pat: &[char], rep: &[char]) -> (r: Vec<char>)
    requires
        pat@.len() > 0,
    ensures
        r@ == spec_replace(s@, pat@, rep@),
{
    let mut out: Vec<char> = Vec::new();
    let mut i: usize = 0;
    while i < s.len()
        invariant
            0 <= i <= s@.len(),
            pat@.len() > 0,
            out@ + replace_from(s@, pat@, rep@, i as int) == replace_from(s@, pat@, rep@, 0),
        decreases s.len() - i,
    {
        if starts_with_at(s, pat, i) {
            push_all(&mut out, rep);
            i += pat.len();
        } else {
            out.push(s[i]);
            assert(out@ =~= out.view().take(out@.len() - 1) + seq![s@[i as int]]);
            i += 1;
        }
    }
    assert(replace_from(s@, pat@, rep@, i as int) =~= Seq::<char>::empty());
    assert(out@ =~= out@ + replace_from(s@, pat@, rep@, i as int));
    out
}

/// The pieces of `s` from index `i` on, split at each non-overlapping
/// occurrence of `pat`, scanning left to right, as `str::split` yields
/// them.
pub open spec fn split_from(s: Seq<char>, pat: Seq<char>, i: int) -> Seq<Seq<char>>
    decreases s.len() - i,
    via split_from_dec
{
    if pat.len() == 0 || i < 0 || i > s.len() {
        Seq::empty()
    } else {
        match spec_find_pat(s, pat, i) {
            Some(j) => seq![s.subrange(i, j)] + split_from(s, pat, j + pat.len() as int),
            None => seq![s.subrange(i, s.len() as int)],
        }
    }
}

#[via_fn]
proof fn split_from_dec(s: Seq<char>, pat: Seq<char>, i: int) {
    if pat.len() > 0 && 0 <= i <= s.len() {
        lemma_find_pat_props(s, pat, i);
    }
}

/// Split `s` at each occurrence of `pat`, scanning left to right.
pub fn split_on_pat(s: &[char], pat: &[char]) -> (r: Vec<Vec<char>>)
    requires
        pat@.len() > 0,
    ensures
        r.deep_view() == split_from(s@, pat@, 0),
{
    let mut out: Vec<Vec<char>> = Vec::new();
    let mut i: usize = 0;
    loop
        invariant
            pat@.len() > 0,
            0 <= i <= s@.len(),
            split_from(s@, pat@, 0) == out.deep_view() + split_from(s@, pat@, i as int),
        decreases s@.len() - i,
    {
        let ghost prev = out.deep_view();
        proof {
            lemma_find_pat_props(s@, pat@, i as int);
        }
        match find_pat_from(s, pat, i) {
            Some(j) => {
                let n: usize = s.len();
                proof {
                    assert(spec_find_pat(s@, pat@, i as int) == Some(j as int));
                    assert(j + pat@.len() <= n);
                }
                let piece: Vec<char> = vstd::slice::slice_to_vec(&s[i..j]);
                out.push(piece);
                proof {
                    assert(out.deep_view() =~~= prev + seq![s@.subrange(i as int, j as int)]);
                    assert(out.deep_view() + split_from(s@, pat@, j + pat@.len()) =~~= prev
                        + split_from(s@, pat@, i as int));
                }
                i = j + pat.len();
            },
            None => {
                proof {
                    assert(spec_find_pat(s@, pat@, i as int) is None);
                }
                let piece: Vec<char> = vstd::slice::slice_to_vec(&s[i..s.len()]);
                out.push(piece);
                proof {
                    assert(out.deep_view() =~~= prev + seq![
                        s@.subrange(i as int, s@.len() as int),
                    ]);
                    assert(out.deep_view() =~~= prev + split_from(s@, pat@, i as int));
                }
                return out;
            },
        }
    }
}

/// The pieces from list position `k` on, joined with `sep` between them.
pub open spec fn join_from(pieces: Seq<Seq<char>>, sep: Seq<char>, k: int) -> Seq<char>
    decreases pieces.len() - k,
{
    if k < 0 || k >= pieces.len() {
        Seq::empty()
    } else if k == pieces.len() - 1 {
        pieces[k]
    } else {
        pieces[k] + sep + join_from(pieces, sep, k + 1)
    }
}

/// Join the first `n` pieces with `sep` between them.
pub fn join_with(pieces: &Vec<Vec<char>>, n: usize, sep: &[char]) -> (r: Vec<char>)
    requires
        n <= pieces@.len(),
    ensures
        r@ == join_from(pieces.deep_view().take(n as int), sep@, 0),
{
    let ghost front = pieces.deep_view().take(n as int);
    let mut out: Vec<char> = Vec::new();
    let mut k: usize = 0;
    while k < n
        invariant
            0 <= k <= n <= pieces@.len(),
            front == pieces.deep_view().take(n as int),
            k < n ==> out@ + join_from(front, sep@, k as int) == join_from(front, sep@, 0),
            k == n ==> out@ == join_from(front, sep@, 0),
        decreases n - k,
    {
        let ghost prev = out@;
        proof {
            assert(front[k as int] == pieces.deep_view()[k as int]);
            assert(pieces.deep_view()[k as int] == pieces@[k as int]@);
        }
        push_all(&mut out, pieces[k].as_slice());
        if k + 1 < n {
            push_all(&mut out, sep);
            proof {
                assert(out@ + join_from(front, sep@, k + 1) =~= prev + join_from(
                    front,
                    sep@,
                    k as int,
                ));
            }
        } else {
            proof {
                assert(out@ =~= prev + join_from(front, sep@, k as int));
            }
        }
        k += 1;
    }
    proof {
        if n == 0 {
            assert(out@ =~= join_from(front, sep@, 0));
        }
    }
    out
}

/// `c` is an ASCII decimal digit.
pub open spec fn is_dec_digit(c: char) -> bool {
    '0' <= c && c <= '9'
}

/// Numeric value of a decimal digit.
pub open spec fn dec_digit_val(c: char) -> int {
    c as int - '0' as int
}

/// Every character of `s` is a decimal digit.
pub open spec fn all_dec_digits(s: Seq<char>) -> bool {
    forall|i: int| 0 <= i < s.len() ==> is_dec_digit(#[trigger] s[i])
}

/// Value of a decimal digit string (most significant digit first).
pub open spec fn dec_val(s: Seq<char>) -> int
    decreases s.len(),
{
    if s.len() == 0 {
        0
    } else {
        dec_val(s.drop_last()) * 10 + dec_digit_val(s.last())
    }
}

/// `c` is an ASCII hexadecimal digit.
pub open spec fn is_hex_digit(c: char) -> bool {
    ('0' <= c && c <= '9') || ('a' <= c && c <= 'f') || ('A' <= c && c <= 'F')
}

/// Numeric value of a hexadecimal digit.
pub open spec fn hex_digit_val(c: char) -> int {
    if '0' <= c && c <= '9' {
        c as int - '0' as int
    } else if 'a' <= c && c <= 'f' {
        c as int - 'a' as int + 10
    } else {
        c as int - 'A' as int + 10
    }
}

/// Every character of `s` is a hexadecimal digit.
pub open spec fn all_hex_digits(s: Seq<char>) -> bool {
    forall|i: int| 0 <= i < s.len() ==> is_hex_digit(#[trigger] s[i])
}

/// Value of a hexadecimal digit string (most significant digit first).
pub open spec fn hex_val(s: Seq<char>) -> int
    decreases s.len(),
{
    if s.len() == 0 {
        0
    } else {
        hex_val(s.drop_last()) * 16 + hex_digit_val(s.last())
    }
}

/// A digit string's value never shrinks as more digits are appended.
proof fn lemma_dec_val_prefix_le(s: Seq<char>, i: int)
    requires
        all_dec_digits(s),
        0 <= i <= s.len(),
    ensures
        dec_val(s.take(i)) <= dec_val(s),
        dec_val(s) >= 0,
    decreases s.len() - i,
{
    if i == s.len() {
        assert(s.take(i) =~= s);
        lemma_dec_val_nonneg(s);
    } else {
        lemma_dec_val_prefix_le(s, i + 1);
        assert(s.take(i + 1).drop_last() =~= s.take(i));
        assert(s.take(i + 1).last() == s[i]);
        lemma_dec_val_nonneg(s.take(i));
    }
}

/// A decimal digit string has a non-negative value.
proof fn lemma_dec_val_nonneg(s: Seq<char>)
    requires
        all_dec_digits(s),
    ensures
        dec_val(s) >= 0,
    decreases s.len(),
{
    if s.len() > 0 {
        assert(all_dec_digits(s.drop_last()));
        lemma_dec_val_nonneg(s.drop_last());
    }
}

/// A hexadecimal digit string has a non-negative value.
proof fn lemma_hex_val_nonneg(s: Seq<char>)
    requires
        all_hex_digits(s),
    ensures
        hex_val(s) >= 0,
    decreases s.len(),
{
    if s.len() > 0 {
        assert(all_hex_digits(s.drop_last()));
        lemma_hex_val_nonneg(s.drop_last());
    }
}

/// A hex digit string's value never shrinks as more digits are appended.
proof fn lemma_hex_val_prefix_le(s: Seq<char>, i: int)
    requires
        all_hex_digits(s),
        0 <= i <= s.len(),
    ensures
        hex_val(s.take(i)) <= hex_val(s),
        hex_val(s) >= 0,
    decreases s.len() - i,
{
    if i == s.len() {
        assert(s.take(i) =~= s);
        lemma_hex_val_nonneg(s);
    } else {
        lemma_hex_val_prefix_le(s, i + 1);
        assert(s.take(i + 1).drop_last() =~= s.take(i));
        assert(s.take(i + 1).last() == s[i]);
        lemma_hex_val_nonneg(s.take(i));
    }
}

/// Parse a string of decimal digits as a `u64`; `None` when the value
/// does not fit.
pub fn parse_u64_dec(s: &[char]) -> (r: Option<u64>)
    requires
        all_dec_digits(s@),
    ensures
        match r {
            Some(v) => v as int == dec_val(s@),
            None => dec_val(s@) > u64::MAX,
        },
{
    let mut acc: u64 = 0;
    let mut i: usize = 0;
    while i < s.len()
        invariant
            all_dec_digits(s@),
            0 <= i <= s@.len(),
            acc as int == dec_val(s@.take(i as int)),
        decreases s.len() - i,
    {
        let c: char = s[i];
        let d: u32 = c as u32 - '0' as u32;
        let next: Option<u64> = match acc.checked_mul(10) {
            Some(m) => m.checked_add(d as u64),
            None => None,
        };
        proof {
            assert(s@.take(i + 1).drop_last() =~= s@.take(i as int));
            assert(s@.take(i + 1).last() == s@[i as int]);
        }
        match next {
            Some(v) => {
                acc = v;
            },
            None => {
                proof {
                    lemma_dec_val_prefix_le(s@, i + 1);
                }
                return None;
            },
        }
        i += 1;
    }
    assert(s@.take(i as int) =~= s@);
    Some(acc)
}

/// Parse a string of hexadecimal digits as a `u32`; `None` when the value
/// does not fit.
pub fn parse_u32_hex(s: &[char]) -> (r: Option<u32>)
    requires
        all_hex_digits(s@),
    ensures
        match r {
            Some(v) => v as int == hex_val(s@),
            None => hex_val(s@) > u32::MAX,
        },
{
    let mut acc: u32 = 0;
    let mut i: usize = 0;
    while i < s.len()
        invariant
            all_hex_digits(s@),
            0 <= i <= s@.len(),
            acc as int == hex_val(s@.take(i as int)),
        decreases s.len() - i,
    {
        let c: char = s[i];
        let d: u32 = if c >= '0' && c <= '9' {
            c as u32 - '0' as u32
        } else if c >= 'a' && c <= 'f' {
            c as u32 - 'a' as u32 + 10
        } else {
            c as u32 - 'A' as u32 + 10
        };
        let next: Option<u32> = match acc.checked_mul(16) {
            Some(m) => m.checked_add(d),
            None => None,
        };
        proof {
            assert(s@.take(i + 1).drop_last() =~= s@.take(i as int));
            assert(s@.take(i + 1).last() == s@[i as int]);
        }
        match next {
            Some(v) => {
                acc = v;
            },
            None => {
                proof {
                    lemma_hex_val_prefix_le(s@, i + 1);
                }
                return None;
            },
        }
        i += 1;
    }
    assert(s@.take(i as int) =~= s@);
    Some(acc)
}

/// What `str::parse::<i64>` accepts: an optional sign followed by at least
/// one decimal digit, with the signed value in range.
pub open spec fn spec_parse_i64(s: Seq<char>) -> Option<int> {
    let digits = if s.len() > 0 && (s[0] == '+' || s[0] == '-') {
        s.skip(1)
    } else {
        s
    };
    let signed = if s.len() > 0 && s[0] == '-' {
        -dec_val(digits)
    } else {
        dec_val(digits)
    };
    if digits.len() > 0 && all_dec_digits(digits) && i64::MIN <= signed <= i64::MAX {
        Some(signed)
    } else {
        None
    }
}

/// Parse `s` as `str::parse::<i64>` would, yielding 0 where parsing fails.
pub fn parse_i64_or_zero(s: &[char]) -> (r: i64)
    ensures
        r as int == match spec_parse_i64(s@) {
            Some(v) => v,
            None => 0,
        },
{
    let ghost whole = s@;
    if s.len() == 0 {
        return 0;
    }
    let negative: bool = s[0] == '-';
    let has_sign: bool = negative || s[0] == '+';
    let start: usize = if has_sign {
        1
    } else {
        0
    };
    if start == s.len() {
        return 0;
    }
    let ghost digits = if has_sign {
        whole.skip(1)
    } else {
        whole
    };
    let mut i: usize = start;
    while i < s.len()
        invariant
            start <= i <= s@.len(),
            s@.len() > 0,
            has_sign == (s@[0] == '+' || s@[0] == '-'),
            start == if has_sign { 1int } else { 0int },
            digits == s@.skip(start as int),
            forall|j: int| start <= j < i ==> is_dec_digit(#[trigger] s@[j]),
        decreases s.len() - i,
    {
        let c: char = s[i];
        if c < '0' || c > '9' {
            proof {
                assert(digits[i - start] == s@[i as int]);
                assert(!is_dec_digit(digits[i - start]));
                assert(!all_dec_digits(digits));
                assert(digits == if s@.len() > 0 && (s@[0] == '+' || s@[0] == '-') {
                    s@.skip(1)
                } else {
                    s@
                });
                assert(spec_parse_i64(s@) is None);
            }
            return 0;
        }
        i += 1;
    }
    assert(all_dec_digits(digits)) by {
        assert(forall|j: int| 0 <= j < digits.len() ==> digits[j] == s@[j + start]
            && is_dec_digit(#[trigger] digits[j]));
    }
    let digit_slice: &[char] = &s[start..s.len()];
    assert(digit_slice@ =~= digits);
    let mag: Option<u64> = parse_u64_dec(digit_slice);
    match mag {
        None => 0,
        Some(m) => {
            if negative {
                if m > 9223372036854775808u64 {
                    0
                } else if m == 9223372036854775808u64 {
                    i64::MIN
                } else {
                    -(m as i64)
                }
            } else {
                if m > i64::MAX as u64 {
                    0
                } else {
                    m as i64
                }
            }
        },
    }
}

/// Decimal digit character for a value below ten.
pub open spec fn digit_char(d: int) -> char {
    if d == 0 {
        '0'
    } else if d == 1 {
        '1'
    } else if d == 2 {
        '2'
    } else if d == 3 {
        '3'
    } else if d == 4 {
        '4'
    } else if d == 5 {
        '5'
    } else if d == 6 {
        '6'
    } else if d == 7 {
        '7'
    } else if d == 8 {
        '8'
    } else {
        '9'
    }
}

/// Decimal representation of a non-negative integer, no leading zeros.
pub open spec fn spec_u64_dec(n: int) -> Seq<char>
    decreases n,
{
    if n <= 9 {
        seq![digit_char(n)]
    } else {
        spec_u64_dec(n / 10).push(digit_char(n % 10))
    }
}

/// Decimal representation of a signed integer, as `i64` formatting yields.
pub open spec fn spec_i64_dec(n: int) -> Seq<char> {
    if n < 0 {
        seq!['-'] + spec_u64_dec(-n)
    } else {
        spec_u64_dec(n)
    }
}

/// Render a `u64` in decimal.
pub fn u64_to_dec_chars(n: u64) -> (r: Vec<char>)
    ensures
        r@ == spec_u64_dec(n as int),
    decreases n,
{
    let d: u64 = n % 10;
    let c: char = match d {
        0 => '0',
        1 => '1',
        2 => '2',
        3 => '3',
        4 => '4',
        5 => '5',
        6 => '6',
        7 => '7',
        8 => '8',
        _ => '9',
    };
    assert(c == digit_char(n as int % 10));
    if n <= 9 {
        let mut v: Vec<char> = Vec::new();
        v.push(c);
        assert(v@ =~= spec_u64_dec(n as int));
        v
    } else {
        let mut v: Vec<char> = u64_to_dec_chars(n / 10);
        v.push(c);
        v
    }
}

/// Render an `i64` in decimal, with a leading minus sign when negative.
pub fn i64_to_dec_chars(n: i64) -> (r: Vec<char>)
    ensures
        r@ == spec_i64_dec(n as int),
{
    if n >= 0 {
        u64_to_dec_chars(n as u64)
    } else {
        let mag: u64 = if n == i64::MIN {
            9223372036854775808u64
        } else {
            (-n) as u64
        };
        let mut v: Vec<char> = Vec::new();
        v.push('-');
        let tail: Vec<char> = u64_to_dec_chars(mag);
        push_all(&mut v, tail.as_slice());
        assert(v@ =~= seq!['-'] + spec_u64_dec(mag as int));
        v
    }
}

/// Strict lexicographic order on character sequences, ordered by code
/// point, as `str`'s own ordering compares.
pub open spec fn lex_lt(a: Seq<char>, b: Seq<char>) -> bool
    decreases a.len(),
{
    if b.len() == 0 {
        false
    } else if a.len() == 0 {
        true
    } else if a[0] != b[0] {
        (a[0] as u32) < (b[0] as u32)
    } else {
        lex_lt(a.skip(1), b.skip(1))
    }
}

/// Exec check of `lex_lt`.
pub fn lex_lt_chars(a: &[char], b: &[char]) -> (r: bool)
    ensures
        r == lex_lt(a@, b@),
{
    let mut i: usize = 0;
    proof {
        assert(a@.skip(0) =~= a@);
        assert(b@.skip(0) =~= b@);
    }
    loop
        invariant
            0 <= i <= a@.len(),
            i <= b@.len(),
            forall|j: int| 0 <= j < i ==> a@[j] == b@[j],
            lex_lt(a@, b@) == lex_lt(a@.skip(i as int), b@.skip(i as int)),
        decreases a.len() - i,
    {
        if i >= b.len() {
            return false;
        }
        if i >= a.len() {
            return true;
        }
        let x: char = a[i];
        let y: char = b[i];
        if x != y {
            return (x as u32) < (y as u32);
        }
        proof {
            assert(a@.skip(i as int).skip(1) =~= a@.skip(i + 1));
            assert(b@.skip(i as int).skip(1) =~= b@.skip(i + 1));
        }
        i += 1;
    }
}

/// `lex_lt` never relates a sequence to itself.
pub proof fn lemma_lex_lt_irrefl(a: Seq<char>)
    ensures
        !lex_lt(a, a),
    decreases a.len(),
{
    if a.len() > 0 {
        lemma_lex_lt_irrefl(a.skip(1));
    }
}

/// `lex_lt` is transitive.
pub proof fn lemma_lex_lt_trans(a: Seq<char>, b: Seq<char>, c: Seq<char>)
    requires
        lex_lt(a, b),
        lex_lt(b, c),
    ensures
        lex_lt(a, c),
    decreases a.len(),
{
    if a.len() > 0 && b.len() > 0 && c.len() > 0 && a[0] == b[0] && b[0] == c[0] {
        lemma_lex_lt_trans(a.skip(1), b.skip(1), c.skip(1));
    }
}

/// Two sequences that `lex_lt` orders in neither direction are equal.
pub proof fn lemma_lex_lt_connex(a: Seq<char>, b: Seq<char>)
    requires
        !lex_lt(a, b),
        !lex_lt(b, a),
    ensures
        a == b,
    decreases a.len(),
{
    if a.len() == 0 || b.len() == 0 {
        assert(a =~= b);
    } else if a[0] != b[0] {
        assert((a[0] as u32) < (b[0] as u32) || (b[0] as u32) < (a[0] as u32)) by {
            crate::text::lemma_char_cast_roundtrip(a[0], a[0] as u32);
            crate::text::lemma_char_cast_roundtrip(b[0], b[0] as u32);
        }
        assert(false);
    } else {
        lemma_lex_lt_connex(a.skip(1), b.skip(1));
        assert(a =~= seq![a[0]] + a.skip(1));
        assert(b =~= seq![b[0]] + b.skip(1));
    }
}

/// Number of non-overlapping occurrences of `pat` in `s` at or after `i`,
/// scanning left to right, as `str::matches(pat).count()` counts.
pub open spec fn count_pat_from(s: Seq<char>, pat: Seq<char>, i: int) -> nat
    decreases s.len() - i,
{
    if pat.len() == 0 || i < 0 || i >= s.len() {
        0
    } else if matches_at(s, pat, i) {
        1 + count_pat_from(s, pat, i + pat.len() as int)
    } else {
        count_pat_from(s, pat, i + 1)
    }
}

/// Number of non-overlapping occurrences of `pat` in `s`.
pub open spec fn count_pat(s: Seq<char>, pat: Seq<char>) -> nat {
    count_pat_from(s, pat, 0)
}

/// Count non-overlapping occurrences of `pat`, scanning left to right.
pub fn count_pat_chars(s: &[char], pat: &[char]) -> (r: usize)
    requires
        pat@.len() > 0,
    ensures
        r == count_pat(s@, pat@),
{
    let mut n: usize = 0;
    let mut i: usize = 0;
    while i < s.len()
        invariant
            pat@.len() > 0,
            0 <= i <= s@.len(),
            n + count_pat_from(s@, pat@, i as int) == count_pat(s@, pat@),
            n <= i,
        decreases s.len() - i,
    {
        if starts_with_at(s, pat, i) {
            n += 1;
            i += pat.len();
        } else {
            i += 1;
        }
    }
    n
}

/// ASCII lowercasing of one character; other characters are unchanged.
pub open spec fn lower_char(c: char) -> char {
    if 'A' <= c && c <= 'Z' {
        if c == 'A' { 'a' } else if c == 'B' { 'b' } else if c == 'C' { 'c' }
        else if c == 'D' { 'd' } else if c == 'E' { 'e' } else if c == 'F' { 'f' }
        else if c == 'G' { 'g' } else if c == 'H' { 'h' } else if c == 'I' { 'i' }
        else if c == 'J' { 'j' } else if c == 'K' { 'k' } else if c == 'L' { 'l' }
        else if c == 'M' { 'm' } else if c == 'N' { 'n' } else if c == 'O' { 'o' }
        else if c == 'P' { 'p' } else if c == 'Q' { 'q' } else if c == 'R' { 'r' }
        else if c == 'S' { 's' } else if c == 'T' { 't' } else if c == 'U' { 'u' }
        else if c == 'V' { 'v' } else if c == 'W' { 'w' } else if c == 'X' { 'x' }
        else if c == 'Y' { 'y' } else { 'z' }
    } else {
        c
    }
}

/// ASCII lowercasing of a character sequence.
pub open spec fn lower_chars(s: Seq<char>) -> Seq<char> {
    s.map_values(|c: char| lower_char(c))
}

/// Lowercase the ASCII letters of `s`.
pub fn lower_chars_exec(s: &[char]) -> (r: Vec<char>)
    ensures
        r@ == lower_chars(s@),
{
    let mut out: Vec<char> = Vec::new();
    let mut i: usize = 0;
    while i < s.len()
        invariant
            0 <= i <= s@.len(),
            out@ =~= lower_chars(s@.take(i as int)),
        decreases s.len() - i,
    {
        let c: char = s[i];
        let l: char = match c {
            'A' => 'a', 'B' => 'b', 'C' => 'c', 'D' => 'd', 'E' => 'e',
            'F' => 'f', 'G' => 'g', 'H' => 'h', 'I' => 'i', 'J' => 'j',
            'K' => 'k', 'L' => 'l', 'M' => 'm', 'N' => 'n', 'O' => 'o',
            'P' => 'p', 'Q' => 'q', 'R' => 'r', 'S' => 's', 'T' => 't',
            'U' => 'u', 'V' => 'v', 'W' => 'w', 'X' => 'x', 'Y' => 'y',
            'Z' => 'z', _ => c,
        };
        assert(l == lower_char(s@[i as int]));
        out.push(l);
        assert(out@ =~= lower_chars(s@.take(i + 1)));
        i += 1;
    }
    assert(s@.take(i as int) =~= s@);
    out
}

/// Equality of two character slices.
pub fn chars_eq(a: &[char], b: &[char]) -> (r: bool)
    ensures
        r == (a@ == b@),
{
    if a.len() != b.len() {
        return false;
    }
    let mut i: usize = 0;
    while i < a.len()
        invariant
            0 <= i <= a@.len(),
            a@.len() == b@.len(),
            forall|k: int| 0 <= k < i ==> a@[k] == b@[k],
        decreases a.len() - i,
    {
        if a[i] != b[i] {
            return false;
        }
        i += 1;
    }
    proof {
        assert(a@ =~= b@);
    }
    true
}

/// Collect the characters of a `&str` into a vector.
pub fn str_to_chars(s: &str) -> (r: Vec<char>)
    ensures
        r@ == s@,
{
    let mut v: Vec<char> = Vec::new();
    for c in it: s.chars()
        invariant
            it.seq() == s@,
            v@ == it.seq().take(it.index() as int),
    {
        v.push(c);
    }
    assert(v@ =~= s@);
    v
}

/// Relies on `Iterator::collect` for `String`: the collected string holds
/// exactly the characters of the vector, in order.
#[verifier::external_body]
pub fn chars_to_string(v: &Vec<char>) -> (r: String)
    ensures
        r@ == v@,
{
    v.iter().collect()
}

/// What lossy UTF-8 decoding yields on the given bytes; invalid
/// sequences become replacement characters. The result depends on the
/// bytes alone.
pub uninterp spec fn utf8_lossy(bytes: Seq<u8>) -> Seq<char>;

/// Relies on `String::from_utf8_lossy`: decodes UTF-8, substituting
/// replacement characters for invalid sequences; valid input decodes
/// exactly.
#[verifier::external_body]
pub fn bytes_to_string_lossy(bytes: &[u8]) -> (r: String)
    ensures
        r@ == utf8_lossy(bytes@),
        vstd::utf8::valid_utf8(bytes@) ==> r@ == vstd::utf8::decode_utf8(bytes@),
{
    String::from_utf8_lossy(bytes).into_owned()
}

/// Relies on `str::from_utf8`: succeeds exactly on valid UTF-8, decoding
/// it.
#[verifier::external_body]
pub fn bytes_to_string_strict(bytes: &[u8]) -> (r: Option<String>)
    ensures
        r is Some <==> vstd::utf8::valid_utf8(bytes@),
        r is Some ==> r->0@ == vstd::utf8::decode_utf8(bytes@),
{
    match core::str::from_utf8(bytes) {
        Ok(s) => Some(s.to_owned()),
        Err(_) => None,
    }
}

/// A character equals the result of casting its own code point back to
/// `char`.
pub proof fn lemma_char_cast_roundtrip(c: char, code: u32)
    requires
        c as u32 == code,
    ensures
        c == code as char,
{
}

/// Relies on `char::from_u32`: `Some` exactly when the value is a Unicode
/// scalar value (not a surrogate, at most 0x10FFFF), holding that code point.
#[verifier::external_body]
pub fn char_from_u32(code: u32) -> (r: Option<char>)
    ensures
        r is Some <==> (code < 0xD800 || (0xE000 <= code && code <= 0x10FFFF)),
        r is Some ==> r->0 as u32 == code,
{
    char::from_u32(code)
}

} // verus!
