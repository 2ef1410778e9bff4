//! Byte-level text utilities.
//!
//! Source text is modelled as a sequence of bytes.  This module provides the
//! primitive scanning operations the extractors are built from: substring
//! search, whitespace/word-character runs, trimming, and byte-vector
//! comparisons.  Keyword patterns are written as ASCII string literals and
//! converted to bytes by `str_bytes`.

use vstd::prelude::*;

verus! {

/// ASCII whitespace: space, tab, line feed, vertical tab, form feed,
/// carriage return.
pub open spec fn is_ws(b: u8) -> bool {
    b == 0x20 || (0x09 <= b && b <= 0x0d)
}

/// A word byte: ASCII letter, digit, or underscore.  These form identifier
/// names and decide word boundaries.
pub open spec fn is_word_byte(b: u8) -> bool {
    (0x30 <= b && b <= 0x39) || (0x41 <= b && b <= 0x5a) || (0x61 <= b && b <= 0x7a) || b
        == 0x5f
}

/// Runtime check for `is_ws`.
pub fn ws_byte(b: u8) -> (r: bool)
    ensures
        r == is_ws(b),
{
    b == 0x20 || (0x09 <= b && b <= 0x0d)
}

/// Runtime check for `is_word_byte`.
pub fn word_byte(b: u8) -> (r: bool)
    ensures
        r == is_word_byte(b),
{
    (0x30 <= b && b <= 0x39) || (0x41 <= b && b <= 0x5a) || (0x61 <= b && b <= 0x7a) || b
        == 0x5f
}

/// The bytes of an ASCII character sequence, one byte per character.
pub open spec fn lit_bytes(s: Seq<char>) -> Seq<u8> {
    Seq::new(s.len(), |i: int| s[i] as u8)
}

/// Converts an ASCII string to its byte vector.
pub fn str_bytes(s: &str) -> (r: Vec<u8>)
    requires
        vstd::string::is_ascii(s),
    ensures
        r@ == lit_bytes(s@),
{
    let r = s.as_bytes_vec();
    proof {
        vstd::string::is_ascii_spec_bytes(s);
        assert(r@ =~= lit_bytes(s@));
    }
    r
}

/// Whether the two byte vectors hold the same bytes.
pub fn bytes_eq(a: &Vec<u8>, b: &Vec<u8>) -> (r: bool)
    ensures
        r == (a@ == b@),
{
    if a.len() != b.len() {
        proof {
            assert(a@ !~= b@);
        }
        return false;
    }
    let mut i: usize = 0;
    while i < a.len()
        invariant
            i <= a@.len(),
            a@.len() == b@.len(),
            forall|j: int| 0 <= j < i ==> a@[j] == b@[j],
        decreases a@.len() - i,
    {
        if a[i] != b[i] {
            return false;
        }
        i = i + 1;
    }
    proof {
        assert(a@ =~= b@);
    }
    true
}

/// The pattern `pat` occurs in `s` at position `i`.
pub open spec fn match_at(s: Seq<u8>, pat: Seq<u8>, i: int) -> bool {
    0 <= i && i + pat.len() <= s.len() && s.subrange(i, i + pat.len() as int) == pat
}

/// The first position at or after `from` where `pat` occurs in `s`, if any.
pub open spec fn find_from(s: Seq<u8>, pat: Seq<u8>, from: int) -> Option<int>
    decreases s.len() + 1 - from,
{
    if from < 0 || from + pat.len() > s.len() {
        None
    } else if match_at(s, pat, from) {
        Some(from)
    } else {
        find_from(s, pat, from + 1)
    }
}

/// `pat` occurs somewhere in `s`.
pub open spec fn contains_sub(s: Seq<u8>, pat: Seq<u8>) -> bool {
    find_from(s, pat, 0) is Some
}

/// `s` begins with `pat`.
pub open spec fn starts_with(s: Seq<u8>, pat: Seq<u8>) -> bool {
    match_at(s, pat, 0)
}

/// `s` ends with `pat`.
pub open spec fn ends_with(s: Seq<u8>, pat: Seq<u8>) -> bool {
    match_at(s, pat, s.len() - pat.len())
}

/// Whether `pat` occurs in `s` at position `i`.
pub fn matches_at(s: &Vec<u8>, pat: &Vec<u8>, i: usize) -> (r: bool)
    requires
        i + pat@.len() <= s@.len(),
    ensures
        r == match_at(s@, pat@, i as int),
{
    let n = s.len();
    let mut j: usize = 0;
    while j < pat.len()
        invariant
            n == s@.len(),
            j <= pat@.len(),
            i + pat@.len() <= s@.len(),
            forall|k: int| 0 <= k < j ==> s@[i + k] == pat@[k],
        decreases pat@.len() - j,
    {
        if s[i + j] != pat[j] {
            proof {
                assert(s@.subrange(i as int, i + pat@.len() as int)[j as int] != pat@[j as int]);
            }
            return false;
        }
        j = j + 1;
    }
    proof {
        assert(s@.subrange(i as int, i + pat@.len() as int) =~= pat@);
    }
    true
}

/// Finds the first occurrence of `pat` in `s` at or after `from`.
pub fn find_sub(s: &Vec<u8>, pat: &Vec<u8>, from: usize) -> (r: Option<usize>)
    ensures
        match r {
            Some(i) => find_from(s@, pat@, from as int) == Some(i as int),
            None => find_from(s@, pat@, from as int) == None::<int>,
        },
{
    if pat.len() == 0 {
        if from <= s.len() {
            proof {
                assert(s@.subrange(from as int, from as int) =~= pat@);
            }
            return Some(from);
        } else {
            return None;
        }
    }
    let mut i: usize = from;
    while pat.len() <= s.len() && i <= s.len() - pat.len()
        invariant
            from <= i,
            pat@.len() >= 1,
            find_from(s@, pat@, from as int) == find_from(s@, pat@, i as int),
        decreases s@.len() + 1 - i,
    {
        if matches_at(s, pat, i) {
            return Some(i);
        }
        i = i + 1;
    }
    None
}

/// `pat` occurs somewhere in `s`.
pub fn contains_bytes(s: &Vec<u8>, pat: &Vec<u8>) -> (r: bool)
    ensures
        r == contains_sub(s@, pat@),
{
    match find_sub(s, pat, 0) {
        Some(_) => true,
        None => false,
    }
}

/// `s` begins with `pat`.
pub fn starts_with_bytes(s: &Vec<u8>, pat: &Vec<u8>) -> (r: bool)
    ensures
        r == starts_with(s@, pat@),
{
    if pat.len() > s.len() {
        return false;
    }
    matches_at(s, pat, 0)
}

/// `s` ends with `pat`.
pub fn ends_with_bytes(s: &Vec<u8>, pat: &Vec<u8>) -> (r: bool)
    ensures
        r == ends_with(s@, pat@),
{
    if pat.len() > s.len() {
        return false;
    }
    matches_at(s, pat, s.len() - pat.len())
}

/// A successful search yields a genuine match position at or after `from`.
pub proof fn lemma_find_from_some(s: Seq<u8>, pat: Seq<u8>, from: int, i: int)
    requires
        find_from(s, pat, from) == Some(i),
    ensures
        from <= i,
        match_at(s, pat, i),
    decreases s.len() + 1 - from,
{
    if from < 0 || from + pat.len() > s.len() {
    } else if match_at(s, pat, from) {
    } else {
        lemma_find_from_some(s, pat, from + 1, i);
    }
}

/// A position that matches, with no match before it, is what the search
/// finds.
pub proof fn lemma_find_from_first(s: Seq<u8>, pat: Seq<u8>, from: int, p: int)
    requires
        0 <= from <= p,
        match_at(s, pat, p),
        forall|k: int| from <= k < p ==> !match_at(s, pat, k),
    ensures
        find_from(s, pat, from) == Some(p),
    decreases p - from,
{
    if from < p {
        lemma_find_from_first(s, pat, from + 1, p);
    }
}

/// `name` occurs at `i` in `s` as a whole word: the bytes match and neither
/// neighbour is a word byte.
pub open spec fn word_occurs_at(s: Seq<u8>, name: Seq<u8>, i: int) -> bool {
    match_at(s, name, i) && (i == 0 || !is_word_byte(s[i - 1])) && (i + name.len() == s.len()
        || !is_word_byte(s[i + name.len() as int]))
}

/// The number of whole-word occurrences of `name` in `s` at or after `from`.
pub open spec fn count_word_from(s: Seq<u8>, name: Seq<u8>, from: int) -> nat
    decreases s.len() + 1 - from,
{
    if from < 0 || from + name.len() > s.len() {
        0
    } else {
        (if word_occurs_at(s, name, from) {
            1nat
        } else {
            0nat
        }) + count_word_from(s, name, from + 1)
    }
}

/// The number of whole-word occurrences of `name` in `s`.
pub open spec fn count_word(s: Seq<u8>, name: Seq<u8>) -> nat {
    count_word_from(s, name, 0)
}

/// Counts the whole-word occurrences of `name` in `s`.
pub fn count_word_occurrences(s: &Vec<u8>, name: &Vec<u8>) -> (n: usize)
    requires
        name@.len() >= 1,
    ensures
        n == count_word(s@, name@),
{
    if name.len() > s.len() {
        return 0;
    }
    let mut n: usize = 0;
    let mut i: usize = 0;
    while name.len() <= s.len() && i <= s.len() - name.len()
        invariant
            name@.len() >= 1,
            n <= i,
            count_word(s@, name@) == n + count_word_from(s@, name@, i as int),
        decreases s@.len() + 1 - i,
    {
        let prev_ok = i == 0 || !word_byte(s[i - 1]);
        let next_ok = i + name.len() == s.len() || !word_byte(s[i + name.len()]);
        if matches_at(s, name, i) && prev_ok && next_ok {
            n = n + 1;
        }
        i = i + 1;
    }
    n
}

/// A symbol is used locally when its name occurs more than once as a whole
/// word in its defining file's raw text (the declaration itself being the
/// first occurrence).
pub fn is_entity_used_locally(content: &Vec<u8>, entity_name: &Vec<u8>) -> (r: bool)
    requires
        entity_name@.len() >= 1,
    ensures
        r == (count_word(content@, entity_name@) > 1),
{
    count_word_occurrences(content, entity_name) > 1
}

/// The segments of `s` from `from` onward, split at `sep`; separators are
/// dropped, and a trailing separator yields a final empty segment.
pub open spec fn split_from(s: Seq<u8>, sep: u8, from: int) -> Seq<Seq<u8>>
    decreases s.len() + 1 - from,
    via split_from_decreases
{
    match find_from(s, seq![sep], from) {
        None => seq![s.subrange(from, s.len() as int)],
        Some(i) => seq![s.subrange(from, i)] + split_from(s, sep, i + 1),
    }
}

#[via_fn]
proof fn split_from_decreases(s: Seq<u8>, sep: u8, from: int) {
    match find_from(s, seq![sep], from) {
        Some(i) => {
            lemma_find_from_some(s, seq![sep], from, i);
        },
        None => {},
    }
}

/// Whether `pat` occurs in `s` at position `i`; false when the range does
/// not fit.
pub fn match_bytes_at(s: &Vec<u8>, pat: &Vec<u8>, i: usize) -> (r: bool)
    ensures
        r == match_at(s@, pat@, i as int),
{
    if i > s.len() || pat.len() > s.len() - i {
        false
    } else {
        matches_at(s, pat, i)
    }
}

/// Splits `s` at every occurrence of `sep`.
pub fn split_bytes(s: &Vec<u8>, sep: u8) -> (parts: Vec<Vec<u8>>)
    ensures
        parts@.map_values(|p: Vec<u8>| p@) == split_from(s@, sep, 0),
{
    let n = s.len();
    let sv: Vec<u8> = vec![sep];
    proof {
        assert(sv@ =~= seq![sep]);
    }
    let mut parts: Vec<Vec<u8>> = Vec::new();
    let mut pos: usize = 0;
    let mut done: bool = false;
    proof {
        assert(parts@.map_values(|p: Vec<u8>| p@) =~= Seq::<Seq<u8>>::empty());
        assert(Seq::<Seq<u8>>::empty() + split_from(s@, sep, 0) =~= split_from(s@, sep, 0));
    }
    while !done
        invariant
            pos <= n,
            n == s@.len(),
            sv@ == seq![sep],
            !done ==> split_from(s@, sep, 0) == parts@.map_values(|p: Vec<u8>| p@) + split_from(
                s@,
                sep,
                pos as int,
            ),
            done ==> parts@.map_values(|p: Vec<u8>| p@) == split_from(s@, sep, 0),
        decreases (if done {
            0int
        } else {
            1int
        }), n - pos,
    {
        let ghost pre = parts@.map_values(|p: Vec<u8>| p@);
        let ghost pos0 = pos as int;
        let found = find_sub(s, &sv, pos);
        match found {
            Some(k) => {
                proof {
                    lemma_find_from_some(s@, sv@, pos as int, k as int);
                }
                let seg = copy_range(s, pos, k);
                let ghost segv = seg@;
                parts.push(seg);
                pos = k + 1;
                proof {
                    assert(parts@.map_values(|p: Vec<u8>| p@) =~= pre + seq![segv]);
                    assert(pre + (seq![segv] + split_from(s@, sep, pos as int)) =~= (pre
                        + seq![segv]) + split_from(s@, sep, pos as int));
                }
            },
            None => {
                let seg = copy_range(s, pos, n);
                let ghost segv = seg@;
                parts.push(seg);
                done = true;
                proof {
                    assert(parts@.map_values(|p: Vec<u8>| p@) =~= pre + seq![segv]);
                    assert(split_from(s@, sep, pos0) == seq![segv]);
                }
            },
        }
    }
    parts
}

/// Copies a byte vector.
pub fn copy_bytes(v: &Vec<u8>) -> (r: Vec<u8>)
    ensures
        r@ == v@,
{
    let r = copy_range(v, 0, v.len());
    proof {
        assert(v@.subrange(0, v@.len() as int) =~= v@);
    }
    r
}

/// The end of the whitespace run beginning at `i`.
pub open spec fn ws_run_end(s: Seq<u8>, i: int) -> int
    decreases s.len() - i,
{
    if 0 <= i < s.len() && is_ws(s[i]) {
        ws_run_end(s, i + 1)
    } else {
        i
    }
}

/// The end of the word-byte run beginning at `i`.
pub open spec fn word_run_end(s: Seq<u8>, i: int) -> int
    decreases s.len() - i,
{
    if 0 <= i < s.len() && is_word_byte(s[i]) {
        word_run_end(s, i + 1)
    } else {
        i
    }
}

/// The run ends never pass the end of `s` and never move backwards.
pub proof fn lemma_ws_run_end_bounds(s: Seq<u8>, i: int)
    requires
        0 <= i <= s.len(),
    ensures
        i <= ws_run_end(s, i) <= s.len(),
    decreases s.len() - i,
{
    if 0 <= i < s.len() && is_ws(s[i]) {
        lemma_ws_run_end_bounds(s, i + 1);
    }
}

/// See `lemma_ws_run_end_bounds`.
pub proof fn lemma_word_run_end_bounds(s: Seq<u8>, i: int)
    requires
        0 <= i <= s.len(),
    ensures
        i <= word_run_end(s, i) <= s.len(),
    decreases s.len() - i,
{
    if 0 <= i < s.len() && is_word_byte(s[i]) {
        lemma_word_run_end_bounds(s, i + 1);
    }
}

/// Scans past whitespace starting at `i`.
pub fn scan_ws(s: &Vec<u8>, i: usize) -> (r: usize)
    requires
        i <= s@.len(),
    ensures
        r == ws_run_end(s@, i as int),
        i <= r <= s@.len(),
{
    let mut j: usize = i;
    while j < s.len() && ws_byte(s[j])
        invariant
            i <= j <= s@.len(),
            ws_run_end(s@, i as int) == ws_run_end(s@, j as int),
        decreases s@.len() - j,
    {
        j = j + 1;
    }
    j
}

/// Scans past word bytes starting at `i`.
pub fn scan_word(s: &Vec<u8>, i: usize) -> (r: usize)
    requires
        i <= s@.len(),
    ensures
        r == word_run_end(s@, i as int),
        i <= r <= s@.len(),
{
    let mut j: usize = i;
    while j < s.len() && word_byte(s[j])
        invariant
            i <= j <= s@.len(),
            word_run_end(s@, i as int) == word_run_end(s@, j as int),
        decreases s@.len() - j,
    {
        j = j + 1;
    }
    j
}

/// The end of `s` with trailing whitespace removed, scanning down from `b`.
pub open spec fn trim_end_idx(s: Seq<u8>, b: int) -> int
    decreases b,
{
    if 0 < b <= s.len() && is_ws(s[b - 1]) {
        trim_end_idx(s, b - 1)
    } else {
        b
    }
}

/// `s` with leading and trailing ASCII whitespace removed.
pub open spec fn trim_bytes(s: Seq<u8>) -> Seq<u8> {
    let b = trim_end_idx(s, s.len() as int);
    let a = ws_run_end(s, 0);
    if a <= b {
        s.subrange(a, b)
    } else {
        Seq::empty()
    }
}

/// Trailing trim never moves below zero.
pub proof fn lemma_trim_end_bounds(s: Seq<u8>, b: int)
    requires
        0 <= b <= s.len(),
    ensures
        0 <= trim_end_idx(s, b) <= b,
    decreases b,
{
    if 0 < b <= s.len() && is_ws(s[b - 1]) {
        lemma_trim_end_bounds(s, b - 1);
    }
}

/// Copies the subrange `[a, b)` of `s` into a fresh vector.
pub fn copy_range(s: &Vec<u8>, a: usize, b: usize) -> (r: Vec<u8>)
    requires
        a <= b <= s@.len(),
    ensures
        r@ == s@.subrange(a as int, b as int),
{
    let mut r: Vec<u8> = Vec::new();
    let mut i: usize = a;
    while i < b
        invariant
            a <= i <= b <= s@.len(),
            r@.len() == i - a,
            forall|j: int| 0 <= j < r@.len() ==> r@[j] == s@[a + j],
        decreases b - i,
    {
        r.push(s[i]);
        i = i + 1;
    }
    proof {
        assert(r@ =~= s@.subrange(a as int, b as int));
    }
    r
}

/// Removes leading and trailing ASCII whitespace from `s`.
pub fn trim(s: &Vec<u8>) -> (r: Vec<u8>)
    ensures
        r@ == trim_bytes(s@),
{
    let mut b: usize = s.len();
    while b > 0 && ws_byte(s[b - 1])
        invariant
            b <= s@.len(),
            trim_end_idx(s@, s@.len() as int) == trim_end_idx(s@, b as int),
        decreases b,
    {
        b = b - 1;
    }
    let a = scan_ws(s, 0);
    if a <= b {
        copy_range(s, a, b)
    } else {
        proof {
            assert(trim_bytes(s@) =~= Seq::<u8>::empty());
        }
        Vec::new()
    }
}

} // verus!
