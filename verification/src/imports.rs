//! Import extraction.
//!
//! Recognizes three import shapes over comment-stripped text: named groups
//! (`import { A, B } from '...'`), default imports (`import A from '...'`),
//! and dynamic imports (`import('...').then(m => m.Member)`).  Multi-line
//! named groups are first collapsed onto one line so the shapes can be
//! matched linearly.  Matching scans left to right and never overlaps, the
//! way a leftmost-first regular-expression search behaves.

use vstd::prelude::*;

use crate::ids::entity_id;
use crate::ids::generate_entity_id;
use crate::resolve::paths_view;
use crate::resolve::resolve_import_path;
use crate::resolve::resolve_spec;
use crate::strip::strip_spec;
use crate::text::copy_range;
use crate::text::split_bytes;
use crate::text::split_from;
use crate::text::trim_bytes;
use crate::text::find_from;
use crate::text::lemma_find_from_some;
use crate::text::lemma_ws_run_end_bounds;
use crate::text::lemma_word_run_end_bounds;
use crate::text::lit_bytes;
use crate::text::match_at;
use crate::text::match_bytes_at;
use crate::text::find_sub;
use crate::text::scan_word;
use crate::text::scan_ws;
use crate::text::str_bytes;
use crate::text::word_run_end;
use crate::text::ws_run_end;

verus! {

/// The first position at or after `from` holding a single or double quote.
pub open spec fn find_quote(s: Seq<u8>, from: int) -> Option<int>
    decreases s.len() - from,
{
    if from < 0 || from >= s.len() {
        None
    } else if s[from] == 0x27 || s[from] == 0x22 {
        Some(from)
    } else {
        find_quote(s, from + 1)
    }
}

/// A successful quote search stays in bounds and lands on a quote.
pub proof fn lemma_find_quote_some(s: Seq<u8>, from: int, e: int)
    requires
        find_quote(s, from) == Some(e),
    ensures
        from <= e < s.len(),
        s[e] == 0x27 || s[e] == 0x22,
    decreases s.len() - from,
{
    if from < 0 || from >= s.len() {
    } else if s[from] == 0x27 || s[from] == 0x22 {
    } else {
        lemma_find_quote_some(s, from + 1, e);
    }
}

/// Finds the first single or double quote at or after `from`.
pub fn scan_quote(s: &Vec<u8>, from: usize) -> (r: Option<usize>)
    ensures
        match r {
            Some(e) => find_quote(s@, from as int) == Some(e as int),
            None => find_quote(s@, from as int) is None,
        },
{
    let n = s.len();
    let mut i: usize = from;
    while i < n
        invariant
            from <= i,
            n == s@.len(),
            find_quote(s@, from as int) == find_quote(s@, i as int),
        decreases n - i,
    {
        if s[i] == 0x27 || s[i] == 0x22 {
            return Some(i);
        }
        i = i + 1;
    }
    None
}

/// A match of the shape `import { <names> } from` starting exactly at `i`,
/// with any name list (possibly empty).  Yields the position after "from"
/// and the bounds of the name list.
pub open spec fn try_group_at(s: Seq<u8>, i: int) -> Option<(int, int, int)> {
    if !match_at(s, lit_bytes("import"@), i) {
        None
    } else {
        let j = ws_run_end(s, i + 6);
        if !(j < s.len() && s[j] == 0x7b) {
            None
        } else {
            match find_from(s, seq![0x7du8], j + 1) {
                None => None,
                Some(k) => {
                    let m = ws_run_end(s, k + 1);
                    if !match_at(s, lit_bytes("from"@), m) {
                        None
                    } else {
                        Some((m + 4, j + 1, k))
                    }
                },
            }
        }
    }
}

/// A group match starts after `i`, ends in bounds, and captures a valid
/// range.
pub proof fn lemma_try_group_bounds(s: Seq<u8>, i: int)
    requires
        try_group_at(s, i) is Some,
    ensures
        ({
            let (end, gs, ge) = try_group_at(s, i)->Some_0;
            i < end <= s.len() && 0 <= gs <= ge <= s.len()
        }),
{
    reveal_strlit("import");
    reveal_strlit("from");
    let j = ws_run_end(s, i + 6);
    lemma_ws_run_end_bounds(s, i + 6);
    let k = find_from(s, seq![0x7du8], j + 1)->Some_0;
    lemma_find_from_some(s, seq![0x7du8], j + 1, k);
    lemma_ws_run_end_bounds(s, k + 1);
}

/// Tries the group shape at `i`.
pub fn try_group_at_exec(s: &Vec<u8>, imp: &Vec<u8>, from_kw: &Vec<u8>, i: usize) -> (r: Option<
    (usize, usize, usize),
>)
    requires
        imp@ == lit_bytes("import"@),
        from_kw@ == lit_bytes("from"@),
    ensures
        match r {
            Some(t) => try_group_at(s@, i as int) == Some(
                (t.0 as int, t.1 as int, t.2 as int),
            ) && i < t.0 <= s@.len() && t.1 <= t.2 <= s@.len(),
            None => try_group_at(s@, i as int) is None,
        },
{
    proof {
        reveal_strlit("import");
        reveal_strlit("from");
    }
    let n = s.len();
    if !match_bytes_at(s, imp, i) {
        return None;
    }
    let j = scan_ws(s, i + 6);
    if !(j < n && s[j] == 0x7b) {
        return None;
    }
    let close: Vec<u8> = vec![0x7du8];
    proof {
        assert(close@ =~= seq![0x7du8]);
    }
    match find_sub(s, &close, j + 1) {
        None => None,
        Some(k) => {
            proof {
                lemma_find_from_some(s@, close@, j as int + 1, k as int);
            }
            let m = scan_ws(s, k + 1);
            if !match_bytes_at(s, from_kw, m) {
                None
            } else {
                Some((m + 4, j + 1, k))
            }
        },
    }
}

/// A match of the full named-import shape starting exactly at `i`:
/// `import { <names, at least one byte> } from <quote><path><quote>`.
/// Yields the end of the match, the name-list bounds, and the path bounds.
pub open spec fn try_named_at(s: Seq<u8>, i: int) -> Option<(int, int, int, int, int)> {
    match try_group_at(s, i) {
        None => None,
        Some((gend, gs, ge)) => {
            if ge == gs {
                None
            } else {
                let q = ws_run_end(s, gend);
                if !(q < s.len() && (s[q] == 0x27 || s[q] == 0x22)) {
                    None
                } else {
                    match find_quote(s, q + 1) {
                        None => None,
                        Some(e) => if e == q + 1 {
                            None
                        } else {
                            Some((e + 1, gs, ge, q + 1, e))
                        },
                    }
                }
            }
        },
    }
}

/// A named match starts after `i`, ends in bounds, and captures valid
/// ranges.
pub proof fn lemma_try_named_bounds(s: Seq<u8>, i: int)
    requires
        try_named_at(s, i) is Some,
    ensures
        ({
            let (end, gs, ge, ps, pe) = try_named_at(s, i)->Some_0;
            i < end <= s.len() && 0 <= gs <= ge <= s.len() && 0 <= ps <= pe <= s.len()
        }),
{
    lemma_try_group_bounds(s, i);
    let (gend, gs, ge) = try_group_at(s, i)->Some_0;
    let q = ws_run_end(s, gend);
    lemma_ws_run_end_bounds(s, gend);
    let e = find_quote(s, q + 1)->Some_0;
    lemma_find_quote_some(s, q + 1, e);
}

/// Tries the named-import shape at `i`.
pub fn try_named_at_exec(s: &Vec<u8>, imp: &Vec<u8>, from_kw: &Vec<u8>, i: usize) -> (r: Option<
    (usize, usize, usize, usize, usize),
>)
    requires
        imp@ == lit_bytes("import"@),
        from_kw@ == lit_bytes("from"@),
    ensures
        match r {
            Some(t) => try_named_at(s@, i as int) == Some(
                (t.0 as int, t.1 as int, t.2 as int, t.3 as int, t.4 as int),
            ) && i < t.0 <= s@.len() && t.1 <= t.2 <= s@.len() && t.3 <= t.4 <= s@.len(),
            None => try_named_at(s@, i as int) is None,
        },
{
    let n = s.len();
    match try_group_at_exec(s, imp, from_kw, i) {
        None => None,
        Some((gend, gs, ge)) => {
            if ge == gs {
                return None;
            }
            let q = scan_ws(s, gend);
            if !(q < n && (s[q] == 0x27 || s[q] == 0x22)) {
                return None;
            }
            match scan_quote(s, q + 1) {
                None => None,
                Some(e) => {
                    proof {
                        lemma_find_quote_some(s@, q as int + 1, e as int);
                    }
                    if e == q + 1 {
                        None
                    } else {
                        Some((e + 1, gs, ge, q + 1, e))
                    }
                },
            }
        },
    }
}

/// A match of the default-import shape starting exactly at `i`:
/// `import <name> from <quote><path><quote>` with whitespace required
/// around the name.  Yields the end, the name bounds, and the path bounds.
pub open spec fn try_default_at(s: Seq<u8>, i: int) -> Option<(int, int, int, int, int)> {
    if !match_at(s, lit_bytes("import"@), i) {
        None
    } else {
        let j = ws_run_end(s, i + 6);
        if j == i + 6 {
            None
        } else {
            let w = word_run_end(s, j);
            if w == j {
                None
            } else {
                let m = ws_run_end(s, w);
                if m == w {
                    None
                } else if !match_at(s, lit_bytes("from"@), m) {
                    None
                } else {
                    let q = ws_run_end(s, m + 4);
                    if !(q < s.len() && (s[q] == 0x27 || s[q] == 0x22)) {
                        None
                    } else {
                        match find_quote(s, q + 1) {
                            None => None,
                            Some(e) => if e == q + 1 {
                                None
                            } else {
                                Some((e + 1, j, w, q + 1, e))
                            },
                        }
                    }
                }
            }
        }
    }
}

/// A default match starts after `i`, ends in bounds, and captures valid
/// ranges.
pub proof fn lemma_try_default_bounds(s: Seq<u8>, i: int)
    requires
        try_default_at(s, i) is Some,
    ensures
        ({
            let (end, ns, ne, ps, pe) = try_default_at(s, i)->Some_0;
            i < end <= s.len() && 0 <= ns <= ne <= s.len() && 0 <= ps <= pe <= s.len()
        }),
{
    reveal_strlit("import");
    reveal_strlit("from");
    let j = ws_run_end(s, i + 6);
    lemma_ws_run_end_bounds(s, i + 6);
    let w = word_run_end(s, j);
    lemma_word_run_end_bounds(s, j);
    let m = ws_run_end(s, w);
    lemma_ws_run_end_bounds(s, w);
    let q = ws_run_end(s, m + 4);
    lemma_ws_run_end_bounds(s, m + 4);
    let e = find_quote(s, q + 1)->Some_0;
    lemma_find_quote_some(s, q + 1, e);
}

/// Tries the default-import shape at `i`.
pub fn try_default_at_exec(s: &Vec<u8>, imp: &Vec<u8>, from_kw: &Vec<u8>, i: usize) -> (r: Option<
    (usize, usize, usize, usize, usize),
>)
    requires
        imp@ == lit_bytes("import"@),
        from_kw@ == lit_bytes("from"@),
    ensures
        match r {
            Some(t) => try_default_at(s@, i as int) == Some(
                (t.0 as int, t.1 as int, t.2 as int, t.3 as int, t.4 as int),
            ) && i < t.0 <= s@.len() && t.1 <= t.2 <= s@.len() && t.3 <= t.4 <= s@.len(),
            None => try_default_at(s@, i as int) is None,
        },
{
    proof {
        reveal_strlit("import");
        reveal_strlit("from");
    }
    let n = s.len();
    if !match_bytes_at(s, imp, i) {
        return None;
    }
    let j = scan_ws(s, i + 6);
    if j == i + 6 {
        return None;
    }
    let w = scan_word(s, j);
    if w == j {
        return None;
    }
    let m = scan_ws(s, w);
    if m == w {
        return None;
    }
    if !match_bytes_at(s, from_kw, m) {
        return None;
    }
    let q = scan_ws(s, m + 4);
    if !(q < n && (s[q] == 0x27 || s[q] == 0x22)) {
        return None;
    }
    match scan_quote(s, q + 1) {
        None => None,
        Some(e) => {
            proof {
                lemma_find_quote_some(s@, q as int + 1, e as int);
            }
            if e == q + 1 {
                None
            } else {
                Some((e + 1, j, w, q + 1, e))
            }
        },
    }
}

/// A match of the dynamic-import shape starting exactly at `i`:
/// `import(<quote><path><quote>).then(<param> => <obj>.<member>)`.
/// Yields the end, the path bounds, and the member-name bounds.
pub open spec fn try_lazy_at(s: Seq<u8>, i: int) -> Option<(int, int, int, int, int)> {
    if !match_at(s, lit_bytes("import"@), i) {
        None
    } else {
        let a = ws_run_end(s, i + 6);
        if !(a < s.len() && s[a] == 0x28) {
            None
        } else {
            let b = ws_run_end(s, a + 1);
            if !(b < s.len() && (s[b] == 0x27 || s[b] == 0x22)) {
                None
            } else {
                match find_quote(s, b + 1) {
                    None => None,
                    Some(e) => if e == b + 1 {
                        None
                    } else {
                        let c = ws_run_end(s, e + 1);
                        if !(c < s.len() && s[c] == 0x29) {
                            None
                        } else if !match_at(s, lit_bytes(".then"@), c + 1) {
                            None
                        } else {
                            let d = ws_run_end(s, c + 6);
                            if !(d < s.len() && s[d] == 0x28) {
                                None
                            } else {
                                let f = ws_run_end(s, d + 1);
                                let w1 = word_run_end(s, f);
                                if w1 == f {
                                    None
                                } else {
                                    let g = ws_run_end(s, w1);
                                    if !match_at(s, lit_bytes("=>"@), g) {
                                        None
                                    } else {
                                        let h = ws_run_end(s, g + 2);
                                        let w2 = word_run_end(s, h);
                                        if w2 == h {
                                            None
                                        } else if !(w2 < s.len() && s[w2] == 0x2e) {
                                            None
                                        } else {
                                            let w3 = word_run_end(s, w2 + 1);
                                            if w3 == w2 + 1 {
                                                None
                                            } else {
                                                let z = ws_run_end(s, w3);
                                                if !(z < s.len() && s[z] == 0x29) {
                                                    None
                                                } else {
                                                    Some((z + 1, b + 1, e, w2 + 1, w3))
                                                }
                                            }
                                        }
                                    }
                                }
                            }
                        }
                    },
                }
            }
        }
    }
}

/// A lazy match starts after `i`, ends in bounds, and captures valid
/// ranges.
pub proof fn lemma_try_lazy_bounds(s: Seq<u8>, i: int)
    requires
        try_lazy_at(s, i) is Some,
    ensures
        ({
            let (end, ps, pe, ns, ne) = try_lazy_at(s, i)->Some_0;
            i < end <= s.len() && 0 <= ps <= pe <= s.len() && 0 <= ns <= ne <= s.len()
        }),
{
    reveal_strlit("import");
    reveal_strlit(".then");
    reveal_strlit("=>");
    let a = ws_run_end(s, i + 6);
    lemma_ws_run_end_bounds(s, i + 6);
    let b = ws_run_end(s, a + 1);
    lemma_ws_run_end_bounds(s, a + 1);
    let e = find_quote(s, b + 1)->Some_0;
    lemma_find_quote_some(s, b + 1, e);
    let c = ws_run_end(s, e + 1);
    lemma_ws_run_end_bounds(s, e + 1);
    let d = ws_run_end(s, c + 6);
    lemma_ws_run_end_bounds(s, c + 6);
    let f = ws_run_end(s, d + 1);
    lemma_ws_run_end_bounds(s, d + 1);
    let w1 = word_run_end(s, f);
    lemma_word_run_end_bounds(s, f);
    let g = ws_run_end(s, w1);
    lemma_ws_run_end_bounds(s, w1);
    let h = ws_run_end(s, g + 2);
    lemma_ws_run_end_bounds(s, g + 2);
    let w2 = word_run_end(s, h);
    lemma_word_run_end_bounds(s, h);
    let w3 = word_run_end(s, w2 + 1);
    lemma_word_run_end_bounds(s, w2 + 1);
    let z = ws_run_end(s, w3);
    lemma_ws_run_end_bounds(s, w3);
}

/// Tries the dynamic-import shape at `i`.
pub fn try_lazy_at_exec(s: &Vec<u8>, imp: &Vec<u8>, then_kw: &Vec<u8>, arrow: &Vec<u8>, i: usize) -> (r:
    Option<(usize, usize, usize, usize, usize)>)
    requires
        imp@ == lit_bytes("import"@),
        then_kw@ == lit_bytes(".then"@),
        arrow@ == lit_bytes("=>"@),
    ensures
        match r {
            Some(t) => try_lazy_at(s@, i as int) == Some(
                (t.0 as int, t.1 as int, t.2 as int, t.3 as int, t.4 as int),
            ) && i < t.0 <= s@.len() && t.1 <= t.2 <= s@.len() && t.3 <= t.4 <= s@.len(),
            None => try_lazy_at(s@, i as int) is None,
        },
{
    proof {
        reveal_strlit("import");
        reveal_strlit(".then");
        reveal_strlit("=>");
    }
    let n = s.len();
    if !match_bytes_at(s, imp, i) {
        return None;
    }
    let a = scan_ws(s, i + 6);
    if !(a < n && s[a] == 0x28) {
        return None;
    }
    let b = scan_ws(s, a + 1);
    if !(b < n && (s[b] == 0x27 || s[b] == 0x22)) {
        return None;
    }
    let e = match scan_quote(s, b + 1) {
        None => {
            return None;
        },
        Some(e) => e,
    };
    proof {
        lemma_find_quote_some(s@, b as int + 1, e as int);
    }
    if e == b + 1 {
        return None;
    }
    let c = scan_ws(s, e + 1);
    if !(c < n && s[c] == 0x29) {
        return None;
    }
    if !match_bytes_at(s, then_kw, c + 1) {
        return None;
    }
    let d = scan_ws(s, c + 6);
    if !(d < n && s[d] == 0x28) {
        return None;
    }
    let f = scan_ws(s, d + 1);
    let w1 = scan_word(s, f);
    if w1 == f {
        return None;
    }
    let g = scan_ws(s, w1);
    if !match_bytes_at(s, arrow, g) {
        return None;
    }
    let h = scan_ws(s, g + 2);
    let w2 = scan_word(s, h);
    if w2 == h {
        return None;
    }
    if !(w2 < n && s[w2] == 0x2e) {
        return None;
    }
    let w3 = scan_word(s, w2 + 1);
    if w3 == w2 + 1 {
        return None;
    }
    let z = scan_ws(s, w3);
    if !(z < n && s[z] == 0x29) {
        return None;
    }
    Some((z + 1, b + 1, e, w2 + 1, w3))
}

/// Carriage returns and line feeds inside a collapsed name group become
/// spaces.
pub open spec fn sanitize(g: Seq<u8>) -> Seq<u8> {
    g.map_values(
        |b: u8|
            if b == 0x0a || b == 0x0d {
                0x20u8
            } else {
                b
            },
    )
}

/// The text with every `import { ... } from` group collapsed onto one
/// line: the group's line breaks become spaces and the surrounding
/// whitespace is tightened to a single canonical spelling.
pub open spec fn normalize_from(s: Seq<u8>, i: int) -> Seq<u8>
    decreases s.len() - i,
    via normalize_from_decreases
{
    if i < 0 || i >= s.len() {
        Seq::empty()
    } else {
        match try_group_at(s, i) {
            Some((end, gs, ge)) => lit_bytes("import {"@) + sanitize(s.subrange(gs, ge))
                + lit_bytes("} from"@) + normalize_from(s, end),
            None => seq![s[i]] + normalize_from(s, i + 1),
        }
    }
}

#[via_fn]
proof fn normalize_from_decreases(s: Seq<u8>, i: int) {
    if 0 <= i < s.len() {
        if try_group_at(s, i) is Some {
            lemma_try_group_bounds(s, i);
        }
    }
}

/// The fully normalized text.
pub open spec fn normalize_groups(s: Seq<u8>) -> Seq<u8> {
    normalize_from(s, 0)
}

/// Copies the range `[a, b)` of `s` with line breaks turned into spaces.
fn sanitize_range(s: &Vec<u8>, a: usize, b: usize) -> (r: Vec<u8>)
    requires
        a <= b <= s@.len(),
    ensures
        r@ == sanitize(s@.subrange(a as int, b as int)),
{
    let mut r: Vec<u8> = Vec::new();
    let mut i: usize = a;
    while i < b
        invariant
            a <= i <= b <= s@.len(),
            r@ == sanitize(s@.subrange(a as int, i as int)),
        decreases b - i,
    {
        let c = s[i];
        if c == 0x0a || c == 0x0d {
            r.push(0x20);
        } else {
            r.push(c);
        }
        i = i + 1;
        proof {
            assert(r@ =~= sanitize(s@.subrange(a as int, i as int)));
        }
    }
    proof {
        assert(r@ =~= sanitize(s@.subrange(a as int, b as int)));
    }
    r
}

/// Collapses multi-line named-import groups onto single lines.
pub fn normalize_imports(s: &Vec<u8>) -> (r: Vec<u8>)
    ensures
        r@ == normalize_groups(s@),
{
    proof {
        reveal_strlit("import");
        reveal_strlit("from");
        reveal_strlit("import {");
        reveal_strlit("} from");
    }
    let imp = str_bytes("import");
    let from_kw = str_bytes("from");
    let open_rep = str_bytes("import {");
    let close_rep = str_bytes("} from");
    let n = s.len();
    let mut out: Vec<u8> = Vec::new();
    let mut i: usize = 0;
    proof {
        assert(Seq::<u8>::empty() + normalize_from(s@, 0) =~= normalize_from(s@, 0));
    }
    while i < n
        invariant
            i <= n,
            n == s@.len(),
            imp@ == lit_bytes("import"@),
            from_kw@ == lit_bytes("from"@),
            open_rep@ == lit_bytes("import {"@),
            close_rep@ == lit_bytes("} from"@),
            normalize_groups(s@) == out@ + normalize_from(s@, i as int),
        decreases n - i,
    {
        let ghost out0 = out@;
        let ghost i0 = i as int;
        match try_group_at_exec(s, &imp, &from_kw, i) {
            Some((end, gs, ge)) => {
                let mut p1 = crate::text::copy_bytes(&open_rep);
                out.append(&mut p1);
                let mut p2 = sanitize_range(s, gs, ge);
                let ghost sanv = p2@;
                out.append(&mut p2);
                let mut p3 = crate::text::copy_bytes(&close_rep);
                out.append(&mut p3);
                i = end;
                proof {
                    assert(normalize_from(s@, i0) == lit_bytes("import {"@) + sanv + lit_bytes(
                        "} from"@,
                    ) + normalize_from(s@, i as int));
                    assert(out@ =~= out0 + (lit_bytes("import {"@) + sanv + lit_bytes("} from"@)));
                    assert(out0 + ((lit_bytes("import {"@) + sanv + lit_bytes("} from"@))
                        + normalize_from(s@, i as int)) =~= (out0 + (lit_bytes("import {"@) + sanv
                        + lit_bytes("} from"@))) + normalize_from(s@, i as int));
                    assert(out0 + (lit_bytes("import {"@) + sanv + lit_bytes("} from"@)
                        + normalize_from(s@, i as int)) =~= out0 + ((lit_bytes("import {"@) + sanv
                        + lit_bytes("} from"@)) + normalize_from(s@, i as int)));
                }
            },
            None => {
                out.push(s[i]);
                i = i + 1;
                proof {
                    assert(out@ =~= out0 + seq![s@[i0]]);
                    assert(out0 + (seq![s@[i0]] + normalize_from(s@, i as int)) =~= (out0
                        + seq![s@[i0]]) + normalize_from(s@, i as int));
                }
            },
        }
    }
    proof {
        assert(normalize_from(s@, i as int) == Seq::<u8>::empty());
        assert(out@ + Seq::<u8>::empty() =~= out@);
    }
    out
}

/// A single imported name together with the resolved path it came from,
/// keyed by the same identity rule as a declared symbol, so an edge can be
/// looked up directly in the symbol mapping.
pub struct ImportInfo {
    pub id: Vec<u8>,
    pub name: Vec<u8>,
    pub path: Vec<u8>,
}

/// The mathematical value of an import edge.
pub ghost struct EdgeModel {
    pub id: Seq<u8>,
    pub name: Seq<u8>,
    pub path: Seq<u8>,
}

impl View for ImportInfo {
    type V = EdgeModel;

    open spec fn view(&self) -> EdgeModel {
        EdgeModel { id: self.id@, name: self.name@, path: self.path@ }
    }
}

/// The edge for importing `name` from the resolved path `path`.
pub open spec fn edge_of(name: Seq<u8>, path: Seq<u8>) -> EdgeModel {
    EdgeModel { id: entity_id(path, name), name: name, path: path }
}

impl ImportInfo {
    /// Builds an edge, deriving its identity from the path and the name.
    pub fn new(name: Vec<u8>, path: Vec<u8>) -> (r: ImportInfo)
        ensures
            r@ == edge_of(name@, path@),
    {
        let id = generate_entity_id(&path, &name);
        ImportInfo { id, name, path }
    }
}

/// The mathematical value of a vector of edges.
pub open spec fn edges_view(v: Seq<ImportInfo>) -> Seq<EdgeModel> {
    v.map_values(|e: ImportInfo| e@)
}

/// The imported name an entry denotes: for `Orig as Alias` the original
/// name `Orig`; otherwise the whole trimmed entry.
pub open spec fn as_name(t: Seq<u8>) -> Seq<u8> {
    match find_from(t, lit_bytes(" as "@), 0) {
        Some(p) => trim_bytes(t.subrange(0, p)),
        None => t,
    }
}

/// The edges contributed by the comma-separated entries of one name group,
/// all pointing into the resolved path `rp`; blank entries contribute
/// nothing.
pub open spec fn edges_for_segs(segs: Seq<Seq<u8>>, i: int, rp: Seq<u8>) -> Seq<EdgeModel>
    decreases segs.len() - i,
{
    if i < 0 || i >= segs.len() {
        Seq::empty()
    } else {
        let t = trim_bytes(segs[i]);
        if t.len() == 0 {
            edges_for_segs(segs, i + 1, rp)
        } else {
            seq![edge_of(as_name(t), rp)] + edges_for_segs(segs, i + 1, rp)
        }
    }
}

/// The edges of every named-group import at or after `i`, in match order.
/// Groups whose specifier resolves to an external package yield no edges.
pub open spec fn named_edges_from(
    s: Seq<u8>,
    i: int,
    importing: Seq<u8>,
    root: Seq<u8>,
    existing: Seq<Seq<u8>>,
) -> Seq<EdgeModel>
    decreases s.len() - i,
    via named_edges_decreases
{
    if i < 0 || i >= s.len() {
        Seq::empty()
    } else {
        match try_named_at(s, i) {
            Some((end, gs, ge, ps, pe)) => {
                let rest = named_edges_from(s, end, importing, root, existing);
                match resolve_spec(importing, s.subrange(ps, pe), root, existing) {
                    None => rest,
                    Some(rp) => edges_for_segs(split_from(s.subrange(gs, ge), 0x2c, 0), 0, rp)
                        + rest,
                }
            },
            None => named_edges_from(s, i + 1, importing, root, existing),
        }
    }
}

#[via_fn]
proof fn named_edges_decreases(
    s: Seq<u8>,
    i: int,
    importing: Seq<u8>,
    root: Seq<u8>,
    existing: Seq<Seq<u8>>,
) {
    if 0 <= i < s.len() {
        if try_named_at(s, i) is Some {
            lemma_try_named_bounds(s, i);
        }
    }
}

/// The edges of every default import at or after `i`.  A captured name
/// equal to `type` or `from` is rejected as a false positive.
pub open spec fn default_edges_from(
    s: Seq<u8>,
    i: int,
    importing: Seq<u8>,
    root: Seq<u8>,
    existing: Seq<Seq<u8>>,
) -> Seq<EdgeModel>
    decreases s.len() - i,
    via default_edges_decreases
{
    if i < 0 || i >= s.len() {
        Seq::empty()
    } else {
        match try_default_at(s, i) {
            Some((end, ns, ne, ps, pe)) => {
                let rest = default_edges_from(s, end, importing, root, existing);
                let nm = s.subrange(ns, ne);
                if nm == lit_bytes("type"@) || nm == lit_bytes("from"@) {
                    rest
                } else {
                    match resolve_spec(importing, s.subrange(ps, pe), root, existing) {
                        None => rest,
                        Some(rp) => seq![edge_of(nm, rp)] + rest,
                    }
                }
            },
            None => default_edges_from(s, i + 1, importing, root, existing),
        }
    }
}

#[via_fn]
proof fn default_edges_decreases(
    s: Seq<u8>,
    i: int,
    importing: Seq<u8>,
    root: Seq<u8>,
    existing: Seq<Seq<u8>>,
) {
    if 0 <= i < s.len() {
        if try_default_at(s, i) is Some {
            lemma_try_default_bounds(s, i);
        }
    }
}

/// The edges of every dynamic import at or after `i`: one edge per match,
/// named by the member picked out of the loaded module.
pub open spec fn lazy_edges_from(
    s: Seq<u8>,
    i: int,
    importing: Seq<u8>,
    root: Seq<u8>,
    existing: Seq<Seq<u8>>,
) -> Seq<EdgeModel>
    decreases s.len() - i,
    via lazy_edges_decreases
{
    if i < 0 || i >= s.len() {
        Seq::empty()
    } else {
        match try_lazy_at(s, i) {
            Some((end, ps, pe, ns, ne)) => {
                let rest = lazy_edges_from(s, end, importing, root, existing);
                match resolve_spec(importing, s.subrange(ps, pe), root, existing) {
                    None => rest,
                    Some(rp) => seq![edge_of(s.subrange(ns, ne), rp)] + rest,
                }
            },
            None => lazy_edges_from(s, i + 1, importing, root, existing),
        }
    }
}

#[via_fn]
proof fn lazy_edges_decreases(
    s: Seq<u8>,
    i: int,
    importing: Seq<u8>,
    root: Seq<u8>,
    existing: Seq<Seq<u8>>,
) {
    if 0 <= i < s.len() {
        if try_lazy_at(s, i) is Some {
            lemma_try_lazy_bounds(s, i);
        }
    }
}

/// Every edge extracted from raw file text: comments are stripped, name
/// groups are collapsed, then the named, default and dynamic shapes are
/// collected in that order.
#[verifier::opaque]
pub open spec fn extract_imports_spec(
    content: Seq<u8>,
    importing: Seq<u8>,
    root: Seq<u8>,
    existing: Seq<Seq<u8>>,
) -> Seq<EdgeModel> {
    let norm = normalize_groups(strip_spec(content));
    named_edges_from(norm, 0, importing, root, existing) + default_edges_from(
        norm,
        0,
        importing,
        root,
        existing,
    ) + lazy_edges_from(norm, 0, importing, root, existing)
}

fn named_pass(
    norm: &Vec<u8>,
    file_path: &Vec<u8>,
    root_path: &Vec<u8>,
    existing: &Vec<Vec<u8>>,
) -> (v: Vec<ImportInfo>)
    ensures
        edges_view(v@) == named_edges_from(
            norm@,
            0,
            file_path@,
            root_path@,
            paths_view(existing@),
        ),
{
    proof {
        reveal_strlit("import");
        reveal_strlit("from");
        reveal_strlit(" as ");
    }
    let imp = str_bytes("import");
    let from_kw = str_bytes("from");
    let as_pat = str_bytes(" as ");
    let n = norm.len();
    let ghost importing = file_path@;
    let ghost root = root_path@;
    let ghost exist = paths_view(existing@);
    let mut out: Vec<ImportInfo> = Vec::new();
    let mut i: usize = 0;
    proof {
        assert(edges_view(out@) =~= Seq::<EdgeModel>::empty());
        assert(Seq::<EdgeModel>::empty() + named_edges_from(norm@, 0, importing, root, exist)
            =~= named_edges_from(norm@, 0, importing, root, exist));
    }
    while i < n
        invariant
            i <= n,
            n == norm@.len(),
            imp@ == lit_bytes("import"@),
            from_kw@ == lit_bytes("from"@),
            as_pat@ == lit_bytes(" as "@),
            importing == file_path@,
            root == root_path@,
            exist == paths_view(existing@),
            named_edges_from(norm@, 0, importing, root, exist) == edges_view(out@)
                + named_edges_from(norm@, i as int, importing, root, exist),
        decreases n - i,
    {
        let ghost pre = edges_view(out@);
        let ghost i0 = i as int;
        match try_named_at_exec(norm, &imp, &from_kw, i) {
            None => {
                i = i + 1;
            },
            Some((end, gs, ge, ps, pe)) => {
                let spec_path = copy_range(norm, ps, pe);
                match resolve_import_path(file_path, &spec_path, root_path, existing) {
                    None => {},
                    Some(rp) => {
                        let group = copy_range(norm, gs, ge);
                        let segs = split_bytes(&group, 0x2c);
                        let ghost segsv = segs@.map_values(|q: Vec<u8>| q@);
                        let ghost full = edges_for_segs(segsv, 0, rp@);
                        let m = segs.len();
                        let mut j: usize = 0;
                        proof {
                            assert(pre + edges_for_segs(segsv, 0, rp@) =~= edges_view(out@)
                                + edges_for_segs(segsv, 0, rp@));
                        }
                        while j < m
                            invariant
                                j <= m,
                                m == segsv.len(),
                                segsv == segs@.map_values(|q: Vec<u8>| q@),
                                as_pat@ == lit_bytes(" as "@),
                                pre + edges_for_segs(segsv, 0, rp@) == edges_view(out@)
                                    + edges_for_segs(segsv, j as int, rp@),
                            decreases m - j,
                        {
                            let ghost out1 = edges_view(out@);
                            let ghost j0 = j as int;
                            let t = crate::text::trim(&segs[j]);
                            proof {
                                assert(t@ == trim_bytes(segsv[j0]));
                            }
                            if t.len() > 0 {
                                let name: Vec<u8> = match find_sub(&t, &as_pat, 0) {
                                    Some(p) => {
                                        proof {
                                            lemma_find_from_some(t@, as_pat@, 0, p as int);
                                        }
                                        let cut = copy_range(&t, 0, p);
                                        crate::text::trim(&cut)
                                    },
                                    None => t,
                                };
                                proof {
                                    assert(name@ == as_name(trim_bytes(segsv[j0])));
                                }
                                let e = ImportInfo::new(name, crate::text::copy_bytes(&rp));
                                let ghost ev = e@;
                                out.push(e);
                                proof {
                                    assert(edges_view(out@) =~= out1 + seq![ev]);
                                    assert(edges_for_segs(segsv, j0, rp@) == seq![ev]
                                        + edges_for_segs(segsv, j0 + 1, rp@));
                                    assert(out1 + (seq![ev] + edges_for_segs(segsv, j0 + 1, rp@))
                                        =~= (out1 + seq![ev]) + edges_for_segs(
                                        segsv,
                                        j0 + 1,
                                        rp@,
                                    ));
                                }
                            }
                            j = j + 1;
                        }
                        proof {
                            assert(edges_for_segs(segsv, j as int, rp@) == Seq::<
                                EdgeModel,
                            >::empty());
                            assert(edges_view(out@) + Seq::<EdgeModel>::empty() =~= edges_view(
                                out@,
                            ));
                        }
                    },
                }
                i = end;
                proof {
                    let rest = named_edges_from(norm@, i as int, importing, root, exist);
                    let cur = edges_view(out@);
                    assert(cur + rest =~= pre + (named_edges_from(norm@, i0, importing, root, exist)));
                }
            },
        }
    }
    proof {
        assert(named_edges_from(norm@, i as int, importing, root, exist) == Seq::<
            EdgeModel,
        >::empty());
        assert(edges_view(out@) + Seq::<EdgeModel>::empty() =~= edges_view(out@));
    }
    out
}

fn default_pass(
    norm: &Vec<u8>,
    file_path: &Vec<u8>,
    root_path: &Vec<u8>,
    existing: &Vec<Vec<u8>>,
) -> (v: Vec<ImportInfo>)
    ensures
        edges_view(v@) == default_edges_from(
            norm@,
            0,
            file_path@,
            root_path@,
            paths_view(existing@),
        ),
{
    proof {
        reveal_strlit("import");
        reveal_strlit("from");
        reveal_strlit("type");
    }
    let imp = str_bytes("import");
    let from_kw = str_bytes("from");
    let type_kw = str_bytes("type");
    let n = norm.len();
    let ghost importing = file_path@;
    let ghost root = root_path@;
    let ghost exist = paths_view(existing@);
    let mut out: Vec<ImportInfo> = Vec::new();
    let mut i: usize = 0;
    proof {
        assert(Seq::<EdgeModel>::empty() + default_edges_from(norm@, 0, importing, root, exist)
            =~= default_edges_from(norm@, 0, importing, root, exist));
        assert(edges_view(out@) =~= Seq::<EdgeModel>::empty());
    }
    while i < n
        invariant
            i <= n,
            n == norm@.len(),
            imp@ == lit_bytes("import"@),
            from_kw@ == lit_bytes("from"@),
            type_kw@ == lit_bytes("type"@),
            importing == file_path@,
            root == root_path@,
            exist == paths_view(existing@),
            default_edges_from(norm@, 0, importing, root, exist) == edges_view(out@)
                + default_edges_from(norm@, i as int, importing, root, exist),
        decreases n - i,
    {
        let ghost pre = edges_view(out@);
        let ghost i0 = i as int;
        match try_default_at_exec(norm, &imp, &from_kw, i) {
            None => {
                i = i + 1;
            },
            Some((end, ns, ne, ps, pe)) => {
                let nm = copy_range(norm, ns, ne);
                let skip = crate::text::bytes_eq(&nm, &type_kw) || crate::text::bytes_eq(
                    &nm,
                    &from_kw,
                );
                if !skip {
                    let spec_path = copy_range(norm, ps, pe);
                    match resolve_import_path(file_path, &spec_path, root_path, existing) {
                        None => {},
                        Some(rp) => {
                            let e = ImportInfo::new(nm, rp);
                            let ghost ev = e@;
                            out.push(e);
                            proof {
                                assert(edges_view(out@) =~= pre + seq![ev]);
                            }
                        },
                    }
                }
                i = end;
                proof {
                    let rest = default_edges_from(norm@, i as int, importing, root, exist);
                    let cur = edges_view(out@);
                    assert(cur + rest =~= pre + (default_edges_from(
                        norm@,
                        i0,
                        importing,
                        root,
                        exist,
                    )));
                }
            },
        }
    }
    proof {
        assert(default_edges_from(norm@, i as int, importing, root, exist) == Seq::<
            EdgeModel,
        >::empty());
        assert(edges_view(out@) + Seq::<EdgeModel>::empty() =~= edges_view(out@));
    }
    out
}

fn lazy_pass(
    norm: &Vec<u8>,
    file_path: &Vec<u8>,
    root_path: &Vec<u8>,
    existing: &Vec<Vec<u8>>,
) -> (v: Vec<ImportInfo>)
    ensures
        edges_view(v@) == lazy_edges_from(
            norm@,
            0,
            file_path@,
            root_path@,
            paths_view(existing@),
        ),
{
    proof {
        reveal_strlit("import");
        reveal_strlit(".then");
        reveal_strlit("=>");
    }
    let imp = str_bytes("import");
    let then_kw = str_bytes(".then");
    let arrow = str_bytes("=>");
    let n = norm.len();
    let ghost importing = file_path@;
    let ghost root = root_path@;
    let ghost exist = paths_view(existing@);
    let mut out: Vec<ImportInfo> = Vec::new();
    let mut i: usize = 0;
    proof {
        assert(Seq::<EdgeModel>::empty() + lazy_edges_from(norm@, 0, importing, root, exist)
            =~= lazy_edges_from(norm@, 0, importing, root, exist));
        assert(edges_view(out@) =~= Seq::<EdgeModel>::empty());
    }
    while i < n
        invariant
            i <= n,
            n == norm@.len(),
            imp@ == lit_bytes("import"@),
            then_kw@ == lit_bytes(".then"@),
            arrow@ == lit_bytes("=>"@),
            importing == file_path@,
            root == root_path@,
            exist == paths_view(existing@),
            lazy_edges_from(norm@, 0, importing, root, exist) == edges_view(out@)
                + lazy_edges_from(norm@, i as int, importing, root, exist),
        decreases n - i,
    {
        let ghost pre = edges_view(out@);
        let ghost i0 = i as int;
        match try_lazy_at_exec(norm, &imp, &then_kw, &arrow, i) {
            None => {
                i = i + 1;
            },
            Some((end, ps, pe, ns, ne)) => {
                let spec_path = copy_range(norm, ps, pe);
                match resolve_import_path(file_path, &spec_path, root_path, existing) {
                    None => {},
                    Some(rp) => {
                        let nm = copy_range(norm, ns, ne);
                        let e = ImportInfo::new(nm, rp);
                        let ghost ev = e@;
                        out.push(e);
                        proof {
                            assert(edges_view(out@) =~= pre + seq![ev]);
                        }
                    },
                }
                i = end;
                proof {
                    let rest = lazy_edges_from(norm@, i as int, importing, root, exist);
                    let cur = edges_view(out@);
                    assert(cur + rest =~= pre + (lazy_edges_from(norm@, i0, importing, root, exist)));
                }
            },
        }
    }
    proof {
        assert(lazy_edges_from(norm@, i as int, importing, root, exist) == Seq::<
            EdgeModel,
        >::empty());
        assert(edges_view(out@) + Seq::<EdgeModel>::empty() =~= edges_view(out@));
    }
    out
}

/// Extracts every import edge from raw file text: named groups (with
/// aliases resolved to the original exported name), default imports, and
/// dynamic imports, each resolved against the importing file's location.
pub fn extract_imports(
    content: &Vec<u8>,
    file_path: &Vec<u8>,
    root_path: &Vec<u8>,
    existing: &Vec<Vec<u8>>,
) -> (r: Vec<ImportInfo>)
    ensures
        edges_view(r@) == extract_imports_spec(
            content@,
            file_path@,
            root_path@,
            paths_view(existing@),
        ),
{
    proof {
        reveal(extract_imports_spec);
    }
    let stripped = crate::strip::strip_comments(content);
    let norm = normalize_imports(&stripped);
    let mut r = named_pass(&norm, file_path, root_path, existing);
    let ghost v1 = edges_view(r@);
    let mut v2 = default_pass(&norm, file_path, root_path, existing);
    let ghost v2v = edges_view(v2@);
    let mut v3 = lazy_pass(&norm, file_path, root_path, existing);
    let ghost v3v = edges_view(v3@);
    r.append(&mut v2);
    r.append(&mut v3);
    proof {
        assert(edges_view(r@) =~= v1 + v2v + v3v);
    }
    r
}

/// An aliased entry `Orig as Alias` contributes the original exported
/// name, not the local alias: for a name made of word bytes, the entry
/// resolves to exactly that name.
pub proof fn lemma_alias_uses_original_name(orig: Seq<u8>, alias: Seq<u8>)
    requires
        orig.len() > 0,
        forall|k: int| 0 <= k < orig.len() ==> crate::text::is_word_byte(orig[k]),
    ensures
        as_name(orig + lit_bytes(" as "@) + alias) == orig,
{
    reveal_strlit(" as ");
    let pat = lit_bytes(" as "@);
    let t = orig + pat + alias;
    assert(t.len() == orig.len() + 4 + alias.len());
    assert forall|k: int| 0 <= k < orig.len() implies !crate::text::match_at(t, pat, k) by {
        if k + pat.len() <= t.len() {
            if t.subrange(k, k + pat.len() as int) == pat {
                assert(t.subrange(k, k + pat.len() as int)[0] == pat[0]);
                assert(t[k] == 0x20);
                assert(crate::text::is_word_byte(orig[k]));
            }
        }
    }
    assert(t.subrange(orig.len() as int, orig.len() as int + 4) =~= pat);
    assert(crate::text::match_at(t, pat, orig.len() as int));
    crate::text::lemma_find_from_first(t, pat, 0, orig.len() as int);
    assert(t.subrange(0, orig.len() as int) =~= orig);
    lemma_trim_word_bytes(orig);
}

/// Trimming leaves a nonempty all-word-byte sequence unchanged.
proof fn lemma_trim_word_bytes(s: Seq<u8>)
    requires
        s.len() > 0,
        forall|k: int| 0 <= k < s.len() ==> crate::text::is_word_byte(s[k]),
    ensures
        trim_bytes(s) == s,
{
    assert(!crate::text::is_ws(s[0]));
    assert(!crate::text::is_ws(s[s.len() - 1]));
    assert(crate::text::trim_end_idx(s, s.len() as int) == s.len());
    assert(crate::text::ws_run_end(s, 0) == 0);
    assert(s.subrange(0, s.len() as int) =~= s);
}

} // verus!
