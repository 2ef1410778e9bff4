//! Comment stripping.
//!
//! Removes `//` line comments and `/* ... */` block comments from source
//! text while leaving string literals (single-quoted, double-quoted, or
//! backtick-quoted, with backslash escapes) untouched.  A line comment
//! without a terminating newline, or a block comment left open, extends to
//! the end of the input.

use vstd::prelude::*;

verus! {

/// Scanner state: outside any construct, inside a string opened by the
/// given quote byte, inside a line comment, or inside a block comment.
#[derive(Clone, Copy)]
pub enum StripState {
    Normal,
    InString(u8),
    LineComment,
    BlockComment,
}

/// The output of the comment stripper on `s` from position `i` onward,
/// starting in state `st`.
pub open spec fn strip_from(s: Seq<u8>, i: int, st: StripState) -> Seq<u8>
    decreases s.len() - i,
{
    if i < 0 || i >= s.len() {
        Seq::empty()
    } else {
        let c = s[i];
        match st {
            StripState::Normal => {
                if c == 0x2f && i + 1 < s.len() && s[i + 1] == 0x2f {
                    strip_from(s, i + 2, StripState::LineComment)
                } else if c == 0x2f && i + 1 < s.len() && s[i + 1] == 0x2a {
                    strip_from(s, i + 2, StripState::BlockComment)
                } else if c == 0x22 || c == 0x27 || c == 0x60 {
                    seq![c] + strip_from(s, i + 1, StripState::InString(c))
                } else {
                    seq![c] + strip_from(s, i + 1, StripState::Normal)
                }
            },
            StripState::InString(q) => {
                if c == 0x5c {
                    if i + 1 < s.len() {
                        seq![c, s[i + 1]] + strip_from(s, i + 2, StripState::InString(q))
                    } else {
                        seq![c]
                    }
                } else if c == q {
                    seq![c] + strip_from(s, i + 1, StripState::Normal)
                } else {
                    seq![c] + strip_from(s, i + 1, StripState::InString(q))
                }
            },
            StripState::LineComment => {
                if c == 0x0a {
                    seq![c] + strip_from(s, i + 1, StripState::Normal)
                } else {
                    strip_from(s, i + 1, StripState::LineComment)
                }
            },
            StripState::BlockComment => {
                if c == 0x2a && i + 1 < s.len() && s[i + 1] == 0x2f {
                    strip_from(s, i + 2, StripState::Normal)
                } else {
                    strip_from(s, i + 1, StripState::BlockComment)
                }
            },
        }
    }
}

/// The comment-stripped form of `s`.
pub open spec fn strip_spec(s: Seq<u8>) -> Seq<u8> {
    strip_from(s, 0, StripState::Normal)
}

proof fn lemma_concat_assoc(a: Seq<u8>, b: Seq<u8>, c: Seq<u8>)
    ensures
        (a + b) + c == a + (b + c),
{
    assert((a + b) + c =~= a + (b + c));
}

/// Removes line and block comments from `content`; string literal contents
/// pass through unchanged.  The output is never longer than the input.
pub fn strip_comments(content: &Vec<u8>) -> (r: Vec<u8>)
    ensures
        r@ == strip_spec(content@),
        r@.len() <= content@.len(),
{
    let n = content.len();
    let mut r: Vec<u8> = Vec::new();
    let mut st: StripState = StripState::Normal;
    let mut i: usize = 0;
    while i < n
        invariant
            n == content@.len(),
            i <= n,
            r@.len() <= i,
            strip_spec(content@) == r@ + strip_from(content@, i as int, st),
        decreases n - i,
    {
        let ghost s = content@;
        let ghost i0 = i as int;
        let ghost st0 = st;
        let ghost r0 = r@;
        let c = content[i];
        match st {
            StripState::Normal => {
                if c == 0x2f && i + 1 < n && content[i + 1] == 0x2f {
                    st = StripState::LineComment;
                    i = i + 2;
                } else if c == 0x2f && i + 1 < n && content[i + 1] == 0x2a {
                    st = StripState::BlockComment;
                    i = i + 2;
                } else if c == 0x22 || c == 0x27 || c == 0x60 {
                    r.push(c);
                    st = StripState::InString(c);
                    i = i + 1;
                    proof {
                        lemma_concat_assoc(r0, seq![c], strip_from(s, i0 + 1, st));
                    }
                } else {
                    r.push(c);
                    i = i + 1;
                    proof {
                        lemma_concat_assoc(r0, seq![c], strip_from(s, i0 + 1, st));
                    }
                }
            },
            StripState::InString(q) => {
                if c == 0x5c {
                    r.push(c);
                    if i + 1 < n {
                        r.push(content[i + 1]);
                        i = i + 2;
                        proof {
                            assert(r@ =~= r0 + seq![c, s[i0 + 1]]);
                            lemma_concat_assoc(r0, seq![c, s[i0 + 1]], strip_from(s, i0 + 2, st));
                        }
                    } else {
                        i = i + 1;
                        proof {
                            assert(strip_from(s, i0, st0) == seq![c]);
                            assert(strip_from(s, i0 + 1, st) == Seq::<u8>::empty());
                            lemma_concat_assoc(r0, seq![c], strip_from(s, i0 + 1, st));
                        }
                    }
                } else if c == q {
                    r.push(c);
                    st = StripState::Normal;
                    i = i + 1;
                    proof {
                        lemma_concat_assoc(r0, seq![c], strip_from(s, i0 + 1, st));
                    }
                } else {
                    r.push(c);
                    i = i + 1;
                    proof {
                        lemma_concat_assoc(r0, seq![c], strip_from(s, i0 + 1, st));
                    }
                }
            },
            StripState::LineComment => {
                if c == 0x0a {
                    r.push(c);
                    st = StripState::Normal;
                    i = i + 1;
                    proof {
                        lemma_concat_assoc(r0, seq![c], strip_from(s, i0 + 1, st));
                    }
                } else {
                    i = i + 1;
                }
            },
            StripState::BlockComment => {
                if c == 0x2a && i + 1 < n && content[i + 1] == 0x2f {
                    st = StripState::Normal;
                    i = i + 2;
                } else {
                    i = i + 1;
                }
            },
        }
    }
    proof {
        assert(strip_from(content@, i as int, st) == Seq::<u8>::empty());
        assert(r@ + Seq::<u8>::empty() =~= r@);
    }
    r
}

/// Processing a suffix depends only on the bytes of that suffix: stripping
/// `a + t` from the start of `t` equals stripping `t` alone.
pub proof fn lemma_strip_append_left(a: Seq<u8>, t: Seq<u8>, i: int, st: StripState)
    requires
        0 <= i,
    ensures
        strip_from(a + t, a.len() + i, st) == strip_from(t, i, st),
    decreases t.len() - i,
{
    if i >= t.len() {
    } else {
        let c = t[i];
        match st {
            StripState::Normal => {
                if c == 0x2f && i + 1 < t.len() && t[i + 1] == 0x2f {
                    lemma_strip_append_left(a, t, i + 2, StripState::LineComment);
                } else if c == 0x2f && i + 1 < t.len() && t[i + 1] == 0x2a {
                    lemma_strip_append_left(a, t, i + 2, StripState::BlockComment);
                } else if c == 0x22 || c == 0x27 || c == 0x60 {
                    lemma_strip_append_left(a, t, i + 1, StripState::InString(c));
                } else {
                    lemma_strip_append_left(a, t, i + 1, StripState::Normal);
                }
            },
            StripState::InString(q) => {
                if c == 0x5c {
                    if i + 1 < t.len() {
                        lemma_strip_append_left(a, t, i + 2, StripState::InString(q));
                    }
                } else if c == q {
                    lemma_strip_append_left(a, t, i + 1, StripState::Normal);
                } else {
                    lemma_strip_append_left(a, t, i + 1, StripState::InString(q));
                }
            },
            StripState::LineComment => {
                if c == 0x0a {
                    lemma_strip_append_left(a, t, i + 1, StripState::Normal);
                } else {
                    lemma_strip_append_left(a, t, i + 1, StripState::LineComment);
                }
            },
            StripState::BlockComment => {
                if c == 0x2a && i + 1 < t.len() && t[i + 1] == 0x2f {
                    lemma_strip_append_left(a, t, i + 2, StripState::Normal);
                } else {
                    lemma_strip_append_left(a, t, i + 1, StripState::BlockComment);
                }
            },
        }
    }
}

/// Inside a line comment, bytes other than a newline are consumed silently.
proof fn lemma_line_comment_consumes(s: Seq<u8>, i: int, j: int)
    requires
        0 <= i <= j <= s.len(),
        forall|k: int| i <= k < j ==> s[k] != 0x0a,
    ensures
        strip_from(s, i, StripState::LineComment) == strip_from(s, j, StripState::LineComment),
    decreases j - i,
{
    if i < j {
        lemma_line_comment_consumes(s, i + 1, j);
    }
}

/// Wrapping a line in a `//` comment removes it from the stripped output:
/// only the terminating newline survives, and scanning resumes unchanged on
/// the rest of the input.
pub proof fn lemma_line_comment_hides(line: Seq<u8>, rest: Seq<u8>)
    requires
        forall|k: int| 0 <= k < line.len() ==> line[k] != 0x0a,
    ensures
        strip_spec(seq![0x2fu8, 0x2fu8] + line + seq![0x0au8] + rest) == seq![0x0au8]
            + strip_spec(rest),
{
    let dd = seq![0x2fu8, 0x2fu8];
    let nl = seq![0x0au8];
    let full = dd + line + nl + rest;
    let tail = line + nl + rest;
    assert(full =~= dd + tail);
    assert(full[0] == 0x2f && full[1] == 0x2f);
    assert(full.len() >= 2 + line.len() + 1);
    assert(strip_spec(full) == strip_from(full, 2, StripState::LineComment));
    lemma_strip_append_left(dd, tail, 0, StripState::LineComment);
    assert(strip_from(full, 2, StripState::LineComment) == strip_from(
        tail,
        0,
        StripState::LineComment,
    ));
    assert(forall|k: int| 0 <= k < line.len() ==> tail[k] != 0x0a);
    lemma_line_comment_consumes(tail, 0, line.len() as int);
    assert(tail[line.len() as int] == 0x0a);
    assert(strip_from(tail, line.len() as int, StripState::LineComment) == seq![0x0au8]
        + strip_from(tail, line.len() as int + 1, StripState::Normal));
    assert(tail =~= (line + nl) + rest);
    lemma_strip_append_left(line + nl, rest, 0, StripState::Normal);
}

/// Inside a string literal, bytes other than the closing quote and the
/// escape character are copied through unchanged.
proof fn lemma_string_copies(s: Seq<u8>, i: int, j: int, q: u8)
    requires
        0 <= i <= j <= s.len(),
        forall|k: int| i <= k < j ==> s[k] != q && s[k] != 0x5c,
    ensures
        strip_from(s, i, StripState::InString(q)) == s.subrange(i, j) + strip_from(
            s,
            j,
            StripState::InString(q),
        ),
    decreases j - i,
{
    if i == j {
        assert(s.subrange(i, j) =~= Seq::<u8>::empty());
        assert(s.subrange(i, j) + strip_from(s, j, StripState::InString(q)) =~= strip_from(
            s,
            j,
            StripState::InString(q),
        ));
    } else {
        lemma_string_copies(s, i + 1, j, q);
        assert(strip_from(s, i, StripState::InString(q)) == seq![s[i]] + (s.subrange(i + 1, j)
            + strip_from(s, j, StripState::InString(q))));
        assert(seq![s[i]] + (s.subrange(i + 1, j) + strip_from(s, j, StripState::InString(q)))
            =~= s.subrange(i, j) + strip_from(s, j, StripState::InString(q)));
    }
}

/// A string literal passes through the stripper verbatim, even when its body
/// looks like a comment, and scanning resumes unchanged after the closing
/// quote.
pub proof fn lemma_string_literal_preserved(q: u8, body: Seq<u8>, rest: Seq<u8>)
    requires
        q == 0x22 || q == 0x27 || q == 0x60,
        forall|k: int| 0 <= k < body.len() ==> body[k] != q && body[k] != 0x5c,
    ensures
        strip_spec(seq![q] + body + seq![q] + rest) == seq![q] + body + seq![q] + strip_spec(rest),
{
    let qs = seq![q];
    let full = qs + body + qs + rest;
    let tail = body + qs + rest;
    assert(full =~= qs + tail);
    assert(full[0] == q);
    assert(full[0] != 0x2f && full[0] != 0x5c);
    assert(strip_spec(full) == seq![q] + strip_from(full, 1, StripState::InString(q)));
    lemma_strip_append_left(qs, tail, 0, StripState::InString(q));
    assert(forall|k: int| 0 <= k < body.len() ==> tail[k] != q && tail[k] != 0x5c);
    lemma_string_copies(tail, 0, body.len() as int, q);
    assert(tail.subrange(0, body.len() as int) =~= body);
    assert(tail[body.len() as int] == q);
    assert(strip_from(tail, body.len() as int, StripState::InString(q)) == seq![q] + strip_from(
        tail,
        body.len() as int + 1,
        StripState::Normal,
    ));
    assert(tail =~= (body + qs) + rest);
    lemma_strip_append_left(body + qs, rest, 0, StripState::Normal);
    assert(seq![q] + (body + (seq![q] + strip_spec(rest))) =~= seq![q] + body + seq![q]
        + strip_spec(rest));
}

} // verus!
