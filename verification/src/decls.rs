//! Exported-declaration extraction.
//!
//! Scans comment-stripped source text line by line and recognizes exported
//! declarations by keyword co-occurrence: classes, enums, type aliases,
//! interfaces, functions, and const-like bindings.  The recognizer is a
//! deliberate line-oriented heuristic, not a grammar parser: a declaration
//! is found only when its keywords and name share one line.

use vstd::prelude::*;

use crate::text::contains_bytes;
use crate::text::contains_sub;
use crate::text::copy_range;
use crate::text::find_from;
use crate::text::find_sub;
use crate::text::lemma_find_from_some;
use crate::text::lit_bytes;
use crate::text::scan_word;
use crate::text::scan_ws;
use crate::text::split_from;
use crate::text::starts_with;
use crate::text::starts_with_bytes;
use crate::text::str_bytes;
use crate::text::trim;
use crate::text::trim_bytes;
use crate::text::word_run_end;
use crate::text::ws_run_end;

verus! {

/// The kind of a tracked symbol.  `Unknown` marks a placeholder created
/// from an import whose defining file was not (or not yet) scanned.
#[derive(Clone, Copy, PartialEq, Eq, Structural, Debug)]
pub enum EntityType {
    Unknown,
    Class,
    Enum,
    TypeAlias,
    Interface,
    Function,
    Const,
}

/// The identifier extracted after the first occurrence of `kw` in `line`:
/// skip whitespace, then take the maximal run of word bytes.  `None` when
/// the keyword is absent or no identifier follows it.
pub open spec fn extract_name_spec(line: Seq<u8>, kw: Seq<u8>) -> Option<Seq<u8>> {
    match find_from(line, kw, 0) {
        None => None,
        Some(p) => {
            let a = ws_run_end(line, p + kw.len());
            let b = word_run_end(line, a);
            if a < b {
                Some(line.subrange(a, b))
            } else {
                None
            }
        },
    }
}

/// Extracts the declared name following `keyword` in `line`.
pub fn extract_export_name(line: &Vec<u8>, keyword: &Vec<u8>) -> (r: Option<Vec<u8>>)
    ensures
        match r {
            Some(v) => extract_name_spec(line@, keyword@) == Some(v@) && v@.len() >= 1,
            None => extract_name_spec(line@, keyword@) is None,
        },
{
    match find_sub(line, keyword, 0) {
        None => None,
        Some(p) => {
            let n = line.len();
            proof {
                lemma_find_from_some(line@, keyword@, 0, p as int);
                assert(p + keyword@.len() <= n);
            }
            let a = scan_ws(line, p + keyword.len());
            let b = scan_word(line, a);
            if a < b {
                Some(copy_range(line, a, b))
            } else {
                None
            }
        },
    }
}

/// The declarations a keyword test contributes for one trimmed line: when
/// the line contains both "export" and `kw` (and `extra_ok` holds) and a
/// name follows the keyword, one declaration of kind `ty`.
pub open spec fn simple_decl(t: Seq<u8>, kw: Seq<u8>, extra_ok: bool, ty: EntityType) -> Seq<
    (Seq<u8>, EntityType),
> {
    if contains_sub(t, lit_bytes("export"@)) && contains_sub(t, kw) && extra_ok {
        match extract_name_spec(t, kw) {
            Some(n) => seq![(n, ty)],
            None => Seq::empty(),
        }
    } else {
        Seq::empty()
    }
}

/// The declaration contributed by an `export const`/`let`/`var` binding:
/// a Function when the right-hand side carries an arrow or an explicit
/// function expression, otherwise a Const.
pub open spec fn const_like_decl(t: Seq<u8>) -> Seq<(Seq<u8>, EntityType)> {
    if starts_with(t, lit_bytes("export const"@)) || starts_with(t, lit_bytes("export let"@))
        || starts_with(t, lit_bytes("export var"@)) {
        let kw = if starts_with(t, lit_bytes("export const"@)) {
            lit_bytes("const"@)
        } else if starts_with(t, lit_bytes("export let"@)) {
            lit_bytes("let"@)
        } else {
            lit_bytes("var"@)
        };
        match extract_name_spec(t, kw) {
            Some(n) => if contains_sub(t, lit_bytes("=>"@)) || contains_sub(
                t,
                lit_bytes("= function"@),
            ) {
                seq![(n, EntityType::Function)]
            } else {
                seq![(n, EntityType::Const)]
            },
            None => Seq::empty(),
        }
    } else {
        Seq::empty()
    }
}

/// All declarations recognized on one trimmed line, in test order.
pub open spec fn line_decls(t: Seq<u8>) -> Seq<(Seq<u8>, EntityType)> {
    simple_decl(t, lit_bytes("class"@), true, EntityType::Class) + simple_decl(
        t,
        lit_bytes("enum"@),
        true,
        EntityType::Enum,
    ) + simple_decl(
        t,
        lit_bytes("type"@),
        !contains_sub(t, lit_bytes("typeof"@)),
        EntityType::TypeAlias,
    ) + simple_decl(t, lit_bytes("interface"@), true, EntityType::Interface) + simple_decl(
        t,
        lit_bytes("function"@),
        true,
        EntityType::Function,
    ) + const_like_decl(t)
}

/// The mathematical value of a vector of extracted declarations.
pub open spec fn decls_view(v: Seq<(Vec<u8>, EntityType)>) -> Seq<(Seq<u8>, EntityType)> {
    v.map_values(|p: (Vec<u8>, EntityType)| (p.0@, p.1))
}

fn exec_simple_decl(
    out: &mut Vec<(Vec<u8>, EntityType)>,
    t: &Vec<u8>,
    kw: &Vec<u8>,
    extra_ok: bool,
    ty: EntityType,
)
    ensures
        decls_view(final(out)@) == decls_view(old(out)@) + simple_decl(t@, kw@, extra_ok, ty),
{
    let ghost pre = decls_view(out@);
    proof {
        reveal_strlit("export");
    }
    let exp = str_bytes("export");
    if contains_bytes(t, &exp) && contains_bytes(t, kw) && extra_ok {
        match extract_export_name(t, kw) {
            Some(n) => {
                let ghost nv = n@;
                out.push((n, ty));
                proof {
                    assert(decls_view(out@) =~= pre + seq![(nv, ty)]);
                }
            },
            None => {
                proof {
                    assert(pre + simple_decl(t@, kw@, extra_ok, ty) =~= pre);
                }
            },
        }
    } else {
        proof {
            assert(pre + simple_decl(t@, kw@, extra_ok, ty) =~= pre);
        }
    }
}

fn exec_const_like(out: &mut Vec<(Vec<u8>, EntityType)>, t: &Vec<u8>)
    ensures
        decls_view(final(out)@) == decls_view(old(out)@) + const_like_decl(t@),
{
    let ghost pre = decls_view(out@);
    proof {
        reveal_strlit("export const");
        reveal_strlit("export let");
        reveal_strlit("export var");
        reveal_strlit("const");
        reveal_strlit("let");
        reveal_strlit("var");
        reveal_strlit("=>");
        reveal_strlit("= function");
    }
    let p_const = str_bytes("export const");
    let p_let = str_bytes("export let");
    let p_var = str_bytes("export var");
    let is_const = starts_with_bytes(t, &p_const);
    let is_let = starts_with_bytes(t, &p_let);
    let is_var = starts_with_bytes(t, &p_var);
    if is_const || is_let || is_var {
        let kw = if is_const {
            str_bytes("const")
        } else if is_let {
            str_bytes("let")
        } else {
            str_bytes("var")
        };
        match extract_export_name(t, &kw) {
            Some(n) => {
                let ghost nv = n@;
                let arrow = str_bytes("=>");
                let fnexpr = str_bytes("= function");
                let ty = if contains_bytes(t, &arrow) || contains_bytes(t, &fnexpr) {
                    EntityType::Function
                } else {
                    EntityType::Const
                };
                out.push((n, ty));
                proof {
                    assert(decls_view(out@) =~= pre + seq![(nv, ty)]);
                }
            },
            None => {
                proof {
                    assert(pre + const_like_decl(t@) =~= pre);
                }
            },
        }
    } else {
        proof {
            assert(pre + const_like_decl(t@) =~= pre);
        }
    }
}

/// Extracts every declaration recognized on one trimmed line.
pub fn extract_line_decls(t: &Vec<u8>) -> (r: Vec<(Vec<u8>, EntityType)>)
    ensures
        decls_view(r@) == line_decls(t@),
{
    let mut out: Vec<(Vec<u8>, EntityType)> = Vec::new();
    proof {
        assert(decls_view(out@) =~= Seq::<(Seq<u8>, EntityType)>::empty());
        assert(Seq::<(Seq<u8>, EntityType)>::empty() + simple_decl(
            t@,
            lit_bytes("class"@),
            true,
            EntityType::Class,
        ) =~= simple_decl(t@, lit_bytes("class"@), true, EntityType::Class));
        reveal_strlit("class");
        reveal_strlit("enum");
        reveal_strlit("type");
        reveal_strlit("typeof");
        reveal_strlit("interface");
        reveal_strlit("function");
    }
    let kw_class = str_bytes("class");
    let kw_enum = str_bytes("enum");
    let kw_type = str_bytes("type");
    let kw_typeof = str_bytes("typeof");
    let kw_interface = str_bytes("interface");
    let kw_function = str_bytes("function");
    exec_simple_decl(&mut out, t, &kw_class, true, EntityType::Class);
    exec_simple_decl(&mut out, t, &kw_enum, true, EntityType::Enum);
    let no_typeof = !contains_bytes(t, &kw_typeof);
    exec_simple_decl(&mut out, t, &kw_type, no_typeof, EntityType::TypeAlias);
    exec_simple_decl(&mut out, t, &kw_interface, true, EntityType::Interface);
    exec_simple_decl(&mut out, t, &kw_function, true, EntityType::Function);
    exec_const_like(&mut out, t);
    out
}

/// All declarations of a file's lines, in line order.
pub open spec fn decls_of_lines(lines: Seq<Seq<u8>>) -> Seq<(Seq<u8>, EntityType)>
    decreases lines.len(),
{
    if lines.len() == 0 {
        Seq::empty()
    } else {
        line_decls(trim_bytes(lines[0])) + decls_of_lines(lines.drop_first())
    }
}

/// All declarations recognized in comment-stripped text: each line is
/// trimmed and scanned independently.
#[verifier::opaque]
pub open spec fn file_decls(stripped: Seq<u8>) -> Seq<(Seq<u8>, EntityType)> {
    decls_of_lines(split_from(stripped, 0x0a, 0))
}

/// Extracts every exported declaration from comment-stripped text.
pub fn extract_file_decls(stripped: &Vec<u8>) -> (r: Vec<(Vec<u8>, EntityType)>)
    ensures
        decls_view(r@) == file_decls(stripped@),
{
    proof {
        reveal(file_decls);
    }
    let n = stripped.len();
    let nl: Vec<u8> = vec![0x0au8];
    proof {
        assert(nl@ =~= seq![0x0au8]);
    }
    let mut out: Vec<(Vec<u8>, EntityType)> = Vec::new();
    let mut pos: usize = 0;
    let mut done: bool = false;
    proof {
        assert(decls_view(out@) =~= Seq::<(Seq<u8>, EntityType)>::empty());
        assert(Seq::<(Seq<u8>, EntityType)>::empty() + decls_of_lines(
            split_from(stripped@, 0x0a, 0),
        ) =~= decls_of_lines(split_from(stripped@, 0x0a, 0)));
    }
    while !done
        invariant
            pos <= n,
            n == stripped@.len(),
            nl@ == seq![0x0au8],
            !done ==> file_decls(stripped@) == decls_view(out@) + decls_of_lines(
                split_from(stripped@, 0x0a, pos as int),
            ),
            done ==> decls_view(out@) == file_decls(stripped@),
        decreases (if done {
            0int
        } else {
            1int
        }), n - pos,
    {
        let ghost pre = decls_view(out@);
        let ghost pos0 = pos as int;
        let found = find_sub(stripped, &nl, pos);
        let (line, next, is_last): (Vec<u8>, usize, bool) = match found {
            Some(k) => {
                proof {
                    lemma_find_from_some(stripped@, nl@, pos as int, k as int);
                }
                (copy_range(stripped, pos, k), k + 1, false)
            },
            None => (copy_range(stripped, pos, n), n, true),
        };
        let t = trim(&line);
        let mut part = extract_line_decls(&t);
        let ghost partv = decls_view(part@);
        out.append(&mut part);
        proof {
            assert(decls_view(out@) =~= pre + partv);
            let rest = split_from(stripped@, 0x0a, pos0);
            match found {
                Some(k) => {
                    assert(rest == seq![stripped@.subrange(pos0, k as int)] + split_from(
                        stripped@,
                        0x0a,
                        k as int + 1,
                    ));
                    assert(rest[0] == line@);
                    assert(rest.drop_first() =~= split_from(stripped@, 0x0a, k as int + 1));
                    assert(decls_of_lines(rest) == partv + decls_of_lines(
                        split_from(stripped@, 0x0a, k as int + 1),
                    ));
                    assert(pre + (partv + decls_of_lines(split_from(stripped@, 0x0a, k as int + 1)))
                        =~= (pre + partv) + decls_of_lines(
                        split_from(stripped@, 0x0a, k as int + 1),
                    ));
                },
                None => {
                    assert(rest == seq![stripped@.subrange(pos0, n as int)]);
                    assert(rest[0] == line@);
                    assert(rest.drop_first() =~= Seq::<Seq<u8>>::empty());
                    assert(decls_of_lines(rest.drop_first()) == Seq::<
                        (Seq<u8>, EntityType),
                    >::empty());
                    assert(decls_of_lines(rest) == line_decls(trim_bytes(rest[0]))
                        + decls_of_lines(rest.drop_first()));
                    assert(decls_of_lines(rest) == partv + Seq::<(Seq<u8>, EntityType)>::empty());
                    assert(partv + Seq::<(Seq<u8>, EntityType)>::empty() =~= partv);
                    assert(pre + partv =~= decls_view(out@));
                },
            }
        }
        if is_last {
            done = true;
        } else {
            pos = next;
        }
    }
    out
}

} // verus!
