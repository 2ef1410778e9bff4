//! Import path resolution.
//!
//! Maps a raw module specifier plus the importing file's location to a
//! concrete file path.  A specifier under the workspace alias rewrites to
//! the shared library location; `./` and `../` specifiers resolve relative
//! to the importing file's directory; anything else is an external package
//! and yields no path.  Candidate paths are tried in a fixed order against
//! the caller-supplied set of files known to exist; when none exists, a
//! best-effort `.ts` path is returned so that identities stay stable.

use vstd::prelude::*;

use crate::text::bytes_eq;
use crate::text::copy_range;
use crate::text::ends_with;
use crate::text::ends_with_bytes;
use crate::text::lit_bytes;
use crate::text::split_bytes;
use crate::text::split_from;
use crate::text::starts_with;
use crate::text::starts_with_bytes;
use crate::text::str_bytes;

verus! {

/// The directory holding `p`: the bytes before the last slash.  `None` for
/// the filesystem root or the empty path; a path with no slash lies in the
/// empty directory.
pub open spec fn parent_dir(p: Seq<u8>) -> Option<Seq<u8>>
    decreases p.len(),
{
    if p.len() == 0 {
        None
    } else if p == seq![0x2fu8] {
        None
    } else if p.last() == 0x2f {
        Some(p.subrange(0, p.len() - 1))
    } else {
        match parent_dir(p.drop_last()) {
            None => if p.len() == 1 {
                Some(Seq::empty())
            } else {
                // p is "/x..x" with no further slash: its directory is the root
                Some(seq![0x2fu8])
            },
            Some(d) => Some(d),
        }
    }
}

/// Joining paths as strings: an absolute right side replaces the left; a
/// slash is inserted unless one is already there.
pub open spec fn path_join(a: Seq<u8>, b: Seq<u8>) -> Seq<u8> {
    if b.len() > 0 && b[0] == 0x2f {
        b
    } else if a.len() == 0 {
        b
    } else if a.last() == 0x2f {
        a + b
    } else {
        a + seq![0x2fu8] + b
    }
}

pub open spec fn seg_keep(sg: Seq<u8>) -> bool {
    sg.len() > 0 && sg != lit_bytes("."@)
}

/// Folds path segments left to right, dropping empty and `.` segments and
/// letting `..` pop the segment before it.
pub open spec fn norm_fold(segs: Seq<Seq<u8>>, i: int, acc: Seq<Seq<u8>>) -> Seq<Seq<u8>>
    decreases segs.len() - i,
{
    if i < 0 || i >= segs.len() {
        acc
    } else {
        let sg = segs[i];
        if !seg_keep(sg) {
            norm_fold(segs, i + 1, acc)
        } else if sg == lit_bytes(".."@) {
            norm_fold(segs, i + 1, if acc.len() > 0 {
                acc.drop_last()
            } else {
                acc
            })
        } else {
            norm_fold(segs, i + 1, acc.push(sg))
        }
    }
}

/// Joins segments with single slashes.
pub open spec fn join_slash(segs: Seq<Seq<u8>>, i: int) -> Seq<u8>
    decreases segs.len() - i,
{
    if i < 0 || i >= segs.len() {
        Seq::empty()
    } else if i == segs.len() - 1 {
        segs[i]
    } else {
        segs[i] + seq![0x2fu8] + join_slash(segs, i + 1)
    }
}

/// Lexical normalization of a path: `.` and empty segments vanish, `..`
/// consumes the segment before it, and a leading slash is kept.  Two
/// spellings of the same location normalize to the same string.
pub open spec fn normalize_spec(p: Seq<u8>) -> Seq<u8> {
    let segs = norm_fold(split_from(p, 0x2f, 0), 0, Seq::empty());
    let body = join_slash(segs, 0);
    if p.len() > 0 && p[0] == 0x2f {
        seq![0x2fu8] + body
    } else {
        body
    }
}

/// Normalizes a path lexically.
pub fn normalize_path(p: &Vec<u8>) -> (r: Vec<u8>)
    ensures
        r@ == normalize_spec(p@),
{
    let parts = split_bytes(p, 0x2f);
    proof {
        reveal_strlit(".");
        reveal_strlit("..");
    }
    let dot = str_bytes(".");
    let dotdot = str_bytes("..");
    let mut stack: Vec<Vec<u8>> = Vec::new();
    let mut i: usize = 0;
    let ghost segs = parts@.map_values(|q: Vec<u8>| q@);
    proof {
        assert(stack@.map_values(|q: Vec<u8>| q@) =~= Seq::<Seq<u8>>::empty());
    }
    while i < parts.len()
        invariant
            i <= parts@.len(),
            segs == parts@.map_values(|q: Vec<u8>| q@),
            dot@ == lit_bytes("."@),
            dotdot@ == lit_bytes(".."@),
            norm_fold(segs, 0, Seq::empty()) == norm_fold(
                segs,
                i as int,
                stack@.map_values(|q: Vec<u8>| q@),
            ),
        decreases parts@.len() - i,
    {
        let ghost pre = stack@.map_values(|q: Vec<u8>| q@);
        let sg = &parts[i];
        if sg.len() == 0 || bytes_eq(sg, &dot) {
        } else if bytes_eq(sg, &dotdot) {
            if stack.len() > 0 {
                stack.pop();
                proof {
                    assert(stack@.map_values(|q: Vec<u8>| q@) =~= pre.drop_last());
                }
            }
        } else {
            let kept = copy_range(sg, 0, sg.len());
            proof {
                assert(kept@ =~= sg@);
            }
            stack.push(kept);
            proof {
                assert(stack@.map_values(|q: Vec<u8>| q@) =~= pre.push(sg@));
            }
        }
        i = i + 1;
    }
    let ghost folded = norm_fold(segs, 0, Seq::empty());
    proof {
        assert(norm_fold(segs, i as int, stack@.map_values(|q: Vec<u8>| q@)) == stack@.map_values(
            |q: Vec<u8>| q@,
        ));
    }
    let mut out: Vec<u8> = Vec::new();
    if p.len() > 0 && p[0] == 0x2f {
        out.push(0x2f);
    }
    let ghost prefix = out@;
    let mut j: usize = 0;
    proof {
        assert(prefix + Seq::<u8>::empty() =~= prefix);
    }
    while j < stack.len()
        invariant
            j <= stack@.len(),
            stack@.map_values(|q: Vec<u8>| q@) == folded,
            prefix + join_slash(folded, 0) == out@ + join_slash(folded, j as int),
        decreases stack@.len() - j,
    {
        let ghost out0 = out@;
        let mut piece = copy_range(&stack[j], 0, stack[j].len());
        proof {
            assert(piece@ =~= folded[j as int]);
        }
        out.append(&mut piece);
        if j + 1 < stack.len() {
            out.push(0x2f);
            proof {
                assert(out@ =~= out0 + (folded[j as int] + seq![0x2fu8]));
                assert(join_slash(folded, j as int) == folded[j as int] + seq![0x2fu8] + join_slash(
                    folded,
                    j as int + 1,
                ));
                assert(out0 + ((folded[j as int] + seq![0x2fu8]) + join_slash(
                    folded,
                    j as int + 1,
                )) =~= (out0 + (folded[j as int] + seq![0x2fu8])) + join_slash(
                    folded,
                    j as int + 1,
                ));
                assert(out0 + (folded[j as int] + seq![0x2fu8] + join_slash(folded, j as int + 1))
                    =~= out0 + ((folded[j as int] + seq![0x2fu8]) + join_slash(
                    folded,
                    j as int + 1,
                )));
            }
        } else {
            proof {
                assert(out@ =~= out0 + folded[j as int]);
                assert(join_slash(folded, j as int) == folded[j as int]);
                assert(join_slash(folded, j as int + 1) == Seq::<u8>::empty());
                assert(out0 + (folded[j as int] + Seq::<u8>::empty()) =~= out0 + folded[
                    j as int
                ]);
                assert(folded[j as int] + Seq::<u8>::empty() =~= folded[j as int]);
            }
        }
        j = j + 1;
    }
    proof {
        assert(join_slash(folded, j as int) == Seq::<u8>::empty());
        assert(out@ + Seq::<u8>::empty() =~= out@);
        assert(prefix + join_slash(folded, 0) =~= normalize_spec(p@));
    }
    out
}

/// Whether `p` is one of the paths in `paths`.
pub open spec fn in_path_set(paths: Seq<Seq<u8>>, p: Seq<u8>) -> bool {
    exists|i: int| 0 <= i < paths.len() && paths[i] == p
}

/// The mathematical value of a list of paths.
pub open spec fn paths_view(v: Seq<Vec<u8>>) -> Seq<Seq<u8>> {
    v.map_values(|q: Vec<u8>| q@)
}

/// Whether `p` is among the known existing files.
pub fn path_exists(existing: &Vec<Vec<u8>>, p: &Vec<u8>) -> (r: bool)
    ensures
        r == in_path_set(paths_view(existing@), p@),
{
    let mut i: usize = 0;
    while i < existing.len()
        invariant
            i <= existing@.len(),
            forall|j: int| 0 <= j < i ==> paths_view(existing@)[j] != p@,
        decreases existing@.len() - i,
    {
        if bytes_eq(&existing[i], p) {
            proof {
                assert(paths_view(existing@)[i as int] == p@);
            }
            return true;
        }
        i = i + 1;
    }
    false
}

/// The joined-but-unnormalized base path for a specifier, before any
/// existence checks: `None` means an external package (no edge) or an
/// importing file with no parent directory.
pub open spec fn base_of(importing: Seq<u8>, src: Seq<u8>, root: Seq<u8>) -> Option<Seq<u8>> {
    if starts_with(src, lit_bytes("@awork/"@)) {
        Some(
            path_join(
                path_join(root, lit_bytes("libs/shared/src/lib"@)),
                src.subrange(7, src.len() as int),
            ),
        )
    } else if starts_with(src, lit_bytes("./"@)) || starts_with(src, lit_bytes("../"@)) {
        match parent_dir(importing) {
            None => None,
            Some(d) => Some(path_join(d, src)),
        }
    } else {
        None
    }
}

/// The resolved path for an import specifier: the first candidate —
/// base + ".ts", base + ".tsx", base + "/index.ts", base + "/index.tsx",
/// then the base itself — that names a known file, all over the lexically
/// normalized base; otherwise the normalized base as a best-effort path,
/// with ".ts" appended unless an extension is already there.
pub open spec fn resolve_spec(
    importing: Seq<u8>,
    src: Seq<u8>,
    root: Seq<u8>,
    existing: Seq<Seq<u8>>,
) -> Option<Seq<u8>> {
    match base_of(importing, src, root) {
        None => None,
        Some(base0) => {
            let base = normalize_spec(base0);
            let c1 = base + lit_bytes(".ts"@);
            let c2 = base + lit_bytes(".tsx"@);
            let c3 = path_join(base, lit_bytes("index.ts"@));
            let c4 = path_join(base, lit_bytes("index.tsx"@));
            if in_path_set(existing, c1) {
                Some(c1)
            } else if in_path_set(existing, c2) {
                Some(c2)
            } else if in_path_set(existing, c3) {
                Some(c3)
            } else if in_path_set(existing, c4) {
                Some(c4)
            } else if in_path_set(existing, base) {
                Some(base)
            } else if ends_with(base, lit_bytes(".ts"@)) || ends_with(base, lit_bytes(".tsx"@)) {
                Some(base)
            } else {
                Some(c1)
            }
        },
    }
}

/// Computes the directory of `p` as `parent_dir` describes it.
fn parent_of(p: &Vec<u8>) -> (r: Option<Vec<u8>>)
    ensures
        match r {
            Some(d) => parent_dir(p@) == Some(d@),
            None => parent_dir(p@) is None,
        },
{
    let n = p.len();
    if n == 0 {
        return None;
    }
    let mut k: usize = n;
    while k > 0 && p[k - 1] != 0x2f
        invariant
            k <= n,
            n == p@.len(),
            forall|j: int| k <= j < n ==> p@[j] != 0x2f,
        decreases k,
    {
        k = k - 1;
    }
    proof {
        lemma_parent_dir_form(p@, k as int);
    }
    if k == 0 {
        Some(Vec::new())
    } else if k == 1 && n == 1 {
        None
    } else if k == n {
        Some(copy_range(p, 0, n - 1))
    } else if k == 1 {
        let mut r: Vec<u8> = Vec::new();
        r.push(0x2f);
        proof {
            assert(r@ =~= seq![0x2fu8]);
        }
        Some(r)
    } else {
        Some(copy_range(p, 0, k - 1))
    }
}

/// Relates the scan for the last slash to `parent_dir`: if every byte from
/// `k` on is not a slash, and either `k` is zero or the byte before `k` is
/// a slash, `parent_dir` takes the corresponding form.
proof fn lemma_parent_dir_form(p: Seq<u8>, k: int)
    requires
        0 <= k <= p.len(),
        p.len() > 0,
        forall|j: int| k <= j < p.len() ==> p[j] != 0x2f,
        k > 0 ==> p[k - 1] == 0x2f,
    ensures
        k == 0 ==> parent_dir(p) == Some(Seq::<u8>::empty()),
        k == 1 && p.len() == 1 ==> parent_dir(p) is None,
        k == p.len() && k > 1 ==> parent_dir(p) == Some(p.subrange(0, p.len() - 1)),
        1 == k && k < p.len() ==> parent_dir(p) == Some(seq![0x2fu8]),
        1 < k < p.len() ==> parent_dir(p) == Some(p.subrange(0, k - 1)),
    decreases p.len(),
{
    if p.len() == 1 {
        if k == 1 {
            assert(p[0] == 0x2f);
            assert(p =~= seq![0x2fu8]);
        } else {
            assert(p[0] != 0x2f);
            assert(p != seq![0x2fu8]);
            assert(p.last() != 0x2f);
            assert(parent_dir(p.drop_last()) is None);
        }
    } else {
        if p.last() == 0x2f {
            assert(k == p.len());
        } else {
            assert(k < p.len());
            let q = p.drop_last();
            assert(q.len() == p.len() - 1);
            assert(forall|j: int| k <= j < q.len() ==> q[j] == p[j] && p[j] != 0x2f);
            lemma_parent_dir_form(q, k);
            if k == 0 {
            } else if k == 1 && q.len() == 1 {
                assert(q[0] == 0x2f);
                assert(q == seq![0x2fu8]);
                assert(parent_dir(q) is None);
            } else if k == q.len() {
                assert(parent_dir(q) == Some(q.subrange(0, q.len() - 1)));
                assert(q.subrange(0, q.len() - 1) =~= p.subrange(0, k - 1));
            } else if k == 1 {
            } else {
                assert(q.subrange(0, k - 1) =~= p.subrange(0, k - 1));
            }
        }
    }
}

/// Joins two paths as `path_join` describes.
fn join_paths(a: &Vec<u8>, b: &Vec<u8>) -> (r: Vec<u8>)
    ensures
        r@ == path_join(a@, b@),
{
    if b.len() > 0 && b[0] == 0x2f {
        copy_range(b, 0, b.len())
    } else if a.len() == 0 {
        copy_range(b, 0, b.len())
    } else if a[a.len() - 1] == 0x2f {
        let mut r = copy_range(a, 0, a.len());
        let mut bb = copy_range(b, 0, b.len());
        out_append(&mut r, &mut bb);
        proof {
            assert(r@ =~= a@ + b@);
        }
        r
    } else {
        let mut r = copy_range(a, 0, a.len());
        r.push(0x2f);
        let mut bb = copy_range(b, 0, b.len());
        out_append(&mut r, &mut bb);
        proof {
            assert(r@ =~= a@ + seq![0x2fu8] + b@);
        }
        r
    }
}

fn out_append(r: &mut Vec<u8>, other: &mut Vec<u8>)
    ensures
        final(r)@ == old(r)@ + old(other)@,
{
    r.append(other);
}

/// Resolves `import_source` as imported from `importing_file` under
/// `root_path`, consulting `existing` for which files are present.
/// `None` marks an external package: no edge is created for it.
pub fn resolve_import_path(
    importing_file: &Vec<u8>,
    import_source: &Vec<u8>,
    root_path: &Vec<u8>,
    existing: &Vec<Vec<u8>>,
) -> (r: Option<Vec<u8>>)
    ensures
        match r {
            Some(p) => resolve_spec(importing_file@, import_source@, root_path@, paths_view(existing@))
                == Some(p@),
            None => resolve_spec(importing_file@, import_source@, root_path@, paths_view(existing@))
                is None,
        },
{
    proof {
        reveal_strlit("@awork/");
        reveal_strlit("libs/shared/src/lib");
        reveal_strlit("./");
        reveal_strlit("../");
        reveal_strlit(".ts");
        reveal_strlit(".tsx");
        reveal_strlit("index.ts");
        reveal_strlit("index.tsx");
    }
    let alias = str_bytes("@awork/");
    let rel1 = str_bytes("./");
    let rel2 = str_bytes("../");
    let base0: Vec<u8>;
    if starts_with_bytes(import_source, &alias) {
        let shared = str_bytes("libs/shared/src/lib");
        let rest = copy_range(import_source, 7, import_source.len());
        base0 = join_paths(&join_paths(root_path, &shared), &rest);
    } else if starts_with_bytes(import_source, &rel1) || starts_with_bytes(import_source, &rel2) {
        match parent_of(importing_file) {
            None => {
                return None;
            },
            Some(d) => {
                base0 = join_paths(&d, import_source);
            },
        }
    } else {
        return None;
    }
    let base = normalize_path(&base0);
    let ts = str_bytes(".ts");
    let tsx = str_bytes(".tsx");
    let idx_ts = str_bytes("index.ts");
    let idx_tsx = str_bytes("index.tsx");
    let mut c1 = copy_range(&base, 0, base.len());
    let mut e1 = copy_range(&ts, 0, ts.len());
    out_append(&mut c1, &mut e1);
    proof {
        assert(c1@ =~= base@ + ts@);
    }
    let mut c2 = copy_range(&base, 0, base.len());
    let mut e2 = copy_range(&tsx, 0, tsx.len());
    out_append(&mut c2, &mut e2);
    proof {
        assert(c2@ =~= base@ + tsx@);
    }
    let c3 = join_paths(&base, &idx_ts);
    let c4 = join_paths(&base, &idx_tsx);
    if path_exists(existing, &c1) {
        Some(c1)
    } else if path_exists(existing, &c2) {
        Some(c2)
    } else if path_exists(existing, &c3) {
        Some(c3)
    } else if path_exists(existing, &c4) {
        Some(c4)
    } else if path_exists(existing, &base) {
        Some(base)
    } else if ends_with_bytes(&base, &ts) || ends_with_bytes(&base, &tsx) {
        Some(base)
    } else {
        Some(c1)
    }
}

} // verus!
