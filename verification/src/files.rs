//! Candidate-file filtering.
//!
//! The directory walk (done by the caller) consults these predicates:
//! directories holding tests, mocks, translations or environment
//! configuration are skipped whole, and files whose names mark them as
//! specs, stubs, stories, mocks or declaration files are ignored.

use vstd::prelude::*;

use crate::text::ends_with;
use crate::text::ends_with_bytes;
use crate::text::bytes_eq;
use crate::text::lit_bytes;
use crate::text::str_bytes;

verus! {

/// Directory names excluded from scanning.
pub open spec fn skip_dir_spec(name: Seq<u8>) -> bool {
    name == lit_bytes("mocks"@) || name == lit_bytes("__mocks__"@) || name == lit_bytes(
        "mocks_stubs"@,
    ) || name == lit_bytes("tests"@) || name == lit_bytes("environments"@) || name == lit_bytes(
        "i18n"@,
    )
}

/// Whether a directory with this name is excluded from the scan.
pub fn should_skip_directory(dir_name: &Vec<u8>) -> (r: bool)
    ensures
        r == skip_dir_spec(dir_name@),
{
    proof {
        reveal_strlit("mocks");
        reveal_strlit("__mocks__");
        reveal_strlit("mocks_stubs");
        reveal_strlit("tests");
        reveal_strlit("environments");
        reveal_strlit("i18n");
    }
    let a = str_bytes("mocks");
    let b = str_bytes("__mocks__");
    let c = str_bytes("mocks_stubs");
    let d = str_bytes("tests");
    let e = str_bytes("environments");
    let f = str_bytes("i18n");
    bytes_eq(dir_name, &a) || bytes_eq(dir_name, &b) || bytes_eq(dir_name, &c) || bytes_eq(
        dir_name,
        &d,
    ) || bytes_eq(dir_name, &e) || bytes_eq(dir_name, &f)
}

/// The file name of a path: the bytes after the last slash, or the whole
/// path when it holds no slash.
pub open spec fn base_name(p: Seq<u8>) -> Seq<u8> {
    base_name_rec(p, p.len() as int)
}

/// The bytes of `p` strictly after the last slash below `b`.
pub open spec fn base_name_rec(p: Seq<u8>, b: int) -> Seq<u8>
    decreases b,
{
    if b <= 0 {
        p
    } else if p[b - 1] == 0x2f {
        p.subrange(b, p.len() as int)
    } else {
        base_name_rec(p, b - 1)
    }
}

/// File-name suffixes excluded from scanning.
pub open spec fn skip_file_spec(p: Seq<u8>) -> bool {
    let f = base_name(p);
    ends_with(f, lit_bytes(".spec.ts"@)) || ends_with(f, lit_bytes(".d.ts"@)) || ends_with(
        f,
        lit_bytes(".stories.ts"@),
    ) || ends_with(f, lit_bytes("-stub.ts"@)) || ends_with(f, lit_bytes("mocks.ts"@)) || ends_with(
        f,
        lit_bytes("mock.ts"@),
    )
}

/// Computes the file name of `path` as `base_name` describes it.
fn base_name_exec(path: &Vec<u8>) -> (r: Vec<u8>)
    ensures
        r@ == base_name(path@),
{
    let n = path.len();
    let mut b: usize = n;
    while b > 0 && path[b - 1] != 0x2f
        invariant
            b <= n,
            n == path@.len(),
            forall|j: int| b <= j < n ==> path@[j] != 0x2f,
        decreases b,
    {
        b = b - 1;
    }
    proof {
        lemma_base_name_rec(path@, b as int, path@.len() as int);
    }
    if b == 0 {
        crate::text::copy_bytes(path)
    } else {
        proof {
            assert(path@[b - 1] == 0x2f);
        }
        crate::text::copy_range(path, b, n)
    }
}

/// Scanning down from `hi`, `base_name_rec` lands at the first slash at or
/// below `lo`.
proof fn lemma_base_name_rec(p: Seq<u8>, lo: int, hi: int)
    requires
        0 <= lo <= hi <= p.len(),
        forall|j: int| lo <= j < hi ==> p[j] != 0x2f,
    ensures
        base_name_rec(p, hi) == base_name_rec(p, lo),
    decreases hi - lo,
{
    if lo < hi {
        lemma_base_name_rec(p, lo, hi - 1);
    }
}

/// Whether a file with this path is excluded from the scan: its name ends
/// in one of the skipped suffixes.
pub fn should_skip_file(path: &Vec<u8>) -> (r: bool)
    ensures
        r == skip_file_spec(path@),
{
    proof {
        reveal_strlit(".spec.ts");
        reveal_strlit(".d.ts");
        reveal_strlit(".stories.ts");
        reveal_strlit("-stub.ts");
        reveal_strlit("mocks.ts");
        reveal_strlit("mock.ts");
    }
    let f = base_name_exec(path);
    let s1 = str_bytes(".spec.ts");
    let s2 = str_bytes(".d.ts");
    let s3 = str_bytes(".stories.ts");
    let s4 = str_bytes("-stub.ts");
    let s5 = str_bytes("mocks.ts");
    let s6 = str_bytes("mock.ts");
    ends_with_bytes(&f, &s1) || ends_with_bytes(&f, &s2) || ends_with_bytes(&f, &s3)
        || ends_with_bytes(&f, &s4) || ends_with_bytes(&f, &s5) || ends_with_bytes(&f, &s6)
}

/// Whether the path carries a scanned source extension (`.ts` or `.tsx`).
pub fn has_source_extension(path: &Vec<u8>) -> (r: bool)
    ensures
        r == (ends_with(path@, lit_bytes(".ts"@)) || ends_with(path@, lit_bytes(".tsx"@))),
{
    proof {
        reveal_strlit(".ts");
        reveal_strlit(".tsx");
    }
    let a = str_bytes(".ts");
    let b = str_bytes(".tsx");
    ends_with_bytes(path, &a) || ends_with_bytes(path, &b)
}

} // verus!
