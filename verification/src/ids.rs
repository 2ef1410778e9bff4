//! Stable symbol identities.
//!
//! A symbol's identity is a deterministic 64-bit content hash of the pair
//! (defining file path, symbol name), rendered as 16 lowercase hex digits.
//! Two observations of the same (file, name) pair — even from independent
//! scans — always produce the same identity string.

use vstd::prelude::*;

verus! {

/// FNV-1a 64-bit offset basis.
pub const FNV_OFFSET: u64 = 0xcbf29ce484222325;

/// FNV-1a 64-bit prime.
pub const FNV_PRIME: u64 = 0x100000001b3;

/// FNV-1a folded over `s` starting from accumulator `acc`.
pub open spec fn fnv1a_rec(s: Seq<u8>, acc: u64) -> u64
    decreases s.len(),
{
    if s.len() == 0 {
        acc
    } else {
        fnv1a_rec(s.drop_first(), (acc ^ (s[0] as u64)).wrapping_mul(FNV_PRIME))
    }
}

/// FNV-1a 64-bit hash of a byte sequence.
pub open spec fn fnv1a(s: Seq<u8>) -> u64 {
    fnv1a_rec(s, FNV_OFFSET)
}

/// The lowercase hex digit for a nibble value.
pub open spec fn hex_digit(n: u8) -> u8 {
    if n < 10 {
        (n + 0x30) as u8
    } else {
        (n + 0x57) as u8
    }
}

/// The 16 lowercase hex digits of `v`, most significant nibble first.
pub open spec fn u64_hex(v: u64) -> Seq<u8> {
    Seq::new(16, |i: int| hex_digit(((v >> (((15 - i) * 4) as u64)) & 0xf) as u8))
}

/// The hashed key for an identity: file path, a colon, then the name.
pub open spec fn id_input(file_path: Seq<u8>, name: Seq<u8>) -> Seq<u8> {
    file_path + seq![0x3au8] + name
}

/// The identity of the symbol `name` declared in `file_path`.
pub open spec fn entity_id(file_path: Seq<u8>, name: Seq<u8>) -> Seq<u8> {
    u64_hex(fnv1a(id_input(file_path, name)))
}

/// Computes the FNV-1a 64-bit hash of `s`.
pub fn fnv1a_bytes(s: &Vec<u8>) -> (h: u64)
    ensures
        h == fnv1a(s@),
{
    let mut h: u64 = FNV_OFFSET;
    let mut i: usize = 0;
    proof {
        assert(s@.subrange(0, s@.len() as int) =~= s@);
    }
    while i < s.len()
        invariant
            i <= s@.len(),
            fnv1a_rec(s@.subrange(i as int, s@.len() as int), h) == fnv1a(s@),
        decreases s@.len() - i,
    {
        proof {
            let tail = s@.subrange(i as int, s@.len() as int);
            assert(tail[0] == s@[i as int]);
            assert(tail.drop_first() =~= s@.subrange(i as int + 1, s@.len() as int));
        }
        h = (h ^ (s[i] as u64)).wrapping_mul(FNV_PRIME);
        i = i + 1;
    }
    proof {
        assert(s@.subrange(i as int, s@.len() as int) =~= Seq::<u8>::empty());
    }
    h
}

/// Renders `v` as 16 lowercase hex digits, most significant nibble first.
pub fn u64_to_hex(v: u64) -> (r: Vec<u8>)
    ensures
        r@ == u64_hex(v),
{
    let mut r: Vec<u8> = Vec::new();
    let mut i: usize = 0;
    while i < 16
        invariant
            i <= 16,
            r@.len() == i,
            forall|j: int| 0 <= j < i ==> r@[j] == u64_hex(v)[j],
        decreases 16 - i,
    {
        let shift: u64 = ((15 - i) as u64) * 4;
        let nib: u8 = ((v >> shift) & 0xf) as u8;
        proof {
            assert((v >> shift) & 0xf < 16) by (bit_vector);
        }
        let d: u8 = if nib < 10 {
            nib + 0x30
        } else {
            nib + 0x57
        };
        r.push(d);
        i = i + 1;
    }
    proof {
        assert(r@ =~= u64_hex(v));
    }
    r
}

/// Computes the identity string for the symbol `name` declared in
/// `file_path`: the FNV-1a hash of "file:name", in hex.
pub fn generate_entity_id(file_path: &Vec<u8>, name: &Vec<u8>) -> (r: Vec<u8>)
    ensures
        r@ == entity_id(file_path@, name@),
{
    let mut key: Vec<u8> = Vec::new();
    key.extend_from_slice(file_path.as_slice());
    key.push(0x3a);
    key.extend_from_slice(name.as_slice());
    proof {
        assert(key@ =~= id_input(file_path@, name@));
    }
    let h = fnv1a_bytes(&key);
    u64_to_hex(h)
}

/// The identity is a pure function of the defining file and the name:
/// repeated derivations from equal inputs always agree.
pub proof fn lemma_identity_deterministic(f1: Seq<u8>, n1: Seq<u8>, f2: Seq<u8>, n2: Seq<u8>)
    requires
        f1 == f2,
        n1 == n2,
    ensures
        entity_id(f1, n1) == entity_id(f2, n2),
{
}

/// Every identity string has exactly 16 digits, so it is never empty.
pub proof fn lemma_identity_len(f: Seq<u8>, n: Seq<u8>)
    ensures
        entity_id(f, n).len() == 16,
{
}

} // verus!
