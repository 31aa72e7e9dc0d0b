//! Content fingerprints: the standard library's default hasher for line texts and tag
//! colors, SHA-256 for whole files.
use sha2::Digest;
use std::hash::{Hash, Hasher};
use vstd::prelude::*;
use crate::text::{digit_char, digit_char_exec, hex, push_digits, string_of};

verus! {

/// The 64-bit hash that a fresh `std::collections::hash_map::DefaultHasher` gives for a
/// `str` with the characters `s`.
pub uninterp spec fn default_hash_str(s: Seq<char>) -> u64;

/// The SHA-256 digest (FIPS 180-4) of the bytes `b`.
pub uninterp spec fn sha256(b: Seq<u8>) -> Seq<u8>;

/// Hashes `s` with a fresh `DefaultHasher` (`DefaultHasher::new`, `<str as Hash>::hash`,
/// `Hasher::finish`). The standard library documents that every hasher made by
/// `DefaultHasher::new` starts alike, so the result depends on `s` alone; what the
/// algorithm computes is left unstated.
#[verifier::external_body]
pub(crate) fn hash_str(s: &str) -> (h: u64)
    ensures
        h == default_hash_str(s@),
{
    let mut hasher = std::collections::hash_map::DefaultHasher::new();
    s.hash(&mut hasher);
    hasher.finish()
}

/// `sha2::Sha256::digest` (through the `Digest` trait). SHA-256 is a function of the
/// bytes alone, named `sha256`, and its digest is 32 bytes long (`Output<Sha256>` is a
/// `GenericArray<u8, U32>`); the algorithm itself is left unstated.
#[verifier::external_body]
fn sha256_digest(b: &Vec<u8>) -> (d: Vec<u8>)
    ensures
        d@ == sha256(b@),
        d@.len() == 32,
{
    sha2::Sha256::digest(b.as_slice()).to_vec()
}

/// The lower-case hexadecimal text of the hash of `s` (`format!("{:x}", hash)`).
pub fn hex_hash_str(s: &str) -> (r: String)
    ensures
        r@ == hex(default_hash_str(s@) as nat),
{
    let h = hash_str(s);
    let mut out: Vec<char> = Vec::new();
    push_digits(&mut out, h, 16);
    proof {
        assert(out@ =~= hex(h as nat));
    }
    string_of(out.as_slice())
}

/// The bytes `b` as lower-case hexadecimal, two digits per byte (what `format!("{:x}", _)`
/// writes for a digest).
pub open spec fn byte_hex(b: Seq<u8>) -> Seq<char>
    decreases b.len(),
{
    if b.len() == 0 {
        seq![]
    } else {
        byte_hex(b.drop_last()) + seq![digit_char((b.last() / 16) as nat), digit_char((b.last() % 16) as nat)]
    }
}

/// The text of a byte string has two digits per byte.
pub proof fn lemma_byte_hex_len(b: Seq<u8>)
    ensures
        byte_hex(b).len() == 2 * b.len(),
    decreases b.len(),
{
    if b.len() > 0 {
        lemma_byte_hex_len(b.drop_last());
    }
}

/// The SHA-256 digest of the bytes `b` in lower-case hexadecimal: 64 digits.
pub fn hex_sha256(b: &Vec<u8>) -> (r: String)
    ensures
        r@ == byte_hex(sha256(b@)),
        r@.len() == 64,
{
    let d = sha256_digest(b);
    let mut out: Vec<char> = Vec::new();
    let mut i: usize = 0;
    while i < d.len()
        invariant
            i <= d@.len(),
            out@ == byte_hex(d@.take(i as int)),
        decreases d@.len() - i,
    {
        let x = d[i];
        out.push(digit_char_exec((x / 16) as u64));
        out.push(digit_char_exec((x % 16) as u64));
        proof {
            assert(d@.take(i + 1).drop_last() =~= d@.take(i as int));
            assert(out@ =~= byte_hex(d@.take(i + 1)));
        }
        i = i + 1;
    }
    proof {
        assert(d@.take(i as int) =~= d@);
        lemma_byte_hex_len(d@);
    }
    string_of(out.as_slice())
}

} // verus!
