//! SHA-256 digests over byte buffers, and exact-match verification.

use sha2::{Digest, Sha256};
use vstd::prelude::*;

verus! {

/// Number of bytes in a digest.
pub const DIGEST_LEN: usize = 32;

/// The SHA-256 digest of a byte sequence.
pub uninterp spec fn sha256_of(b: Seq<u8>) -> Seq<u8>;

/// Relies on sha2's `Sha256` (new, update, finalize): the 32-byte digest of
/// the input, which depends on the input bytes alone.
#[verifier::external_body]
fn sha256(b: &[u8]) -> (r: Vec<u8>)
    ensures
        r@ == sha256_of(b@),
        r@.len() == DIGEST_LEN,
{
    let mut hasher = Sha256::new();
    hasher.update(b);
    hasher.finalize().to_vec()
}

/// Whether `expected` is exactly the digest of `bytes`.
pub open spec fn digest_matches(bytes: Seq<u8>, expected: Seq<u8>) -> bool {
    sha256_of(bytes) == expected
}

/// Computes the digest of `bytes`.
pub fn digest(bytes: &[u8]) -> (r: Vec<u8>)
    ensures
        r@ == sha256_of(bytes@),
        r@.len() == DIGEST_LEN,
{
    sha256(bytes)
}

/// Compares two byte buffers element by element.
pub fn bytes_equal(a: &[u8], b: &[u8]) -> (r: bool)
    ensures
        r == (a@ == b@),
{
    if a.len() != b.len() {
        return false;
    }
    let mut i: usize = 0;
    while i < a.len()
        invariant
            a@.len() == b@.len(),
            i <= a@.len(),
            a@.subrange(0, i as int) == b@.subrange(0, i as int),
        decreases a@.len() - i,
    {
        if a[i] != b[i] {
            assert(a@[i as int] != b@[i as int]);
            return false;
        }
        assert(a@.subrange(0, i + 1) =~= a@.subrange(0, i as int).push(a@[i as int]));
        assert(b@.subrange(0, i + 1) =~= b@.subrange(0, i as int).push(b@[i as int]));
        i = i + 1;
    }
    assert(a@ =~= a@.subrange(0, a@.len() as int));
    assert(b@ =~= b@.subrange(0, b@.len() as int));
    true
}

/// Recomputes the digest of `bytes` and compares it, in full, with `expected`.
pub fn verify(bytes: &[u8], expected: &[u8]) -> (r: bool)
    ensures
        r == digest_matches(bytes@, expected@),
{
    let actual = sha256(bytes);
    bytes_equal(actual.as_slice(), expected)
}

/// A buffer always verifies against its own digest, and never against a
/// digest that differs from its own: the comparison is exact.
pub proof fn lemma_verify_round_trip(b: Seq<u8>, other: Seq<u8>)
    ensures
        digest_matches(b, sha256_of(b)),
        sha256_of(other) != sha256_of(b) ==> !digest_matches(b, sha256_of(other)),
{
}

} // verus!
