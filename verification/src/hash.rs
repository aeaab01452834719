//! Domain-separated hashing: SHA-256 and the tagged hash built on it.

use sapio_miniscript::bitcoin::hashes;
use vstd::prelude::*;
use vstd::string::StringSliceAdditionalSpecFns;

verus! {

/// The SHA-256 digest of a byte string.
pub uninterp spec fn sha256_digest(data: Seq<u8>) -> Seq<u8>;

/// Length in bytes of every digest this crate handles.
pub const HASH_LEN: usize = 32;

/// The tagged hash of `data` under `tag`: the digest of the tag's digest,
/// written twice, followed by the data.
pub open spec fn spec_tagged_hash(tag: Seq<u8>, data: Seq<u8>) -> Seq<u8> {
    sha256_digest(sha256_digest(tag) + sha256_digest(tag) + data)
}

/// Calls `bitcoin_hashes::sha256::Hash::hash` and copies the digest out.
/// Trusted: the result is the SHA-256 digest of `data`, which is 32 bytes long.
#[verifier::external_body]
pub(crate) fn sha256_of(data: &[u8]) -> (digest: Vec<u8>)
    ensures
        digest@ == sha256_digest(data@),
        digest@.len() == HASH_LEN,
{
    let digest: hashes::sha256::Hash = hashes::Hash::hash(data);
    hashes::Hash::into_inner(digest).to_vec()
}

/// Computes the tagged hash of `data` under the tag `tag`.
pub fn tagged_hash(tag: &str, data: &[u8]) -> (digest: Vec<u8>)
    ensures
        digest@ == spec_tagged_hash(tag.spec_bytes(), data@),
        digest@.len() == HASH_LEN,
{
    let tag_digest = sha256_of(tag.as_bytes());
    let mut buffer: Vec<u8> = Vec::new();
    buffer.extend_from_slice(tag_digest.as_slice());
    buffer.extend_from_slice(tag_digest.as_slice());
    buffer.extend_from_slice(data);
    assert(buffer@ =~= tag_digest@ + tag_digest@ + data@);
    sha256_of(buffer.as_slice())
}

} // verus!
