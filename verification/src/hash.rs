//! Content hashing of chunks.
//!
//! Every chunk is identified by a digest of its bytes, truncated to the hash
//! length the archive was built with.  The digest itself comes from an
//! outside crate and is only named here; everything the engine concludes from
//! hashes follows from the digest being a function of the bytes alone.

use vstd::prelude::*;

verus! {

/// The digest of a byte string (64 bytes), as computed by the archive tooling.
pub uninterp spec fn hash_of(data: Seq<u8>) -> Seq<u8>;

/// The identifying hash of a chunk under hash length `hl`: the digest,
/// truncated to `hl` bytes when it is longer.
pub open spec fn trunc_hash(data: Seq<u8>, hl: int) -> Seq<u8> {
    if 0 <= hl < hash_of(data).len() {
        hash_of(data).take(hl)
    } else {
        hash_of(data)
    }
}

/// Relies on bitar's `Chunk::verify` (`HashSum::b2_digest`): a Blake2b-512
/// digest of the chunk data, 64 bytes long, a function of the bytes alone.
#[verifier::external_body]
fn blake2_digest(data: &[u8]) -> (r: Vec<u8>)
    ensures
        r@ == hash_of(data@),
        r@.len() == 64,
{
    bitar::Chunk::from(data.to_vec()).verify().hash().to_vec()
}

/// Compute the identifying hash of a chunk's bytes under the archive's
/// configured hash length.
pub fn chunk_hash(data: &[u8], hash_length: usize) -> (r: Vec<u8>)
    ensures
        r@ == trunc_hash(data@, hash_length as int),
{
    let mut digest = blake2_digest(data);
    if hash_length < digest.len() {
        digest.truncate(hash_length);
    }
    digest
}

/// Compare two byte strings for equality.
pub fn bytes_eq(a: &Vec<u8>, b: &Vec<u8>) -> (r: bool)
    ensures
        r == (a@ == b@),
{
    let r = *a == *b;
    proof {
        if r {
            assert(a@ =~= b@);
        } else {
            if a@ == b@ {
                assert(forall|i: int| 0 <= i < a@.len() ==> a@[i] == b@[i]);
            }
        }
    }
    r
}

/// A fresh copy of a byte vector.
pub(crate) fn copy_bytes(v: &Vec<u8>) -> (r: Vec<u8>)
    ensures
        r@ == v@,
{
    let mut r: Vec<u8> = Vec::new();
    r.extend_from_slice(v.as_slice());
    proof {
        assert(r@ =~= v@);
    }
    r
}

} // verus!
