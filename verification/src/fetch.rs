//! Fetched-chunk processing: decompress, verify, write.
//!
//! The transport hands over one compressed archive chunk per missing hash.
//! It is decompressed by the archive codec, its hash is recomputed over the
//! decompressed bytes and held against the descriptor's, and only on a match
//! are the bytes written — corrupted bytes never reach the destination.

use vstd::prelude::*;

use crate::clone::{same_slot_meta, slot_takes, spec_feed_count, spec_feed_data, CloneOutput};
use crate::errors::SyncError;
use crate::hash::trunc_hash;

verus! {

/// bitar's possibly-compressed chunk as fetched from an archive; opaque to
/// the engine, which only ever hands it to the codec below.
#[verifier::external_type_specification]
#[verifier::external_body]
pub struct ExCompressedArchiveChunk(bitar::CompressedArchiveChunk);

/// Relies on bitar's `CompressedArchiveChunk::decompress` (the archive's
/// codec inflating the fetched bytes) and `ArchiveChunk::verify`.  Nothing
/// is promised of the returned bytes: the caller re-verifies them against
/// its own descriptor before anything is written.
#[verifier::external_body]
fn decompress_archive_chunk(c: bitar::CompressedArchiveChunk) -> (r: Result<Vec<u8>, SyncError>)
    ensures
        r matches Err(e) ==> (e == SyncError::Decode || e == SyncError::Integrity),
{
    match c.decompress() {
        Ok(unverified) => match unverified.verify() {
            Ok(verified) => Ok(verified.data().to_vec()),
            Err(_) => Err(SyncError::Integrity),
        },
        Err(_) => Err(SyncError::Decode),
    }
}

/// Decompress one fetched chunk and write it to every slot still owed
/// content under `expected_hash`.  Whatever the codec returned, nothing is
/// written unless its recomputed hash equals `expected_hash`; the bytes
/// written are then exactly the decompressed bytes.
pub fn apply_archive_chunk(
    output: &mut CloneOutput,
    expected_hash: &Vec<u8>,
    c: bitar::CompressedArchiveChunk,
) -> (r: Result<usize, SyncError>)
    requires
        old(output).wf(),
        old(output).sized(),
    ensures
        final(output).wf(),
        final(output).sized(),
        final(output).hash_length == old(output).hash_length,
        same_slot_meta(old(output).slots@, final(output).slots@),
        r matches Err(e) ==> {
            &&& (e == SyncError::Decode || e == SyncError::Integrity)
            &&& final(output).data@ == old(output).data@
            &&& final(output).slots@ == old(output).slots@
        },
        r matches Ok(written) ==> exists|d: Seq<u8>|
            {
                &&& trunc_hash(d, old(output).hash_length as int) == expected_hash@
                &&& final(output).data@ == spec_feed_data(
                    old(output).data@,
                    old(output).slots@,
                    expected_hash@,
                    d,
                    old(output).slots@.len() as int,
                )
                &&& forall|i: int|
                    0 <= i < final(output).slots@.len()
                        ==> (#[trigger] final(output).slots@[i]).pending
                        == (old(output).slots@[i].pending && !slot_takes(
                        old(output).slots@[i],
                        expected_hash@,
                        d.len() as int,
                    ))
                &&& written == spec_feed_count(
                    old(output).slots@,
                    expected_hash@,
                    d.len() as int,
                    old(output).slots@.len() as int,
                ) * d.len()
            },
{
    let data = match decompress_archive_chunk(c) {
        Ok(d) => d,
        Err(e) => {
            return Err(e);
        },
    };
    let r = output.accept_chunk(expected_hash, &data);
    proof {
        if r is Ok {
            let d = data@;
            assert(trunc_hash(d, old(output).hash_length as int) == expected_hash@);
        }
    }
    r
}

} // verus!
