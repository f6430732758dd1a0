//! Archive header model.
//!
//! A remote archive announces a header: format version, chunker
//! configuration, chunk codec, total source length and hash, and an ordered
//! table of source chunk descriptors.  The transport layer fetches and
//! decodes the wire form; the engine works on this model and checks its
//! consistency before any chunk work, surfacing a malformed-archive error on
//! an inconsistent table.

use vstd::prelude::*;
use vstd::string::StringSliceAdditionalSpecFns;

use crate::chunker::ChunkerConfig;
use crate::errors::SyncError;

verus! {

/// Chunk codec an archive compresses its chunks with.
#[derive(Clone, Copy, Debug, PartialEq, Eq, Structural)]
pub enum CodecId {
    /// Chunks stored uncompressed.
    Plain,
    Brotli,
    Zstd,
    Lzma,
}

/// Describes one chunk of the source, in source order: its content hash, its
/// decompressed length and the byte range holding its compressed form in the
/// archive.
pub struct SourceChunkDesc {
    pub hash: Vec<u8>,
    pub size: usize,
    pub archive_offset: u64,
    pub archive_size: usize,
}

/// The parsed header of a remote archive.  Immutable once fetched.
pub struct ArchiveHeader {
    pub version: usize,
    pub chunker: ChunkerConfig,
    pub codec: CodecId,
    pub hash_length: usize,
    pub source_size: u64,
    pub source_hash: Vec<u8>,
    pub descriptors: Vec<SourceChunkDesc>,
}

/// Total decompressed size described by a descriptor table.
pub open spec fn descs_total_size(s: Seq<SourceChunkDesc>) -> int
    decreases s.len(),
{
    if s.len() == 0 {
        0
    } else {
        descs_total_size(s.drop_last()) + s.last().size
    }
}

/// Consistency of a header: a usable hash length, nonempty chunks whose
/// hashes all have the configured length, a fixed-size chunker with a
/// positive chunk size, and a descriptor table whose sizes add up to the
/// declared source length.
pub open spec fn header_wf(h: &ArchiveHeader) -> bool {
    &&& 1 <= h.hash_length <= 64
    &&& match h.chunker {
        ChunkerConfig::FixedSize(cs) => cs >= 1,
        ChunkerConfig::ContentDefined => true,
    }
    &&& forall|i: int|
        0 <= i < h.descriptors@.len() ==> (#[trigger] h.descriptors@[i]).hash@.len()
            == h.hash_length
    &&& forall|i: int| 0 <= i < h.descriptors@.len() ==> (#[trigger] h.descriptors@[i]).size >= 1
    &&& descs_total_size(h.descriptors@) == h.source_size
    &&& h.source_size <= usize::MAX
}

/// Check a fetched header for consistency.  An inconsistent descriptor table
/// is fatal and never retried.
pub fn validate_header(h: &ArchiveHeader) -> (r: Result<(), SyncError>)
    ensures
        r matches Ok(()) <==> header_wf(h),
        r matches Err(e) ==> e == SyncError::MalformedArchive,
{
    if h.hash_length < 1 || h.hash_length > 64 {
        return Err(SyncError::MalformedArchive);
    }
    match h.chunker {
        ChunkerConfig::FixedSize(cs) => {
            if cs < 1 {
                return Err(SyncError::MalformedArchive);
            }
        },
        ChunkerConfig::ContentDefined => {},
    }
    let n = h.descriptors.len();
    let mut total: u128 = 0;
    let mut i: usize = 0;
    while i < n
        invariant
            n == h.descriptors@.len(),
            i <= n,
            1 <= h.hash_length <= 64,
            total == descs_total_size(h.descriptors@.take(i as int)),
            total <= (i as int) * (usize::MAX as int),
            forall|k: int|
                0 <= k < i ==> (#[trigger] h.descriptors@[k]).hash@.len() == h.hash_length,
            forall|k: int| 0 <= k < i ==> (#[trigger] h.descriptors@[k]).size >= 1,
        decreases n - i,
    {
        let d = &h.descriptors[i];
        if d.hash.len() != h.hash_length {
            return Err(SyncError::MalformedArchive);
        }
        if d.size < 1 {
            return Err(SyncError::MalformedArchive);
        }
        proof {
            assert((i as int) * (usize::MAX as int) + (usize::MAX as int)
                == (i + 1) as int * (usize::MAX as int)) by (nonlinear_arith);
            assert((i + 1) as int * (usize::MAX as int) < u128::MAX) by (nonlinear_arith)
                requires i + 1 <= n, n <= usize::MAX;
            assert(h.descriptors@.take(i + 1).drop_last() =~= h.descriptors@.take(i as int));
        }
        total = total + d.size as u128;
        i = i + 1;
    }
    proof {
        assert(h.descriptors@.take(n as int) =~= h.descriptors@);
    }
    if total != h.source_size as u128 {
        return Err(SyncError::MalformedArchive);
    }
    if h.source_size > usize::MAX as u64 {
        return Err(SyncError::MalformedArchive);
    }
    Ok(())
}

/// Whether every byte of `bs` is an ASCII decimal digit.
pub open spec fn all_digits(bs: Seq<u8>) -> bool {
    forall|i: int| 0 <= i < bs.len() ==> 48 <= #[trigger] bs[i] <= 57
}

/// Numeric value of an ASCII digit string.
pub open spec fn digits_value(bs: Seq<u8>) -> int
    decreases bs.len(),
{
    if bs.len() == 0 {
        0
    } else {
        digits_value(bs.drop_last()) * 10 + (bs.last() - 48)
    }
}

/// Parse a compression level given on a command line: a decimal number
/// between 0 and 22.
pub fn parse_compression_level(s: &str) -> (r: Result<u32, String>)
    ensures
        r matches Ok(v) ==> {
            &&& s@.len() > 0
            &&& all_digits(s.spec_bytes())
            &&& v == digits_value(s.spec_bytes())
            &&& v <= 22
        },
        r matches Err(_) <==> !(s.spec_bytes().len() > 0 && all_digits(s.spec_bytes())
            && digits_value(s.spec_bytes()) <= 22),
{
    let bytes = s.as_bytes();
    let n = bytes.len();
    if n == 0 {
        return Err("Compression level should be a number between 0 and 22".to_owned());
    }
    let mut value: u64 = 0;
    let mut too_big = false;
    let mut i: usize = 0;
    while i < n
        invariant
            n == bytes@.len(),
            bytes@ == s.spec_bytes(),
            i <= n,
            all_digits(bytes@.take(i as int)),
            too_big <==> digits_value(bytes@.take(i as int)) > 22,
            !too_big ==> value == digits_value(bytes@.take(i as int)),
            value <= 229,
        decreases n - i,
    {
        let b = bytes[i];
        if b < 48 || b > 57 {
            return Err("Compression level should be a number between 0 and 22".to_owned());
        }
        proof {
            assert(bytes@.take(i + 1).drop_last() =~= bytes@.take(i as int));
            assert(bytes@.take(i + 1).last() == bytes@[i as int]);
        }
        if too_big {
            proof {
                assert(digits_value(bytes@.take(i + 1)) > 22);
            }
        } else {
            value = value * 10 + (b - 48) as u64;
            if value > 22 {
                too_big = true;
            }
        }
        i = i + 1;
    }
    proof {
        assert(bytes@.take(n as int) =~= bytes@);
    }
    if too_big {
        return Err("Compression level should be a number between 0 and 22".to_owned());
    }
    Ok(value as u32)
}

} // verus!
