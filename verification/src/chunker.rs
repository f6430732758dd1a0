//! Content chunker.
//!
//! Splits a byte buffer into content-addressed spans according to a chunking
//! configuration.  In fixed-size mode every span is `chunk_size` bytes long
//! except a possibly shorter final span.  Each span is hashed immediately;
//! downstream consumers depend only on the resulting `(offset, size, hash)`
//! triples, so a content-defined chunker can be substituted without touching
//! any other component.

use vstd::prelude::*;

use crate::hash::{chunk_hash, trunc_hash};

verus! {

/// Algorithm and parameters used to pick chunk boundaries.
#[derive(Clone, Copy, Debug, PartialEq, Eq, Structural)]
pub enum ChunkerConfig {
    /// Boundaries every `chunk_size` bytes.
    FixedSize(usize),
    /// Boundaries picked from a rolling hash of the content; spans are
    /// produced by an external scanner and only consumed here.
    ContentDefined,
}

/// Number of spans a fixed-size chunking of `len` bytes produces.
pub open spec fn spec_chunk_count(len: int, cs: int) -> int
    recommends
        cs >= 1,
{
    (len + cs - 1) / cs
}

/// Size of span `i` of a fixed-size chunking: `cs`, except a shorter final span.
pub open spec fn spec_span_size(len: int, cs: int, i: int) -> int
    recommends
        cs >= 1,
        0 <= i < spec_chunk_count(len, cs),
{
    if len - i * cs < cs {
        len - i * cs
    } else {
        cs
    }
}

/// The bytes of span `i` of a fixed-size chunking of `data`.
pub open spec fn spec_span_bytes(data: Seq<u8>, cs: int, i: int) -> Seq<u8>
    recommends
        cs >= 1,
        0 <= i < spec_chunk_count(data.len() as int, cs),
{
    data.subrange(i * cs, i * cs + spec_span_size(data.len() as int, cs, i))
}

/// The `(offset, hash)` sequence a fixed-size scan of `data` yields under
/// chunk size `cs` and hash length `hl`.
pub open spec fn spec_scan(data: Seq<u8>, cs: int, hl: int) -> Seq<(int, Seq<u8>)>
    recommends
        cs >= 1,
{
    Seq::new(
        spec_chunk_count(data.len() as int, cs) as nat,
        |i: int| (i * cs, trunc_hash(spec_span_bytes(data, cs, i), hl)),
    )
}

/// One span found by a scan: its position and size in the scanned bytes and
/// the identifying hash of its content.
pub struct ScannedChunk {
    pub offset: usize,
    pub size: usize,
    pub hash: Vec<u8>,
}

/// Whether the scan result `r` is exactly the fixed-size chunking of `data`.
pub open spec fn scan_matches(r: Seq<ScannedChunk>, data: Seq<u8>, cs: int, hl: int) -> bool {
    &&& r.len() == spec_chunk_count(data.len() as int, cs)
    &&& forall|i: int|
        0 <= i < r.len() ==> {
            &&& #[trigger] r[i].offset == i * cs
            &&& r[i].size == spec_span_size(data.len() as int, cs, i)
            &&& r[i].hash@ == trunc_hash(spec_span_bytes(data, cs, i), hl)
        }
}

/// Split `data` into fixed-size spans and hash each span.
pub fn scan_chunks(data: &[u8], chunk_size: usize, hash_length: usize) -> (r: Vec<ScannedChunk>)
    requires
        chunk_size >= 1,
    ensures
        scan_matches(r@, data@, chunk_size as int, hash_length as int),
{
    let len = data.len();
    let ghost cs = chunk_size as int;
    let ghost count = spec_chunk_count(len as int, cs);
    let mut r: Vec<ScannedChunk> = Vec::new();
    let mut start: usize = 0;
    proof {
        assert(count >= 0) by (nonlinear_arith)
            requires cs >= 1, len >= 0, count == (len + cs - 1) / cs;
    }
    while start < len
        invariant
            chunk_size >= 1,
            cs == chunk_size as int,
            len == data@.len(),
            count == spec_chunk_count(len as int, cs),
            start == r@.len() * cs || (start == len && r@.len() == count),
            start <= len,
            r@.len() <= count,
            r@.len() >= 1 ==> (r@.len() - 1) * cs < len,
            forall|i: int|
                0 <= i < r@.len() ==> {
                    &&& #[trigger] r@[i].offset == i * cs
                    &&& r@[i].size == spec_span_size(len as int, cs, i)
                    &&& r@[i].hash@ == trunc_hash(spec_span_bytes(data@, cs, i), hash_length as int)
                },
        decreases len - start,
    {
        let remaining = len - start;
        let size = if remaining < chunk_size {
            remaining
        } else {
            chunk_size
        };
        let ghost k = r@.len() as int;
        proof {
            assert(start == k * cs);
            assert(k < count) by (nonlinear_arith)
                requires
                    cs >= 1,
                    start == k * cs,
                    start < len,
                    count == (len + cs - 1) / cs,
                    k >= 0;
        }
        let hash = chunk_hash(&data[start..start + size], hash_length);
        proof {
            assert(data@.subrange(start as int, (start + size) as int)
                == spec_span_bytes(data@, cs, k));
        }
        r.push(ScannedChunk { offset: start, size, hash });
        start = start + size;
        proof {
            assert((k + 1) * cs == k * cs + cs) by (nonlinear_arith);
            if size < chunk_size {
                // final, shorter span: the loop ends with every byte covered
                assert(start == len);
                assert(r@.len() == count) by (nonlinear_arith)
                    requires
                        cs >= 1,
                        k * cs < len,
                        k * cs + cs > len,
                        r@.len() == k + 1,
                        count == (len + cs - 1) / cs;
            } else {
                assert(start == (k + 1) * cs);
                if start >= len {
                    assert(r@.len() == count) by (nonlinear_arith)
                        requires
                            cs >= 1,
                            k * cs < len,
                            start == k * cs + cs,
                            start >= len,
                            r@.len() == k + 1,
                            count == (len + cs - 1) / cs;
                }
            }
        }
    }
    proof {
        let k = r@.len() as int;
        if len == 0 {
            assert(count == 0) by (nonlinear_arith)
                requires cs >= 1, count == (0 + cs - 1) / cs;
        } else if start == k * cs {
            // the final span ended exactly on a chunk boundary
            assert(k >= 1);
            assert(k == count) by (nonlinear_arith)
                requires
                    cs >= 1,
                    (k - 1) * cs < len,
                    k * cs >= len,
                    count == (len + cs - 1) / cs;
        }
    }
    r
}

/// Chunking is deterministic: the same bytes under the same configuration
/// yield the same `(offset, hash)` sequence, on any two runs.
pub proof fn lemma_chunking_deterministic(a: Seq<u8>, b: Seq<u8>, cs: int, hl: int)
    requires
        a == b,
    ensures
        spec_scan(a, cs, hl) == spec_scan(b, cs, hl),
{
}

/// How many spans a local file of the given size will produce under the
/// archive's chunker configuration; `None` stands for an absent file.  For a
/// content-defined configuration the estimate is one span per byte, which a
/// progress consumer treats as a single coarse step.
pub fn estimate_local_chunk_count(config: &ChunkerConfig, local_file_size: Option<u64>) -> (r: u64)
    ensures
        r == match local_file_size {
            Option::None => 0,
            Option::Some(size) => match config {
                ChunkerConfig::FixedSize(cs) => {
                    if *cs as u64 >= 1 {
                        spec_chunk_count(size as int, *cs as int)
                    } else {
                        size as int
                    }
                },
                ChunkerConfig::ContentDefined => size as int,
            },
        },
{
    let size = match local_file_size {
        Option::None => {
            return 0;
        },
        Option::Some(size) => size,
    };
    let chunk_size: u64 = match config {
        ChunkerConfig::FixedSize(cs) => *cs as u64,
        ChunkerConfig::ContentDefined => 1,
    };
    if chunk_size < 1 {
        return size;
    }
    let quotient = size / chunk_size;
    let remainder = size % chunk_size;
    let r = if remainder != 0 {
        proof {
            assert(quotient < u64::MAX) by (nonlinear_arith)
                requires
                    chunk_size >= 1,
                    size <= u64::MAX,
                    quotient == size as int / chunk_size as int,
                    size as int % chunk_size as int != 0;
        }
        quotient + 1
    } else {
        quotient
    };
    proof {
        assert(r == spec_chunk_count(size as int, chunk_size as int)) by (nonlinear_arith)
            requires
                chunk_size >= 1,
                r == size as int / chunk_size as int
                    + if size as int % chunk_size as int != 0 { 1int } else { 0int };
    }
    r
}

} // verus!
