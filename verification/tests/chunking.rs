use rose_update::archive::parse_compression_level;
use rose_update::chunker::{estimate_local_chunk_count, scan_chunks, ChunkerConfig};
use rose_update::hash::chunk_hash;

#[test]
fn scan_splits_into_fixed_spans_with_short_tail() {
    let data: Vec<u8> = (0u8..=25).collect();
    let scan = scan_chunks(&data, 10, 64);
    assert_eq!(scan.len(), 3);
    assert_eq!((scan[0].offset, scan[0].size), (0, 10));
    assert_eq!((scan[1].offset, scan[1].size), (10, 10));
    assert_eq!((scan[2].offset, scan[2].size), (20, 6));
    assert_eq!(scan[0].hash, chunk_hash(&data[0..10], 64));
    assert_eq!(scan[2].hash, chunk_hash(&data[20..26], 64));
}

#[test]
fn scan_of_empty_buffer_is_empty() {
    let scan = scan_chunks(&[], 10, 64);
    assert_eq!(scan.len(), 0);
}

#[test]
fn scan_of_exact_multiple_has_no_tail() {
    let data = vec![7u8; 30];
    let scan = scan_chunks(&data, 10, 64);
    assert_eq!(scan.len(), 3);
    assert_eq!(scan[2].size, 10);
}

#[test]
fn chunking_is_deterministic() {
    let data: Vec<u8> = (0..1000).map(|i| (i % 251) as u8).collect();
    let a = scan_chunks(&data, 64, 32);
    let b = scan_chunks(&data, 64, 32);
    assert_eq!(a.len(), b.len());
    for (x, y) in a.iter().zip(b.iter()) {
        assert_eq!(x.offset, y.offset);
        assert_eq!(x.size, y.size);
        assert_eq!(x.hash, y.hash);
    }
}

#[test]
fn identical_spans_hash_identically() {
    let mut data = vec![1u8; 10];
    data.extend(vec![2u8; 10]);
    data.extend(vec![1u8; 10]);
    let scan = scan_chunks(&data, 10, 64);
    assert_eq!(scan[0].hash, scan[2].hash);
    assert_ne!(scan[0].hash, scan[1].hash);
}

#[test]
fn digest_is_not_the_input() {
    let data = vec![9u8; 16];
    let h = chunk_hash(&data, 64);
    assert_eq!(h.len(), 64);
    assert_ne!(h, data);
    assert_eq!(chunk_hash(&data, 8).len(), 8);
    assert_eq!(chunk_hash(&data, 8), h[0..8].to_vec());
}

#[test]
fn default_chunk_size() {
    assert_eq!(rose_update::CHUNK_SIZE_BYTES, 1_000_000);
}

#[test]
fn chunk_count_estimates() {
    assert_eq!(estimate_local_chunk_count(&ChunkerConfig::FixedSize(10), None), 0);
    assert_eq!(estimate_local_chunk_count(&ChunkerConfig::FixedSize(10), Some(0)), 0);
    assert_eq!(estimate_local_chunk_count(&ChunkerConfig::FixedSize(10), Some(25)), 3);
    assert_eq!(estimate_local_chunk_count(&ChunkerConfig::FixedSize(10), Some(30)), 3);
    assert_eq!(estimate_local_chunk_count(&ChunkerConfig::ContentDefined, Some(5)), 5);
}

#[test]
fn compression_level_parses_in_range() {
    assert_eq!(parse_compression_level("0"), Ok(0));
    assert_eq!(parse_compression_level("4"), Ok(4));
    assert_eq!(parse_compression_level("22"), Ok(22));
    assert_eq!(parse_compression_level("022"), Ok(22));
}

#[test]
fn compression_level_rejects_bad_input() {
    let msg = "Compression level should be a number between 0 and 22";
    assert_eq!(parse_compression_level("23"), Err(msg.to_owned()));
    assert_eq!(parse_compression_level("100"), Err(msg.to_owned()));
    assert_eq!(parse_compression_level(""), Err(msg.to_owned()));
    assert_eq!(parse_compression_level("4a"), Err(msg.to_owned()));
    assert_eq!(parse_compression_level("-1"), Err(msg.to_owned()));
}
