use rose_update::archive::{validate_header, ArchiveHeader, CodecId, SourceChunkDesc};
use rose_update::chunker::{scan_chunks, ChunkerConfig};
use rose_update::clone::SlotAction;
use rose_update::errors::SyncError;
use rose_update::hash::chunk_hash;
use rose_update::index::build_index;
use rose_update::sync::{next_phase, prepare_file_sync, PhaseEvent, SyncPhase};

/// The header an archive of `data` would announce, with empty compressed
/// ranges (tests here never read the archive side).
fn header_for(data: &[u8], chunk_size: usize, hash_len: usize) -> ArchiveHeader {
    let scan = scan_chunks(data, chunk_size, hash_len);
    let descriptors: Vec<SourceChunkDesc> = scan
        .iter()
        .map(|c| SourceChunkDesc {
            hash: c.hash.clone(),
            size: c.size,
            archive_offset: 0,
            archive_size: 0,
        })
        .collect();
    ArchiveHeader {
        version: 1,
        chunker: ChunkerConfig::FixedSize(chunk_size),
        codec: CodecId::Plain,
        hash_length: hash_len,
        source_size: data.len() as u64,
        source_hash: chunk_hash(data, 64),
        descriptors,
    }
}

#[test]
fn header_validation() {
    let data = vec![3u8; 100];
    let header = header_for(&data, 10, 64);
    assert_eq!(validate_header(&header), Ok(()));

    let mut bad = header_for(&data, 10, 64);
    bad.source_size = 99;
    assert_eq!(validate_header(&bad), Err(SyncError::MalformedArchive));

    let mut bad = header_for(&data, 10, 64);
    bad.hash_length = 0;
    assert_eq!(validate_header(&bad), Err(SyncError::MalformedArchive));

    let mut bad = header_for(&data, 10, 64);
    bad.descriptors[3].hash.pop();
    assert_eq!(validate_header(&bad), Err(SyncError::MalformedArchive));

    let mut bad = header_for(&data, 10, 64);
    bad.chunker = ChunkerConfig::FixedSize(0);
    assert_eq!(validate_header(&bad), Err(SyncError::MalformedArchive));
}

#[test]
fn up_to_date_file_needs_nothing() {
    // idempotence: scanning a file that already matches the target issues
    // zero fetches and leaves the bytes unchanged
    let data: Vec<u8> = (0..100u32).map(|i| (i * 7 % 256) as u8).collect();
    let header = header_for(&data, 16, 64);
    let plan = prepare_file_sync(data.clone(), &header);
    assert_eq!(plan.downloads.len(), 0);
    assert_eq!(plan.output.data, data);
    for a in plan.actions.iter() {
        assert_eq!(*a, SlotAction::AlreadyInPlace);
    }
}

#[test]
fn cold_start_downloads_every_distinct_chunk() {
    // ten distinct 1 MB chunks, an empty local file: exactly ten fetches,
    // and the reassembled bytes hash to the archive's declared source hash
    let mb = 1_000_000usize;
    let mut data: Vec<u8> = Vec::with_capacity(10 * mb);
    for c in 0..10u8 {
        let mut block = vec![c; mb];
        block[0] = 255 - c;
        data.append(&mut block);
    }
    let header = header_for(&data, mb, 64);
    let mut plan = prepare_file_sync(Vec::new(), &header);
    assert_eq!(plan.downloads.len(), 10);
    let mut fetches = 0;
    for k in 0..plan.downloads.len() {
        let slot = plan.downloads[k];
        let offset = plan.output.slots[slot].offset;
        let size = plan.output.slots[slot].size;
        let hash = plan.output.slots[slot].hash.clone();
        let chunk = data[offset..offset + size].to_vec();
        let written = plan.output.accept_chunk(&hash, &chunk).unwrap();
        assert_eq!(written, mb);
        fetches += 1;
    }
    assert_eq!(fetches, 10);
    assert_eq!(plan.output.data, data);
    assert_eq!(chunk_hash(&plan.output.data, 64), header.source_hash);
}

#[test]
fn round_trip_from_empty_reproduces_buffer() {
    // feeding every chunk of a buffer into an output with the buffer's
    // layout as target reproduces the buffer, duplicates included
    let mut data: Vec<u8> = (0..90u32).map(|i| (i % 13) as u8).collect();
    data.extend_from_slice(&data.clone()[0..30]);
    let header = header_for(&data, 30, 64);
    let mut plan = prepare_file_sync(Vec::new(), &header);
    let scan = scan_chunks(&data, 30, 64);
    for c in scan.iter() {
        let chunk = data[c.offset..c.offset + c.size].to_vec();
        plan.output.accept_chunk(&c.hash, &chunk).unwrap();
    }
    assert_eq!(plan.output.data, data);
}

#[test]
fn dedup_needs_no_download_for_known_content() {
    // a file with two identical regions produces one hash entry with two
    // offsets; a target placing that content at a third offset downloads
    // nothing
    let mut local = vec![5u8; 10];
    local.extend(vec![9u8; 10]);
    local.extend(vec![5u8; 10]);
    let scan = scan_chunks(&local, 10, 64);
    assert_eq!(scan[0].hash, scan[2].hash);
    let index = build_index(&scan);
    assert_eq!(index.len(), 2);

    // target: the duplicate content everywhere
    let target: Vec<u8> = vec![5u8; 30];
    let header = header_for(&target, 10, 64);
    let plan = prepare_file_sync(local, &header);
    assert_eq!(plan.downloads.len(), 0);
    assert_eq!(plan.output.data, target);
}

#[test]
fn three_cycle_reorders_in_place() {
    // local chunks A,B,C must become C,A,B: a cycle, resolved in place with
    // zero downloads and exactly the target bytes
    let a = vec![1u8; 8];
    let b = vec![2u8; 8];
    let c = vec![3u8; 8];
    let local: Vec<u8> = [a.clone(), b.clone(), c.clone()].concat();
    let target: Vec<u8> = [c, a, b].concat();
    let header = header_for(&target, 8, 64);
    let plan = prepare_file_sync(local, &header);
    assert_eq!(plan.downloads.len(), 0);
    assert_eq!(plan.output.data, target);
}

#[test]
fn truncating_and_extending_resize() {
    let local = vec![8u8; 50];
    let target = vec![8u8; 20];
    let header = header_for(&target, 20, 64);
    let plan = prepare_file_sync(local, &header);
    assert_eq!(plan.output.data.len(), 20);
    assert_eq!(plan.downloads.len(), 0);
    assert_eq!(plan.output.data, target);
}

#[test]
fn corrupted_chunk_is_rejected_and_nothing_written() {
    // a chunk whose decompressed bytes hash differently than the descriptor
    // aborts with an integrity error, and the destination is untouched
    let data = vec![4u8; 40];
    let header = header_for(&data, 10, 64);
    let mut plan = prepare_file_sync(Vec::new(), &header);
    let before = plan.output.data.clone();
    let hash = plan.output.slots[0].hash.clone();
    let corrupted = vec![5u8; 10];
    let r = plan.output.accept_chunk(&hash, &corrupted);
    assert_eq!(r, Err(SyncError::Integrity));
    assert_eq!(plan.output.data, before);
    assert_eq!(plan.downloads.len(), 1);
}

#[test]
fn feed_reports_zero_for_unwanted_chunk() {
    let data = vec![6u8; 20];
    let header = header_for(&data, 10, 64);
    let mut plan = prepare_file_sync(data.clone(), &header);
    // everything already in place: feeding correct content writes nothing
    let hash = plan.output.slots[0].hash.clone();
    let written = plan.output.feed(&hash, &data[0..10].to_vec());
    assert_eq!(written, 0);
}

#[test]
fn missing_chunks_deduplicates_by_hash() {
    // four slots, two distinct hashes, nothing local: two fetches suffice
    let mut data = vec![1u8; 10];
    data.extend(vec![2u8; 10]);
    data.extend(vec![1u8; 10]);
    data.extend(vec![2u8; 10]);
    let header = header_for(&data, 10, 64);
    let mut plan = prepare_file_sync(Vec::new(), &header);
    assert_eq!(plan.downloads.len(), 2);
    // one fetch per distinct hash fills every slot that shares it
    for k in 0..plan.downloads.len() {
        let slot = plan.downloads[k];
        let offset = plan.output.slots[slot].offset;
        let size = plan.output.slots[slot].size;
        let hash = plan.output.slots[slot].hash.clone();
        let chunk = data[offset..offset + size].to_vec();
        let written = plan.output.accept_chunk(&hash, &chunk).unwrap();
        assert_eq!(written, 20);
    }
    assert_eq!(plan.output.data, data);
    assert_eq!(plan.output.missing_chunks().len(), 0);
}

#[test]
fn phase_machine_walks_the_pipeline() {
    let mut p = SyncPhase::Init;
    let order = [
        SyncPhase::FetchHeader,
        SyncPhase::ScanLocal,
        SyncPhase::Diff,
        SyncPhase::Reorder,
        SyncPhase::Fetch,
        SyncPhase::Verify,
        SyncPhase::Done,
    ];
    for expected in order.iter() {
        p = next_phase(p, PhaseEvent::Advanced);
        assert_eq!(p, *expected);
    }
    assert_eq!(next_phase(SyncPhase::Done, PhaseEvent::Advanced), SyncPhase::Done);
    assert_eq!(next_phase(SyncPhase::Fetch, PhaseEvent::Failed), SyncPhase::Failed);
    assert_eq!(next_phase(SyncPhase::ScanLocal, PhaseEvent::Cancelled), SyncPhase::Stopped);
    assert_eq!(next_phase(SyncPhase::Stopped, PhaseEvent::Advanced), SyncPhase::Stopped);
}
