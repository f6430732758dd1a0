use futures_util::StreamExt;
use std::io::Cursor;

use rose_update::archive::{validate_header, ArchiveHeader, CodecId, SourceChunkDesc};
use rose_update::chunker::ChunkerConfig;
use rose_update::fetch::apply_archive_chunk;
use rose_update::sync::prepare_file_sync;

/// Build a real compressed archive of `source` in memory.
async fn make_archive(source: &[u8], chunk_size: usize) -> Vec<u8> {
    let options = bitar::api::compress::CreateArchiveOptions {
        chunker_config: bitar::chunker::Config::FixedSize(chunk_size),
        compression: Some(bitar::Compression::zstd(4).unwrap()),
        ..Default::default()
    };
    let mut input = Cursor::new(source.to_vec());
    let mut output = Cursor::new(Vec::new());
    bitar::api::compress::create_archive(&mut input, &mut output, &options)
        .await
        .unwrap();
    output.into_inner()
}

/// The library's view of a fetched archive header.
fn header_of(archive: &bitar::Archive<bitar::archive_reader::IoReader<Cursor<Vec<u8>>>>) -> ArchiveHeader {
    let mut descriptors = Vec::new();
    for (_offset, cd) in archive.iter_source_chunks() {
        descriptors.push(SourceChunkDesc {
            hash: cd.checksum.to_vec(),
            size: cd.source_size as usize,
            archive_offset: cd.archive_offset,
            archive_size: cd.archive_size,
        });
    }
    let chunker = match archive.chunker_config() {
        bitar::chunker::Config::FixedSize(s) => ChunkerConfig::FixedSize(*s),
        _ => ChunkerConfig::ContentDefined,
    };
    ArchiveHeader {
        version: 1,
        chunker,
        codec: CodecId::Zstd,
        hash_length: archive.chunk_hash_length(),
        source_size: archive.total_source_size(),
        source_hash: archive.source_checksum().to_vec(),
        descriptors,
    }
}

#[test]
fn cloning_a_real_archive_reconstructs_the_source() {
    let rt = tokio::runtime::Runtime::new().unwrap();
    rt.block_on(async {
        // three distinct chunks plus one duplicate
        let chunk_size = 50_000usize;
        let mut source: Vec<u8> = Vec::new();
        for c in 0..3u8 {
            source.extend((0..chunk_size).map(|i| (i as u8).wrapping_mul(c + 1)));
        }
        source.extend(source[0..chunk_size].to_vec());

        let archive_bytes = make_archive(&source, chunk_size).await;
        let reader = bitar::archive_reader::IoReader::new(Cursor::new(archive_bytes));
        let mut archive = bitar::Archive::try_init(reader).await.unwrap();
        let header = header_of(&archive);
        validate_header(&header).unwrap();

        // cold start: everything must be fetched, one request per distinct
        // chunk
        let mut plan = prepare_file_sync(Vec::new(), &header);
        assert_eq!(plan.downloads.len(), 3);

        // ask bitar for exactly the missing chunks
        let mut wanted = bitar::ChunkIndex::new_empty(header.hash_length);
        for k in 0..plan.downloads.len() {
            let slot = plan.downloads[k];
            let s = &plan.output.slots[slot];
            wanted.add_chunk(
                bitar::HashSum::from(s.hash.as_slice()),
                s.size,
                &[s.offset as u64],
            );
        }
        // the stream yields chunks in the archive's descriptor order
        let expected_hashes: Vec<Vec<u8>> = archive
            .chunk_descriptors()
            .iter()
            .filter(|cd| wanted.contains(&cd.checksum))
            .map(|cd| cd.checksum.to_vec())
            .collect();
        let mut fetched: Vec<bitar::CompressedArchiveChunk> = Vec::new();
        {
            let mut stream = archive.chunk_stream(&wanted);
            while let Some(r) = stream.next().await {
                fetched.push(r.unwrap());
            }
        }
        assert_eq!(fetched.len(), expected_hashes.len());
        for (hash, chunk) in expected_hashes.iter().zip(fetched.into_iter()) {
            apply_archive_chunk(&mut plan.output, hash, chunk).unwrap();
        }
        assert_eq!(plan.output.missing_chunks().len(), 0);
        assert_eq!(plan.output.data, source);
    });
}

#[test]
fn partial_local_data_fetches_only_whats_missing() {
    let rt = tokio::runtime::Runtime::new().unwrap();
    rt.block_on(async {
        let chunk_size = 40_000usize;
        let mut source: Vec<u8> = Vec::new();
        for c in 0..4u8 {
            source.extend((0..chunk_size).map(|i| (i as u8).wrapping_add(c * 17)));
        }
        // locally we already have chunks 1 and 3, in the wrong order
        let local: Vec<u8> = [
            source[3 * chunk_size..4 * chunk_size].to_vec(),
            source[1 * chunk_size..2 * chunk_size].to_vec(),
        ]
        .concat();

        let archive_bytes = make_archive(&source, chunk_size).await;
        let reader = bitar::archive_reader::IoReader::new(Cursor::new(archive_bytes));
        let mut archive = bitar::Archive::try_init(reader).await.unwrap();
        let header = header_of(&archive);
        validate_header(&header).unwrap();

        let mut plan = prepare_file_sync(local, &header);
        assert_eq!(plan.downloads.len(), 2);

        let mut wanted = bitar::ChunkIndex::new_empty(header.hash_length);
        for k in 0..plan.downloads.len() {
            let slot = plan.downloads[k];
            let s = &plan.output.slots[slot];
            wanted.add_chunk(
                bitar::HashSum::from(s.hash.as_slice()),
                s.size,
                &[s.offset as u64],
            );
        }
        let expected_hashes: Vec<Vec<u8>> = archive
            .chunk_descriptors()
            .iter()
            .filter(|cd| wanted.contains(&cd.checksum))
            .map(|cd| cd.checksum.to_vec())
            .collect();
        let mut fetched: Vec<bitar::CompressedArchiveChunk> = Vec::new();
        {
            let mut stream = archive.chunk_stream(&wanted);
            while let Some(r) = stream.next().await {
                fetched.push(r.unwrap());
            }
        }
        for (hash, chunk) in expected_hashes.iter().zip(fetched.into_iter()) {
            apply_archive_chunk(&mut plan.output, hash, chunk).unwrap();
        }
        assert_eq!(plan.output.data, source);
    });
}
