use zstd_finder::archive::ExtractStep;
use zstd_finder::{
    Archive, ArchiveIndex, ArchiveWriter, ChunkCodec, EntryKind, Error, FileChunker, Header,
    PackOptions, HEADER_SIZE,
};

const TEST_CHUNK: u32 = 64 * 1024;

enum Item<'a> {
    Dir(&'a str),
    File(&'a str, &'a [u8]),
    Link(&'a str, &'a str),
}

/// An archive built in memory: its bytes and the index it holds.
struct Packed {
    bytes: Vec<u8>,
    index: ArchiveIndex,
    compressed_chunks: u64,
    stored_chunks: u64,
}

fn pack(items: &[Item], chunk_size: u32) -> Packed {
    let options = PackOptions {
        chunk_size,
        compression_level: 3,
        overwrite: false,
    };
    let mut writer = ArchiveWriter::new(&options).unwrap();
    let mut bytes = vec![0_u8; HEADER_SIZE];
    for item in items {
        match item {
            Item::Dir(path) => writer.add_directory(path.to_string(), 0o755, None),
            Item::Link(path, target) => {
                writer.add_symlink(path.to_string(), 0o777, None, target.to_string())
            }
            Item::File(path, data) => {
                // Hand the bytes over in uneven pieces, as reads return them.
                let mut chunker = FileChunker::new(&writer);
                let mut rest: &[u8] = data;
                let mut piece = 1000_usize;
                while !rest.is_empty() {
                    let n = piece.min(chunker.room(&writer)).min(rest.len());
                    assert_eq!(writer.next_offset(), bytes.len() as u64);
                    if let Some(encoded) = chunker.feed(&mut writer, &rest[..n]).unwrap() {
                        bytes.extend_from_slice(&encoded.data);
                    }
                    rest = &rest[n..];
                    piece = piece * 7 % 4093 + 1;
                }
                assert_eq!(chunker.bytes_fed(&writer), data.len() as u64);
                let (last, chunks) = chunker.finish(&mut writer).unwrap();
                if let Some(encoded) = last {
                    bytes.extend_from_slice(&encoded.data);
                }
                let expected: Vec<u32> = data.chunks(chunk_size as usize).map(|c| c.len() as u32).collect();
                assert_eq!(chunks.iter().map(|c| c.raw_len).collect::<Vec<_>>(), expected);
                writer.add_file(path.to_string(), 0o644, None, data.len() as u64, chunks);
            }
        }
    }
    let index = writer.index().clone();
    let block = writer.finish(b"{\"index\":true}").unwrap();
    assert_eq!(block.header.index_offset, bytes.len() as u64);
    bytes.extend_from_slice(&block.compressed);
    bytes[..HEADER_SIZE].copy_from_slice(&block.header.encode());
    let summary = writer.summary(bytes.len() as u64);
    Packed {
        bytes,
        index,
        compressed_chunks: summary.compressed_chunks,
        stored_chunks: summary.stored_chunks,
    }
}

fn open(bytes: &[u8], index: &ArchiveIndex) -> zstd_finder::Result<Archive> {
    let file_len = bytes.len() as u64;
    Archive::check_file_len(file_len)?;
    let header_bytes: [u8; HEADER_SIZE] = bytes[..HEADER_SIZE].try_into().unwrap();
    let header: Header = Archive::read_header(&header_bytes, file_len)?;
    let start = header.index_offset as usize;
    let len = Archive::index_stored_size(&header)?;
    let raw = Archive::decode_index(&header, &bytes[start..start + len])?;
    assert_eq!(raw, b"{\"index\":true}".to_vec());
    Archive::new(header, file_len, index.clone())
}

fn stored_at(bytes: &[u8], offset: u64, len: u32) -> Vec<u8> {
    bytes[offset as usize..offset as usize + len as usize].to_vec()
}

fn read_at(archive: &Archive, bytes: &[u8], path: &str, offset: u64, length: usize) -> zstd_finder::Result<Vec<u8>> {
    let mut read = archive.begin_read(path, offset, length)?;
    while let Some((o, l)) = read.next_fetch(archive) {
        read.feed(archive, stored_at(bytes, o, l))?;
    }
    Ok(read.finish(archive))
}

fn verify(archive: &Archive, bytes: &[u8]) -> zstd_finder::Result<zstd_finder::VerifySummary> {
    let mut check = archive.begin_verify();
    while let Some((o, l)) = check.next_fetch(archive) {
        check.feed(archive, stored_at(bytes, o, l))?;
    }
    Ok(check.finish(archive))
}

fn binary_payload() -> Vec<u8> {
    (0..(TEST_CHUNK as usize * 3 + 12_345))
        .map(|index| ((index * 73 + index / 7) & 0xff) as u8)
        .collect()
}

#[test]
fn round_trip_and_random_access_cross_chunk_boundaries() {
    let hello = b"hello finder\n".repeat(20_000);
    let binary = binary_payload();
    let packed = pack(
        &[
            Item::File("empty.bin", b""),
            Item::File("hello.txt", &hello),
            Item::Dir("nested"),
            Item::File("nested/binary.dat", &binary),
            Item::Dir("nested/empty-dir"),
        ],
        TEST_CHUNK,
    );
    assert!(packed.compressed_chunks > 0);

    let archive = open(&packed.bytes, &packed.index).unwrap();
    assert_eq!(archive.chunk_size(), TEST_CHUNK);
    assert_eq!(archive.entry("nested").unwrap().kind, EntryKind::Directory);
    assert_eq!(
        archive.entry("/nested/binary.dat").unwrap().size,
        binary.len() as u64
    );

    let start = TEST_CHUNK as u64 - 211;
    let length = TEST_CHUNK as usize + 777;
    assert_eq!(
        read_at(&archive, &packed.bytes, "nested/binary.dat", start, length).unwrap(),
        binary[start as usize..start as usize + length]
    );
    assert_eq!(
        read_at(&archive, &packed.bytes, "nested/binary.dat", binary.len() as u64 + 10, 100).unwrap(),
        Vec::<u8>::new()
    );

    let children: Vec<_> = archive
        .children("nested")
        .unwrap()
        .into_iter()
        .map(|entry| entry.path.as_str())
        .collect();
    assert_eq!(children, vec!["nested/binary.dat", "nested/empty-dir"]);

    let summary = verify(&archive, &packed.bytes).unwrap();
    assert_eq!(summary.entries, 5);
    assert_eq!(summary.files, 3);
    assert_eq!(summary.bytes, (hello.len() + binary.len()) as u64);

    assert_eq!(
        read_at(&archive, &packed.bytes, "nested/binary.dat", 0, binary.len()).unwrap(),
        binary
    );
    assert_eq!(
        read_at(&archive, &packed.bytes, "hello.txt", 0, usize::MAX).unwrap(),
        hello
    );
    assert_eq!(
        archive.extraction_plan(),
        vec![
            ExtractStep::CreateDir(2),
            ExtractStep::CreateDir(4),
            ExtractStep::WriteFile(0),
            ExtractStep::WriteFile(1),
            ExtractStep::WriteFile(3),
        ]
    );
}

#[test]
fn incompressible_data_is_stored_instead_of_expanded() {
    let mut state = 0x1234_5678_9abc_def0_u64;
    let bytes: Vec<u8> = (0..TEST_CHUNK as usize)
        .map(|_| {
            state ^= state << 13;
            state ^= state >> 7;
            state ^= state << 17;
            state as u8
        })
        .collect();
    let packed = pack(&[Item::File("noise.bin", &bytes)], TEST_CHUNK);
    assert_eq!(packed.stored_chunks, 1);

    let archive = open(&packed.bytes, &packed.index).unwrap();
    let entry = archive.entry("noise.bin").unwrap();
    assert_eq!(entry.chunks.len(), 1);
    assert_eq!(entry.chunks[0].codec, ChunkCodec::Stored);
    assert_eq!(
        read_at(&archive, &packed.bytes, "noise.bin", 0, bytes.len()).unwrap(),
        bytes
    );
}

#[test]
fn corruption_is_detected_only_when_affected_chunk_is_read() {
    let data = b"A".repeat(TEST_CHUNK as usize * 2);
    let mut packed = pack(&[Item::File("data.bin", &data)], TEST_CHUNK);
    let chunk = packed.index.entries[0].chunks[0];
    packed.bytes[chunk.offset as usize] ^= 0x5a;

    let archive = open(&packed.bytes, &packed.index).unwrap();
    let second_chunk = read_at(&archive, &packed.bytes, "data.bin", TEST_CHUNK as u64, 32).unwrap();
    assert_eq!(second_chunk, vec![b'A'; 32]);
    assert!(matches!(
        read_at(&archive, &packed.bytes, "data.bin", 0, 1),
        Err(Error::CorruptChunk { chunk: 0, .. })
    ));
    assert!(matches!(
        verify(&archive, &packed.bytes),
        Err(Error::CorruptChunk { chunk: 0, .. })
    ));
}

#[test]
fn truncated_archive_is_rejected_before_payload_reads() {
    let packed = pack(&[Item::File("data.bin", b"abcdef")], zstd_finder::DEFAULT_CHUNK_SIZE);
    let truncated = &packed.bytes[..packed.bytes.len() - 1];
    assert!(open(truncated, &packed.index).is_err());
    assert!(matches!(
        open(truncated, &packed.index),
        Err(Error::InvalidFormat(_))
    ));
    assert!(open(&packed.bytes, &packed.index).is_ok());
}

#[test]
fn symlinks_round_trip_without_following_them() {
    let packed = pack(
        &[
            Item::Link("link.txt", "target.txt"),
            Item::File("target.txt", b"target"),
        ],
        zstd_finder::DEFAULT_CHUNK_SIZE,
    );
    let archive = open(&packed.bytes, &packed.index).unwrap();
    let link = archive.entry("link.txt").unwrap();
    assert_eq!(link.kind, EntryKind::Symlink);
    assert_eq!(link.symlink_target.as_deref(), Some("target.txt"));
    assert_eq!(zstd_finder::link_target(link).unwrap(), "target.txt");
    assert_eq!(
        archive.extraction_plan(),
        vec![ExtractStep::MakeSymlink(0), ExtractStep::WriteFile(1)]
    );
    assert!(matches!(
        read_at(&archive, &packed.bytes, "link.txt", 0, 10),
        Err(Error::NotAFile(p)) if p == "link.txt"
    ));
}

#[test]
fn lookups_report_missing_and_invalid_paths() {
    let packed = pack(&[Item::Dir("a"), Item::File("a/b", b"xyz")], TEST_CHUNK);
    let archive = open(&packed.bytes, &packed.index).unwrap();
    assert!(matches!(archive.entry("missing"), Err(Error::NotFound(p)) if p == "missing"));
    assert!(matches!(archive.entry("a/../b"), Err(Error::InvalidPath(p)) if p == ".."));
    assert!(matches!(archive.entry(""), Err(Error::NotFound(p)) if p.is_empty()));
    assert!(matches!(archive.children("a/b"), Err(Error::InvalidPath(m)) if m == "not a directory: a/b"));
    let root: Vec<_> = archive.children("/").unwrap().into_iter().map(|e| e.path.clone()).collect();
    assert_eq!(root, vec!["a".to_string()]);
    assert_eq!(
        archive.path_extraction_plan("a").unwrap(),
        vec![ExtractStep::CreateDir(0), ExtractStep::WriteFile(1)]
    );
    assert_eq!(
        archive.path_extraction_plan("a/b").unwrap(),
        vec![ExtractStep::WriteFile(1)]
    );
}

#[test]
fn reads_at_edges_give_exact_lengths() {
    let data: Vec<u8> = (0..(TEST_CHUNK as usize + 10)).map(|i| (i % 251) as u8).collect();
    let packed = pack(&[Item::File("f", &data)], TEST_CHUNK);
    let archive = open(&packed.bytes, &packed.index).unwrap();
    assert_eq!(read_at(&archive, &packed.bytes, "f", 5, 0).unwrap(), Vec::<u8>::new());
    assert_eq!(
        read_at(&archive, &packed.bytes, "f", TEST_CHUNK as u64 - 1, 2).unwrap(),
        data[TEST_CHUNK as usize - 1..TEST_CHUNK as usize + 1]
    );
    assert_eq!(
        read_at(&archive, &packed.bytes, "f", TEST_CHUNK as u64 + 5, 100).unwrap(),
        data[TEST_CHUNK as usize + 5..]
    );
    let read = archive.begin_read("f", TEST_CHUNK as u64 + 5, 1).unwrap();
    let chunk1 = packed.index.entries[0].chunks[1];
    assert_eq!(read.next_fetch(&archive), Some((chunk1.offset, chunk1.stored_len)));
}

#[test]
fn an_index_that_disagrees_with_the_payload_is_rejected() {
    let packed = pack(&[Item::File("f", b"hello")], TEST_CHUNK);
    let mut index = packed.index.clone();
    index.entries[0].size = 6;
    assert!(matches!(open(&packed.bytes, &index), Err(Error::InvalidFormat(_))));

    let mut index = packed.index.clone();
    index.entries[0].path = "../f".to_string();
    assert!(matches!(open(&packed.bytes, &index), Err(Error::InvalidPath(p)) if p == ".."));

    let mut index = packed.index.clone();
    index.entries[0].path = "d/f".to_string();
    assert!(matches!(open(&packed.bytes, &index), Err(Error::InvalidFormat(m)) if m == "missing parent directory d for d/f"));

    let mut index = packed.index.clone();
    index.chunk_size = TEST_CHUNK * 2;
    assert!(matches!(open(&packed.bytes, &index), Err(Error::InvalidFormat(m)) if m == "header and index metadata disagree"));
}

#[test]
fn index_errors_name_the_first_failing_check() {
    let packed = pack(
        &[Item::Dir("d"), Item::File("d/f", b"hello"), Item::Link("d/l", "f")],
        TEST_CHUNK,
    );
    let fail = |index: &ArchiveIndex| match open(&packed.bytes, index) {
        Err(Error::InvalidFormat(m)) => m,
        other => panic!("unexpected result: {:?}", other.map(|_| ())),
    };

    let mut index = packed.index.clone();
    index.entries[0].size = 1;
    assert_eq!(fail(&index), "directory has file payload metadata: d");

    let mut index = packed.index.clone();
    index.entries[2].symlink_target = None;
    assert_eq!(fail(&index), "invalid symlink metadata: d/l");

    let mut index = packed.index.clone();
    index.entries.swap(1, 2);
    assert_eq!(fail(&index), "index entries must be strictly sorted by path");

    let mut index = packed.index.clone();
    index.entries[0].kind = EntryKind::Symlink;
    index.entries[0].symlink_target = Some("x".to_string());
    assert_eq!(fail(&index), "parent is not a directory: d");

    let mut index = packed.index.clone();
    index.entries[1].size = 6;
    assert_eq!(fail(&index), "file size mismatch for d/f: index says 6, chunks contain 5");

    let mut index = packed.index.clone();
    index.entries[1].chunks[0].offset += 1;
    assert_eq!(
        fail(&index),
        format!(
            "non-contiguous or overlapping payload for d/f chunk 0: expected offset {}, got {}",
            HEADER_SIZE,
            HEADER_SIZE + 1
        )
    );

    let mut index = packed.index.clone();
    index.entries.remove(1);
    assert_eq!(
        fail(&index),
        format!(
            "payload ends at {}, index starts at {}",
            HEADER_SIZE,
            packed.index.entries[1].chunks[0].offset + packed.index.entries[1].chunks[0].stored_len as u64
        )
    );
}

#[test]
fn payload_chunks_run_from_the_header_to_the_index() {
    let payload = binary_payload();
    let packed = pack(
        &[
            Item::Dir("d"),
            Item::File("d/a", &payload),
            Item::File("d/b", b"short"),
            Item::Link("d/l", "a"),
            Item::File("e", b""),
        ],
        TEST_CHUNK,
    );
    let mut next = HEADER_SIZE as u64;
    for entry in &packed.index.entries {
        for chunk in &entry.chunks {
            assert_eq!(chunk.offset, next);
            assert!(chunk.stored_len > 0);
            next += chunk.stored_len as u64;
        }
    }
    let header_bytes: [u8; HEADER_SIZE] = packed.bytes[..HEADER_SIZE].try_into().unwrap();
    let header = Header::decode(&header_bytes).unwrap();
    assert_eq!(next, header.index_offset);
}
