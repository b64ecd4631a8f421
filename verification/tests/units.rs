use zstd_finder::ffi::{
    copy_outcome, entry_metadata, message_copy_len, sanitize_message, CopyOutcome,
    ZstfEntryMetadata, ZSTF_KIND_DIRECTORY, ZSTF_KIND_FILE, ZSTF_KIND_SYMLINK,
};
use zstd_finder::{
    normalize_lookup_path, parent_path, path_from_archive, path_to_archive, sort_by_path,
    system_time_to_unix, validate_archive_path, validate_header, validate_options, ArchiveWriter,
    ChunkCodec, Entry, EntryKind, Error, Header, PackOptions, PathPart, UnixTime,
    DEFAULT_CHUNK_SIZE, MAGIC,
};

fn header() -> Header {
    Header {
        version: 1,
        flags: 0,
        chunk_size: 64 * 1024,
        index_offset: 100,
        index_stored_len: 20,
        index_raw_len: 30,
        index_checksum: 0x0102_0304_0506_0708,
    }
}

#[test]
fn header_encodes_little_endian_fields_after_the_magic() {
    let bytes = header().encode();
    assert_eq!(&bytes[0..8], b"ZSTDFND1");
    assert_eq!(MAGIC, *b"ZSTDFND1");
    assert_eq!(&bytes[8..10], &[1, 0]);
    assert_eq!(&bytes[12..16], &[0, 0, 1, 0]);
    assert_eq!(&bytes[16..24], &[100, 0, 0, 0, 0, 0, 0, 0]);
    assert_eq!(&bytes[40..48], &[8, 7, 6, 5, 4, 3, 2, 1]);
    assert_eq!(&bytes[48..64], &[0; 16]);
    assert_eq!(Header::decode(&bytes).unwrap(), header());
}

#[test]
fn header_with_wrong_magic_is_rejected() {
    let mut bytes = header().encode();
    bytes[0] = b'X';
    assert_eq!(Header::decode(&bytes), Err("invalid ZSTD-Finder magic"));
}

#[test]
fn header_validation_reports_each_error() {
    assert!(validate_header(header(), 120).is_ok());
    let mut h = header();
    h.version = 2;
    assert!(matches!(validate_header(h, 120), Err(Error::UnsupportedVersion(2))));
    let mut h = header();
    h.flags = 7;
    assert!(matches!(validate_header(h, 120), Err(Error::InvalidFormat(m)) if m == "unsupported header flags: 7"));
    let mut h = header();
    h.chunk_size = 1024;
    assert!(matches!(validate_header(h, 120), Err(Error::InvalidFormat(m)) if m == "invalid chunk size"));
    let mut h = header();
    h.index_raw_len = 0;
    assert!(matches!(validate_header(h, 120), Err(Error::InvalidFormat(m)) if m == "invalid index size"));
    let mut h = header();
    h.index_offset = 10;
    assert!(matches!(validate_header(h, 30), Err(Error::InvalidFormat(m)) if m == "index overlaps the header"));
    let mut h = header();
    h.index_offset = u64::MAX;
    assert!(matches!(validate_header(h, 30), Err(Error::InvalidFormat(m)) if m == "index offset overflow"));
    assert!(matches!(validate_header(header(), 121), Err(Error::InvalidFormat(m))
        if m == "archive length mismatch: index ends at 120, file length is 121"));
}

#[test]
fn archive_paths_are_validated() {
    assert!(validate_archive_path("a/b.txt").is_ok());
    assert!(validate_archive_path("ä/ß").is_ok());
    assert!(matches!(validate_archive_path(""), Err(Error::InvalidPath(m)) if m == "empty path"));
    assert!(matches!(validate_archive_path("/a"), Err(Error::InvalidPath(m)) if m == "/a"));
    assert!(matches!(validate_archive_path("a/"), Err(Error::InvalidPath(m)) if m == "a/"));
    assert!(matches!(validate_archive_path("a\0b"), Err(Error::InvalidPath(m)) if m == "a\0b"));
    assert!(matches!(validate_archive_path("a//b"), Err(Error::InvalidPath(m)) if m.is_empty()));
    assert!(matches!(validate_archive_path("a/./b"), Err(Error::InvalidPath(m)) if m == "."));
    assert!(matches!(validate_archive_path("x/../y"), Err(Error::InvalidPath(m)) if m == ".."));
}

#[test]
fn lookup_paths_are_normalized() {
    assert_eq!(normalize_lookup_path("").unwrap(), "");
    assert_eq!(normalize_lookup_path("/").unwrap(), "");
    assert_eq!(normalize_lookup_path("/a/b").unwrap(), "a/b");
    assert_eq!(normalize_lookup_path("a/b").unwrap(), "a/b");
    assert!(matches!(normalize_lookup_path("//a"), Err(Error::InvalidPath(m)) if m == "/a"));
    let once = normalize_lookup_path("/x/y").unwrap();
    assert_eq!(normalize_lookup_path(&once).unwrap(), once);
}

#[test]
fn parents_and_components_of_archive_paths() {
    assert_eq!(parent_path("a/b/c"), "a/b");
    assert_eq!(parent_path("a"), "");
    assert_eq!(parent_path(""), "");
    assert_eq!(path_from_archive("a/b/c"), vec!["a", "b", "c"]);
    assert_eq!(path_from_archive("single"), vec!["single"]);
}

fn normal(s: &str) -> PathPart {
    PathPart::Normal(s.as_bytes().to_vec())
}

#[test]
fn filesystem_paths_become_archive_paths() {
    let root = vec![PathPart::RootDir, normal("src")];
    let path = vec![PathPart::RootDir, normal("src"), normal("a"), normal("b.txt")];
    assert_eq!(path_to_archive(&root, &path, "/src/a/b.txt").unwrap(), "a/b.txt");
    let joined = path_to_archive(&root, &path, "/src/a/b.txt").unwrap();
    assert_eq!(path_from_archive(&joined), vec!["a", "b.txt"]);

    let other = vec![PathPart::RootDir, normal("other"), normal("a")];
    assert!(matches!(path_to_archive(&root, &other, "/other/a"), Err(Error::InvalidPath(m)) if m == "/other/a"));

    let bad = vec![PathPart::RootDir, normal("src"), PathPart::Normal(vec![0xff, 0xfe])];
    assert!(matches!(path_to_archive(&root, &bad, "/src/?"), Err(Error::InvalidPath(m)) if m == "non-UTF-8 path: /src/?"));

    let up = vec![PathPart::RootDir, normal("src"), PathPart::ParentDir];
    assert!(matches!(path_to_archive(&root, &up, "/src/.."), Err(Error::InvalidPath(m)) if m == "non-relative component in /src/.."));

    assert!(matches!(path_to_archive(&root, &root, "/src"), Err(Error::InvalidPath(m)) if m == "empty path"));
}

#[test]
fn paths_sort_as_strings_do() {
    let mut items = vec![
        ("b".to_string(), 1),
        ("a/b".to_string(), 2),
        ("a".to_string(), 3),
        ("a-b".to_string(), 4),
        ("ä".to_string(), 5),
    ];
    sort_by_path(&mut items);
    let order: Vec<i32> = items.iter().map(|(_, n)| *n).collect();
    assert_eq!(order, vec![3, 4, 2, 1, 5]);
}

#[test]
fn modification_times_count_nanoseconds_forward() {
    assert_eq!(system_time_to_unix(false, 10, 5), UnixTime { seconds: 10, nanos: 5 });
    assert_eq!(system_time_to_unix(true, 10, 0), UnixTime { seconds: -10, nanos: 0 });
    assert_eq!(
        system_time_to_unix(true, 10, 250_000_000),
        UnixTime { seconds: -11, nanos: 750_000_000 }
    );
    assert_eq!(
        system_time_to_unix(false, u64::MAX, 0),
        UnixTime { seconds: i64::MAX, nanos: 0 }
    );
}

#[test]
fn pack_options_are_checked() {
    let defaults = PackOptions::default();
    assert_eq!(defaults.chunk_size, DEFAULT_CHUNK_SIZE);
    assert_eq!(defaults.compression_level, 3);
    assert!(!defaults.overwrite);
    assert!(validate_options(&defaults).is_ok());
    let small = PackOptions { chunk_size: 1024, ..PackOptions::default() };
    assert!(matches!(validate_options(&small), Err(Error::InvalidFormat(m))
        if m == "chunk size must be between 65536 and 67108864 bytes"));
    let level = PackOptions { compression_level: 23, ..PackOptions::default() };
    assert!(matches!(validate_options(&level), Err(Error::InvalidFormat(m))
        if m == "Zstd compression level must be between -7 and 22"));
    assert!(ArchiveWriter::new(&level).is_err());
}

#[test]
fn compressible_chunks_are_stored_as_frames() {
    let mut writer = ArchiveWriter::new(&PackOptions::default()).unwrap();
    let raw = vec![7_u8; 4096];
    let encoded = writer.write_chunk(&raw).unwrap();
    assert_eq!(encoded.chunk.codec, ChunkCodec::Zstd);
    assert_eq!(encoded.chunk.offset, 64);
    assert_eq!(encoded.chunk.raw_len, 4096);
    assert!(encoded.data.len() + 8 <= raw.len());
    assert_eq!(zstd::bulk::decompress(&encoded.data, 4096).unwrap(), raw);
    assert_eq!(encoded.chunk.checksum, xxhash_rust::xxh3::xxh3_64(&raw));
    assert_eq!(writer.next_offset(), 64 + encoded.data.len() as u64);

    let tiny = writer.write_chunk(b"abc").unwrap();
    assert_eq!(tiny.chunk.codec, ChunkCodec::Stored);
    assert_eq!(tiny.data, b"abc".to_vec());
}

fn entry(kind: EntryKind, modified: Option<UnixTime>) -> Entry {
    Entry {
        path: "p".to_string(),
        kind,
        size: 42,
        unix_mode: 0o644,
        modified,
        chunks: Vec::new(),
        symlink_target: None,
    }
}

#[test]
fn native_metadata_and_buffers() {
    let m = entry_metadata(&entry(EntryKind::File, Some(UnixTime { seconds: 5, nanos: 6 })));
    assert_eq!(
        m,
        ZstfEntryMetadata {
            kind: ZSTF_KIND_FILE,
            unix_mode: 0o644,
            size: 42,
            modified_seconds: 5,
            modified_nanos: 6,
            has_modified: 1,
        }
    );
    assert_eq!(entry_metadata(&entry(EntryKind::Directory, None)).kind, ZSTF_KIND_DIRECTORY);
    assert_eq!(entry_metadata(&entry(EntryKind::Symlink, None)).has_modified, 0);
    assert_eq!(entry_metadata(&entry(EntryKind::Symlink, None)).kind, ZSTF_KIND_SYMLINK);
    assert_eq!(ZstfEntryMetadata::default().kind, 0);

    assert_eq!(copy_outcome(5, true, 0), CopyOutcome::LengthOnly);
    assert_eq!(copy_outcome(0, false, 0), CopyOutcome::LengthOnly);
    assert_eq!(copy_outcome(5, true, 3), CopyOutcome::NullBuffer);
    assert_eq!(copy_outcome(5, false, 4), CopyOutcome::TooSmall);
    assert_eq!(copy_outcome(5, false, 5), CopyOutcome::Copy);

    assert_eq!(message_copy_len(10, true, 4), None);
    assert_eq!(message_copy_len(10, false, 0), None);
    assert_eq!(message_copy_len(10, false, 4), Some(3));
    assert_eq!(message_copy_len(3, false, 11), Some(3));

    assert_eq!(sanitize_message("a\0b"), "a\\0b");
    assert_eq!(sanitize_message("plain"), "plain");
}


#[test]
fn errors_read_as_the_user_sees_them() {
    assert_eq!(Error::InvalidFormat("bad".to_string()).message(), "invalid archive: bad");
    assert_eq!(Error::UnsupportedVersion(2).message(), "unsupported archive version 2");
    assert_eq!(Error::NotFound("a/b".to_string()).message(), "archive path not found: a/b");
    assert_eq!(Error::NotAFile("d".to_string()).message(), "archive entry is not a regular file: d");
    assert_eq!(Error::InvalidPath("..".to_string()).message(), "unsafe or unsupported path: ..");
    let corrupt = Error::CorruptChunk {
        path: "f".to_string(),
        chunk: 3,
        reason: "checksum mismatch".to_string(),
    };
    assert_eq!(corrupt.message(), "corrupt chunk 3 in f: checksum mismatch");
    let io = Error::Io(std::io::Error::new(std::io::ErrorKind::Other, "disk"));
    assert_eq!(io.message(), "I/O error: disk");
}

#[test]
fn archive_paths_survive_a_trip_through_the_filesystem() {
    let root = vec![PathPart::RootDir, normal("src")];
    for s in ["album/photo.raw", "a", "ü/ß.txt", "x y/z"] {
        let mut path = root.clone();
        for piece in path_from_archive(s) {
            path.push(PathPart::Normal(piece.into_bytes()));
        }
        assert_eq!(path_to_archive(&root, &path, "p").unwrap(), s);
    }
}

#[test]
fn chunker_records_each_chunk_it_codes() {
    let options = PackOptions { chunk_size: 65536, compression_level: 3, overwrite: false };
    let mut writer = ArchiveWriter::new(&options).unwrap();
    let data: Vec<u8> = (0..150_000_u32).map(|i| (i % 251) as u8).collect();
    let mut chunker = zstd_finder::FileChunker::new(&writer);
    let mut coded = Vec::new();
    let mut rest: &[u8] = &data;
    while !rest.is_empty() {
        let n = chunker.room(&writer).min(rest.len()).min(40_000);
        if let Some(encoded) = chunker.feed(&mut writer, &rest[..n]).unwrap() {
            coded.push(encoded.chunk);
        }
        rest = &rest[n..];
    }
    let (last, chunks) = chunker.finish(&mut writer).unwrap();
    coded.push(last.unwrap().chunk);
    assert_eq!(chunks, coded);
    assert_eq!(chunks.iter().map(|c| c.raw_len).collect::<Vec<_>>(), vec![65536, 65536, 18928]);
    assert_eq!(chunks[0].offset, zstd_finder::HEADER_SIZE as u64);
    assert_eq!(chunks[1].offset, chunks[0].offset + chunks[0].stored_len as u64);
    let summary = writer.summary(0);
    assert_eq!(summary.compressed_chunks + summary.stored_chunks, 3);
}
