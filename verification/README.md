# zstd_finder

A read-only archive format (`.zstf`) in which every regular file is split into
independently compressed chunks, so that one file, or one byte range of one
file, can be read without decoding anything before it.

Layout of an archive: a 64-byte header (magic `ZSTDFND1`, version, flags, chunk
size, where the index lies, its lengths and XXH3-64 checksum), the payload
chunks laid end to end, then the Zstandard-compressed JSON index.

## Layout of this crate

- `src/` is the library, verified with Verus:
  - `format.rs`: the header's byte layout (`encode`/`decode`, both directions
    proved) and the index records;
  - `path.rs`: archive paths (validation, normalisation, parents, splitting
    and joining, filesystem components to archive paths);
  - `order.rs`: the order of paths and sorting by it;
  - `validate.rs`: what the reader requires of a header and an index;
  - `archive.rs`: a validated archive: lookups, directory listings, range reads
    (`RangeRead`), whole-archive checks (`Verification`), extraction plans;
  - `writer.rs`: packing options, the `FileChunker`, which cuts a file's
    bytes into chunks as they are read, and the `ArchiveWriter`, which codes
    chunks, lays out the payload and closes the archive with its index and
    header;
  - `ffi.rs`: the decisions behind the C interface;
  - `codec.rs`: the calls into `zstd` and `xxhash-rust`;
  - `laws.rs`: properties that relate several functions.
- `app/` is the command-line tool and the C ABI: it opens files, walks
  directories, reads and writes bytes, and (de)serialises the index as JSON.
- `tests/` exercises the library on archives built in memory.

The reads and the whole-archive check are state machines: the library names
the chunk to fetch next (offset and stored length) and the caller hands its
bytes back, so that every decision about which bytes are read and what is
returned is made, and proved, in the library.
