pub mod archive;
pub mod codec;
pub mod error;
pub mod ffi;
pub mod format;
pub mod laws;
pub mod order;
pub mod path;
pub mod text;
pub mod validate;
pub mod writer;

pub use archive::{decode_chunk, link_target, Archive, ExtractStep, RangeRead, Verification, VerifySummary};
pub use error::{Error, Result};
pub use format::{
    ArchiveIndex, ChunkCodec, ChunkRef, Entry, EntryKind, Header, UnixTime, DEFAULT_CHUNK_SIZE,
    FORMAT_VERSION, HEADER_SIZE, MAGIC, MAX_CHUNK_SIZE, MAX_INDEX_SIZE, MIN_CHUNK_SIZE,
};
pub use order::sort_by_path;
pub use path::{
    normalize_lookup_path, parent_path, path_from_archive, path_to_archive, validate_archive_path,
    validate_component, PathPart,
};
pub use validate::{validate_header, validate_index};
pub use writer::{
    system_time_to_unix, validate_options, ArchiveWriter, EncodedChunk, FileChunker, IndexBlock, PackOptions,
    PackSummary,
};
