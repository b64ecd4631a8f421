//! Building an archive: options, the coding of each chunk, the layout of the
//! payload, and the index and header that close the archive. The caller
//! walks the source tree and writes the bytes handed back.
use vstd::prelude::*;

use crate::archive::{chunk_content, chunk_decodable, chunk_intact, index_bytes_intact};
use crate::laws::chunk_slice;
use crate::codec::{checksum, is_frame, xxh3_hash, zstd_compress, zstd_content, zstd_frame};
use crate::error::{Error, Result};
use crate::format::{
    ArchiveIndex, ChunkCodec, ChunkRef, Entry, EntryKind, Header, UnixTime, DEFAULT_CHUNK_SIZE,
    FORMAT_VERSION, HEADER_SIZE, MAX_CHUNK_SIZE, MAX_INDEX_SIZE, MIN_CHUNK_SIZE,
};
use crate::path::{parent_of, valid_archive_path};
use crate::order::path_lt;
use crate::text::{concat, decimal, decimal_string, owned};
use crate::validate::{
    ceil_div, entries_ok_before, entry_ok, has_directory, header_ok, index_ok, parents_ok,
    payload_before, raw_before, raw_total, stored_before, stored_total,
};
use vstd::arithmetic::div_mod::lemma_fundamental_div_mod_converse;

verus! {

/// How to pack: the logical chunk size, the Zstandard level, and whether an
/// existing destination may be replaced.
#[derive(Debug, Clone)]
pub struct PackOptions {
    pub chunk_size: u32,
    pub compression_level: i32,
    pub overwrite: bool,
}

impl Default for PackOptions {
    fn default() -> (r: Self)
        ensures
            r.chunk_size == DEFAULT_CHUNK_SIZE && r.compression_level == 3 && !r.overwrite,
    {
        PackOptions { chunk_size: DEFAULT_CHUNK_SIZE, compression_level: 3, overwrite: false }
    }
}

/// What packing produced.
#[derive(Debug, Clone, Copy, PartialEq, Eq, Structural)]
pub struct PackSummary {
    pub entries: usize,
    pub files: usize,
    pub source_bytes: u64,
    pub archive_bytes: u64,
    pub compressed_chunks: u64,
    pub stored_chunks: u64,
}

/// Options that `pack_directory` accepts: a chunk size within the format's
/// bounds and a Zstandard level from -7 to 22.
pub open spec fn options_ok(o: PackOptions) -> bool {
    &&& MIN_CHUNK_SIZE <= o.chunk_size <= MAX_CHUNK_SIZE
    &&& -7 <= o.compression_level <= 22
}

/// The bytes stored for a chunk whose bytes are `raw`: its Zstandard frame
/// at `level` when that saves at least 8 bytes, else `raw` itself (never
/// longer than `raw`).
pub open spec fn stored_form(raw: Seq<u8>, level: i32) -> Seq<u8> {
    let frame = zstd_frame(raw, level);
    if frame.len() + 8 <= raw.len() {
        frame
    } else {
        raw
    }
}

/// The writer takes every chunk size the reader takes: options whose chunk
/// size is that of a header the reader accepts, with a level from -7 to 22,
/// pass `validate_options`; and every chunk size it takes is one the
/// reader's header check accepts, from 64 KiB to 64 MiB.
pub proof fn law_options_take_every_readable_chunk_size(o: PackOptions, h: Header, file_len: u64)
    requires
        header_ok(h, file_len),
        o.chunk_size == h.chunk_size,
        -7 <= o.compression_level <= 22,
    ensures
        options_ok(o),
{
}

/// Every chunk size the writer takes lies within the format's bounds, and
/// every size within them (64 KiB to 64 MiB), at any level from -7 to 22,
/// is taken.
pub proof fn law_options_chunk_size_bounds(o: PackOptions)
    ensures
        options_ok(o) ==> 65536 <= o.chunk_size <= 67108864 && -7 <= o.compression_level <= 22,
        65536 <= o.chunk_size <= 67108864 && -7 <= o.compression_level <= 22 ==> options_ok(o),
{
}

/// The message for options that `options_ok` rejects.
pub open spec fn options_problem(o: PackOptions) -> Seq<char> {
    if !(MIN_CHUNK_SIZE <= o.chunk_size <= MAX_CHUNK_SIZE) {
        "chunk size must be between "@ + decimal(MIN_CHUNK_SIZE as nat) + " and "@ + decimal(MAX_CHUNK_SIZE as nat)
            + " bytes"@
    } else {
        "Zstd compression level must be between -7 and 22"@
    }
}

/// Checks the packing options.
pub fn validate_options(options: &PackOptions) -> (r: Result<()>)
    ensures
        r is Ok <==> options_ok(*options),
        r matches Err(e) ==> e matches Error::InvalidFormat(m) && m@ == options_problem(*options),
{
    if options.chunk_size < MIN_CHUNK_SIZE || options.chunk_size > MAX_CHUNK_SIZE {
        let mut m = concat("chunk size must be between ", decimal_string(MIN_CHUNK_SIZE as u64).as_str());
        m.append(" and ");
        m.append(decimal_string(MAX_CHUNK_SIZE as u64).as_str());
        m.append(" bytes");
        return Err(Error::InvalidFormat(m));
    }
    if options.compression_level < -7 || options.compression_level > 22 {
        return Err(Error::InvalidFormat(owned("Zstd compression level must be between -7 and 22")));
    }
    Ok(())
}

/// The modification time of a file as seconds and nanoseconds since the Unix
/// epoch, from the distance between it and the epoch (`secs` whole seconds
/// and `subsec_nanos`), which lies before the epoch when `before_epoch`.
/// Seconds beyond `i64::MAX` are clamped.
pub open spec fn unix_time_of(before_epoch: bool, secs: u64, subsec_nanos: u32) -> UnixTime {
    let s: int = if secs > i64::MAX { i64::MAX as int } else { secs as int };
    if !before_epoch {
        UnixTime { seconds: s as i64, nanos: subsec_nanos }
    } else if subsec_nanos == 0 {
        UnixTime { seconds: (-s) as i64, nanos: 0 }
    } else {
        UnixTime { seconds: (-s - 1) as i64, nanos: (1_000_000_000 - subsec_nanos) as u32 }
    }
}

/// Converts a distance from the Unix epoch into a `UnixTime` whose
/// nanoseconds always count forward.
pub fn system_time_to_unix(before_epoch: bool, secs: u64, subsec_nanos: u32) -> (r: UnixTime)
    requires
        subsec_nanos < 1_000_000_000,
    ensures
        r == unix_time_of(before_epoch, secs, subsec_nanos),
{
    let s: i64 = if secs > i64::MAX as u64 {
        i64::MAX
    } else {
        secs as i64
    };
    if !before_epoch {
        UnixTime { seconds: s, nanos: subsec_nanos }
    } else if subsec_nanos == 0 {
        UnixTime { seconds: -s, nanos: 0 }
    } else {
        UnixTime { seconds: -s - 1, nanos: 1_000_000_000 - subsec_nanos }
    }
}

/// The header fields that the checks of an entry read: the chunk size and
/// where the payload ends.
pub open spec fn layout_header(chunk_size: u32, payload_end: u64) -> Header {
    Header {
        version: FORMAT_VERSION,
        flags: 0,
        chunk_size,
        index_offset: payload_end,
        index_stored_len: 0,
        index_raw_len: 0,
        index_checksum: 0,
    }
}

/// Bytes to write for one chunk, and the chunk's index record.
pub struct EncodedChunk {
    pub chunk: ChunkRef,
    pub data: Vec<u8>,
}

/// The archive being written: the entries so far and where the payload ends.
pub struct ArchiveWriter {
    level: i32,
    index: ArchiveIndex,
    next_offset: u64,
    files: usize,
    source_bytes: u64,
    compressed_chunks: u64,
    stored_chunks: u64,
    pending: bool,
    committed: Ghost<int>,
    written: Ghost<Seq<ChunkRef>>,
    sound: Ghost<bool>,
}

/// The entry at the end of `entries` may follow the ones before it: a valid
/// path after the last one, whose parent is the root or one of them, a
/// directory.
pub open spec fn may_follow(entries: Seq<Entry>, path: Seq<char>) -> bool {
    &&& valid_archive_path(path)
    &&& entries.len() > 0 ==> path_lt(entries.last().path@, path)
    &&& parent_of(path).len() == 0 || has_directory(entries, parent_of(path))
}

/// A file's recorded size agrees with its chunks: one per chunk size, all
/// full but the last, holding the size in all.
pub open spec fn size_fits_chunks(size: u64, chunks: Seq<ChunkRef>, cs: u32) -> bool {
    &&& size == 0 ==> chunks.len() == 0
    &&& size > 0 ==> {
        &&& chunks.len() == crate::validate::ceil_div(size as int, cs as int)
        &&& forall|k: int| 0 <= k < chunks.len() - 1 ==> (#[trigger] chunks[k]).raw_len == cs
        &&& crate::validate::raw_total(chunks) == size
    }
}

impl ArchiveWriter {
    pub closed spec fn spec_index(&self) -> ArchiveIndex {
        self.index
    }

    pub closed spec fn spec_level(&self) -> i32 {
        self.level
    }

    /// Where the payload written so far ends.
    pub closed spec fn spec_next_offset(&self) -> u64 {
        self.next_offset
    }

    /// The chunks written since the last entry was added.
    pub closed spec fn spec_written(&self) -> Seq<ChunkRef> {
        self.written@
    }

    /// Every entry so far passes the reader's checks, and the chunks written
    /// since lie end to end after theirs.
    pub closed spec fn sound(&self) -> bool {
        self.sound@
    }

    pub closed spec fn spec_counts(&self) -> (usize, u64, u64, u64) {
        (self.files, self.source_bytes, self.compressed_chunks, self.stored_chunks)
    }

    pub closed spec fn wf(&self) -> bool {
        let entries = self.index.entries@;
        let cs = self.index.chunk_size;
        &&& self.index.version == FORMAT_VERSION
        &&& MIN_CHUNK_SIZE <= cs <= MAX_CHUNK_SIZE
        &&& HEADER_SIZE <= self.committed@ <= self.next_offset
        &&& self.next_offset == self.committed@ + stored_total(self.written@)
        &&& self.files <= entries.len()
        &&& self.compressed_chunks + self.stored_chunks <= self.next_offset
        &&& self.pending == (self.written@.len() > 0)
        &&& self.sound@ ==> {
            &&& entries_ok_before(entries, entries.len() as int, layout_header(cs, self.committed@ as u64))
            &&& parents_ok(entries)
            &&& self.committed@ == HEADER_SIZE + payload_before(entries, entries.len() as int)
            &&& forall|k: int| 0 <= k < self.written@.len() ==> {
                &&& (#[trigger] self.written@[k]).offset == self.committed@ + stored_before(self.written@, k)
                &&& self.written@[k].stored_len > 0
                &&& 0 < self.written@[k].raw_len <= cs
                &&& self.written@[k].codec == ChunkCodec::Stored ==> self.written@[k].stored_len == self.written@[k].raw_len
            }
        }
    }

    /// Starts an archive; the payload begins right after the header.
    pub fn new(options: &PackOptions) -> (r: Result<ArchiveWriter>)
        ensures
            r is Ok <==> options_ok(*options),
            r matches Err(e) ==> e matches Error::InvalidFormat(m) && m@ == options_problem(*options),
            r matches Ok(w) ==> {
                &&& w.wf()
                &&& w.sound()
                &&& w.spec_index().entries@.len() == 0
                &&& w.spec_index().chunk_size == options.chunk_size
                &&& w.spec_level() == options.compression_level
                &&& w.spec_next_offset() == HEADER_SIZE
                &&& w.spec_written().len() == 0
                &&& w.spec_counts() == (0usize, 0u64, 0u64, 0u64)
            },
    {
        validate_options(options)?;
        Ok(
            ArchiveWriter {
                level: options.compression_level,
                index: ArchiveIndex { version: FORMAT_VERSION, chunk_size: options.chunk_size, entries: Vec::new() },
                next_offset: HEADER_SIZE as u64,
                files: 0,
                source_bytes: 0,
                compressed_chunks: 0,
                stored_chunks: 0,
                committed: Ghost(HEADER_SIZE as int),
                written: Ghost(Seq::empty()),
                pending: false,
                sound: Ghost(true),
            },
        )
    }

    /// The index built so far.
    pub fn index(&self) -> (r: &ArchiveIndex)
        ensures
            r == self.spec_index(),
    {
        &self.index
    }

    /// Whether chunks were written since the last entry was added.
    pub fn has_pending_chunks(&self) -> (r: bool)
        requires
            self.wf(),
        ensures
            r == (self.spec_written().len() > 0),
    {
        self.pending
    }

    /// Where the next chunk's bytes go.
    pub fn next_offset(&self) -> (r: u64)
        ensures
            r == self.spec_next_offset(),
    {
        self.next_offset
    }
}

/// The compressed index and the header that closes an archive.
pub struct IndexBlock {
    pub compressed: Vec<u8>,
    pub header: Header,
}

/// Raising where the payload ends keeps every entry's checks passing.
proof fn lemma_entries_ok_grow(entries: Seq<Entry>, cs: u32, a: u64, b: u64)
    requires
        a <= b,
        entries_ok_before(entries, entries.len() as int, layout_header(cs, a)),
    ensures
        entries_ok_before(entries, entries.len() as int, layout_header(cs, b)),
{
    assert forall|j: int| 0 <= j < entries.len() implies entry_ok(entries, j, layout_header(cs, b)) by {
        assert(entry_ok(entries, j, layout_header(cs, a)));
    }
}

/// Appending an entry that may follow keeps the earlier entries' checks and
/// parents, and adds its own parent.
proof fn lemma_push_entry(entries: Seq<Entry>, e: Entry, h: Header)
    requires
        entries_ok_before(entries, entries.len() as int, h),
        parents_ok(entries),
        may_follow(entries, e.path@),
        crate::validate::entry_kind_ok(e, h.chunk_size, h.index_offset, HEADER_SIZE + payload_before(entries, entries.len() as int)),
    ensures
        entries_ok_before(entries.push(e), entries.len() as int + 1, h),
        parents_ok(entries.push(e)),
        payload_before(entries.push(e), entries.len() as int + 1) == payload_before(entries, entries.len() as int) + stored_total(e.chunks@),
{
    let all = entries.push(e);
    let n = entries.len() as int;
    lemma_payload_prefix(entries, e, n);
    assert forall|j: int| 0 <= j < n + 1 implies entry_ok(all, j, h) by {
        lemma_payload_prefix(entries, e, j);
        if j < n {
            assert(entry_ok(entries, j, h));
            assert(all[j] == entries[j]);
            if j > 0 {
                assert(all[j - 1] == entries[j - 1]);
            }
        } else {
            assert(all[j] == e);
            if j > 0 {
                assert(all[j - 1] == entries.last());
            }
        }
    }
    assert forall|k: int| 0 <= k < all.len() implies (#[trigger] parent_of(all[k].path@)).len() == 0 || has_directory(all, parent_of(all[k].path@)) by {
        if k < n {
            assert(all[k] == entries[k]);
            if parent_of(entries[k].path@).len() != 0 {
                let w = choose|w: int| 0 <= w < entries.len() && (#[trigger] entries[w]).path@ == parent_of(entries[k].path@) && entries[w].kind == EntryKind::Directory;
                assert(all[w] == entries[w]);
            }
        } else {
            assert(all[k] == e);
            if parent_of(e.path@).len() != 0 {
                let w = choose|w: int| 0 <= w < entries.len() && (#[trigger] entries[w]).path@ == parent_of(e.path@) && entries[w].kind == EntryKind::Directory;
                assert(all[w] == entries[w]);
            }
        }
    }
}

/// The payload before the first `k` entries does not change when an entry
/// is appended, and grows by its chunks past it.
proof fn lemma_payload_prefix(entries: Seq<Entry>, e: Entry, k: int)
    requires
        0 <= k <= entries.len(),
    ensures
        payload_before(entries.push(e), k) == payload_before(entries, k),
        k == entries.len() ==> payload_before(entries.push(e), k + 1) == payload_before(entries, k) + stored_total(e.chunks@),
    decreases k,
{
    if k > 0 {
        lemma_payload_prefix(entries, e, k - 1);
        assert(entries.push(e)[k - 1] == entries[k - 1]);
    }
    if k == entries.len() {
        assert(entries.push(e)[k] == e);
    }
}

impl ArchiveWriter {
    /// Codes one chunk of a regular file, `raw` holding its logical bytes:
    /// as a Zstandard frame when that saves at least 8 bytes, else as is.
    /// The chunk's bytes go at `next_offset`.
    pub fn write_chunk(&mut self, raw: &[u8]) -> (r: Result<EncodedChunk>)
        requires
            old(self).wf(),
            0 < raw@.len() <= old(self).spec_index().chunk_size,
        ensures
            r is Ok <==> old(self).spec_next_offset() + stored_form(raw@, old(self).spec_level()).len() <= u64::MAX,
            final(self).wf(),
            final(self).spec_index() == old(self).spec_index(),
            final(self).spec_level() == old(self).spec_level(),
            match r {
                Ok(ec) => {
                    let frame = zstd_frame(raw@, old(self).spec_level());
                    let zstd = frame.len() + 8 <= raw@.len();
                    &&& ec.data@ == if zstd { frame } else { raw@ }
                    &&& ec.chunk.codec == if zstd { ChunkCodec::Zstd } else { ChunkCodec::Stored }
                    &&& ec.chunk.offset == old(self).spec_next_offset()
                    &&& ec.chunk.stored_len == ec.data@.len()
                    &&& ec.chunk.raw_len == raw@.len()
                    &&& ec.chunk.checksum == xxh3_hash(raw@)
                    &&& chunk_content(ec.chunk, ec.data@) == raw@
                    &&& chunk_intact(ec.chunk, raw@)
                    &&& chunk_decodable(ec.chunk, ec.data@)
                    &&& final(self).spec_next_offset() == old(self).spec_next_offset() + ec.data@.len()
                    &&& final(self).spec_written() == old(self).spec_written().push(ec.chunk)
                    &&& final(self).sound() == old(self).sound()
                    &&& final(self).spec_counts().0 == old(self).spec_counts().0
                    &&& final(self).spec_counts().1 == old(self).spec_counts().1
                    &&& final(self).spec_counts().2 == old(self).spec_counts().2 + if zstd { 1int } else { 0int }
                    &&& final(self).spec_counts().3 == old(self).spec_counts().3 + if zstd { 0int } else { 1int }
                },
                Err(e) => {
                    &&& e matches Error::InvalidFormat(m) && m@ == "chunk offset overflow"@
                    &&& *final(self) == *old(self)
                },
            },
    {
        let compressed = match zstd_compress(raw, self.level) {
            Ok(c) => c,
            Err(e) => {
                return Err(Error::Io(e));
            },
        };
        let (codec, data) = if compressed.len() < raw.len() && raw.len() - compressed.len() >= 8 {
            (ChunkCodec::Zstd, compressed)
        } else {
            (ChunkCodec::Stored, vstd::slice::slice_to_vec(raw))
        };
        let offset = self.next_offset;
        let end = match offset.checked_add(data.len() as u64) {
            Some(end) => end,
            None => {
                return Err(Error::InvalidFormat(owned("chunk offset overflow")));
            },
        };
        let chunk = ChunkRef {
            offset,
            stored_len: data.len() as u32,
            raw_len: raw.len() as u32,
            codec,
            checksum: checksum(raw),
        };
        if codec == ChunkCodec::Zstd {
            self.compressed_chunks = self.compressed_chunks + 1;
        } else {
            self.stored_chunks = self.stored_chunks + 1;
        }
        let ghost old_written = self.written@;
        self.next_offset = end;
        self.written = Ghost(self.written@.push(chunk));
        self.pending = true;
        proof {
            let w = self.written@;
            assert(stored_before(w, old_written.len() as int) == stored_before(old_written, old_written.len() as int)) by {
                lemma_stored_before_push(old_written, chunk, old_written.len() as int);
            }
            assert(stored_total(w) == stored_total(old_written) + chunk.stored_len) by {
                lemma_stored_before_push(old_written, chunk, old_written.len() as int);
            }
            assert forall|k: int| 0 <= k < w.len() implies #[trigger] stored_before(w, k) == stored_before(old_written, k) || k == old_written.len() by {
                if k < old_written.len() {
                    lemma_stored_before_push(old_written, chunk, k);
                }
            }
        }
        Ok(EncodedChunk { chunk, data })
    }
}

proof fn lemma_stored_before_push(chunks: Seq<ChunkRef>, c: ChunkRef, k: int)
    requires
        0 <= k <= chunks.len(),
    ensures
        stored_before(chunks.push(c), k) == stored_before(chunks, k),
        stored_before(chunks.push(c), chunks.len() as int + 1) == stored_before(chunks, chunks.len() as int) + c.stored_len,
    decreases k,
{
    if k > 0 {
        lemma_stored_before_push(chunks, c, k - 1);
        assert(chunks.push(c)[k - 1] == chunks[k - 1]);
    }
    lemma_stored_before_push_all(chunks, c, chunks.len() as int);
}

proof fn lemma_stored_before_push_all(chunks: Seq<ChunkRef>, c: ChunkRef, k: int)
    requires
        0 <= k <= chunks.len(),
    ensures
        stored_before(chunks.push(c), k) == stored_before(chunks, k),
    decreases k,
{
    if k > 0 {
        lemma_stored_before_push_all(chunks, c, k - 1);
        assert(chunks.push(c)[k - 1] == chunks[k - 1]);
    }
}

impl ArchiveWriter {
    /// Appends an entry with no payload.
    fn push_plain(&mut self, entry: Entry)
        requires
            old(self).wf(),
            entry.kind != EntryKind::File,
            entry.size == 0,
            entry.chunks@.len() == 0,
            entry.kind == EntryKind::Directory ==> entry.symlink_target is None,
            entry.kind == EntryKind::Symlink ==> entry.symlink_target is Some,
        ensures
            final(self).wf(),
            final(self).spec_index().entries@ == old(self).spec_index().entries@.push(entry),
            final(self).spec_index().chunk_size == old(self).spec_index().chunk_size,
            final(self).spec_index().version == old(self).spec_index().version,
            final(self).spec_level() == old(self).spec_level(),
            final(self).spec_next_offset() == old(self).spec_next_offset(),
            final(self).spec_written() == old(self).spec_written(),
            final(self).spec_counts() == old(self).spec_counts(),
            final(self).sound() == (old(self).sound() && old(self).spec_written().len() == 0
                && may_follow(old(self).spec_index().entries@, entry.path@)),
    {
        let ghost entries = self.index.entries@;
        let ghost cs = self.index.chunk_size;
        let ghost ok = self.sound@ && self.written@.len() == 0 && may_follow(entries, entry.path@);
        proof {
            if ok {
                lemma_push_entry(entries, entry, layout_header(cs, self.committed@ as u64));
                assert(stored_total(entry.chunks@) == 0);
            }
        }
        self.index.entries.push(entry);
        self.sound = Ghost(ok);
    }

    /// Adds a directory.
    pub fn add_directory(&mut self, path: String, unix_mode: u32, modified: Option<UnixTime>)
        requires
            old(self).wf(),
        ensures
            final(self).wf(),
            final(self).spec_index().entries@ == old(self).spec_index().entries@.push(
                Entry {
                    path,
                    kind: EntryKind::Directory,
                    size: 0,
                    unix_mode,
                    modified,
                    chunks: final(self).spec_index().entries@.last().chunks,
                    symlink_target: None,
                },
            ),
            final(self).spec_index().entries@.last().chunks@.len() == 0,
            final(self).spec_index().chunk_size == old(self).spec_index().chunk_size,
            final(self).spec_level() == old(self).spec_level(),
            final(self).spec_next_offset() == old(self).spec_next_offset(),
            final(self).spec_written() == old(self).spec_written(),
            final(self).spec_counts() == old(self).spec_counts(),
            final(self).sound() == (old(self).sound() && old(self).spec_written().len() == 0
                && may_follow(old(self).spec_index().entries@, path@)),
    {
        let entry = Entry {
            path,
            kind: EntryKind::Directory,
            size: 0,
            unix_mode,
            modified,
            chunks: Vec::new(),
            symlink_target: None,
        };
        self.push_plain(entry);
    }

    /// Adds a symbolic link to `target`.
    pub fn add_symlink(&mut self, path: String, unix_mode: u32, modified: Option<UnixTime>, target: String)
        requires
            old(self).wf(),
        ensures
            final(self).wf(),
            final(self).spec_index().entries@ == old(self).spec_index().entries@.push(
                Entry {
                    path,
                    kind: EntryKind::Symlink,
                    size: 0,
                    unix_mode,
                    modified,
                    chunks: final(self).spec_index().entries@.last().chunks,
                    symlink_target: Some(target),
                },
            ),
            final(self).spec_index().entries@.last().chunks@.len() == 0,
            final(self).spec_index().chunk_size == old(self).spec_index().chunk_size,
            final(self).spec_level() == old(self).spec_level(),
            final(self).spec_next_offset() == old(self).spec_next_offset(),
            final(self).spec_written() == old(self).spec_written(),
            final(self).spec_counts() == old(self).spec_counts(),
            final(self).sound() == (old(self).sound() && old(self).spec_written().len() == 0
                && may_follow(old(self).spec_index().entries@, path@)),
    {
        let entry = Entry {
            path,
            kind: EntryKind::Symlink,
            size: 0,
            unix_mode,
            modified,
            chunks: Vec::new(),
            symlink_target: Some(target),
        };
        self.push_plain(entry);
    }

    /// Adds a regular file of `size` bytes whose chunks, in order, are
    /// `chunks`.
    pub fn add_file(
        &mut self,
        path: String,
        unix_mode: u32,
        modified: Option<UnixTime>,
        size: u64,
        chunks: Vec<ChunkRef>,
    )
        requires
            old(self).wf(),
        ensures
            final(self).wf(),
            final(self).spec_index().entries@ == old(self).spec_index().entries@.push(
                Entry {
                    path,
                    kind: EntryKind::File,
                    size,
                    unix_mode,
                    modified,
                    chunks,
                    symlink_target: None,
                },
            ),
            final(self).spec_index().chunk_size == old(self).spec_index().chunk_size,
            final(self).spec_level() == old(self).spec_level(),
            final(self).spec_next_offset() == old(self).spec_next_offset(),
            final(self).spec_written().len() == 0,
            final(self).spec_counts().0 == old(self).spec_counts().0 + 1,
            final(self).spec_counts().1 == old(self).spec_counts().1.saturating_add(size),
            final(self).spec_counts().2 == old(self).spec_counts().2,
            final(self).spec_counts().3 == old(self).spec_counts().3,
            final(self).sound() == (old(self).sound() && chunks@ == old(self).spec_written()
                && size_fits_chunks(size, chunks@, old(self).spec_index().chunk_size)
                && may_follow(old(self).spec_index().entries@, path@)),
    {
        let ghost entries = self.index.entries@;
        let ghost cs = self.index.chunk_size;
        let ghost ok = self.sound@ && chunks@ == self.written@ && size_fits_chunks(size, chunks@, cs)
            && may_follow(entries, path@);
        let entry = Entry {
            path,
            kind: EntryKind::File,
            size,
            unix_mode,
            modified,
            chunks,
            symlink_target: None,
        };
        proof {
            if ok {
                let c = entry.chunks@;
                let start = self.committed@;
                let h = layout_header(cs, self.next_offset);
                lemma_entries_ok_grow(entries, cs, self.committed@ as u64, self.next_offset);
                assert(crate::validate::file_entry_ok(entry, cs, self.next_offset, start)) by {
                    assert forall|k: int| 0 <= k < c.len() implies crate::validate::chunk_shape_ok(#[trigger] c[k], k, c.len() as int, cs) by {
                        assert(c[k] == self.written@[k]);
                    }
                    assert forall|k: int| 0 <= k < c.len() implies (#[trigger] c[k]).offset == start + stored_before(c, k) by {
                        assert(c[k] == self.written@[k]);
                    }
                }
                lemma_push_entry(entries, entry, h);
            }
        }
        self.source_bytes = self.source_bytes.saturating_add(size);
        self.index.entries.push(entry);
        // Reading the length makes the bound `len <= usize::MAX` known, and
        // with it that the file count below cannot overflow.
        let _entry_count = self.index.entries.len();
        self.files = self.files + 1;
        self.committed = Ghost(self.next_offset as int);
        self.written = Ghost(Seq::empty());
        self.pending = false;
        self.sound = Ghost(ok);
    }
}

impl ArchiveWriter {
    /// Compresses the serialised index and builds the header that closes the
    /// archive: the index goes right after the payload.
    pub fn finish(&self, index_raw: &[u8]) -> (r: Result<IndexBlock>)
        requires
            self.wf(),
        ensures
            match r {
                Ok(b) => {
                    &&& b.compressed@ == zstd_frame(index_raw@, self.spec_level())
                    &&& is_frame(b.compressed@)
                    &&& zstd_content(b.compressed@) == index_raw@
                    &&& b.header == (Header {
                        version: FORMAT_VERSION,
                        flags: 0,
                        chunk_size: self.spec_index().chunk_size,
                        index_offset: self.spec_next_offset(),
                        index_stored_len: b.compressed@.len() as u64,
                        index_raw_len: index_raw@.len() as u64,
                        index_checksum: xxh3_hash(index_raw@),
                    })
                    &&& index_bytes_intact(b.header, index_raw@)
                    &&& (self.sound() && self.spec_written().len() == 0 && 0 < index_raw@.len() <= MAX_INDEX_SIZE
                        && b.compressed@.len() <= MAX_INDEX_SIZE
                        && self.spec_next_offset() + b.compressed@.len() <= u64::MAX) ==> {
                        &&& header_ok(b.header, (self.spec_next_offset() + b.compressed@.len()) as u64)
                        &&& index_ok(self.spec_index(), b.header)
                    }
                },
                Err(_) => false,
            },
    {
        let index_checksum = checksum(index_raw);
        let compressed = match zstd_compress(index_raw, self.level) {
            Ok(c) => c,
            Err(e) => {
                return Err(Error::Io(e));
            },
        };
        let header = Header {
            version: FORMAT_VERSION,
            flags: 0,
            chunk_size: self.index.chunk_size,
            index_offset: self.next_offset,
            index_stored_len: compressed.len() as u64,
            index_raw_len: index_raw.len() as u64,
            index_checksum,
        };
        proof {
            let entries = self.index.entries@;
            if self.sound@ && self.written@.len() == 0 {
                assert forall|j: int| 0 <= j < entries.len() implies entry_ok(entries, j, header) by {
                    assert(entry_ok(entries, j, layout_header(self.index.chunk_size, self.committed@ as u64)));
                }
            }
        }
        Ok(IndexBlock { compressed, header })
    }

    /// What packing produced, given the archive's final length.
    pub fn summary(&self, archive_bytes: u64) -> (r: PackSummary)
        ensures
            r.entries == self.spec_index().entries@.len(),
            (r.files, r.source_bytes, r.compressed_chunks, r.stored_chunks) == self.spec_counts(),
            r.archive_bytes == archive_bytes,
    {
        PackSummary {
            entries: self.index.entries.len(),
            files: self.files,
            source_bytes: self.source_bytes,
            archive_bytes,
            compressed_chunks: self.compressed_chunks,
            stored_chunks: self.stored_chunks,
        }
    }
}

/// Cuts a regular file's bytes, as they are read, into chunks of the
/// archive's chunk size and has the writer code each one as it fills: every
/// chunk is full but the last. The caller reads at most `room` bytes at a
/// time, hands them to `feed`, writes out each chunk that comes back, and
/// after the last byte calls `finish`, whose chunks make up the file's entry.
pub struct FileChunker {
    buffer: Vec<u8>,
    chunks: Vec<ChunkRef>,
    size: u64,
    fed: Ghost<Seq<u8>>,
}

proof fn lemma_raw_before_push(chunks: Seq<ChunkRef>, c: ChunkRef, k: int)
    requires
        0 <= k <= chunks.len(),
    ensures
        raw_before(chunks.push(c), k) == raw_before(chunks, k),
        raw_before(chunks.push(c), chunks.len() as int + 1) == raw_before(chunks, chunks.len() as int) + c.raw_len,
{
    lemma_raw_before_push_prefix(chunks, c, k);
    lemma_raw_before_push_prefix(chunks, c, chunks.len() as int);
}

proof fn lemma_raw_before_push_prefix(chunks: Seq<ChunkRef>, c: ChunkRef, k: int)
    requires
        0 <= k <= chunks.len(),
    ensures
        raw_before(chunks.push(c), k) == raw_before(chunks, k),
    decreases k,
{
    if k > 0 {
        lemma_raw_before_push_prefix(chunks, c, k - 1);
    }
}

/// Each chunk is intact for its own bytes of `data`: chunk `k` holds the
/// `raw_len` bytes that follow those of the chunks before it.
pub open spec fn chunks_match(chunks: Seq<ChunkRef>, data: Seq<u8>) -> bool {
    forall|k: int| 0 <= k < chunks.len() ==> chunk_intact(
        #[trigger] chunks[k],
        data.subrange(raw_before(chunks, k), raw_before(chunks, k) + chunks[k].raw_len),
    )
}

proof fn lemma_raw_before_mono(chunks: Seq<ChunkRef>, k: int, j: int)
    requires
        0 <= k <= j,
    ensures
        raw_before(chunks, k) <= raw_before(chunks, j),
    decreases j,
{
    if k < j {
        lemma_raw_before_mono(chunks, k, j - 1);
    }
}

/// Appending bytes to `data` keeps every chunk matched to the same bytes.
proof fn lemma_chunks_match_extend(chunks: Seq<ChunkRef>, data: Seq<u8>, more: Seq<u8>)
    requires
        chunks_match(chunks, data),
        raw_total(chunks) <= data.len(),
    ensures
        chunks_match(chunks, data + more),
{
    assert forall|k: int| 0 <= k < chunks.len() implies chunk_intact(
        #[trigger] chunks[k],
        (data + more).subrange(raw_before(chunks, k), raw_before(chunks, k) + chunks[k].raw_len),
    ) by {
        lemma_raw_before_mono(chunks, k + 1, chunks.len() as int);
        lemma_raw_before_mono(chunks, 0, k);
        let a = raw_before(chunks, k);
        let b = a + chunks[k].raw_len;
        assert((data + more).subrange(a, b) =~= data.subrange(a, b));
    }
}

/// Adding a chunk that is intact for the bytes after those of the others
/// keeps the chunks matched.
proof fn lemma_chunks_match_push(chunks: Seq<ChunkRef>, c: ChunkRef, data: Seq<u8>)
    requires
        chunks_match(chunks, data),
        chunk_intact(c, data.subrange(raw_total(chunks), raw_total(chunks) + c.raw_len)),
    ensures
        chunks_match(chunks.push(c), data),
{
    let n = chunks.len() as int;
    lemma_raw_before_push(chunks, c, n);
    assert forall|k: int| 0 <= k < n + 1 implies chunk_intact(
        #[trigger] chunks.push(c)[k],
        data.subrange(raw_before(chunks.push(c), k), raw_before(chunks.push(c), k) + chunks.push(c)[k].raw_len),
    ) by {
        if k < n {
            lemma_raw_before_push(chunks, c, k);
            assert(chunks.push(c)[k] == chunks[k]);
        }
    }
}

impl FileChunker {
    /// The bytes fed so far.
    pub closed spec fn spec_fed(&self) -> Seq<u8> {
        self.fed@
    }

    /// The fed bytes that do not yet fill a chunk.
    pub closed spec fn spec_buffered(&self) -> Seq<u8> {
        self.buffer@
    }

    /// The full chunks coded so far.
    pub closed spec fn spec_chunks(&self) -> Seq<ChunkRef> {
        self.chunks@
    }

    /// The chunker agrees with `w`: its chunks are those `w` has written
    /// since the last entry, all full, and with the buffered bytes they hold
    /// every byte fed.
    pub closed spec fn wf(&self, w: &ArchiveWriter) -> bool {
        let cs = w.spec_index().chunk_size;
        &&& w.wf()
        &&& self.chunks@ == w.spec_written()
        &&& self.buffer@.len() < cs
        &&& forall|k: int| 0 <= k < self.chunks@.len() ==> (#[trigger] self.chunks@[k]).raw_len == cs
        &&& self.fed@.len() == raw_total(self.chunks@) + self.buffer@.len()
        &&& self.buffer@ == self.fed@.skip(raw_total(self.chunks@))
        &&& chunks_match(self.chunks@, self.fed@)
        &&& self.size == self.fed@.len()
    }

    /// Starts a file; the writer must have no chunk waiting for an entry.
    pub fn new(w: &ArchiveWriter) -> (r: FileChunker)
        requires
            w.wf(),
            w.spec_written().len() == 0,
        ensures
            r.wf(w),
            r.spec_fed().len() == 0,
            r.spec_buffered().len() == 0,
    {
        let r = FileChunker { buffer: Vec::new(), chunks: Vec::new(), size: 0, fed: Ghost(Seq::empty()) };
        assert(r.chunks@ =~= w.spec_written());
        assert(r.buffer@ =~= r.fed@.skip(0));
        r
    }

    /// How many bytes were fed.
    pub fn bytes_fed(&self, w: &ArchiveWriter) -> (r: u64)
        requires
            self.wf(w),
        ensures
            r == self.spec_fed().len(),
    {
        self.size
    }

    /// How many bytes the next `feed` may take: what completes the chunk
    /// being filled.
    pub fn room(&self, w: &ArchiveWriter) -> (r: usize)
        requires
            self.wf(w),
        ensures
            r == w.spec_index().chunk_size - self.spec_buffered().len(),
            r > 0,
    {
        w.index.chunk_size as usize - self.buffer.len()
    }

    /// Takes the next bytes read from the file; when they complete a chunk,
    /// the writer codes it and the coded chunk is returned to be written out.
    pub fn feed(&mut self, w: &mut ArchiveWriter, bytes: &[u8]) -> (r: Result<Option<EncodedChunk>>)
        requires
            old(self).wf(old(w)),
            old(self).spec_buffered().len() + bytes@.len() <= old(w).spec_index().chunk_size,
            old(self).spec_fed().len() + bytes@.len() <= u64::MAX,
        ensures
            final(w).spec_index() == old(w).spec_index(),
            final(w).spec_level() == old(w).spec_level(),
            final(w).sound() == old(w).sound(),
            r is Ok ==> chunks_match(final(self).spec_chunks(), final(self).spec_fed()),
            match r {
                Ok(None) => {
                    &&& final(self).wf(final(w))
                    &&& final(self).spec_fed() == old(self).spec_fed() + bytes@
                    &&& old(self).spec_buffered().len() + bytes@.len() < old(w).spec_index().chunk_size
                    &&& final(self).spec_buffered() == old(self).spec_buffered() + bytes@
                    &&& final(self).spec_chunks() == old(self).spec_chunks()
                    &&& *final(w) == *old(w)
                },
                Ok(Some(ec)) => {
                    let raw = old(self).spec_buffered() + bytes@;
                    &&& final(self).wf(final(w))
                    &&& final(self).spec_fed() == old(self).spec_fed() + bytes@
                    &&& raw.len() == old(w).spec_index().chunk_size
                    &&& final(self).spec_buffered().len() == 0
                    &&& ec.data@ == stored_form(raw, old(w).spec_level())
                    &&& ec.chunk.codec == (if zstd_frame(raw, old(w).spec_level()).len() + 8 <= raw.len() { ChunkCodec::Zstd } else { ChunkCodec::Stored })
                    &&& ec.chunk.stored_len == ec.data@.len()
                    &&& chunk_content(ec.chunk, ec.data@) == raw
                    &&& chunk_intact(ec.chunk, raw)
                    &&& chunk_decodable(ec.chunk, ec.data@)
                    &&& ec.chunk.offset == old(w).spec_next_offset()
                    &&& final(w).spec_next_offset() == old(w).spec_next_offset() + ec.data@.len()
                    &&& final(self).spec_chunks() == old(self).spec_chunks().push(ec.chunk)
                    &&& raw == chunk_slice(final(self).spec_chunks(), final(self).spec_fed(), old(self).spec_chunks().len() as int)
                    &&& final(w).spec_written() == old(w).spec_written().push(ec.chunk)
                    &&& final(w).spec_counts().0 == old(w).spec_counts().0
                    &&& final(w).spec_counts().1 == old(w).spec_counts().1
                    &&& final(w).spec_counts().2 == old(w).spec_counts().2 + if ec.chunk.codec == ChunkCodec::Zstd { 1int } else { 0int }
                    &&& final(w).spec_counts().3 == old(w).spec_counts().3 + if ec.chunk.codec == ChunkCodec::Zstd { 0int } else { 1int }
                },
                Err(e) => {
                    &&& e matches Error::InvalidFormat(m) && m@ == "chunk offset overflow"@
                    &&& old(w).spec_next_offset() + stored_form(old(self).spec_buffered() + bytes@, old(w).spec_level()).len() > u64::MAX
                    &&& *final(w) == *old(w)
                },
            },
    {
        let ghost old_buffer = self.buffer@;
        let mut i: usize = 0;
        while i < bytes.len()
            invariant
                i <= bytes@.len(),
                self.buffer@ == old_buffer + bytes@.subrange(0, i as int),
                self.size == old(self).size,
                self.fed == old(self).fed,
                self.chunks == old(self).chunks,
            decreases bytes@.len() - i,
        {
            self.buffer.push(bytes[i]);
            i = i + 1;
            assert(self.buffer@ =~= old_buffer + bytes@.subrange(0, i as int));
        }
        assert(bytes@.subrange(0, bytes@.len() as int) =~= bytes@);
        let ghost old_fed = self.fed@;
        self.size = self.size + bytes.len() as u64;
        self.fed = Ghost(self.fed@ + bytes@);
        proof {
            lemma_chunks_match_extend(self.chunks@, old_fed, bytes@);
            let t = raw_total(self.chunks@);
            crate::validate::lemma_raw_before_nonneg(self.chunks@, self.chunks@.len() as int);
            assert(old_buffer == old_fed.skip(t));
            assert(t <= old_fed.len());
            assert(self.buffer@ == old_buffer + bytes@);
            assert((old_fed + bytes@).skip(t) =~= old_fed.skip(t) + bytes@);
            assert(self.buffer@ =~= self.fed@.skip(raw_total(self.chunks@)));
        }
        if self.buffer.len() < w.index.chunk_size as usize {
            return Ok(None);
        }
        let raw = self.buffer.split_off(0);
        assert(raw@ =~= old_buffer + bytes@);
        let ghost old_chunks = self.chunks@;
        let ec = w.write_chunk(raw.as_slice())?;
        self.chunks.push(ec.chunk);
        proof {
            lemma_raw_before_push(old_chunks, ec.chunk, old_chunks.len() as int);
            let t = raw_total(old_chunks);
            assert(self.fed@.subrange(t, t + ec.chunk.raw_len) =~= raw@);
            lemma_chunks_match_push(old_chunks, ec.chunk, self.fed@);
            assert(self.buffer@ =~= self.fed@.skip(raw_total(self.chunks@)));
        }
        Ok(Some(ec))
    }

    /// Ends the file: codes the bytes that do not fill a chunk as its last
    /// chunk, and gives that chunk (to be written out) and all the file's
    /// chunks, which fit a file of as many bytes as were fed.
    pub fn finish(self, w: &mut ArchiveWriter) -> (r: Result<(Option<EncodedChunk>, Vec<ChunkRef>)>)
        requires
            self.wf(old(w)),
        ensures
            final(w).spec_index() == old(w).spec_index(),
            final(w).spec_level() == old(w).spec_level(),
            final(w).sound() == old(w).sound(),
            match r {
                Ok((last, chunks)) => {
                    &&& final(w).wf()
                    &&& chunks@ == final(w).spec_written()
                    &&& size_fits_chunks(self.spec_fed().len() as u64, chunks@, old(w).spec_index().chunk_size)
                    &&& chunks_match(chunks@, self.spec_fed())
                    &&& forall|k: int| 0 <= k < chunks@.len() ==> 0 < (#[trigger] chunks@[k]).raw_len <= old(w).spec_index().chunk_size
                    &&& last is None ==> chunks@ == self.spec_chunks()
                    &&& (last is Some <==> self.spec_buffered().len() > 0)
                    &&& last is None ==> *final(w) == *old(w)
                    &&& last matches Some(ec) ==> {
                        &&& ec.data@ == stored_form(self.spec_buffered(), old(w).spec_level())
                        &&& ec.chunk.codec == (if zstd_frame(self.spec_buffered(), old(w).spec_level()).len() + 8
                            <= self.spec_buffered().len() { ChunkCodec::Zstd } else { ChunkCodec::Stored })
                        &&& ec.chunk.stored_len == ec.data@.len()
                        &&& chunk_content(ec.chunk, ec.data@) == self.spec_buffered()
                        &&& chunk_intact(ec.chunk, self.spec_buffered())
                        &&& chunk_decodable(ec.chunk, ec.data@)
                        &&& ec.chunk.offset == old(w).spec_next_offset()
                        &&& final(w).spec_next_offset() == old(w).spec_next_offset() + ec.data@.len()
                        &&& chunks@ == self.spec_chunks().push(ec.chunk)
                        &&& self.spec_buffered() == chunk_slice(chunks@, self.spec_fed(), self.spec_chunks().len() as int)
                        &&& final(w).spec_written() == old(w).spec_written().push(ec.chunk)
                        &&& final(w).spec_counts().0 == old(w).spec_counts().0
                        &&& final(w).spec_counts().1 == old(w).spec_counts().1
                        &&& final(w).spec_counts().2 == old(w).spec_counts().2 + if ec.chunk.codec == ChunkCodec::Zstd { 1int } else { 0int }
                        &&& final(w).spec_counts().3 == old(w).spec_counts().3 + if ec.chunk.codec == ChunkCodec::Zstd { 0int } else { 1int }
                    }
                },
                Err(e) => {
                    &&& e matches Error::InvalidFormat(m) && m@ == "chunk offset overflow"@
                    &&& old(w).spec_next_offset() + stored_form(self.spec_buffered(), old(w).spec_level()).len() > u64::MAX
                    &&& *final(w) == *old(w)
                },
            },
    {
        let cs = w.index.chunk_size;
        let ghost c = cs as int;
        let mut chunks = self.chunks;
        let ghost n = chunks@.len() as int;
        proof {
            crate::archive::lemma_raw_before_full(chunks@, n, cs);
        }
        if self.buffer.len() == 0 {
            proof {
                let size = self.fed@.len() as int;
                assert(size == n * c);
                if size > 0 {
                    assert(n > 0) by (nonlinear_arith)
                        requires
                            size == n * c,
                            size > 0,
                            c > 0,
                            n >= 0,
                    ;
                    lemma_fundamental_div_mod_converse(size, c, n, 0);
                } else {
                    assert(n == 0) by (nonlinear_arith)
                        requires
                            0 == n * c,
                            c > 0,
                            n >= 0,
                    ;
                }
            }
            return Ok((None, chunks));
        }
        let ec = w.write_chunk(self.buffer.as_slice())?;
        let ghost old_chunks = chunks@;
        chunks.push(ec.chunk);
        proof {
            lemma_raw_before_push(old_chunks, ec.chunk, n);
            assert(self.fed@.subrange(raw_total(old_chunks), raw_total(old_chunks) + ec.chunk.raw_len) =~= self.buffer@);
            lemma_chunks_match_push(old_chunks, ec.chunk, self.fed@);
            let size = self.fed@.len() as int;
            let b = self.buffer@.len() as int;
            assert(size == n * c + b);
            lemma_fundamental_div_mod_converse(size, c, n, b);
            assert(size > 0);
            assert(forall|k: int| 0 <= k < chunks@.len() - 1 ==> chunks@[k] == old_chunks[k]);
        }
        Ok((Some(ec), chunks))
    }
}

} // verus!
