//! A validated archive: its header and index, lookups, and the decisions of
//! reads, verification and extraction. The bytes themselves are fetched by
//! the caller and handed in.
use vstd::prelude::*;

use crate::codec::{checksum, io_error_text, is_frame, xxh3_hash, zstd_content, zstd_decompress};
use crate::error::{Error, Result};
use crate::format::{ArchiveIndex, ChunkCodec, ChunkRef, Entry, EntryKind, Header, HEADER_SIZE};
use crate::order::str_eq;
use crate::path::{normalize_lookup_path, normalized, parent_of, parent_path};
use crate::text::{concat, decimal, decimal_string, owned};
use crate::validate::{
    ceil_div, chunk_shape_ok, entry_kind_ok, entry_ok, file_entry_ok, find_path, header_ok, header_problem, index_error,
    index_ok, lemma_entries_ok_sorted, lemma_sorted_unique, raw_before, raw_total, sorted_paths,
    validate_header, validate_index,
};
use vstd::arithmetic::div_mod::{lemma_fundamental_div_mod, lemma_fundamental_div_mod_converse};
use vstd::arithmetic::mul::{lemma_mul_inequality, lemma_mul_is_distributive_add_other_way};

verus! {

/// The entries whose parent is `key`, in index order.
pub open spec fn children_of(entries: Seq<Entry>, key: Seq<char>) -> Seq<Entry>
    decreases entries.len(),
{
    if entries.len() == 0 {
        Seq::<Entry>::empty()
    } else {
        let rest = children_of(entries.drop_last(), key);
        if parent_of(entries.last().path@) == key {
            rest.push(entries.last())
        } else {
            rest
        }
    }
}

/// Some entry of `entries` is named `key`.
pub open spec fn has_path(entries: Seq<Entry>, key: Seq<char>) -> bool {
    exists|i: int| 0 <= i < entries.len() && (#[trigger] entries[i]).path@ == key
}

/// An opened archive: a header and an index that passed validation.
pub struct Archive {
    header: Header,
    index: ArchiveIndex,
}

/// Counts of what `verify` checked.
#[derive(Debug, Clone, Copy, PartialEq, Eq, Structural)]
pub struct VerifySummary {
    pub entries: usize,
    pub files: usize,
    pub chunks: u64,
    pub bytes: u64,
}

impl Archive {
    pub closed spec fn spec_header(&self) -> Header {
        self.header
    }

    pub closed spec fn spec_index(&self) -> ArchiveIndex {
        self.index
    }

    /// The entries, in index order.
    pub open spec fn spec_entries(&self) -> Seq<Entry> {
        self.spec_index().entries@
    }

    /// The header and the index passed validation.
    pub open spec fn wf(&self) -> bool {
        &&& header_ok(
            self.spec_header(),
            (self.spec_header().index_offset + self.spec_header().index_stored_len) as u64,
        )
        &&& index_ok(self.spec_index(), self.spec_header())
    }

    /// Rejects a file too short to hold a header.
    pub fn check_file_len(file_len: u64) -> (r: Result<()>)
        ensures
            r is Ok <==> file_len >= HEADER_SIZE,
            r matches Err(e) ==> e matches Error::InvalidFormat(m) && m@ == "file is smaller than the header"@,
    {
        if file_len < HEADER_SIZE as u64 {
            return Err(Error::InvalidFormat(owned("file is smaller than the header")));
        }
        Ok(())
    }

    /// Decodes the header read from the start of a file of `file_len` bytes
    /// and checks it.
    pub fn read_header(bytes: &[u8; HEADER_SIZE], file_len: u64) -> (r: Result<Header>)
        ensures
            match r {
                Ok(h) => crate::format::header_from_bytes(bytes@) == Some(h) && header_ok(h, file_len),
                Err(e) => match crate::format::header_from_bytes(bytes@) {
                    None => e matches Error::InvalidFormat(m) && m@ == "invalid ZSTD-Finder magic"@,
                    Some(h) => !header_ok(h, file_len) && (if h.version != crate::format::FORMAT_VERSION {
                        e == Error::UnsupportedVersion(h.version)
                    } else {
                        e matches Error::InvalidFormat(m) && m@ == header_problem(h, file_len)
                    }),
                },
            },
    {
        let header = match Header::decode(bytes) {
            Ok(h) => h,
            Err(message) => {
                return Err(Error::InvalidFormat(owned(message)));
            },
        };
        validate_header(header, file_len)?;
        Ok(header)
    }

    /// Builds the archive from a header and the index read through it.
    pub fn new(header: Header, file_len: u64, index: ArchiveIndex) -> (r: Result<Archive>)
        ensures
            match r {
                Ok(a) => a.wf() && a.spec_header() == header && a.spec_index() == index
                    && header_ok(header, file_len),
                Err(e) => if !header_ok(header, file_len) {
                    if header.version != crate::format::FORMAT_VERSION {
                        e == Error::UnsupportedVersion(header.version)
                    } else {
                        e matches Error::InvalidFormat(m) && m@ == header_problem(header, file_len)
                    }
                } else {
                    &&& !index_ok(index, header)
                    &&& index_error(index, header, e)
                    &&& e is InvalidPath <==> crate::validate::index_path_error(index, header)
                },
            },
    {
        validate_header(header, file_len)?;
        validate_index(&index, header)?;
        Ok(Archive { header, index })
    }

    /// The logical size of a payload chunk.
    pub fn chunk_size(&self) -> (r: u32)
        ensures
            r == self.spec_header().chunk_size,
    {
        self.header.chunk_size
    }

    /// The header the archive was opened with.
    pub fn header(&self) -> (r: Header)
        ensures
            r == self.spec_header(),
    {
        self.header
    }

    /// All entries, sorted by path.
    pub fn entries(&self) -> (r: &[Entry])
        ensures
            r@ == self.spec_entries(),
    {
        self.index.entries.as_slice()
    }

    /// The position of the entry that `path` names.
    fn lookup(&self, path: &str) -> (r: Result<usize>)
        requires
            self.wf(),
        ensures
            match normalized(path@) {
                None => r matches Err(e) && e is InvalidPath,
                Some(key) => match r {
                    Ok(i) => i < self.spec_entries().len() && self.spec_entries()[i as int].path@ == key,
                    Err(e) => !has_path(self.spec_entries(), key) && (e matches Error::NotFound(m) && m@ == key),
                },
            },
    {
        let key = normalize_lookup_path(path)?;
        proof {
            lemma_entries_ok_sorted(self.spec_entries(), self.spec_header());
        }
        match find_path(&self.index.entries, key.as_str()) {
            Some(i) => Ok(i),
            None => Err(Error::NotFound(key)),
        }
    }

    /// The entry that `path` names; a leading `/` is allowed.
    pub fn entry(&self, path: &str) -> (r: Result<&Entry>)
        requires
            self.wf(),
        ensures
            match normalized(path@) {
                None => r matches Err(e) && e is InvalidPath,
                Some(key) => match r {
                    Ok(e) => e.path@ == key && self.spec_entries().contains(*e),
                    Err(e) => !has_path(self.spec_entries(), key) && (e matches Error::NotFound(m) && m@ == key),
                },
            },
    {
        let i = self.lookup(path)?;
        Ok(&self.index.entries[i])
    }

    /// The entries directly inside the directory `path` (the root for `""`
    /// or `"/"`), in path order.
    pub fn children(&self, path: &str) -> (r: Result<Vec<&Entry>>)
        requires
            self.wf(),
        ensures
            match normalized(path@) {
                None => r matches Err(e) && e is InvalidPath,
                Some(key) => match r {
                    Ok(v) => {
                        &&& key.len() == 0 || has_path(self.spec_entries(), key)
                        &&& v@.len() == children_of(self.spec_entries(), key).len()
                        &&& forall|i: int| 0 <= i < v@.len() ==> *(#[trigger] v@[i]) == children_of(self.spec_entries(), key)[i]
                    },
                    Err(e) => if key.len() > 0 && !has_path(self.spec_entries(), key) {
                        e matches Error::NotFound(m) && m@ == key
                    } else {
                        key.len() > 0 && (e matches Error::InvalidPath(m) && m@ == "not a directory: "@ + key)
                    },
                },
            },
            r is Ok <==> (normalized(path@) matches Some(key) && (key.len() == 0 || exists|i: int|
                0 <= i < self.spec_entries().len() && self.spec_entries()[i].path@ == key
                    && self.spec_entries()[i].kind == EntryKind::Directory)),
    {
        let key = normalize_lookup_path(path)?;
        let ghost entries = self.spec_entries();
        if !key.as_str().is_empty() {
            proof {
                crate::path::lemma_normalize_idempotent(path@);
            }
            let i = self.lookup(key.as_str())?;
            if self.index.entries[i].kind != EntryKind::Directory {
                proof {
                    lemma_entries_ok_sorted(entries, self.spec_header());
                    assert forall|j: int| 0 <= j < entries.len() && entries[j].path@ == key@ implies entries[j].kind != EntryKind::Directory by {
                        lemma_sorted_unique(entries, i as int, j);
                    }
                }
                return Err(Error::InvalidPath(concat("not a directory: ", key.as_str())));
            }
        }
        let mut result: Vec<&Entry> = Vec::new();
        let n = self.index.entries.len();
        let mut k: usize = 0;
        while k < n
            invariant
                entries == self.index.entries@,
                n == entries.len(),
                k <= n,
                result@.len() == children_of(entries.take(k as int), key@).len(),
                forall|i: int| 0 <= i < result@.len() ==> *(#[trigger] result@[i]) == children_of(entries.take(k as int), key@)[i],
            decreases n - k,
        {
            let entry = &self.index.entries[k];
            assert(entries.take(k + 1).drop_last() =~= entries.take(k as int));
            assert(entries.take(k + 1).last() == entries[k as int]);
            if str_eq(parent_path(entry.path.as_str()), key.as_str()) {
                result.push(entry);
            }
            k = k + 1;
        }
        assert(entries.take(n as int) =~= entries);
        Ok(result)
    }
}

/// The logical bytes a chunk holds, given the bytes stored for it.
pub open spec fn chunk_content(c: ChunkRef, stored: Seq<u8>) -> Seq<u8> {
    match c.codec {
        ChunkCodec::Stored => stored,
        ChunkCodec::Zstd => zstd_content(stored),
    }
}

/// Decoded bytes that match the chunk's recorded length and checksum.
pub open spec fn chunk_intact(c: ChunkRef, content: Seq<u8>) -> bool {
    content.len() == c.raw_len && xxh3_hash(content) == c.checksum
}

/// The stored bytes decode to the chunk's recorded length and checksum: a
/// stored chunk as it is, a Zstandard one as a frame whose content matches.
pub open spec fn chunk_decodable(c: ChunkRef, stored: Seq<u8>) -> bool {
    match c.codec {
        ChunkCodec::Stored => chunk_intact(c, stored),
        ChunkCodec::Zstd => is_frame(stored) && chunk_intact(c, zstd_content(stored)),
    }
}

/// Accepts the outcome of decoding chunk `chunk_index` of `path`: it must
/// have succeeded, with the recorded length and checksum.
pub fn accept_chunk(
    path: &str,
    chunk_index: usize,
    chunk: &ChunkRef,
    decoded: std::result::Result<Vec<u8>, std::io::Error>,
) -> (r: Result<Vec<u8>>)
    ensures
        match decoded {
            Ok(v) => if chunk_intact(*chunk, v@) {
                r matches Ok(w) && w@ == v@
            } else {
                r matches Err(e) && (e matches Error::CorruptChunk { path: p, chunk: k, reason } && p@ == path@ && k == chunk_index
                    && reason@ == if v@.len() != chunk.raw_len {
                        "length mismatch: expected "@ + decimal(chunk.raw_len as nat) + ", got "@ + decimal(v@.len())
                    } else {
                        "checksum mismatch"@
                    })
            },
            Err(_) => r matches Err(e) && (e matches Error::CorruptChunk { path: p, chunk: k, reason } && p@ == path@ && k == chunk_index
                && reason@.subrange(0, "Zstd decode failed: "@.len() as int) == "Zstd decode failed: "@),
        },
{
    let decoded = match decoded {
        Ok(v) => v,
        Err(error) => {
            let reason = concat("Zstd decode failed: ", io_error_text(&error).as_str());
            assert(reason@.subrange(0, "Zstd decode failed: "@.len() as int) =~= "Zstd decode failed: "@);
            return Err(Error::CorruptChunk { path: owned(path), chunk: chunk_index, reason });
        },
    };
    if decoded.len() != chunk.raw_len as usize {
        let mut reason = concat("length mismatch: expected ", decimal_string(chunk.raw_len as u64).as_str());
        reason.append(", got ");
        reason.append(decimal_string(decoded.len() as u64).as_str());
        return Err(Error::CorruptChunk { path: owned(path), chunk: chunk_index, reason });
    }
    if checksum(decoded.as_slice()) != chunk.checksum {
        return Err(
            Error::CorruptChunk {
                path: owned(path),
                chunk: chunk_index,
                reason: owned("checksum mismatch"),
            },
        );
    }
    Ok(decoded)
}

/// Decodes the bytes stored for chunk `chunk_index` of the file `path` and
/// checks them against the chunk's length and checksum. A stored chunk is
/// its own content; a Zstandard one is decompressed, which may fail.
pub fn decode_chunk(path: &str, chunk_index: usize, chunk: &ChunkRef, stored: Vec<u8>) -> (r: Result<Vec<u8>>)
    ensures
        r matches Ok(v) ==> v@ == chunk_content(*chunk, stored@) && chunk_intact(*chunk, v@),
        chunk.codec == ChunkCodec::Stored ==> (r is Ok <==> chunk_intact(*chunk, stored@)),
        !chunk_intact(*chunk, chunk_content(*chunk, stored@)) ==> r is Err,
        chunk_decodable(*chunk, stored@) ==> r is Ok,
        r matches Err(e) ==> (e matches Error::CorruptChunk { path: p, chunk: k, .. } && p@ == path@ && k == chunk_index),
{
    let decoded = match chunk.codec {
        ChunkCodec::Stored => Ok(stored),
        ChunkCodec::Zstd => zstd_decompress(stored.as_slice(), chunk.raw_len as usize),
    };
    accept_chunk(path, chunk_index, chunk, decoded)
}

/// Byte `p` of a file whose chunks of `cs` bytes decode to `decoded`.
pub open spec fn byte_at(decoded: Seq<Seq<u8>>, cs: int, p: int) -> u8 {
    decoded[p / cs][p % cs]
}

/// How many bytes a read of `length` at `offset` gives from a file of `size`.
pub open spec fn read_len(size: u64, offset: u64, length: usize) -> int {
    if length == 0 || offset >= size {
        0
    } else if size - offset < length {
        size - offset
    } else {
        length as int
    }
}

proof fn lemma_div_range(p: int, k: int, cs: int)
    requires
        cs > 0,
        k >= 0,
        k * cs <= p < k * cs + cs,
    ensures
        p / cs == k,
        p % cs == p - k * cs,
{
    lemma_fundamental_div_mod_converse(p, cs, k, p - k * cs);
}

proof fn lemma_div_bounds(p: int, cs: int)
    requires
        cs > 0,
        p >= 0,
    ensures
        (p / cs) * cs <= p < (p / cs) * cs + cs,
        p / cs >= 0,
{
    lemma_fundamental_div_mod(p, cs);
    assert((p / cs) * cs == cs * (p / cs)) by (nonlinear_arith);
    assert(p / cs >= 0) by (nonlinear_arith)
        requires
            cs > 0,
            p >= 0,
    ;
}

proof fn lemma_mul_le(a: int, b: int, cs: int)
    requires
        a <= b,
        cs >= 0,
    ensures
        a * cs <= b * cs,
{
    lemma_mul_inequality(a, b, cs);
}

proof fn lemma_mul_succ(k: int, cs: int)
    ensures
        (k + 1) * cs == k * cs + cs,
{
    lemma_mul_is_distributive_add_other_way(cs, k, 1);
}

/// The logical bytes of the first `k` chunks when all of them are full.
pub(crate) proof fn lemma_raw_before_full(chunks: Seq<ChunkRef>, k: int, cs: u32)
    requires
        0 <= k <= chunks.len(),
        forall|j: int| 0 <= j < k ==> (#[trigger] chunks[j]).raw_len == cs,
    ensures
        raw_before(chunks, k) == k * cs,
    decreases k,
{
    if k > 0 {
        lemma_raw_before_full(chunks, k - 1, cs);
        lemma_mul_succ(k - 1, cs as int);
        assert(chunks[k - 1].raw_len == cs);
    } else {
        assert(0 * (cs as int) == 0) by (nonlinear_arith);
    }
}

/// The layout of a valid non-empty file: `(size - 1) / cs + 1` chunks, all
/// full but the last, which holds the rest.
proof fn lemma_file_layout(e: Entry, cs: u32, index_offset: u64, start: int)
    requires
        file_entry_ok(e, cs, index_offset, start),
        e.size > 0,
        cs > 0,
    ensures
        e.chunks@.len() == (e.size - 1) / (cs as int) + 1,
        forall|k: int| 0 <= k < e.chunks@.len() - 1 ==> (#[trigger] e.chunks@[k]).raw_len == cs,
        (e.chunks@.len() - 1) * cs < e.size,
        e.chunks@.len() * cs >= e.size,
        e.chunks@[e.chunks@.len() - 1].raw_len == e.size - (e.chunks@.len() - 1) * cs,
{
    let chunks = e.chunks@;
    let n = chunks.len() as int;
    let size = e.size as int;
    let c = cs as int;
    lemma_fundamental_div_mod(size, c);
    lemma_fundamental_div_mod(size - 1, c);
    assert(n == (size - 1) / c + 1) by {
        assert(n == ceil_div(size, c));
        if size % c == 0 {
            assert((size / c - 1) * c == c * (size / c) - c) by (nonlinear_arith);
            assert(size - 1 == (size / c - 1) * c + (c - 1));
            lemma_fundamental_div_mod_converse(size - 1, c, size / c - 1, c - 1);
        } else {
            assert((size / c) * c == c * (size / c)) by (nonlinear_arith);
            assert(size - 1 == (size / c) * c + (size % c - 1));
            assert(0 <= size % c - 1 < c);
            lemma_fundamental_div_mod_converse(size - 1, c, size / c, size % c - 1);
        }
    }
    assert forall|k: int| 0 <= k < n - 1 implies (#[trigger] chunks[k]).raw_len == cs by {
        assert(chunk_shape_ok(chunks[k], k, n, cs));
    }
    lemma_div_bounds(size - 1, c);
    lemma_mul_succ(n - 1, c);
    lemma_raw_before_full(chunks, n - 1, cs);
    assert(raw_total(chunks) == raw_before(chunks, n - 1) + chunks[n - 1].raw_len);
}

/// A read of a byte range of one regular file, chunk by chunk. The caller
/// fetches the stored bytes of each chunk that `next_fetch` names and hands
/// them to `feed`; `finish` then gives the bytes read.
pub struct RangeRead {
    entry: usize,
    offset: u64,
    wanted: usize,
    first: usize,
    next: usize,
    end: usize,
    out: Vec<u8>,
    decoded: Ghost<Seq<Seq<u8>>>,
    stored: Ghost<Seq<Seq<u8>>>,
}

impl RangeRead {
    /// The entry read.
    pub closed spec fn spec_entry(&self) -> int {
        self.entry as int
    }

    /// Where the read starts in the file.
    pub closed spec fn spec_offset(&self) -> u64 {
        self.offset
    }

    /// How many bytes the read gives.
    pub closed spec fn spec_wanted(&self) -> int {
        self.wanted as int
    }

    /// The chunk to fetch next.
    pub closed spec fn spec_next(&self) -> int {
        self.next as int
    }

    /// One past the last chunk to fetch.
    pub closed spec fn spec_end(&self) -> int {
        self.end as int
    }

    /// The decoded content of the chunks fed so far, by chunk index.
    pub closed spec fn spec_decoded(&self) -> Seq<Seq<u8>> {
        self.decoded@
    }

    /// The stored bytes fed so far, by chunk index.
    pub closed spec fn spec_stored(&self) -> Seq<Seq<u8>> {
        self.stored@
    }

    /// How many of the requested bytes the chunks fed so far cover.
    closed spec fn covered(&self, cs: int) -> int {
        if self.next == self.first {
            0
        } else if self.offset + self.wanted <= self.next * cs {
            self.wanted as int
        } else {
            self.next * cs - self.offset
        }
    }

    /// The read is in a consistent state for `a`.
    pub closed spec fn wf(&self, a: &Archive) -> bool {
        let entries = a.spec_entries();
        let cs = a.spec_header().chunk_size as int;
        let e = entries[self.entry as int];
        let chunks = e.chunks@;
        &&& a.wf()
        &&& self.entry < entries.len()
        &&& e.kind == EntryKind::File
        &&& self.wanted > 0 ==> self.offset + self.wanted <= e.size
        &&& self.wanted == 0 ==> self.first == self.next && self.next == self.end
        &&& self.wanted > 0 ==> {
            &&& self.first == (self.offset as int) / cs
            &&& self.end == (self.offset + self.wanted - 1) / cs + 1
            &&& self.end <= chunks.len()
        }
        &&& self.first <= self.next <= self.end
        &&& self.decoded@.len() == self.next
        &&& self.stored@.len() == self.next
        &&& forall|k: int| self.first <= k < self.next ==> #[trigger] self.decoded@[k] == chunk_content(chunks[k], self.stored@[k])
            && chunk_intact(chunks[k], self.decoded@[k])
        &&& self.out@.len() == self.covered(cs)
        &&& forall|i: int| 0 <= i < self.out@.len() ==> #[trigger] self.out@[i] == byte_at(self.decoded@, cs, self.offset + i)
    }

    /// The position and stored length of the chunk to fetch next, if any.
    pub fn next_fetch(&self, a: &Archive) -> (r: Option<(u64, u32)>)
        requires
            self.wf(a),
        ensures
            r is Some <==> self.spec_next() < self.spec_end(),
            r matches Some((o, l)) ==> {
                let c = a.spec_entries()[self.spec_entry()].chunks@[self.spec_next()];
                o == c.offset && l == c.stored_len
            },
    {
        if self.next < self.end {
            let c = &a.index.entries[self.entry].chunks[self.next];
            Some((c.offset, c.stored_len))
        } else {
            None
        }
    }

    /// Decodes the stored bytes of the chunk `next_fetch` named and takes the
    /// requested part of it.
    #[verifier::rlimit(60)]
    pub fn feed(&mut self, a: &Archive, stored: Vec<u8>) -> (r: Result<()>)
        requires
            old(self).wf(a),
            old(self).spec_next() < old(self).spec_end(),
        ensures
            r is Ok ==> {
                let c = a.spec_entries()[old(self).spec_entry()].chunks@[old(self).spec_next()];
                &&& final(self).wf(a)
                &&& final(self).spec_entry() == old(self).spec_entry()
                &&& final(self).spec_offset() == old(self).spec_offset()
                &&& final(self).spec_wanted() == old(self).spec_wanted()
                &&& final(self).spec_end() == old(self).spec_end()
                &&& final(self).spec_next() == old(self).spec_next() + 1
                &&& final(self).spec_next() <= final(self).spec_end()
                &&& final(self).spec_stored() == old(self).spec_stored().push(stored@)
                &&& final(self).spec_decoded() == old(self).spec_decoded().push(chunk_content(c, stored@))
            },
            r matches Err(e) ==> {
                let c = a.spec_entries()[old(self).spec_entry()].chunks@[old(self).spec_next()];
                &&& e matches Error::CorruptChunk { path: p, chunk: k, .. }
                    && p@ == a.spec_entries()[old(self).spec_entry()].path@ && k == old(self).spec_next()
                &&& c.codec == ChunkCodec::Stored ==> !chunk_intact(c, stored@)
            },
            chunk_decodable(a.spec_entries()[old(self).spec_entry()].chunks@[old(self).spec_next()], stored@)
                ==> r is Ok,
    {
        let ghost old_self = *self;
        assert(old_self.wf(a));
        let entry = &a.index.entries[self.entry];
        let k = self.next;
        let chunk = &entry.chunks[k];
        let ghost stored_bytes = stored@;
        let decoded = decode_chunk(entry.path.as_str(), k, chunk, stored)?;
        let ghost cs = a.spec_header().chunk_size as int;
        let ghost entries = a.spec_entries();
        let ghost e = entries[self.entry as int];
        let ghost chunks = e.chunks@;
        let ghost rq = self.offset + self.wanted;
        let ghost len = decoded@.len() as int;
        proof {
            assert(entry_ok(entries, self.entry as int, a.spec_header()));
            lemma_file_layout(e, a.spec_header().chunk_size, a.spec_header().index_offset, HEADER_SIZE + crate::validate::payload_before(entries, self.entry as int));
            assert(chunk_shape_ok(chunks[k as int], k as int, chunks.len() as int, a.spec_header().chunk_size));
            lemma_div_bounds(rq - 1, cs);
            lemma_mul_le(k as int, (rq - 1) / cs, cs);
            lemma_mul_succ(k as int, cs);
            lemma_div_bounds(self.offset as int, cs);
            lemma_mul_le(self.first as int, k as int, cs);
            if k > self.first {
                lemma_mul_le(self.first + 1, k as int, cs);
                lemma_mul_succ(self.first as int, cs);
            }
            if k < chunks.len() - 1 {
                assert(chunks[k as int].raw_len == cs);
            } else {
                lemma_mul_le(k as int, chunks.len() - 1, cs);
            }
            assert(k * cs <= rq - 1);
            assert(len <= cs);
            assert(k * cs + len >= rq || k * cs + len == k * cs + cs);
            assert(self.first < k ==> self.offset < k * cs);
            assert(k * cs <= self.offset || self.first < k);
            assert(self.first == k ==> self.offset - k * cs < len);
            assert(k * cs + cs <= u64::MAX + cs);
        }
        let chunk_size = a.header.chunk_size as u64;
        let chunk_start = k as u64 * chunk_size;
        let copy_start = self.offset.saturating_sub(chunk_start) as usize;
        let request_end = self.offset + self.wanted as u64;
        let tail = request_end.saturating_sub(chunk_start);
        let copy_end = if (decoded.len() as u64) < tail {
            decoded.len()
        } else {
            tail as usize
        };
        let ghost old_out = self.out@;
        proof {
            assert(self.first == k ==> old_out.len() == 0 && copy_start == self.offset - k * cs);
            assert(self.first < k ==> old_out.len() == k * cs - self.offset && copy_start == 0);
            assert(self.offset + old_out.len() == k * cs + copy_start);
            assert(copy_start < copy_end);
        }
        if copy_start < copy_end {
            let mut piece: Vec<u8> = Vec::new();
            let mut j = copy_start;
            while j < copy_end
                invariant
                    copy_start <= j <= copy_end,
                    copy_end <= decoded@.len(),
                    piece@ == decoded@.subrange(copy_start as int, j as int),
                decreases copy_end - j,
            {
                piece.push(decoded[j]);
                j = j + 1;
                assert(piece@ =~= decoded@.subrange(copy_start as int, j as int));
            }
            self.out.append(&mut piece);
        }
        self.decoded = Ghost(self.decoded@.push(decoded@));
        self.stored = Ghost(self.stored@.push(stored_bytes));
        self.next = k + 1;
        proof {
            let d = self.decoded@;
            assert(self.out@.len() == old_out.len() + copy_end - copy_start);
            assert(self.next as int == k + 1);
            assert(self.next * cs == k * cs + cs);
            assert(self.offset == old_self.offset && self.wanted == old_self.wanted && self.first == old_self.first);
            assert(tail == rq - k * cs);
            assert(self.out@.len() == self.covered(cs));
            assert forall|i: int| 0 <= i < self.out@.len() implies #[trigger] self.out@[i] == byte_at(d, cs, self.offset + i) by {
                let p = self.offset + i;
                if i < old_out.len() {
                    assert(old_self.out@[i] == byte_at(old_self.decoded@, cs, old_self.offset + i));
                    assert(old_out.len() == k * cs - self.offset);
                    assert(p < k * cs);
                    lemma_div_bounds(p, cs);
                    if p / cs >= k {
                        lemma_mul_le(k as int, p / cs, cs);
                    }
                    assert(p / cs < k);
                    assert(d[p / cs] == old_self.decoded@[p / cs]);
                } else {
                    assert(k * cs <= p < k * cs + cs);
                    lemma_div_range(p, k as int, cs);
                    assert(self.out@[i] == decoded@[copy_start + i - old_out.len()]);
                }
            }
        }
        Ok(())
    }

    /// The bytes read, once every chunk has been fed.
    pub fn finish(self, a: &Archive) -> (r: Vec<u8>)
        requires
            self.wf(a),
            self.spec_next() == self.spec_end(),
        ensures
            r@.len() == self.spec_wanted(),
            forall|i: int| 0 <= i < r@.len() ==> #[trigger] r@[i] == byte_at(
                self.spec_decoded(),
                a.spec_header().chunk_size as int,
                self.spec_offset() + i,
            ),
    {
        proof {
            let cs = a.spec_header().chunk_size as int;
            if self.wanted > 0 {
                lemma_div_bounds(self.offset + self.wanted - 1, cs);
                lemma_mul_succ((self.offset + self.wanted - 1) / cs, cs);
                lemma_div_bounds(self.offset as int, cs);
            }
        }
        self.out
    }
}

/// A read touches only the chunks it needs: the chunk it fetches next holds
/// at least one of the requested bytes, so no chunk before or after the
/// range is fetched or decoded.
pub proof fn law_read_fetches_only_overlapping_chunks(rr: RangeRead, a: Archive)
    requires
        rr.wf(&a),
        rr.spec_next() < rr.spec_end(),
    ensures
        ({
            let cs = a.spec_header().chunk_size as int;
            &&& rr.spec_next() * cs < rr.spec_offset() + rr.spec_wanted()
            &&& rr.spec_offset() < (rr.spec_next() + 1) * cs
        }),
{
    let cs = a.spec_header().chunk_size as int;
    let o = rr.offset as int;
    let w = rr.wanted as int;
    let k = rr.next as int;
    lemma_div_bounds(o, cs);
    lemma_div_bounds(o + w - 1, cs);
    lemma_mul_le(o / cs, k, cs);
    lemma_mul_le(k, (o + w - 1) / cs, cs);
    lemma_mul_succ(k, cs);
    lemma_mul_succ(o / cs, cs);
}

impl Archive {
    /// Starts reading at most `length` bytes at `offset` of the regular file
    /// `path`; nothing is read past its end.
    pub fn begin_read(&self, path: &str, offset: u64, length: usize) -> (r: Result<RangeRead>)
        requires
            self.wf(),
        ensures
            match normalized(path@) {
                None => r matches Err(e) && e is InvalidPath,
                Some(key) => if !has_path(self.spec_entries(), key) {
                    r matches Err(e) && (e matches Error::NotFound(m) && m@ == key)
                } else {
                    match r {
                        Ok(rr) => {
                            let e = self.spec_entries()[rr.spec_entry()];
                            &&& 0 <= rr.spec_entry() < self.spec_entries().len()
                            &&& e.kind == EntryKind::File
                            &&& rr.wf(self)
                            &&& e.path@ == key
                            &&& rr.spec_offset() == offset
                            &&& rr.spec_wanted() == read_len(e.size, offset, length)
                            &&& rr.spec_wanted() == 0 ==> rr.spec_next() == rr.spec_end()
                            &&& rr.spec_wanted() > 0 ==> {
                                &&& rr.spec_next() == (offset as int) / (self.spec_header().chunk_size as int)
                                &&& rr.spec_end() == (offset + rr.spec_wanted() - 1) / (self.spec_header().chunk_size as int) + 1
                            }
                            &&& rr.spec_decoded().len() == rr.spec_next()
                            &&& rr.spec_next() <= rr.spec_end()
                            &&& rr.spec_end() <= e.chunks@.len()
                        },
                        Err(err) => exists|i: int|
                            0 <= i < self.spec_entries().len() && self.spec_entries()[i].path@ == key
                                && self.spec_entries()[i].kind != EntryKind::File && (err matches Error::NotAFile(m) && m@ == key),
                    }
                },
            },
    {
        let i = self.lookup(path)?;
        let entry = &self.index.entries[i];
        let ghost entries = self.spec_entries();
        proof {
            assert(entry_ok(entries, i as int, self.spec_header()));
        }
        if entry.kind != EntryKind::File {
            return Err(Error::NotAFile(owned(entry.path.as_str())));
        }
        if length == 0 || offset >= entry.size {
            return Ok(
                RangeRead {
                    entry: i,
                    offset,
                    wanted: 0,
                    first: 0,
                    next: 0,
                    end: 0,
                    out: Vec::new(),
                    decoded: Ghost(Seq::empty()),
                    stored: Ghost(Seq::empty()),
                },
            );
        }
        let available = entry.size - offset;
        let wanted: usize = if available < length as u64 {
            available as usize
        } else {
            length
        };
        let chunk_size = self.header.chunk_size as u64;
        let ghost cs = chunk_size as int;
        let n = entry.chunks.len();
        proof {
            lemma_file_layout(*entry, self.header.chunk_size, self.header.index_offset, HEADER_SIZE + crate::validate::payload_before(entries, i as int));
            lemma_div_bounds(offset + wanted - 1, cs);
            lemma_div_bounds(entry.size - 1, cs);
            crate::validate::lemma_div_le(offset + wanted - 1, entry.size - 1, cs);
            crate::validate::lemma_div_le(offset as int, offset + wanted - 1, cs);
        }
        let first = (offset / chunk_size) as usize;
        let last_byte = offset + wanted as u64 - 1;
        let end = (last_byte / chunk_size) as usize + 1;
        Ok(
            RangeRead {
                entry: i,
                offset,
                wanted,
                first,
                next: first,
                end,
                out: Vec::new(),
                decoded: Ghost(Seq::new(first as nat, |k: int| Seq::<u8>::empty())),
                stored: Ghost(Seq::new(first as nat, |k: int| Seq::<u8>::empty())),
            },
        )
    }
}

/// How many entries before `k` are regular files.
pub open spec fn file_count(entries: Seq<Entry>, k: int) -> int
    decreases k,
{
    if k <= 0 {
        0
    } else {
        file_count(entries, k - 1) + if entries[k - 1].kind == EntryKind::File { 1int } else { 0int }
    }
}

/// How many chunks the entries before `k` have.
pub open spec fn chunk_count(entries: Seq<Entry>, k: int) -> int
    decreases k,
{
    if k <= 0 {
        0
    } else {
        chunk_count(entries, k - 1) + entries[k - 1].chunks@.len()
    }
}

/// The sizes of the regular files before `k`, summed with saturation at
/// `u64::MAX`.
pub open spec fn byte_count(entries: Seq<Entry>, k: int) -> u64
    decreases k,
{
    if k <= 0 {
        0
    } else {
        let before = byte_count(entries, k - 1);
        if entries[k - 1].kind != EntryKind::File {
            before
        } else if before + entries[k - 1].size > u64::MAX {
            u64::MAX
        } else {
            (before + entries[k - 1].size) as u64
        }
    }
}

/// Chunk `c` of entry `i` comes before position `(e, k)` in index order.
pub open spec fn chunk_before(i: int, c: int, e: int, k: int) -> bool {
    i < e || (i == e && c < k)
}

proof fn lemma_file_count_le(entries: Seq<Entry>, k: int)
    requires
        0 <= k,
    ensures
        0 <= file_count(entries, k) <= k,
    decreases k,
{
    if k > 0 {
        lemma_file_count_le(entries, k - 1);
    }
}

/// In a valid index every chunk holds at least one stored byte, so the
/// chunks are fewer than the payload bytes.
proof fn lemma_chunk_count_le(entries: Seq<Entry>, h: Header, k: int)
    requires
        0 <= k <= entries.len(),
        crate::validate::entries_ok_before(entries, entries.len() as int, h),
    ensures
        0 <= chunk_count(entries, k) <= crate::validate::payload_before(entries, k),
    decreases k,
{
    if k > 0 {
        lemma_chunk_count_le(entries, h, k - 1);
        assert(entry_ok(entries, k - 1, h));
        let chunks = entries[k - 1].chunks@;
        if chunks.len() > 0 {
            assert forall|j: int| 0 <= j < chunks.len() implies (#[trigger] chunks[j]).stored_len >= 1 by {
                assert(chunk_shape_ok(chunks[j], j, chunks.len() as int, h.chunk_size));
            }
            lemma_stored_at_least_count(chunks, chunks.len() as int);
        }
    }
}

proof fn lemma_stored_at_least_count(chunks: Seq<ChunkRef>, k: int)
    requires
        0 <= k <= chunks.len(),
        forall|j: int| 0 <= j < chunks.len() ==> (#[trigger] chunks[j]).stored_len >= 1,
    ensures
        crate::validate::stored_before(chunks, k) >= k,
    decreases k,
{
    if k > 0 {
        lemma_stored_at_least_count(chunks, k - 1);
        assert(chunks[k - 1].stored_len >= 1);
    }
}

/// A check of every payload chunk of an archive, in index order. The caller
/// fetches the stored bytes of each chunk that `next_fetch` names and hands
/// them to `feed`; `finish` then gives the counts.
pub struct Verification {
    entry: usize,
    chunk: usize,
    fed: Ghost<Map<(int, int), Seq<u8>>>,
}

impl Verification {
    /// The entry of the chunk to check next.
    pub closed spec fn spec_entry(&self) -> int {
        self.entry as int
    }

    /// The chunk to check next, within its entry.
    pub closed spec fn spec_chunk(&self) -> int {
        self.chunk as int
    }

    /// The stored bytes handed in so far, by entry and chunk.
    pub closed spec fn spec_fed(&self) -> Map<(int, int), Seq<u8>> {
        self.fed@
    }

    /// Every chunk before the current position was handed bytes that decode
    /// to its recorded length and checksum.
    pub closed spec fn wf(&self, a: &Archive) -> bool {
        let entries = a.spec_entries();
        &&& a.wf()
        &&& self.entry <= entries.len()
        &&& self.entry < entries.len() ==> self.chunk < entries[self.entry as int].chunks@.len()
        &&& forall|i: int, c: int|
            0 <= i < entries.len() && 0 <= c < entries[i].chunks@.len() && chunk_before(i, c, self.entry as int, self.chunk as int)
                ==> #[trigger] self.fed@.contains_key((i, c))
                && chunk_intact(entries[i].chunks@[c], chunk_content(entries[i].chunks@[c], self.fed@[(i, c)]))
    }

    /// The position and stored length of the chunk to check next, if any.
    pub fn next_fetch(&self, a: &Archive) -> (r: Option<(u64, u32)>)
        requires
            self.wf(a),
        ensures
            r is Some <==> self.spec_entry() < a.spec_entries().len(),
            r matches Some((o, l)) ==> {
                let c = a.spec_entries()[self.spec_entry()].chunks@[self.spec_chunk()];
                o == c.offset && l == c.stored_len
            },
    {
        if self.entry < a.index.entries.len() {
            let c = &a.index.entries[self.entry].chunks[self.chunk];
            Some((c.offset, c.stored_len))
        } else {
            None
        }
    }

    /// Checks the stored bytes of the chunk `next_fetch` named and moves on.
    #[verifier::rlimit(60)]
    pub fn feed(&mut self, a: &Archive, stored: Vec<u8>) -> (r: Result<()>)
        requires
            old(self).wf(a),
            old(self).spec_entry() < a.spec_entries().len(),
        ensures
            r is Ok ==> final(self).wf(a),
            r is Ok ==> final(self).spec_entry() <= a.spec_entries().len(),
            r is Ok ==> chunk_before(old(self).spec_entry(), old(self).spec_chunk(), final(self).spec_entry(), final(self).spec_chunk()),
            r matches Err(e) ==> {
                let c = a.spec_entries()[old(self).spec_entry()].chunks@[old(self).spec_chunk()];
                &&& e matches Error::CorruptChunk { path: p, chunk: k, .. }
                    && p@ == a.spec_entries()[old(self).spec_entry()].path@ && k == old(self).spec_chunk()
                &&& c.codec == ChunkCodec::Stored ==> !chunk_intact(c, stored@)
            },
            chunk_decodable(a.spec_entries()[old(self).spec_entry()].chunks@[old(self).spec_chunk()], stored@)
                ==> r is Ok,
    {
        let entry = &a.index.entries[self.entry];
        let nentries = a.index.entries.len();
        let nchunks = entry.chunks.len();
        let ghost bytes = stored@;
        let ghost old_self = *self;
        let chunk = &entry.chunks[self.chunk];
        decode_chunk(entry.path.as_str(), self.chunk, chunk, stored)?;
        let ghost pos = (self.entry as int, self.chunk as int);
        self.fed = Ghost(self.fed@.insert(pos, bytes));
        if self.chunk + 1 < nchunks {
            self.chunk = self.chunk + 1;
        } else {
            let next = a.next_with_chunks(self.entry + 1);
            self.entry = next;
            self.chunk = 0;
        }
        proof {
            let entries = a.spec_entries();
            assert(chunk_intact(entries[pos.0].chunks@[pos.1], chunk_content(entries[pos.0].chunks@[pos.1], bytes)));
            assert forall|i: int, c: int|
                0 <= i < entries.len() && 0 <= c < entries[i].chunks@.len() && chunk_before(i, c, self.entry as int, self.chunk as int)
                    implies #[trigger] self.fed@.contains_key((i, c))
                    && chunk_intact(entries[i].chunks@[c], chunk_content(entries[i].chunks@[c], self.fed@[(i, c)])) by {
                if (i, c) == pos {
                } else {
                    assert(chunk_before(i, c, old_self.entry as int, old_self.chunk as int));
                    assert(old_self.fed@.contains_key((i, c)));
                }
            }
        }
        Ok(())
    }

    /// The counts of what was checked, once every chunk has been fed.
    pub fn finish(&self, a: &Archive) -> (r: VerifySummary)
        requires
            self.wf(a),
            self.spec_entry() == a.spec_entries().len(),
        ensures
            r == a.summary(),
            forall|i: int, c: int|
                0 <= i < a.spec_entries().len() && 0 <= c < a.spec_entries()[i].chunks@.len()
                    ==> #[trigger] self.spec_fed().contains_key((i, c)) && chunk_intact(
                    a.spec_entries()[i].chunks@[c],
                    chunk_content(a.spec_entries()[i].chunks@[c], self.spec_fed()[(i, c)]),
                ),
    {
        a.verify_summary()
    }
}

impl Archive {
    /// The counts `verify` reports: all entries, the regular files, their
    /// chunks, and their sizes summed with saturation.
    pub open spec fn summary(&self) -> VerifySummary {
        let entries = self.spec_entries();
        VerifySummary {
            entries: entries.len() as usize,
            files: file_count(entries, entries.len() as int) as usize,
            chunks: chunk_count(entries, entries.len() as int) as u64,
            bytes: byte_count(entries, entries.len() as int),
        }
    }

    /// The first entry at or after `from` that has chunks, or the number of
    /// entries.
    fn next_with_chunks(&self, from: usize) -> (r: usize)
        requires
            from <= self.spec_entries().len(),
        ensures
            from <= r <= self.spec_entries().len(),
            r < self.spec_entries().len() ==> self.spec_entries()[r as int].chunks@.len() > 0,
            forall|i: int| from <= i < r ==> (#[trigger] self.spec_entries()[i]).chunks@.len() == 0,
    {
        let mut i = from;
        while i < self.index.entries.len() && self.index.entries[i].chunks.len() == 0
            invariant
                from <= i <= self.spec_entries().len(),
                self.spec_entries() == self.index.entries@,
                forall|j: int| from <= j < i ==> (#[trigger] self.spec_entries()[j]).chunks@.len() == 0,
            decreases self.spec_entries().len() - i,
        {
            i = i + 1;
        }
        i
    }

    /// Starts checking every payload chunk.
    pub fn begin_verify(&self) -> (r: Verification)
        requires
            self.wf(),
        ensures
            r.wf(self),
            r.spec_entry() <= self.spec_entries().len(),
    {
        let entry = self.next_with_chunks(0);
        Verification { entry, chunk: 0, fed: Ghost(Map::empty()) }
    }

    /// The counts that a successful `verify` reports.
    pub fn verify_summary(&self) -> (r: VerifySummary)
        requires
            self.wf(),
        ensures
            r == self.summary(),
    {
        let ghost entries = self.spec_entries();
        let n = self.index.entries.len();
        proof {
            lemma_chunk_count_le(entries, self.spec_header(), n as int);
        }
        let mut files: usize = 0;
        let mut chunks: u64 = 0;
        let mut bytes: u64 = 0;
        let mut k: usize = 0;
        while k < n
            invariant
                entries == self.index.entries@,
                n == entries.len(),
                k <= n,
                crate::validate::entries_ok_before(entries, n as int, self.spec_header()),
                chunk_count(entries, n as int) <= crate::validate::payload_before(entries, n as int),
                HEADER_SIZE + crate::validate::payload_before(entries, n as int) == self.spec_header().index_offset,
                files == file_count(entries, k as int),
                chunks == chunk_count(entries, k as int),
                bytes == byte_count(entries, k as int),
            decreases n - k,
        {
            let entry = &self.index.entries[k];
            proof {
                lemma_file_count_le(entries, k + 1);
                lemma_chunk_count_le(entries, self.spec_header(), k + 1);
                crate::validate::lemma_payload_before_mono(entries, k + 1, n as int);
            }
            if entry.kind == EntryKind::File {
                files = files + 1;
                bytes = bytes.saturating_add(entry.size);
            }
            chunks = chunks + entry.chunks.len() as u64;
            k = k + 1;
        }
        VerifySummary { entries: n, files, chunks, bytes }
    }
}

/// The sizes of the regular files among `entries`, added up.
pub open spec fn file_bytes_total(entries: Seq<Entry>) -> int {
    entries.filter(|e: Entry| e.kind == EntryKind::File).fold_left(0int, |acc: int, e: Entry| acc + e.size)
}

proof fn lemma_file_bytes_total(entries: Seq<Entry>, k: int)
    requires
        0 <= k <= entries.len(),
    ensures
        file_bytes_total(entries.take(k)) >= 0,
        byte_count(entries, k) == if file_bytes_total(entries.take(k)) > u64::MAX {
            u64::MAX as int
        } else {
            file_bytes_total(entries.take(k))
        },
    decreases k,
{
    reveal(Seq::filter);
    let pred = |e: Entry| e.kind == EntryKind::File;
    let f = |acc: int, e: Entry| acc + e.size;
    if k > 0 {
        lemma_file_bytes_total(entries, k - 1);
        let t = entries.take(k);
        assert(t.drop_last() =~= entries.take(k - 1));
        assert(t.last() == entries[k - 1]);
        let prev = entries.take(k - 1).filter(pred);
        if entries[k - 1].kind == EntryKind::File {
            assert(t.filter(pred) == prev.push(entries[k - 1]));
            assert(prev.push(entries[k - 1]).drop_last() =~= prev);
            assert(prev.push(entries[k - 1]).fold_left(0int, f) == prev.fold_left(0int, f) + entries[k - 1].size);
        } else {
            assert(t.filter(pred) == prev);
        }
    } else {
        assert(entries.take(0) =~= Seq::<Entry>::empty());
        assert(entries.take(0).filter(pred) =~= Seq::<Entry>::empty());
    }
}

proof fn lemma_counts_agree(entries: Seq<Entry>, k: int)
    requires
        0 <= k <= entries.len(),
    ensures
        chunk_count(entries, k) == crate::laws::chunks_before(entries, k).len(),
        file_count(entries, k) == entries.take(k).filter(|e: Entry| e.kind == EntryKind::File).len(),
    decreases k,
{
    reveal(Seq::filter);
    if k > 0 {
        lemma_counts_agree(entries, k - 1);
        assert(entries.take(k).drop_last() =~= entries.take(k - 1));
        assert(entries.take(k).last() == entries[k - 1]);
    } else {
        assert(entries.take(0) =~= Seq::<Entry>::empty());
    }
}

/// What `verify` reports counts everything it checked: every entry, every
/// regular file, every chunk record of every entry (the chunks
/// `Verification::finish` reports fed and intact, one by one), and the
/// regular files' sizes added up, held at `u64::MAX` when they exceed it.
pub proof fn law_verify_counts_every_chunk(a: Archive)
    requires
        a.wf(),
        a.spec_entries().len() <= usize::MAX,
    ensures
        a.summary().entries == a.spec_entries().len(),
        a.summary().files == a.spec_entries().filter(|e: Entry| e.kind == EntryKind::File).len(),
        a.summary().chunks == crate::laws::chunks_before(a.spec_entries(), a.spec_entries().len() as int).len(),
        a.summary().bytes == if file_bytes_total(a.spec_entries()) > u64::MAX {
            u64::MAX as int
        } else {
            file_bytes_total(a.spec_entries())
        },
{
    let entries = a.spec_entries();
    let n = entries.len() as int;
    lemma_counts_agree(entries, n);
    lemma_file_bytes_total(entries, n);
    assert(entries.take(n) =~= entries);
    lemma_chunk_count_le(entries, a.spec_header(), n);
    lemma_file_count_le(entries, n);
}

/// One step of an extraction, naming an entry by its position.
#[derive(Debug, Clone, Copy, PartialEq, Eq, Structural)]
pub enum ExtractStep {
    /// Create the directory (and its missing parents).
    CreateDir(usize),
    /// Write the regular file from its chunks, then restore its metadata.
    WriteFile(usize),
    /// Create the symbolic link.
    MakeSymlink(usize),
}

/// The step that extracts entry `i` of kind `kind`.
pub open spec fn step_for(i: int, kind: EntryKind) -> ExtractStep {
    match kind {
        EntryKind::Directory => ExtractStep::CreateDir(i as usize),
        EntryKind::File => ExtractStep::WriteFile(i as usize),
        EntryKind::Symlink => ExtractStep::MakeSymlink(i as usize),
    }
}

/// The directories among the entries before `k`, in order.
pub open spec fn directory_steps(entries: Seq<Entry>, k: int) -> Seq<ExtractStep>
    decreases k,
{
    if k <= 0 {
        Seq::<ExtractStep>::empty()
    } else {
        let rest = directory_steps(entries, k - 1);
        if entries[k - 1].kind == EntryKind::Directory {
            rest.push(ExtractStep::CreateDir((k - 1) as usize))
        } else {
            rest
        }
    }
}

/// The files and links among the entries before `k`, in order.
pub open spec fn item_steps(entries: Seq<Entry>, k: int) -> Seq<ExtractStep>
    decreases k,
{
    if k <= 0 {
        Seq::<ExtractStep>::empty()
    } else {
        let rest = item_steps(entries, k - 1);
        if entries[k - 1].kind == EntryKind::Directory {
            rest
        } else {
            rest.push(step_for(k - 1, entries[k - 1].kind))
        }
    }
}

/// `prefix` begins `p`.
pub open spec fn starts_with(p: Seq<char>, prefix: Seq<char>) -> bool {
    prefix.len() <= p.len() && p.take(prefix.len() as int) == prefix
}

/// The steps for the entries before `k` whose path begins with `prefix`.
pub open spec fn subtree_steps(entries: Seq<Entry>, prefix: Seq<char>, k: int) -> Seq<ExtractStep>
    decreases k,
{
    if k <= 0 {
        Seq::<ExtractStep>::empty()
    } else {
        let rest = subtree_steps(entries, prefix, k - 1);
        if starts_with(entries[k - 1].path@, prefix) {
            rest.push(step_for(k - 1, entries[k - 1].kind))
        } else {
            rest
        }
    }
}

/// Whether `prefix` begins `p`.
fn str_starts_with(p: &str, prefix: &str) -> (r: bool)
    ensures
        r == starts_with(p@, prefix@),
{
    let x = crate::text::chars_of(p);
    let y = crate::text::chars_of(prefix);
    if y.len() > x.len() {
        return false;
    }
    let mut i: usize = 0;
    while i < y.len()
        invariant
            x@ == p@,
            y@ == prefix@,
            y@.len() <= x@.len(),
            i <= y@.len(),
            forall|j: int| 0 <= j < i ==> x@[j] == y@[j],
        decreases y@.len() - i,
    {
        if x[i] != y[i] {
            assert(p@.take(prefix@.len() as int)[i as int] != prefix@[i as int]);
            return false;
        }
        i = i + 1;
    }
    assert(p@.take(prefix@.len() as int) =~= prefix@);
    true
}

/// The target of a symbolic link's entry.
pub fn link_target(entry: &Entry) -> (r: Result<&str>)
    ensures
        match entry.symlink_target {
            Some(t) => r matches Ok(s) && s@ == t@,
            None => r matches Err(e) && (e matches Error::InvalidFormat(m) && m@ == "symlink "@ + entry.path@ + " has no target"@),
        },
{
    match &entry.symlink_target {
        Some(t) => Ok(t.as_str()),
        None => {
            let mut m = concat("symlink ", entry.path.as_str());
            m.append(" has no target");
            Err(Error::InvalidFormat(m))
        },
    }
}

impl Archive {
    /// The steps that extract the whole archive: every directory first, then
    /// every file and link, each in index order.
    pub fn extraction_plan(&self) -> (r: Vec<ExtractStep>)
        ensures
            r@ == directory_steps(self.spec_entries(), self.spec_entries().len() as int) + item_steps(
                self.spec_entries(),
                self.spec_entries().len() as int,
            ),
    {
        let ghost entries = self.spec_entries();
        let n = self.index.entries.len();
        let mut dirs: Vec<ExtractStep> = Vec::new();
        let mut items: Vec<ExtractStep> = Vec::new();
        let mut k: usize = 0;
        while k < n
            invariant
                entries == self.index.entries@,
                n == entries.len(),
                k <= n,
                dirs@ == directory_steps(entries, k as int),
                items@ == item_steps(entries, k as int),
            decreases n - k,
        {
            match self.index.entries[k].kind {
                EntryKind::Directory => dirs.push(ExtractStep::CreateDir(k)),
                EntryKind::File => items.push(ExtractStep::WriteFile(k)),
                EntryKind::Symlink => items.push(ExtractStep::MakeSymlink(k)),
            }
            k = k + 1;
        }
        dirs.append(&mut items);
        dirs
    }

    /// The steps that extract what `path` names: a file or link alone, or a
    /// directory and then everything below it in index order.
    pub fn path_extraction_plan(&self, path: &str) -> (r: Result<Vec<ExtractStep>>)
        requires
            self.wf(),
        ensures
            match normalized(path@) {
                None => r matches Err(e) && e is InvalidPath,
                Some(key) => match r {
                    Ok(steps) => exists|i: int| 0 <= i < self.spec_entries().len() && #[trigger] self.spec_entries()[i].path@ == key && steps@ == if self.spec_entries()[i].kind == EntryKind::Directory {
                        seq![ExtractStep::CreateDir(i as usize)] + subtree_steps(self.spec_entries(), key + seq!['/'], self.spec_entries().len() as int)
                    } else {
                        seq![step_for(i, self.spec_entries()[i].kind)]
                    },
                    Err(e) => !has_path(self.spec_entries(), key) && (e matches Error::NotFound(m) && m@ == key),
                },
            },
    {
        let i = self.lookup(path)?;
        let entry = &self.index.entries[i];
        let ghost entries = self.spec_entries();
        match entry.kind {
            EntryKind::Directory => {
                let prefix = concat(entry.path.as_str(), "/");
                proof {
                    reveal_strlit("/");
                }
                let mut steps: Vec<ExtractStep> = Vec::new();
                steps.push(ExtractStep::CreateDir(i));
                let n = self.index.entries.len();
                let mut k: usize = 0;
                while k < n
                    invariant
                        entries == self.index.entries@,
                        n == entries.len(),
                        k <= n,
                        steps@ == seq![ExtractStep::CreateDir(i)] + subtree_steps(entries, prefix@, k as int),
                    decreases n - k,
                {
                    let child = &self.index.entries[k];
                    if str_starts_with(child.path.as_str(), prefix.as_str()) {
                        let step = match child.kind {
                            EntryKind::Directory => ExtractStep::CreateDir(k),
                            EntryKind::File => ExtractStep::WriteFile(k),
                            EntryKind::Symlink => ExtractStep::MakeSymlink(k),
                        };
                        steps.push(step);
                    }
                    k = k + 1;
                }
                assert(prefix@ =~= entries[i as int].path@ + seq!['/']);
                assert(entries[i as int].path@ == entries[i as int].path@);
                Ok(steps)
            },
            EntryKind::File => {
                let mut steps: Vec<ExtractStep> = Vec::new();
                steps.push(ExtractStep::WriteFile(i));
                assert(steps@ =~= seq![step_for(i as int, entries[i as int].kind)]);
                assert(entries[i as int].path@ == entries[i as int].path@);
                Ok(steps)
            },
            EntryKind::Symlink => {
                let mut steps: Vec<ExtractStep> = Vec::new();
                steps.push(ExtractStep::MakeSymlink(i));
                assert(steps@ =~= seq![step_for(i as int, entries[i as int].kind)]);
                assert(entries[i as int].path@ == entries[i as int].path@);
                Ok(steps)
            },
        }
    }
}

/// The index's uncompressed bytes are intact: their length and checksum are
/// those the header records.
pub open spec fn index_bytes_intact(h: Header, bytes: Seq<u8>) -> bool {
    bytes.len() == h.index_raw_len && xxh3_hash(bytes) == h.index_checksum
}

/// Converts a length recorded in the header to `usize`.
fn index_len_usize(len: u64) -> (r: Result<usize>)
    ensures
        match r {
            Ok(n) => n == len,
            Err(e) => len > usize::MAX && e is InvalidFormat,
        },
{
    if len > usize::MAX as u64 {
        return Err(Error::InvalidFormat(owned("index is too large for this platform")));
    }
    Ok(len as usize)
}

impl Archive {
    /// How many bytes of compressed index follow the payload.
    pub fn index_stored_size(header: &Header) -> (r: Result<usize>)
        ensures
            match r {
                Ok(n) => n == header.index_stored_len,
                Err(e) => header.index_stored_len > usize::MAX && e is InvalidFormat,
            },
    {
        index_len_usize(header.index_stored_len)
    }

    /// Accepts the outcome of decompressing the index: it must have
    /// succeeded, with the length and checksum the header records.
    pub fn accept_index_bytes(
        header: &Header,
        decoded: std::result::Result<Vec<u8>, std::io::Error>,
    ) -> (r: Result<Vec<u8>>)
        ensures
            match decoded {
                Ok(v) => if index_bytes_intact(*header, v@) {
                    r matches Ok(w) && w@ == v@
                } else {
                    r matches Err(e) && (e matches Error::InvalidFormat(m) && m@ == if v@.len() != header.index_raw_len {
                        "index length mismatch: expected "@ + decimal(header.index_raw_len as nat) + ", got "@ + decimal(v@.len())
                    } else {
                        "index checksum mismatch"@
                    })
                },
                Err(_) => r matches Err(e) && (e matches Error::InvalidFormat(m) && m@.subrange(0, "cannot decompress index: "@.len() as int) == "cannot decompress index: "@),
            },
    {
        let bytes = match decoded {
            Ok(v) => v,
            Err(error) => {
                let m = concat("cannot decompress index: ", io_error_text(&error).as_str());
                assert(m@.subrange(0, "cannot decompress index: "@.len() as int) =~= "cannot decompress index: "@);
                return Err(Error::InvalidFormat(m));
            },
        };
        if bytes.len() as u64 != header.index_raw_len {
            let mut m = concat("index length mismatch: expected ", decimal_string(header.index_raw_len).as_str());
            m.append(", got ");
            m.append(decimal_string(bytes.len() as u64).as_str());
            return Err(Error::InvalidFormat(m));
        }
        if checksum(bytes.as_slice()) != header.index_checksum {
            return Err(Error::InvalidFormat(owned("index checksum mismatch")));
        }
        Ok(bytes)
    }

    /// The uncompressed index, from the compressed bytes that follow the
    /// payload.
    pub fn decode_index(header: &Header, compressed: &[u8]) -> (r: Result<Vec<u8>>)
        ensures
            r matches Ok(v) ==> v@ == zstd_content(compressed@) && index_bytes_intact(*header, v@),
            !index_bytes_intact(*header, zstd_content(compressed@)) ==> r is Err,
            is_frame(compressed@) && index_bytes_intact(*header, zstd_content(compressed@))
                && header.index_raw_len <= usize::MAX ==> r is Ok,
            r matches Err(e) ==> e is InvalidFormat,
    {
        let raw_len = index_len_usize(header.index_raw_len)?;
        let decoded = zstd_decompress(compressed, raw_len);
        Self::accept_index_bytes(header, decoded)
    }
}

} // verus!
