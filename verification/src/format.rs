//! The on-disk layout: the fixed header and the index records.
use vstd::bytes::*;
use vstd::prelude::*;
use vstd::slice::slice_subrange;

verus! {

broadcast use vstd::seq_lib::group_seq_properties;

/// First eight bytes of every archive: `ZSTDFND1`.
pub const MAGIC: [u8; 8] = [0x5a, 0x53, 0x54, 0x44, 0x46, 0x4e, 0x44, 0x31];

pub const FORMAT_VERSION: u16 = 1;

pub const HEADER_SIZE: usize = 64;

pub const MIN_CHUNK_SIZE: u32 = 64 * 1024;

pub const MAX_CHUNK_SIZE: u32 = 64 * 1024 * 1024;

pub const DEFAULT_CHUNK_SIZE: u32 = 1024 * 1024;

pub const MAX_INDEX_SIZE: u64 = 512 * 1024 * 1024;

/// The magic as a sequence, for contracts.
pub open spec fn magic_seq() -> Seq<u8> {
    seq![0x5au8, 0x53u8, 0x54u8, 0x44u8, 0x46u8, 0x4eu8, 0x44u8, 0x31u8]
}

/// The fixed 64-byte header at the start of an archive.
#[derive(Debug, Clone, Copy, PartialEq, Eq, Structural)]
pub struct Header {
    pub version: u16,
    pub flags: u16,
    pub chunk_size: u32,
    pub index_offset: u64,
    pub index_stored_len: u64,
    pub index_raw_len: u64,
    pub index_checksum: u64,
}

/// Sixteen reserved zero bytes that close the header.
pub open spec fn reserved_zeros() -> Seq<u8> {
    Seq::new(16, |i: int| 0u8)
}

/// The 64 bytes that stand for `h` on disk: the magic, then the fields in
/// little-endian order, then sixteen zero bytes.
pub open spec fn header_bytes(h: Header) -> Seq<u8> {
    magic_seq() + spec_u16_to_le_bytes(h.version) + spec_u16_to_le_bytes(h.flags)
        + spec_u32_to_le_bytes(h.chunk_size) + spec_u64_to_le_bytes(h.index_offset)
        + spec_u64_to_le_bytes(h.index_stored_len) + spec_u64_to_le_bytes(h.index_raw_len)
        + spec_u64_to_le_bytes(h.index_checksum) + reserved_zeros()
}

/// What the 64 bytes `b` decode to: `None` when the magic is wrong. The
/// reserved bytes are not read.
pub open spec fn header_from_bytes(b: Seq<u8>) -> Option<Header> {
    if b.subrange(0, 8) == magic_seq() {
        Some(
            Header {
                version: spec_u16_from_le_bytes(b.subrange(8, 10)),
                flags: spec_u16_from_le_bytes(b.subrange(10, 12)),
                chunk_size: spec_u32_from_le_bytes(b.subrange(12, 16)),
                index_offset: spec_u64_from_le_bytes(b.subrange(16, 24)),
                index_stored_len: spec_u64_from_le_bytes(b.subrange(24, 32)),
                index_raw_len: spec_u64_from_le_bytes(b.subrange(32, 40)),
                index_checksum: spec_u64_from_le_bytes(b.subrange(40, 48)),
            },
        )
    } else {
        None
    }
}

/// Copies `bytes` into `out` at `at`.
fn put_bytes(out: &mut [u8; 64], at: usize, bytes: &[u8])
    requires
        at + bytes@.len() <= 64,
    ensures
        final(out)@ == old(out)@.subrange(0, at as int) + bytes@ + old(out)@.subrange(
            at + bytes@.len(),
            64,
        ),
{
    let mut i: usize = 0;
    while i < bytes.len()
        invariant
            i <= bytes@.len(),
            at + bytes@.len() <= 64,
            out@.len() == 64,
            out@ == old(out)@.subrange(0, at as int) + bytes@.subrange(0, i as int) + old(
                out,
            )@.subrange(at + i, 64),
        decreases bytes@.len() - i,
    {
        out[at + i] = bytes[i];
        i = i + 1;
        assert(out@ == old(out)@.subrange(0, at as int) + bytes@.subrange(0, i as int) + old(
            out,
        )@.subrange(at + i, 64));
    }
    assert(bytes@.subrange(0, i as int) == bytes@);
}

impl Header {
    /// Encodes the header in its 64-byte on-disk form.
    pub fn encode(self) -> (out: [u8; HEADER_SIZE])
        ensures
            out@ == header_bytes(self),
    {
        let mut out = [0u8; HEADER_SIZE];
        let magic = MAGIC;
        assert(magic@ == magic_seq());
        put_bytes(&mut out, 0, magic.as_slice());
        let v = u16_to_le_bytes(self.version);
        put_bytes(&mut out, 8, v.as_slice());
        let f = u16_to_le_bytes(self.flags);
        put_bytes(&mut out, 10, f.as_slice());
        let c = u32_to_le_bytes(self.chunk_size);
        put_bytes(&mut out, 12, c.as_slice());
        let o = u64_to_le_bytes(self.index_offset);
        put_bytes(&mut out, 16, o.as_slice());
        let s = u64_to_le_bytes(self.index_stored_len);
        put_bytes(&mut out, 24, s.as_slice());
        let r = u64_to_le_bytes(self.index_raw_len);
        put_bytes(&mut out, 32, r.as_slice());
        let k = u64_to_le_bytes(self.index_checksum);
        put_bytes(&mut out, 40, k.as_slice());
        assert(out@ =~= header_bytes(self));
        out
    }

    /// Decodes a 64-byte header; fails when the magic is wrong.
    pub fn decode(bytes: &[u8; HEADER_SIZE]) -> (r: Result<Self, &'static str>)
        ensures
            match r {
                Ok(h) => header_from_bytes(bytes@) == Some(h),
                Err(m) => header_from_bytes(bytes@) is None && m@ == "invalid ZSTD-Finder magic"@,
            },
    {
        let b = bytes.as_slice();
        let magic = MAGIC;
        let mut i: usize = 0;
        while i < 8
            invariant
                b@ == bytes@,
                b@.len() == 64,
                magic@ == magic_seq(),
                i <= 8,
                forall|j: int| 0 <= j < i ==> b@[j] == magic_seq()[j],
            decreases 8 - i,
        {
            if b[i] != magic[i] {
                assert(b@.subrange(0, 8)[i as int] != magic_seq()[i as int]);
                return Err("invalid ZSTD-Finder magic");
            }
            i = i + 1;
        }
        assert(b@.subrange(0, 8) =~= magic_seq());
        Ok(
            Self {
                version: u16_from_le_bytes(slice_subrange(b, 8, 10)),
                flags: u16_from_le_bytes(slice_subrange(b, 10, 12)),
                chunk_size: u32_from_le_bytes(slice_subrange(b, 12, 16)),
                index_offset: u64_from_le_bytes(slice_subrange(b, 16, 24)),
                index_stored_len: u64_from_le_bytes(slice_subrange(b, 24, 32)),
                index_raw_len: u64_from_le_bytes(slice_subrange(b, 32, 40)),
                index_checksum: u64_from_le_bytes(slice_subrange(b, 40, 48)),
            },
        )
    }
}

/// The header's on-disk layout, field by field, as the format's table
/// gives it: the magic at 0, then, little-endian, the version at 8, the
/// flags at 10, the chunk size at 12, the index offset at 16, the
/// compressed index length at 24, the uncompressed index length at 32 and
/// the index checksum at 40, then sixteen reserved zero bytes at 48.
pub proof fn law_header_layout(h: Header)
    ensures
        header_bytes(h).len() == 64,
        header_bytes(h).subrange(0, 8) == seq![0x5Au8, 0x53u8, 0x54u8, 0x44u8, 0x46u8, 0x4Eu8, 0x44u8, 0x31u8],
        header_bytes(h).subrange(8, 10) == spec_u16_to_le_bytes(h.version),
        header_bytes(h).subrange(10, 12) == spec_u16_to_le_bytes(h.flags),
        header_bytes(h).subrange(12, 16) == spec_u32_to_le_bytes(h.chunk_size),
        header_bytes(h).subrange(16, 24) == spec_u64_to_le_bytes(h.index_offset),
        header_bytes(h).subrange(24, 32) == spec_u64_to_le_bytes(h.index_stored_len),
        header_bytes(h).subrange(32, 40) == spec_u64_to_le_bytes(h.index_raw_len),
        header_bytes(h).subrange(40, 48) == spec_u64_to_le_bytes(h.index_checksum),
        forall|i: int| 48 <= i < 64 ==> #[trigger] header_bytes(h)[i] == 0,
{
    lemma_auto_spec_u16_to_from_le_bytes();
    lemma_auto_spec_u32_to_from_le_bytes();
    lemma_auto_spec_u64_to_from_le_bytes();
    let b = header_bytes(h);
    assert(b.subrange(0, 8) =~= seq![0x5Au8, 0x53u8, 0x54u8, 0x44u8, 0x46u8, 0x4Eu8, 0x44u8, 0x31u8]);
    assert(b.subrange(8, 10) =~= spec_u16_to_le_bytes(h.version));
    assert(b.subrange(10, 12) =~= spec_u16_to_le_bytes(h.flags));
    assert(b.subrange(12, 16) =~= spec_u32_to_le_bytes(h.chunk_size));
    assert(b.subrange(16, 24) =~= spec_u64_to_le_bytes(h.index_offset));
    assert(b.subrange(24, 32) =~= spec_u64_to_le_bytes(h.index_stored_len));
    assert(b.subrange(32, 40) =~= spec_u64_to_le_bytes(h.index_raw_len));
    assert(b.subrange(40, 48) =~= spec_u64_to_le_bytes(h.index_checksum));
}

/// Decoding what `encode` wrote gives back the same header.
pub proof fn lemma_header_roundtrip(h: Header)
    ensures
        header_bytes(h).len() == 64,
        header_from_bytes(header_bytes(h)) == Some(h),
{
    lemma_auto_spec_u16_to_from_le_bytes();
    lemma_auto_spec_u32_to_from_le_bytes();
    lemma_auto_spec_u64_to_from_le_bytes();
    let b = header_bytes(h);
    assert(b.subrange(0, 8) =~= magic_seq());
    assert(b.subrange(8, 10) =~= spec_u16_to_le_bytes(h.version));
    assert(b.subrange(10, 12) =~= spec_u16_to_le_bytes(h.flags));
    assert(b.subrange(12, 16) =~= spec_u32_to_le_bytes(h.chunk_size));
    assert(b.subrange(16, 24) =~= spec_u64_to_le_bytes(h.index_offset));
    assert(b.subrange(24, 32) =~= spec_u64_to_le_bytes(h.index_stored_len));
    assert(b.subrange(32, 40) =~= spec_u64_to_le_bytes(h.index_raw_len));
    assert(b.subrange(40, 48) =~= spec_u64_to_le_bytes(h.index_checksum));
}

/// Encoding a decoded header gives back the 64 bytes it came from, provided
/// that their reserved tail is zero.
pub proof fn lemma_header_bytes_roundtrip(b: Seq<u8>)
    requires
        b.len() == 64,
        header_from_bytes(b) is Some,
        b.subrange(48, 64) == reserved_zeros(),
    ensures
        header_bytes(header_from_bytes(b)->0) == b,
{
    lemma_auto_spec_u16_to_from_le_bytes();
    lemma_auto_spec_u32_to_from_le_bytes();
    lemma_auto_spec_u64_to_from_le_bytes();
    let h = header_from_bytes(b)->0;
    assert(spec_u16_to_le_bytes(spec_u16_from_le_bytes(b.subrange(8, 10))) == b.subrange(8, 10));
    assert(spec_u16_to_le_bytes(spec_u16_from_le_bytes(b.subrange(10, 12))) == b.subrange(10, 12));
    assert(spec_u32_to_le_bytes(spec_u32_from_le_bytes(b.subrange(12, 16))) == b.subrange(12, 16));
    assert(spec_u64_to_le_bytes(spec_u64_from_le_bytes(b.subrange(16, 24))) == b.subrange(16, 24));
    assert(spec_u64_to_le_bytes(spec_u64_from_le_bytes(b.subrange(24, 32))) == b.subrange(24, 32));
    assert(spec_u64_to_le_bytes(spec_u64_from_le_bytes(b.subrange(32, 40))) == b.subrange(32, 40));
    assert(spec_u64_to_le_bytes(spec_u64_from_le_bytes(b.subrange(40, 48))) == b.subrange(40, 48));
    assert(header_bytes(h) =~= b);
}

/// The uncompressed index: format metadata and the entries, sorted by path.
#[derive(Debug, Clone, PartialEq, Eq)]
pub struct ArchiveIndex {
    pub version: u16,
    pub chunk_size: u32,
    pub entries: Vec<Entry>,
}

/// One indexed file, directory or symbolic link.
#[derive(Debug, Clone, PartialEq, Eq)]
pub struct Entry {
    pub path: String,
    pub kind: EntryKind,
    pub size: u64,
    pub unix_mode: u32,
    pub modified: Option<UnixTime>,
    pub chunks: Vec<ChunkRef>,
    pub symlink_target: Option<String>,
}

#[derive(Debug, Clone, Copy, PartialEq, Eq, Structural)]
pub enum EntryKind {
    File,
    Directory,
    Symlink,
}

#[derive(Debug, Clone, Copy, PartialEq, Eq, Structural)]
pub struct UnixTime {
    pub seconds: i64,
    pub nanos: u32,
}

/// Where one chunk of a regular file lies in the archive and how it is coded.
#[derive(Debug, Clone, Copy, PartialEq, Eq, Structural)]
pub struct ChunkRef {
    pub offset: u64,
    pub stored_len: u32,
    pub raw_len: u32,
    pub codec: ChunkCodec,
    pub checksum: u64,
}

#[derive(Debug, Clone, Copy, PartialEq, Eq, Structural)]
pub enum ChunkCodec {
    Stored,
    Zstd,
}

} // verus!
