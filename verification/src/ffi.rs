//! The decisions behind the C interface: status codes, entry metadata, and
//! how a caller's buffer is filled. The pointers themselves are handled by
//! the native layer.
use vstd::prelude::*;

use crate::format::{Entry, EntryKind};
use crate::text::chars_of;

verus! {

pub const ZSTF_OK: i32 = 0;

pub const ZSTF_ERR_INVALID_ARGUMENT: i32 = -1;

pub const ZSTF_ERR_BUFFER_TOO_SMALL: i32 = -2;

pub const ZSTF_ERR_ARCHIVE: i32 = -3;

pub const ZSTF_ERR_PANIC: i32 = -127;

pub const ZSTF_KIND_FILE: u32 = 1;

pub const ZSTF_KIND_DIRECTORY: u32 = 2;

pub const ZSTF_KIND_SYMLINK: u32 = 3;

/// An entry's metadata as the C interface reports it.
#[derive(Debug, Clone, Copy, PartialEq, Eq, Structural)]
pub struct ZstfEntryMetadata {
    pub kind: u32,
    pub unix_mode: u32,
    pub size: u64,
    pub modified_seconds: i64,
    pub modified_nanos: u32,
    pub has_modified: u32,
}

impl Default for ZstfEntryMetadata {
    fn default() -> (r: Self)
        ensures
            r == (ZstfEntryMetadata {
                kind: 0,
                unix_mode: 0,
                size: 0,
                modified_seconds: 0,
                modified_nanos: 0,
                has_modified: 0,
            }),
    {
        ZstfEntryMetadata {
            kind: 0,
            unix_mode: 0,
            size: 0,
            modified_seconds: 0,
            modified_nanos: 0,
            has_modified: 0,
        }
    }
}

/// The C code of an entry kind.
pub open spec fn kind_code(kind: EntryKind) -> u32 {
    match kind {
        EntryKind::File => ZSTF_KIND_FILE,
        EntryKind::Directory => ZSTF_KIND_DIRECTORY,
        EntryKind::Symlink => ZSTF_KIND_SYMLINK,
    }
}

/// The metadata the C interface reports for `entry`.
pub fn entry_metadata(entry: &Entry) -> (r: ZstfEntryMetadata)
    ensures
        r.kind == kind_code(entry.kind),
        r.unix_mode == entry.unix_mode,
        r.size == entry.size,
        match entry.modified {
            Some(t) => r.modified_seconds == t.seconds && r.modified_nanos == t.nanos && r.has_modified == 1,
            None => r.modified_seconds == 0 && r.modified_nanos == 0 && r.has_modified == 0,
        },
{
    let kind = match entry.kind {
        EntryKind::File => ZSTF_KIND_FILE,
        EntryKind::Directory => ZSTF_KIND_DIRECTORY,
        EntryKind::Symlink => ZSTF_KIND_SYMLINK,
    };
    let (modified_seconds, modified_nanos, has_modified) = match entry.modified {
        Some(time) => (time.seconds, time.nanos, 1u32),
        None => (0i64, 0u32, 0u32),
    };
    ZstfEntryMetadata {
        kind,
        unix_mode: entry.unix_mode,
        size: entry.size,
        modified_seconds,
        modified_nanos,
        has_modified,
    }
}

/// What to do with a caller's buffer of `capacity` bytes (absent when
/// `buffer_is_null`) when `len` bytes are to be returned.
#[derive(Debug, Clone, Copy, PartialEq, Eq, Structural)]
pub enum CopyOutcome {
    /// Report the length only: nothing to copy, or a size query.
    LengthOnly,
    /// Copy the bytes.
    Copy,
    /// A capacity was given without a buffer.
    NullBuffer,
    /// The buffer is too small.
    TooSmall,
}

/// Decides how a buffer is filled: an empty value or a size query (no
/// buffer, no capacity) reports the length only; otherwise the buffer must be
/// present and large enough.
pub fn copy_outcome(len: usize, buffer_is_null: bool, capacity: usize) -> (r: CopyOutcome)
    ensures
        r == if len == 0 || (buffer_is_null && capacity == 0) {
            CopyOutcome::LengthOnly
        } else if buffer_is_null {
            CopyOutcome::NullBuffer
        } else if capacity < len {
            CopyOutcome::TooSmall
        } else {
            CopyOutcome::Copy
        },
{
    if len == 0 || (buffer_is_null && capacity == 0) {
        CopyOutcome::LengthOnly
    } else if buffer_is_null {
        CopyOutcome::NullBuffer
    } else if capacity < len {
        CopyOutcome::TooSmall
    } else {
        CopyOutcome::Copy
    }
}

/// How many bytes of a `len`-byte message fit a buffer of `capacity` bytes
/// that also takes a NUL terminator; `None` when there is no buffer.
pub fn message_copy_len(len: usize, buffer_is_null: bool, capacity: usize) -> (r: Option<usize>)
    ensures
        r == if buffer_is_null || capacity == 0 {
            None
        } else if len < capacity - 1 {
            Some(len)
        } else {
            Some((capacity - 1) as usize)
        },
{
    if buffer_is_null || capacity == 0 {
        return None;
    }
    let room = capacity - 1;
    if len < room {
        Some(len)
    } else {
        Some(room)
    }
}

/// `s` with every NUL character written as the two characters `\0`.
pub open spec fn escape_nul(s: Seq<char>) -> Seq<char>
    decreases s.len(),
{
    if s.len() == 0 {
        Seq::<char>::empty()
    } else {
        escape_nul(s.drop_last()) + if s.last() == '\0' {
            seq!['\\', '0']
        } else {
            seq![s.last()]
        }
    }
}

/// An error message made safe to hand out as a C string.
pub fn sanitize_message(message: &str) -> (r: String)
    ensures
        r@ == escape_nul(message@),
{
    let c = chars_of(message);
    let mut r = String::new();
    let mut i: usize = 0;
    while i < c.len()
        invariant
            c@ == message@,
            i <= c@.len(),
            r@ == escape_nul(c@.take(i as int)),
        decreases c@.len() - i,
    {
        assert(c@.take(i + 1).drop_last() =~= c@.take(i as int));
        assert(c@.take(i + 1).last() == c@[i as int]);
        if c[i] == '\0' {
            proof {
                reveal_strlit("\\0");
            }
            r.append("\\0");
            assert(r@ =~= escape_nul(c@.take(i as int)) + seq!['\\', '0']);
        } else {
            let one = message.substring_char(i, i + 1);
            assert(one@ =~= seq![c@[i as int]]);
            r.append(one);
        }
        i = i + 1;
    }
    assert(c@.take(c@.len() as int) =~= c@);
    r
}

} // verus!
