//! What an archive must satisfy before any entry is exposed: the header's
//! bounds and the index's paths, order, kinds, chunk layout and parents.
use vstd::prelude::*;

use crate::error::{Error, Result};
use crate::format::{
    ArchiveIndex, ChunkCodec, ChunkRef, Entry, EntryKind, Header, FORMAT_VERSION, HEADER_SIZE,
    MAX_CHUNK_SIZE, MAX_INDEX_SIZE, MIN_CHUNK_SIZE,
};
use crate::order::{
    lemma_path_lt_asymmetric, lemma_path_lt_irreflexive, lemma_path_lt_total, lemma_path_lt_transitive,
    path_lt, str_eq, str_lt,
};
use crate::path::{parent_of, parent_path, path_error_message, valid_archive_path, validate_archive_path};
use crate::text::{concat, decimal, decimal_string, owned};
use vstd::arithmetic::div_mod::{lemma_fundamental_div_mod_converse_mod};

verus! {


/// The header fits a file of `file_len` bytes and this version of the format.
pub open spec fn header_ok(h: Header, file_len: u64) -> bool {
    &&& h.version == FORMAT_VERSION
    &&& h.flags == 0
    &&& MIN_CHUNK_SIZE <= h.chunk_size <= MAX_CHUNK_SIZE
    &&& 0 < h.index_raw_len <= MAX_INDEX_SIZE
    &&& 0 < h.index_stored_len <= MAX_INDEX_SIZE
    &&& h.index_offset >= HEADER_SIZE
    &&& h.index_offset + h.index_stored_len == file_len
}

/// The message of the first check that a header of a supported version
/// fails.
pub open spec fn header_problem(h: Header, file_len: u64) -> Seq<char> {
    if h.flags != 0 {
        "unsupported header flags: "@ + decimal(h.flags as nat)
    } else if !(MIN_CHUNK_SIZE <= h.chunk_size <= MAX_CHUNK_SIZE) {
        "invalid chunk size"@
    } else if !(0 < h.index_raw_len <= MAX_INDEX_SIZE && 0 < h.index_stored_len <= MAX_INDEX_SIZE) {
        "invalid index size"@
    } else if h.index_offset < HEADER_SIZE {
        "index overlaps the header"@
    } else if h.index_offset + h.index_stored_len > u64::MAX {
        "index offset overflow"@
    } else {
        "archive length mismatch: index ends at "@ + decimal((h.index_offset + h.index_stored_len) as nat)
            + ", file length is "@ + decimal(file_len as nat)
    }
}

/// Checks the header against the length of the file that holds it.
pub fn validate_header(header: Header, file_len: u64) -> (r: Result<()>)
    ensures
        r is Ok <==> header_ok(header, file_len),
        r matches Err(e) ==> if header.version != FORMAT_VERSION {
            e == Error::UnsupportedVersion(header.version)
        } else {
            e matches Error::InvalidFormat(m) && m@ == header_problem(header, file_len)
        },
{
    if header.version != FORMAT_VERSION {
        return Err(Error::UnsupportedVersion(header.version));
    }
    if header.flags != 0 {
        return Err(
            Error::InvalidFormat(
                concat("unsupported header flags: ", decimal_string(header.flags as u64).as_str()),
            ),
        );
    }
    if header.chunk_size < MIN_CHUNK_SIZE || header.chunk_size > MAX_CHUNK_SIZE {
        return Err(Error::InvalidFormat(owned("invalid chunk size")));
    }
    if header.index_raw_len == 0 || header.index_raw_len > MAX_INDEX_SIZE
        || header.index_stored_len == 0 || header.index_stored_len > MAX_INDEX_SIZE {
        return Err(Error::InvalidFormat(owned("invalid index size")));
    }
    if header.index_offset < HEADER_SIZE as u64 {
        return Err(Error::InvalidFormat(owned("index overlaps the header")));
    }
    let index_end = match header.index_offset.checked_add(header.index_stored_len) {
        Some(end) => end,
        None => {
            return Err(Error::InvalidFormat(owned("index offset overflow")));
        },
    };
    if index_end != file_len {
        let mut m = concat(
            "archive length mismatch: index ends at ",
            decimal_string(index_end).as_str(),
        );
        m.append(", file length is ");
        m.append(decimal_string(file_len).as_str());
        return Err(Error::InvalidFormat(m));
    }
    Ok(())
}

/// The stored bytes of the first `k` chunks.
pub open spec fn stored_before(chunks: Seq<ChunkRef>, k: int) -> int
    decreases k,
{
    if k <= 0 {
        0
    } else {
        stored_before(chunks, k - 1) + chunks[k - 1].stored_len
    }
}

/// The logical bytes of the first `k` chunks.
pub open spec fn raw_before(chunks: Seq<ChunkRef>, k: int) -> int
    decreases k,
{
    if k <= 0 {
        0
    } else {
        raw_before(chunks, k - 1) + chunks[k - 1].raw_len
    }
}

/// The total stored bytes of `chunks`.
pub open spec fn stored_total(chunks: Seq<ChunkRef>) -> int {
    stored_before(chunks, chunks.len() as int)
}

/// The total logical bytes of `chunks`.
pub open spec fn raw_total(chunks: Seq<ChunkRef>) -> int {
    raw_before(chunks, chunks.len() as int)
}

/// `a / b` rounded up.
pub open spec fn ceil_div(a: int, b: int) -> int {
    if a % b == 0 {
        a / b
    } else {
        a / b + 1
    }
}

/// Chunk `k` of `n` has lengths that fit a chunk size of `cs`.
pub open spec fn chunk_shape_ok(c: ChunkRef, k: int, n: int, cs: u32) -> bool {
    &&& 0 < c.raw_len <= cs
    &&& c.stored_len > 0
    &&& k + 1 != n ==> c.raw_len == cs
    &&& c.codec == ChunkCodec::Stored ==> c.stored_len == c.raw_len
}

/// A regular file whose chunks start at archive offset `start`: no link
/// target; no chunk when empty; otherwise one chunk per `cs` bytes, full but
/// for the last, laid end to end from `start`, ending by `index_offset`,
/// and holding `size` bytes in all.
pub open spec fn file_entry_ok(e: Entry, cs: u32, index_offset: u64, start: int) -> bool {
    let chunks = e.chunks@;
    &&& e.symlink_target is None
    &&& e.size == 0 ==> chunks.len() == 0
    &&& e.size > 0 ==> {
        &&& chunks.len() == ceil_div(e.size as int, cs as int)
        &&& forall|k: int| 0 <= k < chunks.len() ==> chunk_shape_ok(#[trigger] chunks[k], k, chunks.len() as int, cs)
        &&& forall|k: int| 0 <= k < chunks.len() ==> (#[trigger] chunks[k]).offset == start + stored_before(chunks, k)
        &&& start + stored_total(chunks) <= index_offset
        &&& raw_total(chunks) == e.size
    }
}

/// The entry's kind agrees with its size, chunks and link target.
pub open spec fn entry_kind_ok(e: Entry, cs: u32, index_offset: u64, start: int) -> bool {
    match e.kind {
        EntryKind::File => file_entry_ok(e, cs, index_offset, start),
        EntryKind::Directory => e.size == 0 && e.chunks@.len() == 0 && e.symlink_target is None,
        EntryKind::Symlink => e.size == 0 && e.chunks@.len() == 0 && e.symlink_target is Some,
    }
}

/// The stored bytes of the entries before `k`.
pub open spec fn payload_before(entries: Seq<Entry>, k: int) -> int
    decreases k,
{
    if k <= 0 {
        0
    } else {
        payload_before(entries, k - 1) + stored_total(entries[k - 1].chunks@)
    }
}

/// Entry `k` passes the checks made while scanning the index: a valid path,
/// after the previous one in path order, and a consistent kind, its chunks
/// following those of the entries before it.
pub open spec fn entry_ok(entries: Seq<Entry>, k: int, h: Header) -> bool {
    &&& valid_archive_path(entries[k].path@)
    &&& k > 0 ==> path_lt(entries[k - 1].path@, entries[k].path@)
    &&& entry_kind_ok(entries[k], h.chunk_size, h.index_offset, HEADER_SIZE + payload_before(entries, k))
}

/// Every entry before `k` passes its checks.
pub open spec fn entries_ok_before(entries: Seq<Entry>, k: int, h: Header) -> bool {
    forall|j: int| 0 <= j < k ==> entry_ok(entries, j, h)
}

/// Some entry names `p` and is a directory.
pub open spec fn has_directory(entries: Seq<Entry>, p: Seq<char>) -> bool {
    exists|j: int| 0 <= j < entries.len() && (#[trigger] entries[j]).path@ == p && entries[j].kind == EntryKind::Directory
}

/// The parent of every entry is the root or an indexed directory.
pub open spec fn parents_ok(entries: Seq<Entry>) -> bool {
    forall|k: int| 0 <= k < entries.len() ==> (#[trigger] parent_of(entries[k].path@)).len() == 0 || has_directory(entries, parent_of(entries[k].path@))
}

/// A well-formed index for `h`.
pub open spec fn index_ok(index: ArchiveIndex, h: Header) -> bool {
    let entries = index.entries@;
    &&& index.version == h.version
    &&& index.chunk_size == h.chunk_size
    &&& entries_ok_before(entries, entries.len() as int, h)
    &&& parents_ok(entries)
    &&& HEADER_SIZE + payload_before(entries, entries.len() as int) == h.index_offset
}

/// Validation fails on an invalid path: the index metadata agree and the
/// first entry that fails its checks has an invalid path.
pub open spec fn index_path_error(index: ArchiveIndex, h: Header) -> bool {
    let entries = index.entries@;
    &&& index.version == h.version
    &&& index.chunk_size == h.chunk_size
    &&& exists|k: int| 0 <= k < entries.len() && entries_ok_before(entries, k, h) && !valid_archive_path(#[trigger] entries[k].path@)
}

pub proof fn lemma_stored_before_mono(chunks: Seq<ChunkRef>, k: int, j: int)
    requires
        0 <= k <= j,
    ensures
        0 <= stored_before(chunks, k) <= stored_before(chunks, j),
    decreases j,
{
    if k < j {
        lemma_stored_before_mono(chunks, k, j - 1);
    } else if k > 0 {
        lemma_stored_before_mono(chunks, k - 1, k - 1);
    }
}

/// The stored bytes of the entries before `k` grow with `k`.
pub proof fn lemma_payload_before_mono(entries: Seq<Entry>, k: int, j: int)
    requires
        0 <= k <= j,
    ensures
        0 <= payload_before(entries, k) <= payload_before(entries, j),
    decreases j,
{
    if j > 0 {
        lemma_stored_before_mono(entries[j - 1].chunks@, 0, entries[j - 1].chunks@.len() as int);
        if k < j {
            lemma_payload_before_mono(entries, k, j - 1);
        } else {
            lemma_payload_before_mono(entries, k - 1, j - 1);
        }
    }
}

/// Division by a positive number keeps the order.
pub proof fn lemma_div_le(a: int, b: int, c: int)
    requires
        0 <= a <= b,
        c > 0,
    ensures
        a / c <= b / c,
{
    vstd::arithmetic::div_mod::lemma_div_is_ordered(a, b, c);
}

/// `a / b` rounded up, as `u64::div_ceil`.
pub fn ceil_div_u64(a: u64, b: u64) -> (r: u64)
    requires
        b > 0,
    ensures
        r == ceil_div(a as int, b as int),
{
    let q = a / b;
    if a % b != 0 {
        assert(q < u64::MAX) by (nonlinear_arith)
            requires
                q == a / b,
                b > 0,
                a % b != 0,
                a <= u64::MAX,
        {
            if q == u64::MAX {
                assert(b * q + a % b == a);
                assert(b * q >= q);
            }
        }
        q + 1
    } else {
        q
    }
}

/// The message of the first check that chunk `k` of the `n` chunks of the
/// file `path` fails, when its bytes should start at `next`; `None` when it
/// passes them all.
pub open spec fn chunk_problem(
    path: Seq<char>,
    c: ChunkRef,
    k: int,
    n: int,
    cs: u32,
    index_offset: u64,
    next: int,
) -> Option<Seq<char>> {
    let at = path + " chunk "@ + decimal(k as nat);
    if !(0 < c.raw_len <= cs && c.stored_len > 0) {
        Some("invalid chunk lengths for "@ + at)
    } else if k + 1 != n && c.raw_len != cs {
        Some("short non-final chunk for "@ + at)
    } else if c.codec == ChunkCodec::Stored && c.stored_len != c.raw_len {
        Some("stored chunk length mismatch for "@ + at)
    } else if c.offset != next {
        Some(
            "non-contiguous or overlapping payload for "@ + at + ": expected offset "@ + decimal(
                next as nat,
            ) + ", got "@ + decimal(c.offset as nat),
        )
    } else if next + c.stored_len > u64::MAX {
        Some("chunk offset overflow"@)
    } else if next + c.stored_len > index_offset {
        Some("chunk overlaps index for "@ + at)
    } else {
        None
    }
}

/// The chunk problem of chunk `k` of the file entry `e` whose chunks start
/// at `start`.
pub open spec fn entry_chunk_problem(e: Entry, cs: u32, index_offset: u64, start: int, k: int) -> Option<Seq<char>> {
    chunk_problem(e.path@, e.chunks@[k], k, e.chunks@.len() as int, cs, index_offset, start + stored_before(e.chunks@, k))
}

/// Chunk `k` is the first of `e`'s chunks with a problem.
pub open spec fn first_bad_chunk(e: Entry, cs: u32, index_offset: u64, start: int, k: int) -> bool {
    &&& 0 <= k < e.chunks@.len()
    &&& entry_chunk_problem(e, cs, index_offset, start, k) is Some
    &&& forall|j: int| 0 <= j < k ==> (#[trigger] entry_chunk_problem(e, cs, index_offset, start, j)) is None
}

/// `m` is what `validate_file_entry` reports for a file entry that fails.
pub open spec fn file_entry_problem(e: Entry, cs: u32, index_offset: u64, start: int, m: Seq<char>) -> bool {
    let path = e.path@;
    let chunks = e.chunks@;
    if e.symlink_target is Some {
        m == "regular file has a symlink target: "@ + path
    } else if e.size == 0 {
        m == "empty file has chunks: "@ + path
    } else if chunks.len() == 0 {
        m == "non-empty file has no chunks: "@ + path
    } else if chunks.len() != ceil_div(e.size as int, cs as int) {
        m == "wrong number of chunks for "@ + path
    } else if exists|k: int| first_bad_chunk(e, cs, index_offset, start, k) {
        exists|k: int| first_bad_chunk(e, cs, index_offset, start, k) && entry_chunk_problem(e, cs, index_offset, start, k) == Some(m)
    } else {
        m == "file size mismatch for "@ + path + ": index says "@ + decimal(e.size as nat) + ", chunks contain "@
            + decimal((raw_total(chunks) % 0x1_0000_0000_0000_0000) as nat)
    }
}

/// Checks chunk `k` of the `n` chunks of the file `path`, whose bytes should
/// start at `next`; gives where they end.
fn check_chunk(path: &str, c: &ChunkRef, k: usize, n: usize, cs: u32, index_offset: u64, next: u64) -> (r: Result<u64>)
    requires
        k < n,
    ensures
        match r {
            Ok(end) => chunk_problem(path@, *c, k as int, n as int, cs, index_offset, next as int) is None
                && end == next + c.stored_len,
            Err(e) => e matches Error::InvalidFormat(m)
                && chunk_problem(path@, *c, k as int, n as int, cs, index_offset, next as int) == Some(m@),
        },
{
    let at = {
        let mut at = concat(path, " chunk ");
        at.append(decimal_string(k as u64).as_str());
        at
    };
    if c.raw_len == 0 || c.raw_len > cs || c.stored_len == 0 {
        return Err(Error::InvalidFormat(concat("invalid chunk lengths for ", at.as_str())));
    }
    if k + 1 != n && c.raw_len != cs {
        return Err(Error::InvalidFormat(concat("short non-final chunk for ", at.as_str())));
    }
    if c.codec == ChunkCodec::Stored && c.stored_len != c.raw_len {
        return Err(Error::InvalidFormat(concat("stored chunk length mismatch for ", at.as_str())));
    }
    if c.offset != next {
        let mut m = concat("non-contiguous or overlapping payload for ", at.as_str());
        m.append(": expected offset ");
        m.append(decimal_string(next).as_str());
        m.append(", got ");
        m.append(decimal_string(c.offset).as_str());
        return Err(Error::InvalidFormat(m));
    }
    let end = match c.offset.checked_add(c.stored_len as u64) {
        Some(end) => end,
        None => {
            return Err(Error::InvalidFormat(owned("chunk offset overflow")));
        },
    };
    if end > index_offset {
        return Err(Error::InvalidFormat(concat("chunk overlaps index for ", at.as_str())));
    }
    Ok(end)
}

proof fn lemma_wrapping_step(t: int, old: u64, r: u64)
    requires
        t >= 0,
        old == t % 0x1_0000_0000_0000_0000,
    ensures
        old.wrapping_add(r) == (t + r) % 0x1_0000_0000_0000_0000,
{
    let m: int = 0x1_0000_0000_0000_0000;
    vstd::arithmetic::div_mod::lemma_fundamental_div_mod(t, m);
    let q = t / m;
    assert(m * q == q * m) by (nonlinear_arith);
    if old + r < m {
        lemma_fundamental_div_mod_converse_mod(t + r, m, q, old + r);
    } else {
        assert((q + 1) * m == q * m + m) by (nonlinear_arith);
        lemma_fundamental_div_mod_converse_mod(t + r, m, q + 1, old + r - m);
    }
}

/// Checks a regular file's entry; `next_payload_offset` is where its first
/// chunk must start and, on success, becomes where its last chunk ends.
#[verifier::rlimit(50)]
pub fn validate_file_entry(entry: &Entry, header: Header, next_payload_offset: &mut u64) -> (r:
    Result<()>)
    requires
        entry.size > 0 ==> header.chunk_size > 0,
    ensures
        r is Ok <==> file_entry_ok(*entry, header.chunk_size, header.index_offset, *old(next_payload_offset) as int),
        r is Ok ==> *final(next_payload_offset) == *old(next_payload_offset) + stored_total(entry.chunks@),
        r matches Err(e) ==> e matches Error::InvalidFormat(m) && file_entry_problem(*entry, header.chunk_size, header.index_offset, *old(next_payload_offset) as int, m@),
{
    let ghost start = *next_payload_offset as int;
    let ghost chunks = entry.chunks@;
    if entry.symlink_target.is_some() {
        return Err(Error::InvalidFormat(concat("regular file has a symlink target: ", entry.path.as_str())));
    }
    if entry.size == 0 {
        if entry.chunks.len() != 0 {
            return Err(Error::InvalidFormat(concat("empty file has chunks: ", entry.path.as_str())));
        }
        return Ok(());
    }
    if entry.chunks.len() == 0 {
        return Err(Error::InvalidFormat(concat("non-empty file has no chunks: ", entry.path.as_str())));
    }
    let expected_chunks = ceil_div_u64(entry.size, header.chunk_size as u64);
    if entry.chunks.len() as u64 != expected_chunks {
        return Err(Error::InvalidFormat(concat("wrong number of chunks for ", entry.path.as_str())));
    }
    let n = entry.chunks.len();
    let mut raw_sum: u64 = 0;
    let mut raw_overflow = false;
    let mut index: usize = 0;
    while index < n
        invariant
            n == chunks.len(),
            chunks == entry.chunks@,
            entry.size > 0,
            chunks.len() == ceil_div(entry.size as int, header.chunk_size as int),
            index <= n,
            forall|k: int| 0 <= k < index ==> chunk_shape_ok(#[trigger] chunks[k], k, n as int, header.chunk_size),
            forall|k: int| 0 <= k < index ==> (#[trigger] chunks[k]).offset == start + stored_before(chunks, k),
            forall|k: int| 0 <= k < index ==> (#[trigger] entry_chunk_problem(*entry, header.chunk_size, header.index_offset, start, k)) is None,
            *next_payload_offset == start + stored_before(chunks, index as int),
            index > 0 ==> *next_payload_offset <= header.index_offset,
            raw_sum == raw_before(chunks, index as int) % 0x1_0000_0000_0000_0000,
            raw_overflow <==> raw_before(chunks, index as int) > u64::MAX,
            entry.symlink_target is None,
            start == *old(next_payload_offset) as int,
        decreases n - index,
    {
        let chunk = &entry.chunks[index];
        assert(chunks[index as int] == *chunk);
        let ghost next = *next_payload_offset;
        let end = match check_chunk(entry.path.as_str(), chunk, index, n, header.chunk_size, header.index_offset, *next_payload_offset) {
            Ok(end) => end,
            Err(e) => {
                proof {
                    assert(first_bad_chunk(*entry, header.chunk_size, header.index_offset, start, index as int));
                    if chunk_shape_ok(*chunk, index as int, n as int, header.chunk_size) && chunk.offset == next {
                        lemma_stored_before_mono(chunks, index + 1, n as int);
                    }
                }
                return Err(e);
            },
        };
        *next_payload_offset = end;
        proof {
            lemma_raw_before_nonneg(chunks, index as int);
            lemma_wrapping_step(raw_before(chunks, index as int), raw_sum, chunk.raw_len as u64);
        }
        if !raw_overflow && raw_sum.checked_add(chunk.raw_len as u64).is_none() {
            raw_overflow = true;
        }
        raw_sum = raw_sum.wrapping_add(chunk.raw_len as u64);
        index = index + 1;
    }
    if raw_overflow || raw_sum != entry.size {
        let mut m = concat("file size mismatch for ", entry.path.as_str());
        m.append(": index says ");
        m.append(decimal_string(entry.size).as_str());
        m.append(", chunks contain ");
        m.append(decimal_string(raw_sum).as_str());
        proof {
            if exists|k: int| first_bad_chunk(*entry, header.chunk_size, header.index_offset, start, k) {
                let k = choose|k: int| first_bad_chunk(*entry, header.chunk_size, header.index_offset, start, k);
                assert(entry_chunk_problem(*entry, header.chunk_size, header.index_offset, start, k) is None);
            }
        }
        return Err(Error::InvalidFormat(m));
    }
    proof {
        lemma_raw_before_nonneg(chunks, n as int);
        vstd::arithmetic::div_mod::lemma_small_mod(
            raw_before(chunks, n as int) as nat,
            0x1_0000_0000_0000_0000nat,
        );
    }
    Ok(())
}

pub(crate) proof fn lemma_raw_before_nonneg(chunks: Seq<ChunkRef>, k: int)
    requires
        0 <= k,
    ensures
        raw_before(chunks, k) >= 0,
    decreases k,
{
    if k > 0 {
        lemma_raw_before_nonneg(chunks, k - 1);
    }
}

/// The entries' paths are strictly increasing.
pub open spec fn sorted_paths(entries: Seq<Entry>) -> bool {
    forall|i: int, j: int|
        0 <= i < j < entries.len() ==> path_lt(#[trigger] entries[i].path@, #[trigger] entries[j].path@)
}

/// Each entry's path sorts after the one before it.
pub open spec fn adjacent_sorted(entries: Seq<Entry>, n: int) -> bool {
    forall|k: int| 0 < k < n ==> path_lt(entries[k - 1].path@, #[trigger] entries[k].path@)
}

/// Increasing from one entry to the next is increasing throughout.
pub proof fn lemma_adjacent_sorted(entries: Seq<Entry>, n: int)
    requires
        0 <= n <= entries.len(),
        adjacent_sorted(entries, n),
    ensures
        sorted_paths(entries.take(n)),
    decreases n,
{
    if n > 0 {
        lemma_adjacent_sorted(entries, n - 1);
        let t = entries.take(n);
        assert forall|i: int, j: int| 0 <= i < j < t.len() implies path_lt(
            #[trigger] t[i].path@,
            #[trigger] t[j].path@,
        ) by {
            let u = entries.take(n - 1);
            if j < n - 1 {
                assert(t[i] == u[i] && t[j] == u[j]);
            } else if i == n - 2 {
            } else {
                assert(t[i] == u[i] && t[n - 2] == u[n - 2]);
                assert(path_lt(t[i].path@, t[n - 2].path@));
                lemma_path_lt_transitive(t[i].path@, t[n - 2].path@, t[j].path@);
            }
        }
    }
}

/// Every entry that passes its checks sorts after the ones before it.
pub proof fn lemma_entries_ok_sorted(entries: Seq<Entry>, h: Header)
    requires
        entries_ok_before(entries, entries.len() as int, h),
    ensures
        sorted_paths(entries),
{
    assert forall|k: int| 0 < k < entries.len() implies path_lt(
        entries[k - 1].path@,
        #[trigger] entries[k].path@,
    ) by {
        assert(entry_ok(entries, k, h));
    }
    lemma_adjacent_sorted(entries, entries.len() as int);
    assert(entries.take(entries.len() as int) =~= entries);
}

/// In sorted entries no two share a path.
pub proof fn lemma_sorted_unique(entries: Seq<Entry>, i: int, j: int)
    requires
        sorted_paths(entries),
        0 <= i < entries.len(),
        0 <= j < entries.len(),
        entries[i].path@ == entries[j].path@,
    ensures
        i == j,
{
    if i < j {
        assert(path_lt(entries[i].path@, entries[j].path@));
        lemma_path_lt_irreflexive(entries[i].path@);
    } else if j < i {
        assert(path_lt(entries[j].path@, entries[i].path@));
        lemma_path_lt_irreflexive(entries[i].path@);
    }
}

/// The position of the entry named `key` in sorted `entries`, by binary search.
pub fn find_path(entries: &Vec<Entry>, key: &str) -> (r: Option<usize>)
    requires
        sorted_paths(entries@),
    ensures
        r matches Some(i) ==> i < entries@.len() && entries@[i as int].path@ == key@,
        r is None ==> forall|i: int| 0 <= i < entries@.len() ==> (#[trigger] entries@[i]).path@ != key@,
{
    let mut lo: usize = 0;
    let mut hi: usize = entries.len();
    while lo < hi
        invariant
            sorted_paths(entries@),
            lo <= hi <= entries@.len(),
            forall|i: int| 0 <= i < lo ==> path_lt((#[trigger] entries@[i]).path@, key@),
            forall|i: int| hi <= i < entries@.len() ==> path_lt(key@, (#[trigger] entries@[i]).path@),
        decreases hi - lo,
    {
        let mid = lo + (hi - lo) / 2;
        let name = entries[mid].path.as_str();
        if str_eq(name, key) {
            return Some(mid);
        }
        if str_lt(name, key) {
            assert forall|i: int| 0 <= i < mid + 1 implies path_lt((#[trigger] entries@[i]).path@, key@) by {
                if i < mid {
                    lemma_path_lt_transitive(entries@[i].path@, entries@[mid as int].path@, key@);
                }
            }
            lo = mid + 1;
        } else {
            proof {
                lemma_path_lt_total(name@, key@);
            }
            assert forall|i: int| mid <= i < entries@.len() implies path_lt(key@, (#[trigger] entries@[i]).path@) by {
                if i > mid {
                    lemma_path_lt_transitive(key@, entries@[mid as int].path@, entries@[i].path@);
                }
            }
            hi = mid;
        }
    }
    assert forall|i: int| 0 <= i < entries@.len() implies (#[trigger] entries@[i]).path@ != key@ by {
        if i < lo {
            lemma_path_lt_irreflexive(key@);
        } else {
            lemma_path_lt_irreflexive(key@);
        }
    }
    None
}

/// When the first entry to fail its checks has a valid path, or none fails,
/// validation does not fail on a path.
pub proof fn lemma_first_failure_not_path(index: ArchiveIndex, h: Header, k: int)
    requires
        0 <= k <= index.entries@.len(),
        entries_ok_before(index.entries@, k, h),
        k < index.entries@.len() ==> valid_archive_path(index.entries@[k].path@) && !entry_ok(index.entries@, k, h),
    ensures
        !index_path_error(index, h),
{
    let entries = index.entries@;
    assert forall|j: int| 0 <= j < entries.len() && entries_ok_before(entries, j, h) implies valid_archive_path(
        #[trigger] entries[j].path@,
    ) by {
        if j > k {
            assert(entry_ok(entries, k, h));
        } else if j < k {
            assert(entry_ok(entries, j, h));
        }
    }
}

/// The message for a directory or symbolic link whose size, chunks or link
/// target do not fit its kind.
pub open spec fn other_entry_problem(e: Entry) -> Seq<char> {
    if e.kind == EntryKind::Directory {
        "directory has file payload metadata: "@ + e.path@
    } else {
        "invalid symlink metadata: "@ + e.path@
    }
}

/// Entry `k` is the first that fails its checks.
pub open spec fn first_bad_entry(entries: Seq<Entry>, k: int, h: Header) -> bool {
    &&& 0 <= k < entries.len()
    &&& entries_ok_before(entries, k, h)
    &&& !entry_ok(entries, k, h)
}

/// `e` is the error reported for entry `k`, the first to fail its checks.
pub open spec fn entry_error(entries: Seq<Entry>, k: int, h: Header, e: Error) -> bool {
    let entry = entries[k];
    let p = entry.path@;
    if !valid_archive_path(p) {
        e matches Error::InvalidPath(m) && path_error_message(p, m@)
    } else if k > 0 && !path_lt(entries[k - 1].path@, p) {
        e matches Error::InvalidFormat(m) && m@ == "index entries must be strictly sorted by path"@
    } else if entry.kind == EntryKind::File {
        e matches Error::InvalidFormat(m) && file_entry_problem(
            entry,
            h.chunk_size,
            h.index_offset,
            HEADER_SIZE + payload_before(entries, k),
            m@,
        )
    } else {
        e matches Error::InvalidFormat(m) && m@ == other_entry_problem(entry)
    }
}

/// The parent of entry `k` is neither the root nor an indexed directory.
pub open spec fn orphan(entries: Seq<Entry>, k: int) -> bool {
    let parent = parent_of(entries[k].path@);
    parent.len() != 0 && !has_directory(entries, parent)
}

/// Entry `k` is the first whose parent is missing or not a directory.
pub open spec fn first_orphan(entries: Seq<Entry>, k: int) -> bool {
    &&& 0 <= k < entries.len()
    &&& orphan(entries, k)
    &&& forall|j: int| 0 <= j < k ==> !(#[trigger] orphan(entries, j))
}

/// `e` is the error reported for entry `k`, the first whose parent is
/// missing or not a directory.
pub open spec fn parent_error(entries: Seq<Entry>, k: int, e: Error) -> bool {
    let parent = parent_of(entries[k].path@);
    if exists|j: int| 0 <= j < entries.len() && (#[trigger] entries[j]).path@ == parent {
        e matches Error::InvalidFormat(m) && m@ == "parent is not a directory: "@ + parent
    } else {
        e matches Error::InvalidFormat(m) && m@ == "missing parent directory "@ + parent + " for "@
            + entries[k].path@
    }
}

/// `e` is what `validate_index` reports for an index that is not well
/// formed for `h`: the first check that fails decides.
pub open spec fn index_error(index: ArchiveIndex, h: Header, e: Error) -> bool {
    let entries = index.entries@;
    if index.version != h.version || index.chunk_size != h.chunk_size {
        e matches Error::InvalidFormat(m) && m@ == "header and index metadata disagree"@
    } else if exists|k: int| first_bad_entry(entries, k, h) {
        exists|k: int| first_bad_entry(entries, k, h) && entry_error(entries, k, h, e)
    } else if exists|k: int| first_orphan(entries, k) {
        exists|k: int| first_orphan(entries, k) && parent_error(entries, k, e)
    } else {
        e matches Error::InvalidFormat(m) && m@ == "payload ends at "@ + decimal(
            (HEADER_SIZE + payload_before(entries, entries.len() as int)) as nat,
        ) + ", index starts at "@ + decimal(h.index_offset as nat)
    }
}

/// Checks a directory's or a symbolic link's entry.
fn validate_other_entry(entry: &Entry) -> (r: Result<()>)
    requires
        entry.kind != EntryKind::File,
    ensures
        r is Ok <==> entry_kind_ok(*entry, 0, 0, 0),
        r matches Err(e) ==> e matches Error::InvalidFormat(m) && m@ == other_entry_problem(*entry),
{
    match entry.kind {
        EntryKind::Directory => {
            if entry.size != 0 || entry.chunks.len() != 0 || entry.symlink_target.is_some() {
                return Err(Error::InvalidFormat(concat("directory has file payload metadata: ", entry.path.as_str())));
            }
        },
        _ => {
            if entry.size != 0 || entry.chunks.len() != 0 || entry.symlink_target.is_none() {
                return Err(Error::InvalidFormat(concat("invalid symlink metadata: ", entry.path.as_str())));
            }
        },
    }
    Ok(())
}

/// Checks the index against the header: every entry in path order with a
/// valid path and consistent metadata, payload chunks laid end to end from
/// the header to the index, and every parent an indexed directory.
pub fn validate_index(index: &ArchiveIndex, header: Header) -> (r: Result<()>)
    requires
        forall|i: int| 0 <= i < index.entries@.len() && (#[trigger] index.entries@[i]).kind == EntryKind::File
            && index.entries@[i].size > 0 ==> header.chunk_size > 0,
    ensures
        r is Ok <==> index_ok(*index, header),
        r matches Err(e) ==> index_error(*index, header, e),
        r matches Err(e) ==> (e is InvalidPath <==> index_path_error(*index, header)),
{
    let ghost entries = index.entries@;
    if index.version != header.version || index.chunk_size != header.chunk_size {
        return Err(Error::InvalidFormat(owned("header and index metadata disagree")));
    }
    let n = index.entries.len();
    let mut next_payload_offset: u64 = HEADER_SIZE as u64;
    let mut k: usize = 0;
    while k < n
        invariant
            entries == index.entries@,
            n == entries.len(),
            index.version == header.version,
            index.chunk_size == header.chunk_size,
            forall|i: int| 0 <= i < entries.len() && (#[trigger] entries[i]).kind == EntryKind::File
                && entries[i].size > 0 ==> header.chunk_size > 0,
            k <= n,
            entries_ok_before(entries, k as int, header),
            next_payload_offset == HEADER_SIZE + payload_before(entries, k as int),
        decreases n - k,
    {
        let entry = &index.entries[k];
        assert(entries[k as int] == *entry);
        match validate_archive_path(entry.path.as_str()) {
            Ok(()) => {},
            Err(e) => {
                assert(index_path_error(*index, header));
                assert(first_bad_entry(entries, k as int, header));
                assert(entry_error(entries, k as int, header, e));
                return Err(e);
            },
        }
        if k > 0 && !str_lt(index.entries[k - 1].path.as_str(), entry.path.as_str()) {
            let e = Error::InvalidFormat(owned("index entries must be strictly sorted by path"));
            assert(first_bad_entry(entries, k as int, header));
            assert(entry_error(entries, k as int, header, e));
            proof {
                lemma_first_failure_not_path(*index, header, k as int);
            }
            return Err(e);
        }
        let ghost before = next_payload_offset as int;
        let checked = match entry.kind {
            EntryKind::File => validate_file_entry(entry, header, &mut next_payload_offset),
            _ => validate_other_entry(entry),
        };
        match checked {
            Ok(()) => {},
            Err(e) => {
                assert(first_bad_entry(entries, k as int, header));
                assert(entry_error(entries, k as int, header, e));
                proof {
                    lemma_first_failure_not_path(*index, header, k as int);
                }
                return Err(e);
            },
        }
        assert(entry_ok(entries, k as int, header));
        assert(payload_before(entries, k + 1) == payload_before(entries, k as int) + stored_total(entries[k as int].chunks@));
        assert(next_payload_offset == before + stored_total(entries[k as int].chunks@));
        k = k + 1;
    }
    proof {
        lemma_entries_ok_sorted(entries, header);
        lemma_first_failure_not_path(*index, header, n as int);
        assert forall|j: int| !first_bad_entry(entries, j, header) by {
            if 0 <= j < entries.len() {
                assert(entry_ok(entries, j, header));
            }
        }
    }
    let mut k: usize = 0;
    while k < n
        invariant
            entries == index.entries@,
            n == entries.len(),
            sorted_paths(entries),
            entries_ok_before(entries, n as int, header),
            forall|j: int| !first_bad_entry(entries, j, header),
            index.version == header.version,
            index.chunk_size == header.chunk_size,
            next_payload_offset == HEADER_SIZE + payload_before(entries, n as int),
            !index_path_error(*index, header),
            k <= n,
            forall|j: int| 0 <= j < k ==> !(#[trigger] orphan(entries, j)),
        decreases n - k,
    {
        let entry = &index.entries[k];
        let parent = parent_path(entry.path.as_str());
        assert(parent_of(entries[k as int].path@) == parent@);
        if !parent.is_empty() {
            match find_path(&index.entries, parent) {
                None => {
                    let mut m = concat("missing parent directory ", parent);
                    m.append(" for ");
                    m.append(entry.path.as_str());
                    let e = Error::InvalidFormat(m);
                    assert(orphan(entries, k as int)) by {
                        if has_directory(entries, parent@) {
                            let j = choose|j: int| 0 <= j < entries.len() && (#[trigger] entries[j]).path@ == parent@ && entries[j].kind == EntryKind::Directory;
                            assert(entries[j].path@ != parent@);
                        }
                    }
                    assert(first_orphan(entries, k as int));
                    assert(parent_error(entries, k as int, e));
                    return Err(e);
                },
                Some(j) => {
                    if index.entries[j].kind != EntryKind::Directory {
                        let e = Error::InvalidFormat(concat("parent is not a directory: ", parent));
                        assert(orphan(entries, k as int)) by {
                            if has_directory(entries, parent@) {
                                let i = choose|i: int| 0 <= i < entries.len() && (#[trigger] entries[i]).path@ == parent@ && entries[i].kind == EntryKind::Directory;
                                lemma_sorted_unique(entries, i, j as int);
                            }
                        }
                        assert(first_orphan(entries, k as int));
                        assert(entries[j as int].path@ == parent@);
                        assert(parent_error(entries, k as int, e));
                        return Err(e);
                    }
                    assert(entries[j as int].path@ == parent@);
                    assert(!orphan(entries, k as int));
                },
            }
        }
        k = k + 1;
    }
    assert forall|j: int| !first_orphan(entries, j) by {
        if 0 <= j < entries.len() {
            assert(!orphan(entries, j));
        }
    }
    assert(parents_ok(entries)) by {
        assert forall|j: int| 0 <= j < entries.len() implies (#[trigger] parent_of(entries[j].path@)).len() == 0
            || has_directory(entries, parent_of(entries[j].path@)) by {
            assert(!orphan(entries, j));
        }
    }
    if next_payload_offset != header.index_offset {
        let mut m = concat("payload ends at ", decimal_string(next_payload_offset).as_str());
        m.append(", index starts at ");
        m.append(decimal_string(header.index_offset).as_str());
        return Err(Error::InvalidFormat(m));
    }
    Ok(())
}

} // verus!
