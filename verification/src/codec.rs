//! The two outside computations the format rests on: Zstandard frames and
//! XXH3-64 checksums.
use vstd::prelude::*;

verus! {

/// The XXH3-64 hash (seed 0) of `data`.
pub uninterp spec fn xxh3_hash(data: Seq<u8>) -> u64;

/// The bytes that decompressing the Zstandard frames `data` yields.
pub uninterp spec fn zstd_content(data: Seq<u8>) -> Seq<u8>;

/// The Zstandard frame that compressing `data` at `level` yields.
pub uninterp spec fn zstd_frame(data: Seq<u8>, level: i32) -> Seq<u8>;

/// `data` is a frame that compressing some bytes at some level yields.
pub open spec fn is_frame(data: Seq<u8>) -> bool {
    exists|x: Seq<u8>, l: i32| data == zstd_frame(x, l)
}

/// `xxhash_rust::xxh3::xxh3_64`: the checksum is a function of the bytes
/// alone, named `xxh3_hash`.
#[verifier::external_body]
pub(crate) fn checksum(data: &[u8]) -> (r: u64)
    ensures
        r == xxh3_hash(data@),
{
    xxhash_rust::xxh3::xxh3_64(data)
}

/// `zstd::bulk::decompress`: it decodes into a fresh buffer of `capacity`
/// bytes. When it succeeds it gives the content of the frames,
/// `zstd_content` of the input; and a frame that `zstd::bulk::compress`
/// produced decodes whenever its content fits in `capacity` bytes.
#[verifier::external_body]
pub(crate) fn zstd_decompress(data: &[u8], capacity: usize) -> (r: Result<Vec<u8>, std::io::Error>)
    ensures
        r matches Ok(v) ==> v@ == zstd_content(data@),
        is_frame(data@) && zstd_content(data@).len() <= capacity ==> r is Ok,
{
    zstd::bulk::decompress(data, capacity)
}

/// `zstd::bulk::compress`: it compresses into a buffer of `compress_bound`
/// bytes, so it always succeeds (short of memory running out, which aborts),
/// giving the frame `zstd_frame(data, level)`, which is not empty (a frame
/// opens with its magic number) and whose content is `data` again.
#[verifier::external_body]
pub(crate) fn zstd_compress(data: &[u8], level: i32) -> (r: Result<Vec<u8>, std::io::Error>)
    ensures
        r is Ok,
        r matches Ok(v) ==> v@ == zstd_frame(data@, level) && v@.len() > 0 && zstd_content(v@) == data@,
{
    zstd::bulk::compress(data, level)
}

/// The text of an I/O error (its `Display` form, via `to_string`).
#[verifier::external_body]
pub(crate) fn io_error_text(e: &std::io::Error) -> String {
    e.to_string()
}

} // verus!
