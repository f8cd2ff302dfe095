//! The outside hash and compression functions that the formats use, each
//! behind a small wrapper whose body only makes the call.
//!
//! The named results (`..._of`, `..._compressed`, `..._decompressed`) stand
//! for what the outside crate computes; the wrappers' contracts give only
//! that a call yields that result and that each compressor is lossless.

use std::io::Read;
use std::io::Write;

use vstd::prelude::*;
use vstd::utf8::decode_utf8;
use vstd::utf8::valid_utf8;

verus! {

/// What `xxhash_rust::xxh32::xxh32` returns for the bytes and the seed.
pub uninterp spec fn xxh32_of(data: Seq<u8>, seed: u32) -> u32;

/// What `xxhash_rust::xxh64::xxh64` returns for the bytes and the seed.
pub uninterp spec fn xxh64_of(data: Seq<u8>, seed: u64) -> u64;

/// The frame that a `zstd` stream encoder writes for the bytes at the level,
/// with or without a content checksum; `None` where the encoder reports an error.
pub uninterp spec fn zstd_compressed(data: Seq<u8>, level: i32, checksum: bool) -> Option<Seq<u8>>;

/// What `zstd::stream::decode_all` returns for the bytes; `None` where it fails.
pub uninterp spec fn zstd_decompressed(data: Seq<u8>) -> Option<Seq<u8>>;

/// The gzip stream that `flate2`'s `GzEncoder` writes for the bytes at the level.
pub uninterp spec fn gzip_compressed(data: Seq<u8>, level: u32) -> Option<Seq<u8>>;

/// What `flate2`'s `GzDecoder` reads out of the bytes; `None` where it fails.
pub uninterp spec fn gzip_decompressed(data: Seq<u8>) -> Option<Seq<u8>>;

/// The zlib stream that `flate2`'s `ZlibEncoder` writes for the bytes at the level.
pub uninterp spec fn zlib_compressed(data: Seq<u8>, level: u32) -> Option<Seq<u8>>;

/// What `flate2`'s `ZlibDecoder` reads out of the bytes; `None` where it fails.
pub uninterp spec fn zlib_decompressed(data: Seq<u8>) -> Option<Seq<u8>>;

/// The LZ4 frame that `lz4_flex`'s `FrameEncoder` writes for the bytes.
pub uninterp spec fn lz4_compressed(data: Seq<u8>) -> Option<Seq<u8>>;

/// What `lz4_flex`'s `FrameDecoder` reads out of the bytes; `None` where it fails.
pub uninterp spec fn lz4_decompressed(data: Seq<u8>) -> Option<Seq<u8>>;

/// The view of an optional byte vector.
pub open spec fn opt_view(r: Option<Vec<u8>>) -> Option<Seq<u8>> {
    match r {
        Some(v) => Some(v@),
        None => None,
    }
}

/// Calls `xxhash_rust::xxh32::xxh32`; the contract only names its result.
#[verifier::external_body]
pub(crate) fn xxh32(data: &[u8], seed: u32) -> (h: u32)
    ensures
        h == xxh32_of(data@, seed),
{
    xxhash_rust::xxh32::xxh32(data, seed)
}

/// Calls `xxhash_rust::xxh64::xxh64`; the contract only names its result.
#[verifier::external_body]
pub(crate) fn xxh64(data: &[u8], seed: u64) -> (h: u64)
    ensures
        h == xxh64_of(data@, seed),
{
    xxhash_rust::xxh64::xxh64(data, seed)
}

/// Compresses with `zstd::stream::write::Encoder` (`new`, `include_checksum`,
/// `write_all`, `finish`). The contract names the result and states that
/// `zstd::stream::decode_all` gives the input back from it.
#[verifier::external_body]
pub(crate) fn zstd_compress(data: &[u8], level: i32, checksum: bool) -> (r: Option<Vec<u8>>)
    ensures
        opt_view(r) == zstd_compressed(data@, level, checksum),
        r matches Some(c) ==> zstd_decompressed(c@) == Some(data@),
{
    let mut encoder = zstd::stream::write::Encoder::new(Vec::new(), level).ok()?;
    encoder.include_checksum(checksum).ok()?;
    encoder.write_all(data).ok()?;
    encoder.finish().ok()
}

/// Calls `zstd::stream::decode_all`; the contract only names its result.
#[verifier::external_body]
pub(crate) fn zstd_decompress(data: &[u8]) -> (r: Option<Vec<u8>>)
    ensures
        opt_view(r) == zstd_decompressed(data@),
{
    zstd::stream::decode_all(data).ok()
}

/// Compresses with `flate2::write::GzEncoder` at `Compression::new(level)`.
/// `flate2`'s miniz_oxide backend asserts (in debug builds) that the level is
/// at most 10, hence the `requires`. The contract names the result and states
/// that `GzDecoder` reads the input back out of it.
#[verifier::external_body]
pub(crate) fn gzip_compress(data: &[u8], level: u32) -> (r: Option<Vec<u8>>)
    requires
        level <= 10,
    ensures
        opt_view(r) == gzip_compressed(data@, level),
        r matches Some(c) ==> gzip_decompressed(c@) == Some(data@),
{
    let mut encoder = flate2::write::GzEncoder::new(Vec::new(), flate2::Compression::new(level));
    encoder.write_all(data).ok()?;
    encoder.finish().ok()
}

/// Reads everything out of `flate2::read::GzDecoder`; the contract only names the result.
#[verifier::external_body]
pub(crate) fn gzip_decompress(data: &[u8]) -> (r: Option<Vec<u8>>)
    ensures
        opt_view(r) == gzip_decompressed(data@),
{
    let mut out = Vec::new();
    flate2::read::GzDecoder::new(data).read_to_end(&mut out).ok()?;
    Some(out)
}

/// Compresses with `flate2::write::ZlibEncoder` at `Compression::new(level)`;
/// same `requires` as the gzip encoder. The contract names the result and
/// states that `ZlibDecoder` reads the input back out of it.
#[verifier::external_body]
pub(crate) fn zlib_compress(data: &[u8], level: u32) -> (r: Option<Vec<u8>>)
    requires
        level <= 10,
    ensures
        opt_view(r) == zlib_compressed(data@, level),
        r matches Some(c) ==> zlib_decompressed(c@) == Some(data@),
{
    let mut encoder = flate2::write::ZlibEncoder::new(Vec::new(), flate2::Compression::new(level));
    encoder.write_all(data).ok()?;
    encoder.finish().ok()
}

/// Reads everything out of `flate2::read::ZlibDecoder`; the contract only names the result.
#[verifier::external_body]
pub(crate) fn zlib_decompress(data: &[u8]) -> (r: Option<Vec<u8>>)
    ensures
        opt_view(r) == zlib_decompressed(data@),
{
    let mut out = Vec::new();
    flate2::read::ZlibDecoder::new(data).read_to_end(&mut out).ok()?;
    Some(out)
}

/// Compresses with `lz4_flex::frame::FrameEncoder`. The contract names the
/// result and states that `FrameDecoder` reads the input back out of it.
#[verifier::external_body]
pub(crate) fn lz4_compress(data: &[u8]) -> (r: Option<Vec<u8>>)
    ensures
        opt_view(r) == lz4_compressed(data@),
        r matches Some(c) ==> lz4_decompressed(c@) == Some(data@),
{
    let mut encoder = lz4_flex::frame::FrameEncoder::new(Vec::new());
    encoder.write_all(data).ok()?;
    encoder.finish().ok()
}

/// Reads everything out of `lz4_flex::frame::FrameDecoder`; the contract only names the result.
#[verifier::external_body]
pub(crate) fn lz4_decompress(data: &[u8]) -> (r: Option<Vec<u8>>)
    ensures
        opt_view(r) == lz4_decompressed(data@),
{
    let mut out = Vec::new();
    lz4_flex::frame::FrameDecoder::new(data).read_to_end(&mut out).ok()?;
    Some(out)
}

/// Calls `String::from_utf8`, which succeeds exactly on valid UTF-8 and then
/// holds the characters that the bytes encode.
#[verifier::external_body]
pub(crate) fn string_from_utf8(bytes: Vec<u8>) -> (r: Option<String>)
    ensures
        r is Some <==> valid_utf8(bytes@),
        r matches Some(s) ==> s@ == decode_utf8(bytes@),
{
    String::from_utf8(bytes).ok()
}

} // verus!
