//! The linear v2 region format: a grid of zstd-compressed buckets, each
//! described by a 13-byte header, plus a chunk bitmap and a feature table.

use vstd::prelude::*;
use vstd::slice::slice_to_vec;
use vstd::utf8::decode_utf8;
use vstd::utf8::encode_utf8;
use vstd::utf8::valid_utf8;
use crate::codec::string_from_utf8;

use crate::bytes::be_value;
use crate::bytes::has_magic_at;
use crate::bytes::read_bytes;
use crate::bytes::lemma_i32_bits;
use crate::bytes::lemma_i8_bits;
use crate::bytes::lemma_u32_be_roundtrip;
use crate::bytes::lemma_u64_be_roundtrip;
use crate::bytes::push_u32_be;
use crate::bytes::push_u64_be;
use crate::bytes::read_u32_be;
use crate::bytes::read_u64_be;
use crate::bytes::be_u32_at;
use crate::bytes::be_u64_at;
use crate::bytes::u32_be;
use crate::bytes::u64_be;
use crate::bytes::byte_vecs;
use crate::bytes::bytes_view;
use crate::codec::xxh64;
use crate::codec::xxh64_of;
use crate::codec::zstd_compress;
use crate::codec::zstd_compressed;
use crate::codec::zstd_decompress;
use crate::codec::zstd_decompressed;
use crate::error::Error;
use crate::features::map_of_entries;
use crate::features::lemma_map_of_push;
use crate::features::FeatureMap;

verus! {

/// The eight bytes that open a linear region file.
pub const MAGIC: [u8; 8] = [0xC3, 0xFF, 0x13, 0x18, 0x3C, 0xCA, 0x9D, 0x9A];

/// The header of one bucket: its compressed size, the zstd level it was
/// written with and the xxhash64 (seed 0) of its compressed bytes.
#[derive(Debug, Clone, Copy, PartialEq, Eq, Structural)]
pub struct BucketHeader {
    pub bucket_size: u32,
    pub compress_level: i8,
    pub xxhash64: u64,
}

/// The 13 bytes that encode a bucket header (big-endian fields).
pub open spec fn bucket_header_bytes(h: BucketHeader) -> Seq<u8> {
    u32_be(h.bucket_size) + seq![h.compress_level as u8] + u64_be(h.xxhash64)
}

/// The bucket header that 13 bytes encode.
pub open spec fn bucket_header_of(w: Seq<u8>) -> BucketHeader {
    BucketHeader {
        bucket_size: be_value(w.subrange(0, 4)) as u32,
        compress_level: w[4] as i8,
        xxhash64: be_value(w.subrange(5, 13)) as u64,
    }
}

/// The headers one after the other.
pub open spec fn bucket_headers_bytes(hs: Seq<BucketHeader>) -> Seq<u8>
    decreases hs.len(),
{
    if hs.len() == 0 {
        Seq::empty()
    } else {
        bucket_headers_bytes(hs.drop_last()) + bucket_header_bytes(hs.last())
    }
}

/// The grid sizes that the format allows.
pub open spec fn valid_grid_size(g: i8) -> bool {
    g == 1 || g == 2 || g == 4 || g == 8 || g == 16 || g == 32
}

/// The numbers of bucket headers that the format allows (the squares of the grid sizes).
pub open spec fn valid_bucket_count(n: int) -> bool {
    n == 1 || n == 4 || n == 16 || n == 64 || n == 256 || n == 1024
}

/// The headers stored one after the other from `pos`.
pub open spec fn bucket_headers_at(s: Seq<u8>, pos: int, n: nat) -> Seq<BucketHeader> {
    Seq::new(n, |i: int| bucket_header_of(s.subrange(pos + 13 * i, pos + 13 * i + 13)))
}

/// A bucket header reads back as itself.
pub proof fn lemma_bucket_header_roundtrip(h: BucketHeader)
    ensures
        bucket_header_bytes(h).len() == 13,
        bucket_header_of(bucket_header_bytes(h)) == h,
{
    lemma_u32_be_roundtrip(h.bucket_size);
    lemma_u64_be_roundtrip(h.xxhash64);
    lemma_i8_bits(h.compress_level);
    let w = bucket_header_bytes(h);
    assert(w.subrange(0, 4) =~= u32_be(h.bucket_size));
    assert(w.subrange(5, 13) =~= u64_be(h.xxhash64));
}

/// Where each header lies in the encoding of a header table.
pub proof fn lemma_bucket_headers_layout(hs: Seq<BucketHeader>)
    ensures
        bucket_headers_bytes(hs).len() == 13 * hs.len(),
        forall|i: int|
            0 <= i < hs.len() ==> #[trigger] bucket_headers_bytes(hs).subrange(13 * i, 13 * i + 13)
                == bucket_header_bytes(hs[i]),
    decreases hs.len(),
{
    if hs.len() > 0 {
        let init = hs.drop_last();
        lemma_bucket_headers_layout(init);
        lemma_bucket_header_roundtrip(hs.last());
        let b = bucket_headers_bytes(hs);
        assert forall|i: int| 0 <= i < hs.len() implies #[trigger] b.subrange(13 * i, 13 * i + 13)
            == bucket_header_bytes(hs[i]) by {
            if i < hs.len() - 1 {
                assert(b.subrange(13 * i, 13 * i + 13) =~= bucket_headers_bytes(init).subrange(
                    13 * i,
                    13 * i + 13,
                ));
                assert(init[i] == hs[i]);
            } else {
                assert(b.subrange(13 * i, 13 * i + 13) =~= bucket_header_bytes(hs.last()));
            }
        }
    }
}

/// A header table reads back as itself, whatever follows it.
pub proof fn lemma_bucket_headers_roundtrip(hs: Seq<BucketHeader>, rest: Seq<u8>)
    ensures
        bucket_headers_at(bucket_headers_bytes(hs) + rest, 0, hs.len()) == hs,
{
    lemma_bucket_headers_layout(hs);
    let s = bucket_headers_bytes(hs) + rest;
    assert forall|i: int| 0 <= i < hs.len() implies #[trigger] bucket_headers_at(s, 0, hs.len())[i]
        == hs[i] by {
        assert(s.subrange(13 * i, 13 * i + 13) =~= bucket_headers_bytes(hs).subrange(
            13 * i,
            13 * i + 13,
        ));
        lemma_bucket_header_roundtrip(hs[i]);
    }
    assert(bucket_headers_at(s, 0, hs.len()) =~= hs);
}

impl BucketHeader {
    /// Reads the header stored at `pos`.
    pub fn read(data: &[u8], pos: usize) -> (r: Result<BucketHeader, Error>)
        ensures
            pos + 13 <= data@.len() ==> r == Ok::<BucketHeader, Error>(
                bucket_header_of(data@.subrange(pos as int, pos + 13)),
            ),
            pos + 13 > data@.len() ==> r == Err::<BucketHeader, Error>(Error::UnexpectedEof),
    {
        if pos > data.len() || data.len() - pos < 13 {
            return Err(Error::UnexpectedEof);
        }
        let bucket_size = read_u32_be(data, pos)?;
        let compress_level = data[pos + 4] as i8;
        let xxhash64 = read_u64_be(data, pos + 5)?;
        proof {
            let w = data@.subrange(pos as int, pos + 13);
            assert(w.subrange(0, 4) =~= data@.subrange(pos as int, pos + 4));
            assert(w.subrange(5, 13) =~= data@.subrange(pos + 5, pos + 13));
        }
        Ok(BucketHeader { bucket_size, compress_level, xxhash64 })
    }

    /// Appends the 13 bytes of the header.
    pub fn write(&self, out: &mut Vec<u8>)
        ensures
            final(out)@ == old(out)@ + bucket_header_bytes(*self),
    {
        push_u32_be(out, self.bucket_size);
        out.push(self.compress_level as u8);
        push_u64_be(out, self.xxhash64);
        proof {
            assert(final(out)@ =~= old(out)@ + bucket_header_bytes(*self));
        }
    }
}

/// Encodes a header table; its length must be the square of a grid size.
pub fn serialize_bucket_header(bucket_headers: &Vec<BucketHeader>) -> (r: Result<Vec<u8>, Error>)
    ensures
        valid_bucket_count(bucket_headers@.len() as int) ==> (r matches Ok(out) && out@
            == bucket_headers_bytes(bucket_headers@)),
        !valid_bucket_count(bucket_headers@.len() as int) ==> r == Err::<Vec<u8>, Error>(
            Error::InvalidBucketLength(bucket_headers@.len() as usize),
        ),
{
    let bucket_length = bucket_headers.len();
    if !(bucket_length == 1 || bucket_length == 4 || bucket_length == 16 || bucket_length == 64
        || bucket_length == 256 || bucket_length == 1024) {
        return Err(Error::InvalidBucketLength(bucket_length));
    }
    let mut out: Vec<u8> = Vec::new();
    for i in 0..bucket_length
        invariant
            bucket_length == bucket_headers@.len(),
            out@ == bucket_headers_bytes(bucket_headers@.take(i as int)),
    {
        bucket_headers[i].write(&mut out);
        assert(bucket_headers@.take(i + 1).drop_last() =~= bucket_headers@.take(i as int));
    }
    assert(bucket_headers@.take(bucket_length as int) =~= bucket_headers@);
    Ok(out)
}

/// Reads the `grid_size * grid_size` bucket headers stored from `pos`, and
/// the position just after them.
pub fn deserialize_bucket_header(data: &[u8], pos: usize, grid_size: i8) -> (r: Result<
    (Vec<BucketHeader>, usize),
    Error,
>)
    ensures
        !valid_grid_size(grid_size) ==> r == Err::<(Vec<BucketHeader>, usize), Error>(
            Error::InvalidGridSize(grid_size),
        ),
        valid_grid_size(grid_size) && pos + 13 * grid_size * grid_size > data@.len() ==> r
            == Err::<(Vec<BucketHeader>, usize), Error>(Error::UnexpectedEof),
        valid_grid_size(grid_size) && pos + 13 * grid_size * grid_size <= data@.len() ==> (r matches Ok(
            (hs, end),
        ) && hs@ == bucket_headers_at(data@, pos as int, (grid_size * grid_size) as nat) && end
            == pos + 13 * grid_size * grid_size),
{
    if !(grid_size == 1 || grid_size == 2 || grid_size == 4 || grid_size == 8 || grid_size == 16
        || grid_size == 32) {
        return Err(Error::InvalidGridSize(grid_size));
    }
    let g = grid_size as usize;
    assert(1 <= g <= 32);
    assert(g * g <= 1024) by (nonlinear_arith)
        requires
            1 <= g <= 32,
    ;
    let bucket_count = g * g;
    let mut bucket_headers: Vec<BucketHeader> = Vec::new();
    let mut cur = pos;
    for i in 0..bucket_count
        invariant
            valid_grid_size(grid_size),
            bucket_count == grid_size * grid_size,
            1 <= bucket_count <= 1024,
            i > 0 ==> cur <= data@.len(),
            cur == pos + 13 * i,
            bucket_headers@.len() == i,
            forall|k: int|
                0 <= k < i ==> #[trigger] bucket_headers@[k] == bucket_header_of(
                    data@.subrange(pos + 13 * k, pos + 13 * k + 13),
                ),
    {
        let h = BucketHeader::read(data, cur);
        match h {
            Ok(h) => {
                assert(data@.len() == data.len());
                bucket_headers.push(h);
                cur = cur + 13;
            },
            Err(e) => {
                proof {
                    assert(pos + 13 * grid_size * grid_size > data@.len()) by (nonlinear_arith)
                        requires
                            cur + 13 > data@.len(),
                            cur == pos + 13 * i,
                            i < bucket_count,
                            bucket_count == grid_size * grid_size,
                    ;
                }
                return Err(e);
            },
        }
    }
    proof {
        assert(bucket_headers@ =~= bucket_headers_at(data@, pos as int, (grid_size * grid_size) as nat));
    }
    Ok((bucket_headers, cur))
}

/// Reading the buckets that the headers describe, one after the other from
/// `pos`: the bytes of each bucket and the position after the last one, or
/// the first error. A bucket whose xxhash64 (seed 0) differs from its header
/// is an error unless `ignore_hash` is set.
pub open spec fn bucket_payloads(s: Seq<u8>, pos: int, hs: Seq<BucketHeader>, ignore_hash: bool) -> Result<
    (Seq<Seq<u8>>, int),
    Error,
>
    decreases hs.len(),
{
    if hs.len() == 0 {
        Ok((Seq::empty(), pos))
    } else {
        let h = hs[0];
        let end = pos + h.bucket_size;
        if end > s.len() || pos < 0 {
            Err(Error::UnexpectedEof)
        } else {
            let b = s.subrange(pos, end);
            let computed = xxh64_of(b, 0);
            if computed != h.xxhash64 && !ignore_hash {
                Err(Error::HashMismatch { stored: h.xxhash64, computed })
            } else {
                prepend_payload(b, bucket_payloads(s, end, hs.drop_first(), ignore_hash))
            }
        }
    }
}

/// Puts `b` in front of the buckets of a successful read; keeps an error.
pub open spec fn prepend_payload(b: Seq<u8>, r: Result<(Seq<Seq<u8>>, int), Error>) -> Result<
    (Seq<Seq<u8>>, int),
    Error,
> {
    match r {
        Ok((rest, p)) => Ok((seq![b] + rest, p)),
        Err(e) => Err(e),
    }
}

/// Puts the buckets `a` in front of the buckets of a successful read; keeps an error.
pub open spec fn prepend_payloads(a: Seq<Seq<u8>>, r: Result<(Seq<Seq<u8>>, int), Error>) -> Result<
    (Seq<Seq<u8>>, int),
    Error,
> {
    match r {
        Ok((rest, p)) => Ok((a + rest, p)),
        Err(e) => Err(e),
    }
}

/// The view of a result that holds byte vectors and a position.
pub open spec fn payloads_view(r: Result<(Vec<Vec<u8>>, usize), Error>) -> Result<(Seq<Seq<u8>>, int), Error> {
    match r {
        Ok((bs, p)) => Ok((byte_vecs(bs@), p as int)),
        Err(e) => Err(e),
    }
}

/// Reads the buckets that `bucket_headers` describe, one after the other from `pos`.
pub fn deserialize_bucket_data(data: &[u8], pos: usize, bucket_headers: Vec<BucketHeader>, ignore_hash: bool) -> (r: Result<
    (Vec<Vec<u8>>, usize),
    Error,
>)
    ensures
        payloads_view(r) == bucket_payloads(data@, pos as int, bucket_headers@, ignore_hash),
{
    let ghost total = bucket_payloads(data@, pos as int, bucket_headers@, ignore_hash);
    let mut buckets: Vec<Vec<u8>> = Vec::new();
    let mut cur = pos;
    let n = bucket_headers.len();
    proof {
        assert(bucket_headers@.skip(0) =~= bucket_headers@);
        assert(prepend_payloads(Seq::empty(), total) == total) by {
            match total {
                Ok((rest, p)) => {
                    assert(Seq::<Seq<u8>>::empty() + rest =~= rest);
                },
                Err(e) => {},
            }
        }
    }
    for i in 0..n
        invariant
            n == bucket_headers@.len(),
            total == bucket_payloads(data@, pos as int, bucket_headers@, ignore_hash),
            total == prepend_payloads(
                byte_vecs(buckets@),
                bucket_payloads(data@, cur as int, bucket_headers@.skip(i as int), ignore_hash),
            ),
    {
        let ghost rest_hs = bucket_headers@.skip(i as int);
        proof {
            assert(rest_hs[0] == bucket_headers@[i as int]);
            assert(rest_hs.drop_first() =~= bucket_headers@.skip(i + 1));
        }
        let h = bucket_headers[i];
        let size = h.bucket_size as usize;
        if cur > data.len() || data.len() - cur < size {
            return Err(Error::UnexpectedEof);
        }
        let end = cur + size;
        let b = slice_to_vec(&data[cur..end]);
        let computed = xxh64(b.as_slice(), 0);
        if computed != h.xxhash64 && !ignore_hash {
            return Err(Error::HashMismatch { stored: h.xxhash64, computed });
        }
        let ghost old_view = byte_vecs(buckets@);
        buckets.push(b);
        cur = end;
        proof {
            assert(byte_vecs(buckets@) =~= old_view.push(b@));
            let inner = bucket_payloads(data@, cur as int, bucket_headers@.skip(i + 1), ignore_hash);
            match inner {
                Ok((rest, p)) => {
                    assert(old_view + (seq![b@] + rest) =~= old_view.push(b@) + rest);
                },
                Err(e) => {},
            }
        }
    }
    proof {
        assert(bucket_headers@.skip(n as int).len() == 0);
        assert(byte_vecs(buckets@) + Seq::<Seq<u8>>::empty() =~= byte_vecs(buckets@));
    }
    Ok((buckets, cur))
}

/// Every bucket decompresses with zstd.
pub open spec fn all_zstd_decompress(bs: Seq<Seq<u8>>) -> bool {
    forall|i: int| 0 <= i < bs.len() ==> (#[trigger] zstd_decompressed(bs[i])) is Some
}

/// The zstd decompression of every bucket.
pub open spec fn zstd_decompressed_all(bs: Seq<Seq<u8>>) -> Seq<Seq<u8>> {
    Seq::new(bs.len(), |i: int| zstd_decompressed(bs[i]).unwrap())
}

/// Reading a bucket grid from `pos`: `grid_size * grid_size` headers, then
/// the buckets they describe (each checked against its xxhash64), each
/// decompressed with zstd; with the position after the last bucket.
pub open spec fn bucket_grid_read(s: Seq<u8>, pos: int, g: i8) -> Result<(Seq<Seq<u8>>, int), Error> {
    if !valid_grid_size(g) {
        Err(Error::InvalidGridSize(g))
    } else if pos + 13 * g * g > s.len() {
        Err(Error::UnexpectedEof)
    } else {
        match bucket_payloads(s, pos + 13 * g * g, bucket_headers_at(s, pos, (g * g) as nat), false) {
            Err(e) => Err(e),
            Ok((bs, end)) => if all_zstd_decompress(bs) {
                Ok((zstd_decompressed_all(bs), end))
            } else {
                Err(Error::Decompress)
            },
        }
    }
}

/// Reads a bucket grid of side `grid_size` from `pos`: the decompressed
/// buckets and the position after the last one.
pub fn deserialize_bucket(data: &[u8], pos: usize, grid_size: i8) -> (r: Result<(Vec<Vec<u8>>, usize), Error>)
    ensures
        payloads_view(r) == bucket_grid_read(data@, pos as int, grid_size),
{
    if !(grid_size == 1 || grid_size == 2 || grid_size == 4 || grid_size == 8 || grid_size == 16
        || grid_size == 32) {
        return Err(Error::InvalidGridSize(grid_size));
    }
    let (bucket_headers, data_pos) = match deserialize_bucket_header(data, pos, grid_size) {
        Ok(x) => x,
        Err(e) => {
            return Err(e);
        },
    };
    let (compressed, end) = match deserialize_bucket_data(data, data_pos, bucket_headers, false) {
        Ok(x) => x,
        Err(e) => {
            return Err(e);
        },
    };
    let ghost cs = byte_vecs(compressed@);
    let ghost expected = bucket_grid_read(data@, pos as int, grid_size);
    assert(expected == if all_zstd_decompress(cs) {
        Ok::<(Seq<Seq<u8>>, int), Error>((zstd_decompressed_all(cs), end as int))
    } else {
        Err::<(Seq<Seq<u8>>, int), Error>(Error::Decompress)
    });
    let mut decompressed: Vec<Vec<u8>> = Vec::new();
    let n = compressed.len();
    for i in 0..n
        invariant
            n == compressed@.len(),
            cs == byte_vecs(compressed@),
            expected == bucket_grid_read(data@, pos as int, grid_size),
            expected == if all_zstd_decompress(cs) {
                Ok::<(Seq<Seq<u8>>, int), Error>((zstd_decompressed_all(cs), end as int))
            } else {
                Err::<(Seq<Seq<u8>>, int), Error>(Error::Decompress)
            },
            decompressed@.len() == i,
            forall|k: int|
                0 <= k < i ==> zstd_decompressed(cs[k]) == Some(#[trigger] decompressed@[k]@),
    {
        match zstd_decompress(compressed[i].as_slice()) {
            Some(d) => {
                decompressed.push(d);
            },
            None => {
                proof {
                    assert(cs[i as int] == compressed@[i as int]@);
                    assert(!all_zstd_decompress(cs));
                }
                return Err(Error::Decompress);
            },
        }
    }
    proof {
        assert(all_zstd_decompress(cs)) by {
            assert forall|k: int| 0 <= k < cs.len() implies (#[trigger] zstd_decompressed(cs[k])) is Some by {
                assert(zstd_decompressed(cs[k]) == Some(decompressed@[k]@));
            }
        }
        assert(byte_vecs(decompressed@) =~= zstd_decompressed_all(cs));
    }
    Ok((decompressed, end))
}

/// The bytes of the buckets one after the other.
pub open spec fn concat_all(cs: Seq<Seq<u8>>) -> Seq<u8>
    decreases cs.len(),
{
    if cs.len() == 0 {
        Seq::empty()
    } else {
        concat_all(cs.drop_last()) + cs.last()
    }
}

pub proof fn lemma_concat_all_first(cs: Seq<Seq<u8>>)
    requires
        cs.len() > 0,
    ensures
        concat_all(cs) == cs[0] + concat_all(cs.drop_first()),
    decreases cs.len(),
{
    if cs.len() == 1 {
        assert(cs.drop_first() =~= Seq::<Seq<u8>>::empty());
        assert(cs.drop_last() =~= Seq::<Seq<u8>>::empty());
        assert(cs.last() == cs[0]);
        assert(concat_all(cs) =~= cs[0] + concat_all(cs.drop_first()));
    } else {
        lemma_concat_all_first(cs.drop_last());
        assert(cs.drop_last()[0] == cs[0]);
        assert(cs.drop_last().drop_first() =~= cs.drop_first().drop_last());
        assert(cs.drop_first().last() == cs.last());
        assert(concat_all(cs) =~= cs[0] + concat_all(cs.drop_first()));
    }
}

/// The header that describes a compressed bucket.
pub open spec fn header_for(c: Seq<u8>, level: i32) -> BucketHeader {
    BucketHeader { bucket_size: c.len() as u32, compress_level: level as i8, xxhash64: xxh64_of(c, 0) }
}

/// The headers that describe the compressed buckets.
pub open spec fn headers_for(cs: Seq<Seq<u8>>, level: i32) -> Seq<BucketHeader> {
    Seq::new(cs.len(), |i: int| header_for(cs[i], level))
}

/// Writing already compressed buckets: their header table, then their bytes.
pub open spec fn compressed_buckets_bytes(cs: Seq<Seq<u8>>, level: i32) -> Result<Seq<u8>, Error> {
    if !valid_bucket_count(cs.len() as int) {
        Err(Error::InvalidBucketLength(cs.len() as usize))
    } else {
        Ok(bucket_headers_bytes(headers_for(cs, level)) + concat_all(cs))
    }
}

/// What a bucket becomes before it is written: a bucket of exactly 64 bytes
/// is written empty, any other is compressed with zstd (content checksum on).
pub open spec fn bucket_compressed(d: Seq<u8>, level: i32) -> Option<Seq<u8>> {
    if d.len() == 64 {
        Some(Seq::empty())
    } else {
        zstd_compressed(d, level, true)
    }
}

/// The zstd frame of the bucket, if the encoder gives one, has a length that fits a `u32`.
pub open spec fn compressed_fits_u32(d: Seq<u8>, level: i32) -> bool {
    match zstd_compressed(d, level, true) {
        Some(c) => c.len() <= u32::MAX,
        None => true,
    }
}

/// Writing a bucket grid of side `g`.
pub open spec fn bucket_grid_bytes(g: i8, ds: Seq<Seq<u8>>, level: i32) -> Result<Seq<u8>, Error> {
    if !valid_grid_size(g) {
        Err(Error::InvalidGridSize(g))
    } else if ds.len() != g * g {
        Err(Error::BucketCountMismatch { expected_count: (g * g) as usize, actual_count: ds.len() as usize })
    } else if exists|i: int| 0 <= i < ds.len() && (#[trigger] bucket_compressed(ds[i], level)) is None {
        Err(Error::Compress)
    } else {
        compressed_buckets_bytes(Seq::new(ds.len(), |i: int| bucket_compressed(ds[i], level).unwrap()), level)
    }
}

/// Writes already compressed buckets: their header table (size, level and
/// xxhash64 of each), then their bytes.
pub fn write_compressed_buckets(compressed: &Vec<Vec<u8>>, compression_level: i32) -> (r: Result<Vec<u8>, Error>)
    ensures
        bytes_view(r) == compressed_buckets_bytes(byte_vecs(compressed@), compression_level),
{
    let n = compressed.len();
    let ghost cs = byte_vecs(compressed@);
    let mut bucket_headers: Vec<BucketHeader> = Vec::new();
    for i in 0..n
        invariant
            n == compressed@.len(),
            cs == byte_vecs(compressed@),
            bucket_headers@ =~= headers_for(cs, compression_level).take(i as int),
    {
        let c = &compressed[i];
        let h = BucketHeader {
            bucket_size: c.len() as u32,
            compress_level: compression_level as i8,
            xxhash64: xxh64(c.as_slice(), 0),
        };
        bucket_headers.push(h);
    }
    assert(bucket_headers@ =~= headers_for(cs, compression_level));
    let mut out = serialize_bucket_header(&bucket_headers)?;
    for i in 0..n
        invariant
            n == compressed@.len(),
            cs == byte_vecs(compressed@),
            out@ == bucket_headers_bytes(headers_for(cs, compression_level)) + concat_all(cs.take(i as int)),
    {
        let ghost before = out@;
        out.extend_from_slice(compressed[i].as_slice());
        proof {
            assert(out@ =~= before + cs[i as int]);
            assert(cs.take(i + 1).drop_last() =~= cs.take(i as int));
        }
    }
    assert(cs.take(n as int) =~= cs);
    Ok(out)
}

/// Writes a bucket grid of side `grid_size`: each bucket compressed with zstd
/// at `compression_level` (a bucket of exactly 64 bytes is written empty), then
/// the header table and the compressed bytes. Where every bucket has another
/// length and every compressed bucket fits a `u32` size, reading the result
/// gives the buckets back.
#[verifier::spinoff_prover]
pub fn serialize_bucket(grid_size: i8, bucket_datas: Vec<Vec<u8>>, compression_level: i32) -> (r: Result<Vec<u8>, Error>)
    ensures
        bytes_view(r) == bucket_grid_bytes(grid_size, byte_vecs(bucket_datas@), compression_level),
        r matches Ok(out) ==> (forall|i: int|
            0 <= i < bucket_datas@.len() ==> (#[trigger] bucket_datas@[i])@.len() != 64
                && compressed_fits_u32(bucket_datas@[i]@, compression_level))
            ==> bucket_grid_read(out@, 0, grid_size) == Ok::<(Seq<Seq<u8>>, int), Error>(
            (byte_vecs(bucket_datas@), out@.len() as int),
        ),
{
    let ghost ds = byte_vecs(bucket_datas@);
    if !(grid_size == 1 || grid_size == 2 || grid_size == 4 || grid_size == 8 || grid_size == 16
        || grid_size == 32) {
        return Err(Error::InvalidGridSize(grid_size));
    }
    let g = grid_size as usize;
    let expected_bucket_count = g * g;
    if bucket_datas.len() != expected_bucket_count {
        return Err(
            Error::BucketCountMismatch {
                expected_count: expected_bucket_count,
                actual_count: bucket_datas.len(),
            },
        );
    }
    let n = bucket_datas.len();
    let mut compression_data: Vec<Vec<u8>> = Vec::new();
    for i in 0..n
        invariant
            n == bucket_datas@.len(),
            ds == byte_vecs(bucket_datas@),
            valid_grid_size(grid_size),
            n == grid_size * grid_size,
            compression_data@.len() == i,
            forall|k: int|
                0 <= k < i ==> bucket_compressed(ds[k], compression_level) == Some(
                    #[trigger] compression_data@[k]@,
                ),
            forall|k: int|
                0 <= k < i && ds[k].len() != 64 ==> zstd_decompressed(#[trigger] compression_data@[k]@)
                    == Some(ds[k]),
    {
        let data = &bucket_datas[i];
        if data.len() == 64 {
            compression_data.push(Vec::new());
        } else {
            match zstd_compress(data.as_slice(), compression_level, true) {
                Some(c) => {
                    compression_data.push(c);
                },
                None => {
                    proof {
                        assert(ds[i as int] == data@);
                        assert(bucket_compressed(ds[i as int], compression_level) is None);
                    }
                    return Err(Error::Compress);
                },
            }
        }
    }
    let ghost cs = byte_vecs(compression_data@);
    proof {
        assert(cs =~= Seq::new(ds.len(), |i: int| bucket_compressed(ds[i], compression_level).unwrap()));
    }
    let r = write_compressed_buckets(&compression_data, compression_level);
    proof {
        if r is Ok && (forall|i: int|
            0 <= i < bucket_datas@.len() ==> (#[trigger] bucket_datas@[i])@.len() != 64
                && compressed_fits_u32(bucket_datas@[i]@, compression_level)) {
            assert forall|i: int| 0 <= i < cs.len() implies zstd_decompressed(cs[i]) == Some(ds[i])
                && cs[i].len() <= u32::MAX by {
                assert(bucket_datas@[i]@.len() != 64);
            }
            lemma_bucket_grid_roundtrip(grid_size, cs, ds, compression_level);
        }
    }
    r
}

/// Reading the buckets back out of their encoding, from the position where they begin.
proof fn lemma_payloads_read_back(prefix: Seq<u8>, cs: Seq<Seq<u8>>, hs: Seq<BucketHeader>)
    requires
        hs.len() == cs.len(),
        forall|i: int|
            0 <= i < cs.len() ==> (#[trigger] hs[i]).bucket_size == cs[i].len() && hs[i].xxhash64
                == xxh64_of(cs[i], 0),
    ensures
        bucket_payloads(prefix + concat_all(cs), prefix.len() as int, hs, false) == Ok::<
            (Seq<Seq<u8>>, int),
            Error,
        >((cs, (prefix + concat_all(cs)).len() as int)),
    decreases cs.len(),
{
    let s = prefix + concat_all(cs);
    if cs.len() == 0 {
        assert(concat_all(cs) =~= Seq::<u8>::empty());
        assert(s =~= prefix);
        assert(cs =~= Seq::<Seq<u8>>::empty());
    } else {
        lemma_concat_all_first(cs);
        let c0 = cs[0];
        let prefix2 = prefix + c0;
        let cs2 = cs.drop_first();
        let hs2 = hs.drop_first();
        assert(s =~= prefix2 + concat_all(cs2));
        assert(hs[0].bucket_size == c0.len());
        assert(s.subrange(prefix.len() as int, (prefix.len() + c0.len()) as int) =~= c0);
        assert forall|i: int| 0 <= i < cs2.len() implies (#[trigger] hs2[i]).bucket_size == cs2[i].len()
            && hs2[i].xxhash64 == xxh64_of(cs2[i], 0) by {
            assert(hs2[i] == hs[i + 1]);
            assert(cs2[i] == cs[i + 1]);
        }
        lemma_payloads_read_back(prefix2, cs2, hs2);
        assert(seq![c0] + cs2 =~= cs);
    }
}

/// A written bucket grid reads back, given that each compressed bucket
/// decompresses to its bucket and fits a `u32` size.
proof fn lemma_bucket_grid_roundtrip(g: i8, cs: Seq<Seq<u8>>, ds: Seq<Seq<u8>>, level: i32)
    requires
        valid_grid_size(g),
        cs.len() == g * g,
        ds.len() == cs.len(),
        forall|i: int|
            0 <= i < cs.len() ==> zstd_decompressed(#[trigger] cs[i]) == Some(ds[i]) && cs[i].len()
                <= u32::MAX,
    ensures
        compressed_buckets_bytes(cs, level) matches Ok(out) && bucket_grid_read(out, 0, g) == Ok::<
            (Seq<Seq<u8>>, int),
            Error,
        >((ds, out.len() as int)),
{
    let hs = headers_for(cs, level);
    let hb = bucket_headers_bytes(hs);
    let out = hb + concat_all(cs);
    lemma_bucket_headers_layout(hs);
    lemma_bucket_headers_roundtrip(hs, concat_all(cs));
    assert(bucket_headers_at(out, 0, (g * g) as nat) == hs);
    assert forall|i: int| 0 <= i < cs.len() implies (#[trigger] hs[i]).bucket_size == cs[i].len()
        && hs[i].xxhash64 == xxh64_of(cs[i], 0) by {}
    lemma_payloads_read_back(hb, cs, hs);
    assert(13 * g * g == 13 * (g * g)) by (nonlinear_arith);
    assert(13 * g * g == hb.len());
    assert(all_zstd_decompress(cs)) by {
        assert forall|i: int| 0 <= i < cs.len() implies (#[trigger] zstd_decompressed(cs[i])) is Some by {
            assert(zstd_decompressed(cs[i]) == Some(ds[i]));
        }
    }
    assert(zstd_decompressed_all(cs) =~= ds);
}

/// The eight bits of a byte, most significant first: bit `j` is set.
pub open spec fn bit_of(byte: u8, j: int) -> bool {
    (byte >> ((7 - j) as u8)) & 1u8 == 1u8
}

/// The byte whose bits, most significant first, are the eight flags.
pub open spec fn pack8(b0: bool, b1: bool, b2: bool, b3: bool, b4: bool, b5: bool, b6: bool, b7: bool) -> u8 {
    (if b0 { 128u8 } else { 0u8 }) | (if b1 { 64u8 } else { 0u8 }) | (if b2 { 32u8 } else { 0u8 }) | (
    if b3 {
        16u8
    } else {
        0u8
    }) | (if b4 { 8u8 } else { 0u8 }) | (if b5 { 4u8 } else { 0u8 }) | (if b6 { 2u8 } else { 0u8 }) | (
    if b7 {
        1u8
    } else {
        0u8
    })
}

/// The byte that packs the flags `8 * i .. 8 * i + 8`.
pub open spec fn packed_byte(bits: Seq<bool>, i: int) -> u8 {
    pack8(
        bits[8 * i],
        bits[8 * i + 1],
        bits[8 * i + 2],
        bits[8 * i + 3],
        bits[8 * i + 4],
        bits[8 * i + 5],
        bits[8 * i + 6],
        bits[8 * i + 7],
    )
}

proof fn lemma_bit_of_values(b: u8)
    ensures
        bit_of(b, 0) == ((b >> 7u8) & 1u8 == 1u8),
        bit_of(b, 1) == ((b >> 6u8) & 1u8 == 1u8),
        bit_of(b, 2) == ((b >> 5u8) & 1u8 == 1u8),
        bit_of(b, 3) == ((b >> 4u8) & 1u8 == 1u8),
        bit_of(b, 4) == ((b >> 3u8) & 1u8 == 1u8),
        bit_of(b, 5) == ((b >> 2u8) & 1u8 == 1u8),
        bit_of(b, 6) == ((b >> 1u8) & 1u8 == 1u8),
        bit_of(b, 7) == ((b >> 0u8) & 1u8 == 1u8),
{
}

/// Packing the bits of a byte gives the byte back.
pub proof fn lemma_pack_bits_of(b: u8)
    ensures
        pack8(
            bit_of(b, 0),
            bit_of(b, 1),
            bit_of(b, 2),
            bit_of(b, 3),
            bit_of(b, 4),
            bit_of(b, 5),
            bit_of(b, 6),
            bit_of(b, 7),
        ) == b,
{
    lemma_bit_of_values(b);
    assert(((if (b >> 7u8) & 1u8 == 1u8 { 128u8 } else { 0u8 }) | (if (b >> 6u8) & 1u8 == 1u8 {
        64u8
    } else {
        0u8
    }) | (if (b >> 5u8) & 1u8 == 1u8 { 32u8 } else { 0u8 }) | (if (b >> 4u8) & 1u8 == 1u8 {
        16u8
    } else {
        0u8
    }) | (if (b >> 3u8) & 1u8 == 1u8 { 8u8 } else { 0u8 }) | (if (b >> 2u8) & 1u8 == 1u8 {
        4u8
    } else {
        0u8
    }) | (if (b >> 1u8) & 1u8 == 1u8 { 2u8 } else { 0u8 }) | (if (b >> 0u8) & 1u8 == 1u8 {
        1u8
    } else {
        0u8
    })) == b) by (bit_vector);
}

/// The bits of a packed byte are the flags it was packed from.
pub proof fn lemma_bits_of_pack(b0: bool, b1: bool, b2: bool, b3: bool, b4: bool, b5: bool, b6: bool, b7: bool)
    ensures
        bit_of(pack8(b0, b1, b2, b3, b4, b5, b6, b7), 0) == b0,
        bit_of(pack8(b0, b1, b2, b3, b4, b5, b6, b7), 1) == b1,
        bit_of(pack8(b0, b1, b2, b3, b4, b5, b6, b7), 2) == b2,
        bit_of(pack8(b0, b1, b2, b3, b4, b5, b6, b7), 3) == b3,
        bit_of(pack8(b0, b1, b2, b3, b4, b5, b6, b7), 4) == b4,
        bit_of(pack8(b0, b1, b2, b3, b4, b5, b6, b7), 5) == b5,
        bit_of(pack8(b0, b1, b2, b3, b4, b5, b6, b7), 6) == b6,
        bit_of(pack8(b0, b1, b2, b3, b4, b5, b6, b7), 7) == b7,
{
    let p = pack8(b0, b1, b2, b3, b4, b5, b6, b7);
    lemma_bit_of_values(p);
    assert({
        let x = (if b0 { 128u8 } else { 0u8 }) | (if b1 { 64u8 } else { 0u8 }) | (if b2 {
            32u8
        } else {
            0u8
        }) | (if b3 { 16u8 } else { 0u8 }) | (if b4 { 8u8 } else { 0u8 }) | (if b5 {
            4u8
        } else {
            0u8
        }) | (if b6 { 2u8 } else { 0u8 }) | (if b7 { 1u8 } else { 0u8 });
        &&& ((x >> 7u8) & 1u8 == 1u8) == b0
        &&& ((x >> 6u8) & 1u8 == 1u8) == b1
        &&& ((x >> 5u8) & 1u8 == 1u8) == b2
        &&& ((x >> 4u8) & 1u8 == 1u8) == b3
        &&& ((x >> 3u8) & 1u8 == 1u8) == b4
        &&& ((x >> 2u8) & 1u8 == 1u8) == b5
        &&& ((x >> 1u8) & 1u8 == 1u8) == b6
        &&& ((x >> 0u8) & 1u8 == 1u8) == b7
    }) by (bit_vector);
}

fn pack_byte(bits: &[bool; 1024], base: usize) -> (b: u8)
    requires
        base + 8 <= 1024,
    ensures
        b == pack8(
            bits@[base as int],
            bits@[base + 1],
            bits@[base + 2],
            bits@[base + 3],
            bits@[base + 4],
            bits@[base + 5],
            bits@[base + 6],
            bits@[base + 7],
        ),
{
    (if bits[base] { 128u8 } else { 0u8 }) | (if bits[base + 1] { 64u8 } else { 0u8 }) | (
    if bits[base + 2] {
        32u8
    } else {
        0u8
    }) | (if bits[base + 3] { 16u8 } else { 0u8 }) | (if bits[base + 4] { 8u8 } else { 0u8 }) | (
    if bits[base + 5] {
        4u8
    } else {
        0u8
    }) | (if bits[base + 6] { 2u8 } else { 0u8 }) | (if bits[base + 7] { 1u8 } else { 0u8 })
}

/// Packs 1024 flags into 128 bytes, eight per byte, the first flag in the
/// most significant bit.
pub fn serialize_bitmap(bits: &[bool; 1024]) -> (out: [u8; 128])
    ensures
        forall|i: int| 0 <= i < 128 ==> #[trigger] out@[i] == packed_byte(bits@, i),
{
    let mut out = [0u8; 128];
    for i in 0..128
        invariant
            out@.len() == 128,
            forall|k: int| 0 <= k < i ==> #[trigger] out@[k] == packed_byte(bits@, k),
    {
        let byte = pack_byte(bits, i * 8);
        out[i] = byte;
    }
    out
}

/// Unpacks 128 bytes into 1024 flags, eight per byte, the most significant
/// bit first.
pub fn deserialize_bitmap(data: &[u8; 128]) -> (bits: [bool; 1024])
    ensures
        forall|k: int| 0 <= k < 1024 ==> #[trigger] bits@[k] == bit_of(data@[k / 8], k % 8),
{
    let mut bits = [false; 1024];
    for i in 0..128
        invariant
            bits@.len() == 1024,
            forall|k: int| 0 <= k < 8 * i ==> #[trigger] bits@[k] == bit_of(data@[k / 8], k % 8),
    {
        let byte = data[i];
        for j in 0..8
            invariant
                bits@.len() == 1024,
                i < 128,
                byte == data@[i as int],
                forall|k: int| 0 <= k < 8 * i + j ==> #[trigger] bits@[k] == bit_of(data@[k / 8], k % 8),
        {
            bits[i * 8 + j] = (byte >> (7 - j as u8)) & 1 == 1;
            assert((8 * i + j) / 8 == i && (8 * i + j) % 8 == j);
        }
    }
    bits
}

/// Packing unpacked bytes gives them back.
pub proof fn lemma_bitmap_bytes_roundtrip(data: Seq<u8>, bits: Seq<bool>)
    requires
        data.len() == 128,
        bits.len() == 1024,
        forall|k: int| 0 <= k < 1024 ==> #[trigger] bits[k] == bit_of(data[k / 8], k % 8),
    ensures
        forall|i: int| 0 <= i < 128 ==> #[trigger] packed_byte(bits, i) == data[i],
{
    assert forall|i: int| 0 <= i < 128 implies #[trigger] packed_byte(bits, i) == data[i] by {
        assert(bits[8 * i] == bit_of(data[i], 0));
        assert(bits[8 * i + 1] == bit_of(data[i], 1));
        assert(bits[8 * i + 2] == bit_of(data[i], 2));
        assert(bits[8 * i + 3] == bit_of(data[i], 3));
        assert(bits[8 * i + 4] == bit_of(data[i], 4));
        assert(bits[8 * i + 5] == bit_of(data[i], 5));
        assert(bits[8 * i + 6] == bit_of(data[i], 6));
        assert(bits[8 * i + 7] == bit_of(data[i], 7));
        lemma_pack_bits_of(data[i]);
    }
}

/// Unpacking packed flags gives them back.
pub proof fn lemma_bitmap_bits_roundtrip(bits: Seq<bool>, data: Seq<u8>)
    requires
        data.len() == 128,
        bits.len() == 1024,
        forall|i: int| 0 <= i < 128 ==> #[trigger] data[i] == packed_byte(bits, i),
    ensures
        forall|k: int| 0 <= k < 1024 ==> #[trigger] bit_of(data[k / 8], k % 8) == bits[k],
{
    assert forall|k: int| 0 <= k < 1024 implies #[trigger] bit_of(data[k / 8], k % 8) == bits[k] by {
        let i = k / 8;
        let j = k % 8;
        assert(data[i] == packed_byte(bits, i));
        lemma_bits_of_pack(
            bits[8 * i],
            bits[8 * i + 1],
            bits[8 * i + 2],
            bits[8 * i + 3],
            bits[8 * i + 4],
            bits[8 * i + 5],
            bits[8 * i + 6],
            bits[8 * i + 7],
        );
        assert(k == 8 * i + j);
    }
}

/// The bytes of one feature entry: the length of the UTF-8 name, the name,
/// then the value big-endian.
pub open spec fn feature_entry_bytes(e: (Seq<char>, u32)) -> Seq<u8> {
    seq![encode_utf8(e.0).len() as u8] + encode_utf8(e.0) + u32_be(e.1)
}

/// Writing feature entries in order; a name longer than 255 bytes is an error.
pub open spec fn feature_entries_bytes(es: Seq<(Seq<char>, u32)>) -> Result<Seq<u8>, Error>
    decreases es.len(),
{
    if es.len() == 0 {
        Ok(Seq::empty())
    } else if encode_utf8(es[0].0).len() > 255 {
        Err(Error::KeyTooLong(encode_utf8(es[0].0).len() as usize))
    } else {
        match feature_entries_bytes(es.drop_first()) {
            Ok(b) => Ok(feature_entry_bytes(es[0]) + b),
            Err(e) => Err(e),
        }
    }
}

/// Writing a feature table: the entries, then a zero byte.
pub open spec fn features_bytes(es: Seq<(Seq<char>, u32)>) -> Result<Seq<u8>, Error> {
    match feature_entries_bytes(es) {
        Ok(b) => Ok(b.push(0)),
        Err(e) => Err(e),
    }
}

/// Puts the bytes `a` in front of a successful write; keeps an error.
pub open spec fn prepend_bytes(a: Seq<u8>, r: Result<Seq<u8>, Error>) -> Result<Seq<u8>, Error> {
    match r {
        Ok(b) => Ok(a + b),
        Err(e) => Err(e),
    }
}

/// Reading a feature table from `pos`: entries until a zero length byte, and
/// the position after that byte, or the first error.
pub open spec fn features_read(s: Seq<u8>, pos: int) -> Result<(Seq<(Seq<char>, u32)>, int), Error>
    decreases s.len() - pos,
{
    if pos < 0 || pos >= s.len() {
        Err(Error::UnexpectedEof)
    } else {
        let n = s[pos] as int;
        if n == 0 {
            Ok((Seq::empty(), pos + 1))
        } else if pos + 1 + n > s.len() {
            Err(Error::UnexpectedEof)
        } else {
            let kb = s.subrange(pos + 1, pos + 1 + n);
            if !valid_utf8(kb) {
                Err(Error::InvalidUtf8)
            } else if pos + 1 + n + 4 > s.len() {
                Err(Error::UnexpectedEof)
            } else {
                prepend_entries(
                    seq![(decode_utf8(kb), be_u32_at(s, pos + 1 + n))],
                    features_read(s, pos + 1 + n + 4),
                )
            }
        }
    }
}

/// Puts the entries `a` in front of a successful read; keeps an error.
pub open spec fn prepend_entries(a: Seq<(Seq<char>, u32)>, r: Result<(Seq<(Seq<char>, u32)>, int), Error>) -> Result<
    (Seq<(Seq<char>, u32)>, int),
    Error,
> {
    match r {
        Ok((rest, p)) => Ok((a + rest, p)),
        Err(e) => Err(e),
    }
}

/// Writes a feature table: for each entry in order, the length of its UTF-8
/// name as one byte, the name and the value big-endian; then a zero byte.
pub fn serialize_hashmap(dict: &FeatureMap) -> (r: Result<Vec<u8>, Error>)
    ensures
        bytes_view(r) == features_bytes(dict.entry_list()),
{
    let ghost es = dict.entry_list();
    let mut out: Vec<u8> = Vec::new();
    let n = dict.len();
    proof {
        assert(es.skip(0) =~= es);
        match feature_entries_bytes(es) {
            Ok(b) => {
                assert(Seq::<u8>::empty() + b =~= b);
            },
            Err(e) => {},
        }
    }
    for i in 0..n
        invariant
            n == es.len(),
            es == dict.entry_list(),
            feature_entries_bytes(es) == prepend_bytes(out@, feature_entries_bytes(es.skip(i as int))),
    {
        let (key, value) = dict.entry(i);
        let key_bytes = key.as_str().as_bytes();
        proof {
            assert(es.skip(i as int)[0] == es[i as int]);
            assert(es.skip(i as int).drop_first() =~= es.skip(i + 1));
        }
        if key_bytes.len() > 255 {
            return Err(Error::KeyTooLong(key_bytes.len()));
        }
        let ghost before = out@;
        out.push(key_bytes.len() as u8);
        out.extend_from_slice(key_bytes);
        push_u32_be(&mut out, value);
        proof {
            assert(out@ =~= before + feature_entry_bytes(es[i as int]));
            match feature_entries_bytes(es.skip(i + 1)) {
                Ok(b) => {
                    assert(before + (feature_entry_bytes(es[i as int]) + b) =~= out@ + b);
                },
                Err(e) => {},
            }
        }
    }
    proof {
        assert(es.skip(n as int) =~= Seq::<(Seq<char>, u32)>::empty());
        assert(out@ + Seq::<u8>::empty() =~= out@);
    }
    out.push(0);
    Ok(out)
}

/// Reads a feature table from `pos`: entries until a zero length byte; a
/// later entry replaces an earlier one of the same name. Gives the table and
/// the position after the zero byte.
pub fn deserialize_hashmap(data: &[u8], pos: usize) -> (r: Result<(FeatureMap, usize), Error>)
    ensures
        match r {
            Ok((m, end)) => features_read(data@, pos as int) matches Ok((es, e)) && m@ == map_of_entries(es)
                && end == e,
            Err(err) => features_read(data@, pos as int) == Err::<(Seq<(Seq<char>, u32)>, int), Error>(err),
        },
{
    let ghost total = features_read(data@, pos as int);
    if pos >= data.len() {
        return Err(Error::UnexpectedEof);
    }
    let mut map = FeatureMap::new();
    let mut cur = pos;
    let ghost mut acc: Seq<(Seq<char>, u32)> = Seq::empty();
    proof {
        match total {
            Ok((rest, p)) => {
                assert(acc + rest =~= rest);
            },
            Err(e) => {},
        }
        assert(map_of_entries(acc) =~= map@);
    }
    loop
        invariant
            cur <= data@.len(),
            total == features_read(data@, pos as int),
            total == prepend_entries(acc, features_read(data@, cur as int)),
            map@ == map_of_entries(acc),
        decreases data@.len() - cur,
    {
        if cur >= data.len() {
            return Err(Error::UnexpectedEof);
        }
        let key_len = data[cur] as usize;
        if key_len == 0 {
            proof {
                assert(acc + Seq::<(Seq<char>, u32)>::empty() =~= acc);
            }
            return Ok((map, cur + 1));
        }
        if data.len() - (cur + 1) < key_len {
            return Err(Error::UnexpectedEof);
        }
        let key_start = cur + 1;
        let key_end = key_start + key_len;
        let key_bytes = slice_to_vec(&data[key_start..key_end]);
        let key = match string_from_utf8(key_bytes) {
            Some(k) => k,
            None => {
                return Err(Error::InvalidUtf8);
            },
        };
        let value = match read_u32_be(data, key_end) {
            Ok(v) => v,
            Err(e) => {
                return Err(e);
            },
        };
        let ghost entry = (key@, value);
        map.insert(key, value);
        proof {
            lemma_map_of_push(acc, entry.0, entry.1);
            let inner = features_read(data@, key_end + 4);
            match inner {
                Ok((rest, p)) => {
                    assert(acc + (seq![entry] + rest) =~= acc.push(entry) + rest);
                },
                Err(e) => {},
            }
            acc = acc.push(entry);
        }
        cur = key_end + 4;
    }
}

/// A written feature table reads back, from any position and whatever
/// follows it, where every name is 1 to 255 bytes of UTF-8.
pub proof fn lemma_features_roundtrip(prefix: Seq<u8>, es: Seq<(Seq<char>, u32)>, rest: Seq<u8>)
    requires
        forall|i: int|
            0 <= i < es.len() ==> 0 < encode_utf8((#[trigger] es[i]).0).len() <= 255,
    ensures
        features_bytes(es) matches Ok(b) && features_read(prefix + b + rest, prefix.len() as int) == Ok::<
            (Seq<(Seq<char>, u32)>, int),
            Error,
        >((es, (prefix.len() + b.len()) as int)),
    decreases es.len(),
{
    broadcast use vstd::utf8::group_utf8_lib;

    if es.len() == 0 {
        let b = Seq::<u8>::empty().push(0);
        assert((prefix + b + rest)[prefix.len() as int] == 0);
        assert(es =~= Seq::<(Seq<char>, u32)>::empty());
    } else {
        let e0 = es[0];
        let kb = encode_utf8(e0.0);
        let tail = es.drop_first();
        assert forall|i: int| 0 <= i < tail.len() implies 0 < encode_utf8((#[trigger] tail[i]).0).len() <= 255 by {
            assert(tail[i] == es[i + 1]);
        }
        let entry = feature_entry_bytes(e0);
        lemma_features_roundtrip(prefix + entry, tail, rest);
        let tb = feature_entries_bytes(tail)->Ok_0;
        let b = entry + tb.push(0);
        let s = prefix + b + rest;
        assert(s =~= prefix + entry + tb.push(0) + rest);
        let p = prefix.len() as int;
        assert(s[p] == kb.len() as u8);
        assert(s.subrange(p + 1, p + 1 + kb.len()) =~= kb);
        lemma_u32_be_roundtrip(e0.1);
        assert(s.subrange(p + 1 + kb.len(), p + 1 + kb.len() + 4) =~= u32_be(e0.1));
        assert(seq![(decode_utf8(kb), e0.1)] + tail =~= es);
        assert(feature_entries_bytes(es) == Ok::<Seq<u8>, Error>(entry + tb));
        assert((entry + tb).push(0) =~= b);
    }
}

/// The header of a linear v2 file.
#[derive(Debug, Clone, Copy, PartialEq, Eq, Structural)]
pub struct SuperBlock {
    pub version: u8,
    pub newest_timestamp: u64,
    pub grid_size: i8,
    pub region_x: i32,
    pub region_z: i32,
}

/// The 26 bytes of a superblock: the magic, then the fields big-endian.
pub open spec fn superblock_bytes(sb: SuperBlock) -> Seq<u8> {
    MAGIC@ + seq![sb.version] + u64_be(sb.newest_timestamp) + seq![sb.grid_size as u8] + u32_be(
        sb.region_x as u32,
    ) + u32_be(sb.region_z as u32)
}

/// The superblock that 26 bytes (magic included) encode.
pub open spec fn superblock_of(w: Seq<u8>) -> SuperBlock {
    SuperBlock {
        version: w[8],
        newest_timestamp: be_value(w.subrange(9, 17)) as u64,
        grid_size: w[17] as i8,
        region_x: (be_value(w.subrange(18, 22)) as u32) as i32,
        region_z: (be_value(w.subrange(22, 26)) as u32) as i32,
    }
}

/// Reading a superblock at `pos`: the magic must come first.
pub open spec fn superblock_read(s: Seq<u8>, pos: int) -> Result<SuperBlock, Error> {
    if pos + 8 > s.len() {
        Err(Error::UnexpectedEof)
    } else if s.subrange(pos, pos + 8) != MAGIC@ {
        Err(Error::BadMagic)
    } else if pos + 26 > s.len() {
        Err(Error::UnexpectedEof)
    } else {
        Ok(superblock_of(s.subrange(pos, pos + 26)))
    }
}

impl SuperBlock {
    /// Reads the superblock at `pos`.
    pub fn read(data: &[u8], pos: usize) -> (r: Result<SuperBlock, Error>)
        ensures
            r == superblock_read(data@, pos as int),
    {
        if pos > data.len() || data.len() - pos < 8 {
            return Err(Error::UnexpectedEof);
        }
        if !has_magic_at(data, pos, &MAGIC) {
            return Err(Error::BadMagic);
        }
        if data.len() - pos < 26 {
            return Err(Error::UnexpectedEof);
        }
        let version = data[pos + 8];
        let newest_timestamp = read_u64_be(data, pos + 9)?;
        let grid_size = data[pos + 17] as i8;
        let region_x = read_u32_be(data, pos + 18)? as i32;
        let region_z = read_u32_be(data, pos + 22)? as i32;
        proof {
            let w = data@.subrange(pos as int, pos + 26);
            assert(w.subrange(9, 17) =~= data@.subrange(pos + 9, pos + 17));
            assert(w.subrange(18, 22) =~= data@.subrange(pos + 18, pos + 22));
            assert(w.subrange(22, 26) =~= data@.subrange(pos + 22, pos + 26));
        }
        Ok(SuperBlock { version, newest_timestamp, grid_size, region_x, region_z })
    }

    /// Appends the 26 bytes of the superblock.
    pub fn write(&self, out: &mut Vec<u8>)
        ensures
            final(out)@ == old(out)@ + superblock_bytes(*self),
    {
        let magic = MAGIC;
        out.extend_from_slice(magic.as_slice());
        out.push(self.version);
        push_u64_be(out, self.newest_timestamp);
        out.push(self.grid_size as u8);
        push_u32_be(out, self.region_x as u32);
        push_u32_be(out, self.region_z as u32);
        proof {
            assert(final(out)@ =~= old(out)@ + superblock_bytes(*self));
        }
    }
}

/// A superblock reads back as itself, whatever follows it.
pub proof fn lemma_superblock_roundtrip(sb: SuperBlock, rest: Seq<u8>)
    ensures
        superblock_bytes(sb).len() == 26,
        superblock_read(superblock_bytes(sb) + rest, 0) == Ok::<SuperBlock, Error>(sb),
{
    lemma_u64_be_roundtrip(sb.newest_timestamp);
    lemma_u32_be_roundtrip(sb.region_x as u32);
    lemma_u32_be_roundtrip(sb.region_z as u32);
    lemma_i8_bits(sb.grid_size);
    lemma_i32_bits(sb.region_x);
    lemma_i32_bits(sb.region_z);
    let b = superblock_bytes(sb);
    let s = b + rest;
    let w = s.subrange(0, 26);
    assert(w =~= b);
    assert(s.subrange(0, 8) =~= MAGIC@);
    assert(w.subrange(9, 17) =~= u64_be(sb.newest_timestamp));
    assert(w.subrange(18, 22) =~= u32_be(sb.region_x as u32));
    assert(w.subrange(22, 26) =~= u32_be(sb.region_z as u32));
}

/// Which of the 1024 chunks of a region are present.
pub struct ChunkBitMap {
    pub bit_map: [bool; 1024],
}

impl ChunkBitMap {
    /// Reads the 128 bytes at `pos` as a bitmap.
    pub fn read(data: &[u8], pos: usize) -> (r: Result<ChunkBitMap, Error>)
        ensures
            pos + 128 > data@.len() ==> r is Err && r == Err::<ChunkBitMap, Error>(Error::UnexpectedEof),
            pos + 128 <= data@.len() ==> (r matches Ok(m) && forall|k: int|
                0 <= k < 1024 ==> #[trigger] m.bit_map@[k] == bit_of(data@[pos + k / 8], k % 8)),
    {
        if pos > data.len() || data.len() - pos < 128 {
            return Err(Error::UnexpectedEof);
        }
        let mut raw = [0u8; 128];
        for i in 0..128
            invariant
                pos + 128 <= data@.len(),
                data@.len() == data.len(),
                raw@.len() == 128,
                forall|t: int| 0 <= t < i ==> #[trigger] raw@[t] == data@[pos + t],
        {
            raw[i] = data[pos + i];
        }
        let bit_map = deserialize_bitmap(&raw);
        Ok(ChunkBitMap { bit_map })
    }

    /// Appends the 128 bytes of the bitmap.
    pub fn write(&self, out: &mut Vec<u8>)
        ensures
            final(out)@.len() == old(out)@.len() + 128,
            final(out)@.subrange(0, old(out)@.len() as int) == old(out)@,
            forall|i: int| 0 <= i < 128 ==> #[trigger] final(out)@[old(out)@.len() + i] == packed_byte(self.bit_map@, i),
    {
        let raw = serialize_bitmap(&self.bit_map);
        let ghost before = out@;
        out.extend_from_slice(raw.as_slice());
        proof {
            assert(final(out)@.subrange(0, before.len() as int) =~= before);
            assert forall|i: int| 0 <= i < 128 implies #[trigger] final(out)@[before.len() + i] == packed_byte(self.bit_map@, i) by {
                assert(final(out)@[before.len() + i] == raw@[i]);
            }
        }
    }
}

/// The number of data bytes of a bucket chunk whose size field is `size`
/// (the size counts the eight timestamp bytes).
fn chunk_data_len(size: u32) -> (n: usize)
    ensures
        n == if size < 8 { 0 } else { size - 8 },
{
    if size < 8 {
        0
    } else {
        (size - 8) as usize
    }
}

/// One chunk inside a decompressed bucket: its size field, its timestamp and
/// its data.
pub struct BucketChunk {
    pub chunk_size: u32,
    pub timestamp: u64,
    pub chunk_data: Vec<u8>,
}

/// The number of data bytes that a size field announces.
pub open spec fn chunk_data_count(size: u32) -> int {
    if size < 8 {
        0
    } else {
        size - 8
    }
}

/// The bytes of a bucket chunk: size and timestamp big-endian, then the data.
pub open spec fn bucket_chunk_bytes(size: u32, timestamp: u64, data: Seq<u8>) -> Seq<u8> {
    u32_be(size) + u64_be(timestamp) + data
}

impl BucketChunk {
    /// Reads the bucket chunk at `pos`, and the position after it.
    pub fn read(data: &[u8], pos: usize) -> (r: Result<(BucketChunk, usize), Error>)
        ensures
            pos + 12 > data@.len() ==> r is Err && r == Err::<(BucketChunk, usize), Error>(Error::UnexpectedEof),
            pos + 12 <= data@.len() ==> {
                let size = be_u32_at(data@, pos as int);
                let end = pos + 12 + chunk_data_count(size);
                &&& end > data@.len() ==> r is Err && r == Err::<(BucketChunk, usize), Error>(Error::UnexpectedEof)
                &&& end <= data@.len() ==> (r matches Ok((c, e)) && c.chunk_size == size && c.timestamp
                    == be_u64_at(data@, pos + 4) && c.chunk_data@ == data@.subrange(pos + 12, end) && e
                    == end)
            },
    {
        if pos > data.len() || data.len() - pos < 12 {
            return Err(Error::UnexpectedEof);
        }
        let chunk_size = read_u32_be(data, pos)?;
        let timestamp = read_u64_be(data, pos + 4)?;
        let n = chunk_data_len(chunk_size);
        let chunk_data = read_bytes(data, pos + 12, n)?;
        Ok((BucketChunk { chunk_size, timestamp, chunk_data }, pos + 12 + n))
    }

    /// Appends the bytes of the bucket chunk.
    pub fn write(&self, out: &mut Vec<u8>)
        ensures
            final(out)@ == old(out)@ + bucket_chunk_bytes(self.chunk_size, self.timestamp, self.chunk_data@),
    {
        let ghost before = out@;
        push_u32_be(out, self.chunk_size);
        push_u64_be(out, self.timestamp);
        out.extend_from_slice(self.chunk_data.as_slice());
        proof {
            assert(final(out)@ =~= before + bucket_chunk_bytes(self.chunk_size, self.timestamp, self.chunk_data@));
        }
    }
}

/// A bucket chunk whose size field counts its data and timestamp reads back as itself.
pub proof fn lemma_bucket_chunk_roundtrip(timestamp: u64, d: Seq<u8>, rest: Seq<u8>)
    requires
        d.len() + 8 <= u32::MAX,
    ensures
        ({
            let size = (d.len() + 8) as u32;
            let s = bucket_chunk_bytes(size, timestamp, d) + rest;
            &&& be_u32_at(s, 0) == size
            &&& be_u64_at(s, 4) == timestamp
            &&& chunk_data_count(size) == d.len()
            &&& s.subrange(12, 12 + d.len() as int) == d
        }),
{
    let size = (d.len() + 8) as u32;
    lemma_u32_be_roundtrip(size);
    lemma_u64_be_roundtrip(timestamp);
    let s = bucket_chunk_bytes(size, timestamp, d) + rest;
    assert(s.subrange(0, 4) =~= u32_be(size));
    assert(s.subrange(4, 12) =~= u64_be(timestamp));
    assert(s.subrange(12, 12 + d.len() as int) =~= d);
}

} // verus!
