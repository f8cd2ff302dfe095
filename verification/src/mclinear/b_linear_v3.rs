//! The bucketed linear v3 format: a header, a table of 16 bucket offsets,
//! then up to 16 buckets of 64 chunks, each bucket one zstd frame.

use vstd::prelude::*;
use vstd::slice::slice_to_vec;

use crate::bytes::be_u32_at;
use crate::bytes::be_u64_at;
use crate::bytes::be_value;
use crate::bytes::bytes_view;
use crate::bytes::has_magic_at;
use crate::bytes::lemma_i8_bits;
use crate::bytes::lemma_u32_be_roundtrip;
use crate::bytes::lemma_u64_be_roundtrip;
use crate::bytes::push_u32_be;
use crate::bytes::push_u64_be;
use crate::bytes::read_bytes;
use crate::bytes::read_u32_be;
use crate::bytes::read_u64_be;
use crate::bytes::u32_be;
use crate::bytes::u64_be;
use crate::codec::xxh32;
use crate::codec::xxh32_of;
use crate::codec::zstd_compress;
use crate::codec::zstd_compressed;
use crate::codec::zstd_decompress;
use crate::codec::zstd_decompressed;
use crate::error::Error;
use crate::region::Chunk;

verus! {

/// The eight bytes that open a v3 file.
pub const MAGIC: [u8; 8] = [0xFF, 0xFF, 0xDF, 0xF7, 0xED, 0xDA, 0xFD, 0x97];

/// The header of a v3 file (after the magic, big-endian).
#[derive(Debug, Clone, Copy, PartialEq, Eq, Structural)]
pub struct Header {
    pub version: u8,
    pub zstd_level: i8,
    pub xxhash32_seed: u32,
}

/// The 14 bytes of a header: magic, version, level, seed.
pub open spec fn header_bytes(h: Header) -> Seq<u8> {
    MAGIC@ + seq![h.version, h.zstd_level as u8] + u32_be(h.xxhash32_seed)
}

/// Reading a header at `pos`.
pub open spec fn header_read(s: Seq<u8>, pos: int) -> Result<Header, Error> {
    if pos + 8 > s.len() {
        Err(Error::UnexpectedEof)
    } else if s.subrange(pos, pos + 8) != MAGIC@ {
        Err(Error::BadMagic)
    } else if pos + 14 > s.len() {
        Err(Error::UnexpectedEof)
    } else {
        Ok(Header { version: s[pos + 8], zstd_level: s[pos + 9] as i8, xxhash32_seed: be_u32_at(s, pos + 10) })
    }
}

impl Header {
    /// Reads the header at `pos`.
    pub fn read(data: &[u8], pos: usize) -> (r: Result<Header, Error>)
        ensures
            r == header_read(data@, pos as int),
    {
        if pos > data.len() || data.len() - pos < 8 {
            return Err(Error::UnexpectedEof);
        }
        if !has_magic_at(data, pos, &MAGIC) {
            return Err(Error::BadMagic);
        }
        if data.len() - pos < 14 {
            return Err(Error::UnexpectedEof);
        }
        let xxhash32_seed = read_u32_be(data, pos + 10)?;
        Ok(Header { version: data[pos + 8], zstd_level: data[pos + 9] as i8, xxhash32_seed })
    }

    /// Appends the 14 bytes of the header.
    pub fn write(&self, out: &mut Vec<u8>)
        ensures
            final(out)@ == old(out)@ + header_bytes(*self),
    {
        let ghost before = out@;
        let magic = MAGIC;
        out.extend_from_slice(magic.as_slice());
        out.push(self.version);
        out.push(self.zstd_level as u8);
        push_u32_be(out, self.xxhash32_seed);
        proof {
            assert(final(out)@ =~= before + header_bytes(*self));
        }
    }
}

/// A header reads back as itself, whatever follows it.
pub proof fn lemma_header_roundtrip(h: Header, rest: Seq<u8>)
    ensures
        header_read(header_bytes(h) + rest, 0) == Ok::<Header, Error>(h),
{
    lemma_u32_be_roundtrip(h.xxhash32_seed);
    lemma_i8_bits(h.zstd_level);
    let s = header_bytes(h) + rest;
    assert(s.subrange(0, 8) =~= MAGIC@);
    assert(s.subrange(10, 14) =~= u32_be(h.xxhash32_seed));
}

/// The offsets of the 16 buckets (zero for a bucket with no chunk).
pub struct BucketOffsetTable {
    pub offsets: [u64; 16],
}

impl BucketOffsetTable {
    /// Reads the 16 big-endian offsets stored from `pos`.
    pub fn read(data: &[u8], pos: usize) -> (r: Result<BucketOffsetTable, Error>)
        ensures
            pos + 128 > data@.len() ==> r is Err && r->Err_0 == Error::UnexpectedEof,
            pos + 128 <= data@.len() ==> (r matches Ok(t) && forall|i: int|
                0 <= i < 16 ==> #[trigger] t.offsets@[i] == be_u64_at(data@, pos + 8 * i)),
    {
        if pos > data.len() || data.len() - pos < 128 {
            return Err(Error::UnexpectedEof);
        }
        let mut offsets = [0u64; 16];
        for i in 0..16
            invariant
                pos + 128 <= data@.len(),
                data@.len() == data.len(),
                offsets@.len() == 16,
                forall|k: int| 0 <= k < i ==> #[trigger] offsets@[k] == be_u64_at(data@, pos + 8 * k),
        {
            let v = read_u64_be(data, pos + 8 * i)?;
            offsets[i] = v;
        }
        Ok(BucketOffsetTable { offsets })
    }

    /// Appends the 16 offsets big-endian.
    pub fn write(&self, out: &mut Vec<u8>)
        ensures
            final(out)@ == old(out)@ + offsets_bytes(self.offsets@),
    {
        let ghost before = out@;
        for i in 0..16
            invariant
                self.offsets@.len() == 16,
                out@ == before + offsets_bytes(self.offsets@.take(i as int)),
        {
            push_u64_be(out, self.offsets[i]);
            proof {
                assert(self.offsets@.take(i + 1).drop_last() =~= self.offsets@.take(i as int));
                assert(out@ =~= before + offsets_bytes(self.offsets@.take(i + 1)));
            }
        }
        assert(self.offsets@.take(16) =~= self.offsets@);
    }
}

/// Offsets one after the other, big-endian.
pub open spec fn offsets_bytes(os: Seq<u64>) -> Seq<u8>
    decreases os.len(),
{
    if os.len() == 0 {
        Seq::empty()
    } else {
        offsets_bytes(os.drop_last()) + u64_be(os.last())
    }
}

/// A written offset table reads back as itself, whatever follows it.
pub proof fn lemma_offsets_roundtrip(os: Seq<u64>, rest: Seq<u8>)
    ensures
        offsets_bytes(os).len() == 8 * os.len(),
        forall|i: int| 0 <= i < os.len() ==> #[trigger] be_u64_at(offsets_bytes(os) + rest, 8 * i) == os[i],
    decreases os.len(),
{
    if os.len() > 0 {
        let init = os.drop_last();
        lemma_offsets_roundtrip(init, u64_be(os.last()) + rest);
        lemma_u64_be_roundtrip(os.last());
        let s = offsets_bytes(os) + rest;
        assert(s =~= offsets_bytes(init) + (u64_be(os.last()) + rest));
        assert forall|i: int| 0 <= i < os.len() implies #[trigger] be_u64_at(s, 8 * i) == os[i] by {
            if i < os.len() - 1 {
                assert(init[i] == os[i]);
            } else {
                assert(s.subrange(8 * i, 8 * i + 8) =~= u64_be(os.last()));
            }
        }
    }
}

/// One stored chunk of a bucket: its size, write time, xxhash32 and data.
#[derive(Clone)]
pub struct ChunkData {
    pub chunk_size: u32,
    pub write_timestamp: u64,
    pub xxhash_checksum: u32,
    pub data: Vec<u8>,
}

/// A stored chunk as values: size, write time, checksum, data.
pub type ChunkDataView = (u32, u64, u32, Seq<u8>);

/// The stored chunks as values.
pub open spec fn chunk_data_view(v: Seq<Option<ChunkData>>) -> Seq<Option<ChunkDataView>> {
    Seq::new(
        v.len(),
        |i: int|
            match v[i] {
                Some(c) => Some((c.chunk_size, c.write_timestamp, c.xxhash_checksum, c.data@)),
                None => None,
            },
    )
}

/// The entry of one chunk in a decompressed bucket: an empty chunk is a zero
/// size; any other is its entry size, its length, its timestamp, its
/// xxhash32 and its bytes.
pub open spec fn entry_bytes(c: Chunk, seed: u32) -> Seq<u8> {
    if c.raw_chunk@.len() == 0 {
        u32_be(0)
    } else {
        u32_be((16 + c.raw_chunk@.len()) as u32) + u32_be(c.raw_chunk@.len() as u32) + u64_be(c.timestamps)
            + u32_be(xxh32_of(c.raw_chunk@, seed)) + c.raw_chunk@
    }
}

/// The entries of the chunks one after the other.
pub open spec fn entries_bytes(cs: Seq<Chunk>, seed: u32) -> Seq<u8>
    decreases cs.len(),
{
    if cs.len() == 0 {
        Seq::empty()
    } else {
        entries_bytes(cs.drop_last(), seed) + entry_bytes(cs.last(), seed)
    }
}

/// The size that a bucket header announces for its decompressed entries.
pub open spec fn bucket_raw_size(cs: Seq<Chunk>) -> int
    decreases cs.len(),
{
    if cs.len() == 0 {
        0
    } else {
        bucket_raw_size(cs.drop_last()) + if cs.last().raw_chunk@.len() == 0 {
            4
        } else {
            20 + cs.last().raw_chunk@.len()
        }
    }
}

proof fn lemma_raw_size_prefix(cs: Seq<Chunk>, i: int)
    requires
        0 <= i <= cs.len(),
    ensures
        0 <= bucket_raw_size(cs.take(i)) <= bucket_raw_size(cs),
    decreases cs.len(),
{
    lemma_raw_size_nonneg(cs.take(i));
    if i < cs.len() {
        assert(cs.drop_last().take(i) =~= cs.take(i));
        lemma_raw_size_prefix(cs.drop_last(), i);
    } else {
        assert(cs.take(i) =~= cs);
    }
}

proof fn lemma_raw_size_nonneg(cs: Seq<Chunk>)
    ensures
        bucket_raw_size(cs) >= 0,
    decreases cs.len(),
{
    if cs.len() > 0 {
        lemma_raw_size_nonneg(cs.drop_last());
    }
}

/// Every chunk is small enough for its entry size (its length plus 16) to fit a `u32`.
pub open spec fn chunks_fit(cs: Seq<Chunk>) -> bool {
    forall|i: int| 0 <= i < cs.len() ==> (#[trigger] cs[i]).raw_chunk@.len() + 16 <= u32::MAX
}

/// A bucket whose raw size fits a `u32` has every chunk's entry size fit too.
proof fn lemma_raw_size_fits(cs: Seq<Chunk>)
    requires
        bucket_raw_size(cs) <= u32::MAX,
    ensures
        chunks_fit(cs),
    decreases cs.len(),
{
    if cs.len() > 0 {
        lemma_raw_size_nonneg(cs.drop_last());
        lemma_raw_size_fits(cs.drop_last());
        assert forall|i: int| 0 <= i < cs.len() implies (#[trigger] cs[i]).raw_chunk@.len() + 16 <= u32::MAX by {
            if i < cs.len() - 1 {
                assert(cs.drop_last()[i] == cs[i]);
            }
        }
    }
}

/// Writes the decompressed entries of a bucket.
fn serialize_bucket_data(chunks: &[Chunk], seed: u32) -> (out: Vec<u8>)
    requires
        chunks_fit(chunks@),
    ensures
        out@ == entries_bytes(chunks@, seed),
{
    let mut out: Vec<u8> = Vec::new();
    let n = chunks.len();
    for i in 0..n
        invariant
            n == chunks@.len(),
            chunks_fit(chunks@),
            out@ == entries_bytes(chunks@.take(i as int), seed),
    {
        proof {
            assert(chunks@.take(i + 1).drop_last() =~= chunks@.take(i as int));
            assert(chunks@.take(i + 1).last() == chunks@[i as int]);
            assert(chunks@[i as int].raw_chunk@.len() + 16 <= u32::MAX);
        }
        let ghost before = out@;
        let c = &chunks[i];
        let len = c.raw_chunk.len();
        if len != 0 {
            let checksum = xxh32(c.raw_chunk.as_slice(), seed);
            push_u32_be(&mut out, 16 + len as u32);
            push_u32_be(&mut out, len as u32);
            push_u64_be(&mut out, c.timestamps);
            push_u32_be(&mut out, checksum);
            out.extend_from_slice(c.raw_chunk.as_slice());
        } else {
            push_u32_be(&mut out, 0);
        }
        proof {
            assert(out@ =~= before + entry_bytes(chunks@[i as int], seed));
        }
    }
    assert(chunks@.take(n as int) =~= chunks@);
    out
}

/// A written bucket: the announced raw size, the length of the zstd frame,
/// then the frame.
pub open spec fn bucket_frame(raw_size: u32, compressed: Seq<u8>) -> Seq<u8> {
    u32_be(raw_size) + u32_be(compressed.len() as u32) + compressed
}

/// Writing a bucket of chunks: their entries compressed with zstd (no
/// content checksum) at `level`.
pub open spec fn bucket_bytes(cs: Seq<Chunk>, seed: u32, level: i32) -> Result<Seq<u8>, Error> {
    match zstd_compressed(entries_bytes(cs, seed), level, false) {
        None => Err(Error::Compress),
        Some(c) => Ok(bucket_frame(bucket_raw_size(cs) as u32, c)),
    }
}

/// Writes one bucket: the entries of its chunks (checksummed with xxhash32
/// and `seed`), compressed with zstd at `compression_level`, after the
/// announced raw size and the compressed length.
pub fn serialize_bucket(chunks: &[Chunk], seed: u32, compression_level: i32) -> (r: Result<Vec<u8>, Error>)
    requires
        bucket_raw_size(chunks@) <= u32::MAX,
    ensures
        bytes_view(r) == bucket_bytes(chunks@, seed, compression_level),
        r is Ok ==> zstd_decompressed(zstd_compressed(entries_bytes(chunks@, seed), compression_level, false)->Some_0)
            == Some(entries_bytes(chunks@, seed)),
{
    proof {
        lemma_raw_size_fits(chunks@);
    }
    let payload = serialize_bucket_data(chunks, seed);
    let data = match zstd_compress(payload.as_slice(), compression_level, false) {
        Some(d) => d,
        None => {
            return Err(Error::Compress);
        },
    };
    let mut raw_size: u32 = 0;
    let n = chunks.len();
    for i in 0..n
        invariant
            n == chunks@.len(),
            bucket_raw_size(chunks@) <= u32::MAX,
            raw_size == bucket_raw_size(chunks@.take(i as int)),
    {
        proof {
            assert(chunks@.take(i + 1).drop_last() =~= chunks@.take(i as int));
            assert(chunks@.take(i + 1).last() == chunks@[i as int]);
            lemma_raw_size_prefix(chunks@, i + 1);
            lemma_raw_size_nonneg(chunks@.take(i as int));
        }
        if chunks[i].is_empty() {
            raw_size = raw_size + 4;
        } else {
            raw_size = raw_size + 20 + chunks[i].raw_chunk.len() as u32;
        }
    }
    assert(chunks@.take(n as int) =~= chunks@);
    let mut out: Vec<u8> = Vec::new();
    push_u32_be(&mut out, raw_size);
    push_u32_be(&mut out, data.len() as u32);
    out.extend_from_slice(data.as_slice());
    proof {
        assert(out@ =~= bucket_frame(raw_size, data@));
    }
    Ok(out)
}

/// Puts one stored chunk in front of a successful read; keeps an error.
pub open spec fn prepend_entry(e: Option<ChunkDataView>, r: Result<Seq<Option<ChunkDataView>>, Error>) -> Result<
    Seq<Option<ChunkDataView>>,
    Error,
> {
    match r {
        Ok(rest) => Ok(seq![e] + rest),
        Err(err) => Err(err),
    }
}

/// Reading `k` entries of a decompressed bucket from `pos`: a zero size is an
/// empty chunk; any other size must cover the 16 bytes of length, timestamp
/// and checksum, and the rest is the data.
pub open spec fn entries_read(s: Seq<u8>, pos: int, k: nat) -> Result<Seq<Option<ChunkDataView>>, Error>
    decreases k,
{
    if k == 0 {
        Ok(Seq::empty())
    } else if pos < 0 || pos + 4 > s.len() {
        Err(Error::UnexpectedEof)
    } else {
        let es = be_u32_at(s, pos);
        if es == 0 {
            prepend_entry(None, entries_read(s, pos + 4, (k - 1) as nat))
        } else if pos + 4 + es > s.len() || es < 16 {
            Err(Error::UnexpectedEof)
        } else {
            prepend_entry(
                Some(
                    (
                        be_u32_at(s, pos + 4),
                        be_u64_at(s, pos + 8),
                        be_u32_at(s, pos + 16),
                        s.subrange(pos + 20, pos + 4 + es),
                    ),
                ),
                entries_read(s, pos + 4 + es, (k - 1) as nat),
            )
        }
    }
}

proof fn lemma_entries_read_len(s: Seq<u8>, pos: int, k: nat)
    ensures
        entries_read(s, pos, k) matches Ok(v) ==> v.len() == k,
    decreases k,
{
    if k > 0 && pos >= 0 && pos + 4 <= s.len() {
        let es = be_u32_at(s, pos);
        if es == 0 {
            lemma_entries_read_len(s, pos + 4, (k - 1) as nat);
        } else if !(pos + 4 + es > s.len() || es < 16) {
            lemma_entries_read_len(s, pos + 4 + es, (k - 1) as nat);
        }
    }
}

/// The stored chunk that writing `c` gives: none for an empty chunk, else its
/// length, its timestamp, its xxhash32 and its bytes.
pub open spec fn stored_entry(c: Chunk, seed: u32) -> Option<ChunkDataView> {
    if c.raw_chunk@.len() == 0 {
        None
    } else {
        Some((c.raw_chunk@.len() as u32, c.timestamps, xxh32_of(c.raw_chunk@, seed), c.raw_chunk@))
    }
}

/// The stored chunks that writing `cs` gives.
pub open spec fn stored_entries(cs: Seq<Chunk>, seed: u32) -> Seq<Option<ChunkDataView>> {
    Seq::new(cs.len(), |i: int| stored_entry(cs[i], seed))
}

proof fn lemma_entries_bytes_cons(cs: Seq<Chunk>, seed: u32)
    requires
        cs.len() > 0,
    ensures
        entries_bytes(cs, seed) == entry_bytes(cs[0], seed) + entries_bytes(cs.drop_first(), seed),
    decreases cs.len(),
{
    if cs.len() == 1 {
        assert(cs.drop_last() =~= Seq::<Chunk>::empty());
        assert(cs.drop_first() =~= Seq::<Chunk>::empty());
        assert(entries_bytes(cs.drop_last(), seed) =~= Seq::<u8>::empty());
        assert(cs.last() == cs[0]);
        assert(entries_bytes(cs, seed) =~= entry_bytes(cs[0], seed));
        assert(entry_bytes(cs[0], seed) + Seq::<u8>::empty() =~= entry_bytes(cs[0], seed));
    } else {
        lemma_entries_bytes_cons(cs.drop_last(), seed);
        assert(cs.drop_last().drop_first() =~= cs.drop_first().drop_last());
        assert(cs.drop_first().last() == cs.last());
        assert(cs.drop_last()[0] == cs[0]);
        assert(entries_bytes(cs, seed) =~= entry_bytes(cs[0], seed) + entries_bytes(cs.drop_first(), seed));
    }
}

/// The fields of a written entry, read where the entry stands.
proof fn lemma_entry_fields(c: Chunk, seed: u32, s: Seq<u8>, pos: int)
    requires
        0 <= pos,
        pos + entry_bytes(c, seed).len() <= s.len(),
        s.subrange(pos, pos + entry_bytes(c, seed).len()) == entry_bytes(c, seed),
        c.raw_chunk@.len() + 16 <= u32::MAX,
    ensures
        c.raw_chunk@.len() == 0 ==> entry_bytes(c, seed).len() == 4 && be_u32_at(s, pos) == 0,
        c.raw_chunk@.len() > 0 ==> {
            &&& entry_bytes(c, seed).len() == 20 + c.raw_chunk@.len()
            &&& be_u32_at(s, pos) == 16 + c.raw_chunk@.len()
            &&& be_u32_at(s, pos + 4) == c.raw_chunk@.len()
            &&& be_u64_at(s, pos + 8) == c.timestamps
            &&& be_u32_at(s, pos + 16) == xxh32_of(c.raw_chunk@, seed)
            &&& s.subrange(pos + 20, pos + 20 + c.raw_chunk@.len()) == c.raw_chunk@
        },
{
    let e = entry_bytes(c, seed);
    let raw = c.raw_chunk@;
    if raw.len() == 0 {
        lemma_u32_be_roundtrip(0);
        assert(s.subrange(pos, pos + 4) =~= e);
    } else {
        let len = raw.len() as int;
        let a = (16 + len) as u32;
        let x = xxh32_of(raw, seed);
        lemma_u32_be_roundtrip(a);
        lemma_u32_be_roundtrip(len as u32);
        lemma_u64_be_roundtrip(c.timestamps);
        lemma_u32_be_roundtrip(x);
        assert(e.subrange(0, 4) =~= u32_be(a));
        assert(e.subrange(4, 8) =~= u32_be(len as u32));
        assert(e.subrange(8, 16) =~= u64_be(c.timestamps));
        assert(e.subrange(16, 20) =~= u32_be(x));
        assert(e.subrange(20, 20 + len) =~= raw);
        assert(s.subrange(pos, pos + 4) =~= e.subrange(0, 4));
        assert(s.subrange(pos + 4, pos + 8) =~= e.subrange(4, 8));
        assert(s.subrange(pos + 8, pos + 16) =~= e.subrange(8, 16));
        assert(s.subrange(pos + 16, pos + 20) =~= e.subrange(16, 20));
        assert(s.subrange(pos + 20, pos + 20 + len) =~= e.subrange(20, 20 + len));
    }
}

/// The entries written for `cs` (what `serialize_bucket` compresses) read
/// back as the stored chunks of `cs`, whatever stands before and after them:
/// for a bucket of 64 chunks, `deserialize_bucket_data` on the written
/// entries gives, chunk by chunk, none for an empty chunk and else its length,
/// timestamp, xxhash32 and bytes.
pub proof fn lemma_entries_read_written(cs: Seq<Chunk>, seed: u32, p: Seq<u8>, r: Seq<u8>)
    requires
        chunks_fit(cs),
    ensures
        entries_read(p + entries_bytes(cs, seed) + r, p.len() as int, cs.len()) == Ok::<
            Seq<Option<ChunkDataView>>,
            Error,
        >(stored_entries(cs, seed)),
    decreases cs.len(),
{
    if cs.len() == 0 {
        assert(stored_entries(cs, seed) =~= Seq::<Option<ChunkDataView>>::empty());
    } else {
        let c = cs[0];
        let rest = cs.drop_first();
        lemma_entries_bytes_cons(cs, seed);
        assert(chunks_fit(rest)) by {
            assert forall|i: int| 0 <= i < rest.len() implies (#[trigger] rest[i]).raw_chunk@.len() + 16
                <= u32::MAX by {
                assert(rest[i] == cs[i + 1]);
            }
        }
        assert(c.raw_chunk@.len() + 16 <= u32::MAX);
        let e = entry_bytes(c, seed);
        let s = p + entries_bytes(cs, seed) + r;
        let p2 = p + e;
        assert(s =~= p2 + entries_bytes(rest, seed) + r);
        lemma_entries_read_written(rest, seed, p2, r);
        let pos = p.len() as int;
        assert(s.subrange(pos, pos + e.len()) =~= e);
        lemma_entry_fields(c, seed, s, pos);
        assert(stored_entries(cs, seed) =~= seq![stored_entry(c, seed)] + stored_entries(rest, seed));
    }
}

/// Reads the 64 entries of a decompressed bucket.
pub fn deserialize_bucket_data(dec: &[u8]) -> (r: Result<Vec<Option<ChunkData>>, Error>)
    ensures
        match r {
            Ok(v) => entries_read(dec@, 0, 64) == Ok::<Seq<Option<ChunkDataView>>, Error>(chunk_data_view(v@)),
            Err(e) => entries_read(dec@, 0, 64) == Err::<Seq<Option<ChunkDataView>>, Error>(e),
        },
{
    let ghost total = entries_read(dec@, 0, 64);
    let mut chunks: Vec<Option<ChunkData>> = Vec::new();
    let mut pos: usize = 0;
    proof {
        match total {
            Ok(rest) => {
                assert(chunk_data_view(chunks@) + rest =~= rest);
            },
            Err(e) => {},
        }
    }
    for i in 0..64
        invariant
            pos <= dec@.len(),
            dec@.len() == dec.len(),
            total == entries_read(dec@, 0, 64),
            total == match entries_read(dec@, pos as int, (64 - i) as nat) {
                Ok(rest) => Ok(chunk_data_view(chunks@) + rest),
                Err(e) => Err::<Seq<Option<ChunkDataView>>, Error>(e),
            },
    {
        let ghost before = chunk_data_view(chunks@);
        let entry_size = match read_u32_be(dec, pos) {
            Ok(v) => v,
            Err(e) => {
                return Err(e);
            },
        };
        if entry_size == 0 {
            chunks.push(None);
            proof {
                assert(chunk_data_view(chunks@) =~= before.push(None));
                match entries_read(dec@, pos + 4, (64 - i - 1) as nat) {
                    Ok(rest) => {
                        assert(before + (seq![None] + rest) =~= before.push(None) + rest);
                    },
                    Err(e) => {},
                }
            }
            pos = pos + 4;
        } else {
            if dec.len() - (pos + 4) < entry_size as usize || entry_size < 16 {
                return Err(Error::UnexpectedEof);
            }
            let start = pos + 4;
            let chunk_size = read_u32_be(dec, start)?;
            let write_timestamp = read_u64_be(dec, start + 4)?;
            let xxhash_checksum = read_u32_be(dec, start + 12)?;
            let data = slice_to_vec(&dec[start + 16..start + entry_size as usize]);
            let ghost e = Some((chunk_size, write_timestamp, xxhash_checksum, data@));
            chunks.push(Some(ChunkData { chunk_size, write_timestamp, xxhash_checksum, data }));
            proof {
                assert(chunk_data_view(chunks@) =~= before.push(e));
                match entries_read(dec@, pos + 4 + entry_size, (64 - i - 1) as nat) {
                    Ok(rest) => {
                        assert(before + (seq![e] + rest) =~= before.push(e) + rest);
                    },
                    Err(e) => {},
                }
            }
            pos = start + entry_size as usize;
        }
    }
    proof {
        assert(chunk_data_view(chunks@) + Seq::<Option<ChunkDataView>>::empty() =~= chunk_data_view(chunks@));
    }
    Ok(chunks)
}

/// Reading one bucket at `pos`: raw size, compressed length, the zstd frame,
/// and its 64 entries; with the position after the frame.
pub open spec fn bucket_read(s: Seq<u8>, pos: int) -> Result<(Seq<Option<ChunkDataView>>, int), Error> {
    if pos + 8 > s.len() {
        Err(Error::UnexpectedEof)
    } else {
        let frame_len = be_u32_at(s, pos + 4);
        if pos + 8 + frame_len > s.len() {
            Err(Error::UnexpectedEof)
        } else {
            match zstd_decompressed(s.subrange(pos + 8, pos + 8 + frame_len)) {
                None => Err(Error::Decompress),
                Some(d) => match entries_read(d, 0, 64) {
                    Ok(es) => Ok((es, pos + 8 + frame_len)),
                    Err(e) => Err(e),
                },
            }
        }
    }
}

/// Reads one bucket at `pos`: its 64 entries (`None` for an empty chunk) and
/// the position after it.
pub fn deserialize_bucket(data: &[u8], pos: usize) -> (r: Result<(Vec<Option<ChunkData>>, usize), Error>)
    ensures
        match r {
            Ok((v, end)) => bucket_read(data@, pos as int) == Ok::<(Seq<Option<ChunkDataView>>, int), Error>(
                (chunk_data_view(v@), end as int),
            ),
            Err(e) => bucket_read(data@, pos as int) == Err::<(Seq<Option<ChunkDataView>>, int), Error>(e),
        },
{
    if pos > data.len() || data.len() - pos < 8 {
        return Err(Error::UnexpectedEof);
    }
    let _raw_size = read_u32_be(data, pos)?;
    let frame_len = read_u32_be(data, pos + 4)? as usize;
    let compress_buffer = read_bytes(data, pos + 8, frame_len)?;
    let decompressed = match zstd_decompress(compress_buffer.as_slice()) {
        Some(d) => d,
        None => {
            return Err(Error::Decompress);
        },
    };
    let entries = deserialize_bucket_data(decompressed.as_slice())?;
    Ok((entries, pos + 8 + frame_len))
}

/// Puts one bucket in front of a successful read; keeps an error.
pub open spec fn prepend_bucket(
    b: Seq<Option<ChunkDataView>>,
    r: Result<(Seq<Seq<Option<ChunkDataView>>>, int), Error>,
) -> Result<(Seq<Seq<Option<ChunkDataView>>>, int), Error> {
    match r {
        Ok((rest, p)) => Ok((seq![b] + rest, p)),
        Err(e) => Err(e),
    }
}

/// A bucket with no chunk.
pub open spec fn empty_bucket() -> Seq<Option<ChunkDataView>> {
    Seq::new(64, |i: int| None)
}

/// Reading the buckets that the offset table lists, one after the other from
/// `pos`: a zero offset is a bucket with no chunk and reads nothing.
pub open spec fn all_buckets_read(s: Seq<u8>, pos: int, offsets: Seq<u64>) -> Result<
    (Seq<Seq<Option<ChunkDataView>>>, int),
    Error,
>
    decreases offsets.len(),
{
    if offsets.len() == 0 {
        Ok((Seq::empty(), pos))
    } else if offsets[0] == 0 {
        prepend_bucket(empty_bucket(), all_buckets_read(s, pos, offsets.drop_first()))
    } else {
        match bucket_read(s, pos) {
            Err(e) => Err(e),
            Ok((b, p)) => prepend_bucket(b, all_buckets_read(s, p, offsets.drop_first())),
        }
    }
}

/// The buckets as values.
pub open spec fn buckets_view(v: Seq<Vec<Option<ChunkData>>>) -> Seq<Seq<Option<ChunkDataView>>> {
    Seq::new(v.len(), |i: int| chunk_data_view(v[i]@))
}

/// Reads the 16 buckets that the offset table lists, from `pos`, and the
/// position after the last one read.
pub fn deserialize_all_bucket(data: &[u8], pos: usize, offset_table: [u64; 16]) -> (r: Result<
    (Vec<Vec<Option<ChunkData>>>, usize),
    Error,
>)
    ensures
        match r {
            Ok((v, end)) => all_buckets_read(data@, pos as int, offset_table@) == Ok::<
                (Seq<Seq<Option<ChunkDataView>>>, int),
                Error,
            >((buckets_view(v@), end as int)),
            Err(e) => all_buckets_read(data@, pos as int, offset_table@) == Err::<
                (Seq<Seq<Option<ChunkDataView>>>, int),
                Error,
            >(e),
        },
{
    let ghost total = all_buckets_read(data@, pos as int, offset_table@);
    let mut result: Vec<Vec<Option<ChunkData>>> = Vec::new();
    let mut cur = pos;
    proof {
        assert(offset_table@.skip(0) =~= offset_table@);
        match total {
            Ok((rest, p)) => {
                assert(buckets_view(result@) + rest =~= rest);
            },
            Err(e) => {},
        }
    }
    for i in 0..16
        invariant
            offset_table@.len() == 16,
            total == all_buckets_read(data@, pos as int, offset_table@),
            total == match all_buckets_read(data@, cur as int, offset_table@.skip(i as int)) {
                Ok((rest, p)) => Ok((buckets_view(result@) + rest, p)),
                Err(e) => Err::<(Seq<Seq<Option<ChunkDataView>>>, int), Error>(e),
            },
    {
        let ghost before = buckets_view(result@);
        proof {
            assert(offset_table@.skip(i as int)[0] == offset_table@[i as int]);
            assert(offset_table@.skip(i as int).drop_first() =~= offset_table@.skip(i + 1));
        }
        if offset_table[i] == 0 {
            let mut empty: Vec<Option<ChunkData>> = Vec::new();
            for k in 0..64
                invariant
                    empty@.len() == k,
                    forall|t: int| 0 <= t < k ==> (#[trigger] empty@[t]) is None,
            {
                empty.push(None);
            }
            assert(chunk_data_view(empty@) =~= empty_bucket());
            result.push(empty);
            proof {
                assert(buckets_view(result@) =~= before.push(empty_bucket()));
                match all_buckets_read(data@, cur as int, offset_table@.skip(i + 1)) {
                    Ok((rest, p)) => {
                        assert(before + (seq![empty_bucket()] + rest) =~= before.push(empty_bucket()) + rest);
                    },
                    Err(e) => {},
                }
            }
        } else {
            let (bucket, next) = match deserialize_bucket(data, cur) {
                Ok(x) => x,
                Err(e) => {
                    return Err(e);
                },
            };
            let ghost bv = chunk_data_view(bucket@);
            result.push(bucket);
            proof {
                assert(buckets_view(result@) =~= before.push(bv));
                match all_buckets_read(data@, next as int, offset_table@.skip(i + 1)) {
                    Ok((rest, p)) => {
                        assert(before + (seq![bv] + rest) =~= before.push(bv) + rest);
                    },
                    Err(e) => {},
                }
            }
            cur = next;
        }
    }
    proof {
        assert(offset_table@.skip(16) =~= Seq::<u64>::empty());
        assert(buckets_view(result@) + Seq::<Seq<Option<ChunkDataView>>>::empty() =~= buckets_view(result@));
    }
    Ok((result, cur))
}

proof fn lemma_all_buckets_shape(s: Seq<u8>, pos: int, offsets: Seq<u64>)
    ensures
        all_buckets_read(s, pos, offsets) matches Ok((bs, p)) ==> bs.len() == offsets.len() && forall|b: int|
            0 <= b < bs.len() ==> (#[trigger] bs[b]).len() == 64,
    decreases offsets.len(),
{
    if offsets.len() > 0 {
        if offsets[0] == 0 {
            lemma_all_buckets_shape(s, pos, offsets.drop_first());
            if let Ok((bs, p)) = all_buckets_read(s, pos, offsets) {
                assert forall|b: int| 0 <= b < bs.len() implies (#[trigger] bs[b]).len() == 64 by {
                    if b > 0 {
                        let rest = all_buckets_read(s, pos, offsets.drop_first())->Ok_0.0;
                        assert(bs[b] == rest[b - 1]);
                    }
                }
            }
        } else {
            match bucket_read(s, pos) {
                Err(e) => {},
                Ok((b0, p)) => {
                    lemma_all_buckets_shape(s, p, offsets.drop_first());
                    let frame_len = be_u32_at(s, pos + 4);
                    lemma_entries_read_len(zstd_decompressed(s.subrange(pos + 8, pos + 8 + frame_len))->Some_0, 0, 64);
                    if let Ok((bs, q)) = all_buckets_read(s, pos, offsets) {
                        assert forall|b: int| 0 <= b < bs.len() implies (#[trigger] bs[b]).len() == 64 by {
                            if b > 0 {
                                let rest = all_buckets_read(s, p, offsets.drop_first())->Ok_0.0;
                                assert(bs[b] == rest[b - 1]);
                            }
                        }
                    }
                },
            }
        }
    }
}

/// A bucket of 64 chunks written by `serialize_bucket` reads back with
/// `deserialize_bucket` as their stored chunks, ending just after the frame,
/// where the zstd frame gives the entries back (as `serialize_bucket`
/// ensures of its frame) and its length fits the four bytes that announce it.
pub proof fn lemma_bucket_read_written(b: Seq<Chunk>, seed: u32, level: i32, p: Seq<u8>, r: Seq<u8>)
    requires
        b.len() == 64,
        chunks_fit(b),
        zstd_compressed(entries_bytes(b, seed), level, false) is Some,
        zstd_compressed(entries_bytes(b, seed), level, false)->Some_0.len() <= u32::MAX,
        zstd_decompressed(zstd_compressed(entries_bytes(b, seed), level, false)->Some_0) == Some(
            entries_bytes(b, seed),
        ),
    ensures
        ({
            let c = zstd_compressed(entries_bytes(b, seed), level, false)->Some_0;
            bucket_read(p + bucket_frame(bucket_raw_size(b) as u32, c) + r, p.len() as int) == Ok::<
                (Seq<Option<ChunkDataView>>, int),
                Error,
            >((stored_entries(b, seed), p.len() + 8 + c.len() as int))
        }),
{
    let c = zstd_compressed(entries_bytes(b, seed), level, false)->Some_0;
    let f = bucket_frame(bucket_raw_size(b) as u32, c);
    let s = p + f + r;
    let pos = p.len() as int;
    lemma_u32_be_roundtrip(bucket_raw_size(b) as u32);
    lemma_u32_be_roundtrip(c.len() as u32);
    assert(s.subrange(pos + 4, pos + 8) =~= u32_be(c.len() as u32));
    assert(s.subrange(pos + 8, pos + 8 + c.len()) =~= c);
    let d = entries_bytes(b, seed);
    lemma_entries_read_written(b, seed, Seq::empty(), Seq::empty());
    assert(Seq::<u8>::empty() + d + Seq::<u8>::empty() =~= d);
}

/// Reading one more offset reads one more bucket after the others.
proof fn lemma_all_buckets_read_push(s: Seq<u8>, pos: int, offs: Seq<u64>, o: u64)
    ensures
        all_buckets_read(s, pos, offs.push(o)) == match all_buckets_read(s, pos, offs) {
            Err(e) => Err(e),
            Ok((bs, q)) => if o == 0 {
                Ok((bs.push(empty_bucket()), q))
            } else {
                match bucket_read(s, q) {
                    Err(e) => Err(e),
                    Ok((b, q2)) => Ok((bs.push(b), q2)),
                }
            },
        },
    decreases offs.len(),
{
    let all = offs.push(o);
    if offs.len() == 0 {
        assert(all.drop_first() =~= Seq::<u64>::empty());
        assert(seq![empty_bucket()] + Seq::<Seq<Option<ChunkDataView>>>::empty() =~= Seq::<
            Seq<Option<ChunkDataView>>,
        >::empty().push(empty_bucket()));
        if o != 0 {
            match bucket_read(s, pos) {
                Err(e) => {},
                Ok((b, q2)) => {
                    assert(seq![b] + Seq::<Seq<Option<ChunkDataView>>>::empty() =~= Seq::<
                        Seq<Option<ChunkDataView>>,
                    >::empty().push(b));
                },
            }
        }
    } else {
        assert(all.drop_first() =~= offs.drop_first().push(o));
        assert(all[0] == offs[0]);
        if offs[0] == 0 {
            lemma_all_buckets_read_push(s, pos, offs.drop_first(), o);
            match all_buckets_read(s, pos, offs.drop_first()) {
                Err(e) => {},
                Ok((bs, q)) => {
                    assert((seq![empty_bucket()] + bs).push(empty_bucket()) =~= seq![empty_bucket()] + bs.push(
                        empty_bucket(),
                    ));
                    if o != 0 {
                        match bucket_read(s, q) {
                            Err(e) => {},
                            Ok((b, q2)) => {
                                assert((seq![empty_bucket()] + bs).push(b) =~= seq![empty_bucket()] + bs.push(b));
                            },
                        }
                    }
                },
            }
        } else {
            match bucket_read(s, pos) {
                Err(e) => {},
                Ok((b0, p0)) => {
                    lemma_all_buckets_read_push(s, p0, offs.drop_first(), o);
                    match all_buckets_read(s, p0, offs.drop_first()) {
                        Err(e) => {},
                        Ok((bs, q)) => {
                            assert((seq![b0] + bs).push(empty_bucket()) =~= seq![b0] + bs.push(empty_bucket()));
                            if o != 0 {
                                match bucket_read(s, q) {
                                    Err(e) => {},
                                    Ok((b, q2)) => {
                                        assert((seq![b0] + bs).push(b) =~= seq![b0] + bs.push(b));
                                    },
                                }
                            }
                        },
                    }
                },
            }
        }
    }
}

/// Compressing the entries of a bucket with chunks gave a frame that gives
/// them back.
pub open spec fn bucket_reversible(b: Seq<Chunk>, seed: u32, level: i32) -> bool {
    !all_empty(b) ==> match zstd_compressed(entries_bytes(b, seed), level, false) {
        Some(c) => zstd_decompressed(c) == Some(entries_bytes(b, seed)),
        None => true,
    }
}

/// The zstd frame of a bucket is no longer than its four-byte length can say.
pub open spec fn frame_fits(b: Seq<Chunk>, seed: u32, level: i32) -> bool {
    match zstd_compressed(entries_bytes(b, seed), level, false) {
        Some(c) => c.len() <= u32::MAX,
        None => true,
    }
}

/// Every bucket's frame fits its length field.
pub open spec fn frames_fit(cs: Seq<Chunk>, seed: u32, level: i32) -> bool {
    forall|k: int| 0 <= k < 16 ==> #[trigger] frame_fits(bucket_of(cs, k), seed, level)
}

/// The stored chunks of the first `k` buckets.
pub open spec fn buckets_stored(cs: Seq<Chunk>, seed: u32, k: nat) -> Seq<Seq<Option<ChunkDataView>>> {
    Seq::new(k, |j: int| stored_entries(bucket_of(cs, j), seed))
}

/// The first `k` buckets written for 1024 chunks at `start` read back from
/// `start` as the stored chunks of those buckets.
proof fn lemma_buckets_read_written(cs: Seq<Chunk>, seed: u32, level: i32, start: int, k: nat, p: Seq<u8>, r: Seq<u8>)
    requires
        cs.len() == 1024,
        k <= 16,
        start > 0,
        p.len() == start,
        buckets_written(cs, seed, level, start, k) is Ok,
        forall|j: int| 0 <= j < 16 ==> bucket_raw_size(#[trigger] bucket_of(cs, j)) <= u32::MAX,
        forall|j: int| 0 <= j < k ==> #[trigger] bucket_reversible(bucket_of(cs, j), seed, level),
        frames_fit(cs, seed, level),
    ensures
        ({
            let w = buckets_written(cs, seed, level, start, k)->Ok_0;
            all_buckets_read(p + w.1 + r, start, w.0) == Ok::<(Seq<Seq<Option<ChunkDataView>>>, int), Error>(
                (buckets_stored(cs, seed, k), start + w.1.len()),
            )
        }),
    decreases k,
{
    let w = buckets_written(cs, seed, level, start, k)->Ok_0;
    if k == 0 {
        assert(p + w.1 + r =~= p + r);
        assert(buckets_stored(cs, seed, k) =~= Seq::<Seq<Option<ChunkDataView>>>::empty());
    } else {
        let prev = buckets_written(cs, seed, level, start, (k - 1) as nat)->Ok_0;
        let b = bucket_of(cs, k - 1);
        assert(b.len() == 64);
        assert(buckets_stored(cs, seed, k) =~= buckets_stored(cs, seed, (k - 1) as nat).push(stored_entries(b, seed)));
        if all_empty(b) {
            assert(w.1 == prev.1);
            assert(w.0 == prev.0.push(0));
            lemma_buckets_read_written(cs, seed, level, start, (k - 1) as nat, p, r);
            lemma_all_buckets_read_push(p + w.1 + r, start, prev.0, 0);
            assert forall|i: int| 0 <= i < 64 implies #[trigger] stored_entries(b, seed)[i] == empty_bucket()[i] by {
                assert(b[i].raw_chunk@.len() == 0);
            }
            assert(stored_entries(b, seed) =~= empty_bucket());
        } else {
            let bb = bucket_bytes(b, seed, level)->Ok_0;
            let c = zstd_compressed(entries_bytes(b, seed), level, false)->Some_0;
            assert(bucket_reversible(b, seed, level));
            assert(frame_fits(b, seed, level));
            assert(w.1 == prev.1 + bb);
            assert(w.0 == prev.0.push((start + prev.1.len()) as u64));
            lemma_buckets_read_written(cs, seed, level, start, (k - 1) as nat, p, bb + r);
            assert(p + w.1 + r =~= p + prev.1 + (bb + r));
            assert(p + w.1 + r =~= (p + prev.1) + bb + r);
            lemma_all_buckets_read_push(p + w.1 + r, start, prev.0, (start + prev.1.len()) as u64);
            lemma_raw_size_fits(b);
            lemma_bucket_read_written(b, seed, level, p + prev.1, r);
            lemma_u32_be_roundtrip(bucket_raw_size(b) as u32);
            lemma_u32_be_roundtrip(c.len() as u32);
            assert(bb == bucket_frame(bucket_raw_size(b) as u32, c));
            assert(bb.len() == 8 + c.len());
            assert((start + prev.1.len()) as u64 != 0);
        }
    }
}

/// Reading a bucket at `pos` gives the stored chunks of `b`.
pub open spec fn reads_bucket(s: Seq<u8>, pos: int, b: Seq<Chunk>, seed: u32) -> bool {
    match bucket_read(s, pos) {
        Ok((entries, _)) => entries == stored_entries(b, seed),
        Err(_) => false,
    }
}

/// Each offset written for the first `k` buckets at `start` is zero for a
/// bucket of empty chunks, and else the file position where that bucket's
/// bytes begin: reading a bucket there gives its chunks.
pub proof fn lemma_bucket_offsets_read(cs: Seq<Chunk>, seed: u32, level: i32, start: int, k: nat, p: Seq<u8>, r: Seq<u8>)
    requires
        cs.len() == 1024,
        k <= 16,
        start > 0,
        p.len() == start,
        buckets_written(cs, seed, level, start, k) is Ok,
        forall|j: int| 0 <= j < 16 ==> bucket_raw_size(#[trigger] bucket_of(cs, j)) <= u32::MAX,
        forall|j: int| 0 <= j < k ==> #[trigger] bucket_reversible(bucket_of(cs, j), seed, level),
        frames_fit(cs, seed, level),
    ensures
        ({
            let w = buckets_written(cs, seed, level, start, k)->Ok_0;
            &&& w.0.len() == k
            &&& forall|j: int|
                0 <= j < k ==> {
                    &&& all_empty(bucket_of(cs, j)) ==> #[trigger] w.0[j] == 0
                    &&& !all_empty(bucket_of(cs, j)) ==> w.0[j] > 0 && reads_bucket(
                        p + w.1 + r,
                        w.0[j] as int,
                        bucket_of(cs, j),
                        seed,
                    )
                }
        }),
    decreases k,
{
    let w = buckets_written(cs, seed, level, start, k)->Ok_0;
    if k > 0 {
        let prev = buckets_written(cs, seed, level, start, (k - 1) as nat)->Ok_0;
        let b = bucket_of(cs, k - 1);
        assert(b.len() == 64);
        if all_empty(b) {
            lemma_bucket_offsets_read(cs, seed, level, start, (k - 1) as nat, p, r);
            assert(w.1 == prev.1);
            assert(w.0 == prev.0.push(0));
            assert forall|j: int| 0 <= j < k implies {
                &&& all_empty(bucket_of(cs, j)) ==> #[trigger] w.0[j] == 0
                &&& !all_empty(bucket_of(cs, j)) ==> w.0[j] > 0 && reads_bucket(p + w.1 + r, w.0[j] as int, bucket_of(cs, j), seed)
            } by {
                if j < k - 1 {
                    assert(w.0[j] == prev.0[j]);
                }
            }
        } else {
            let bb = bucket_bytes(b, seed, level)->Ok_0;
            let c = zstd_compressed(entries_bytes(b, seed), level, false)->Some_0;
            assert(bucket_reversible(b, seed, level));
            assert(frame_fits(b, seed, level));
            assert(w.1 == prev.1 + bb);
            assert(w.0 == prev.0.push((start + prev.1.len()) as u64));
            lemma_bucket_offsets_read(cs, seed, level, start, (k - 1) as nat, p, bb + r);
            assert(p + w.1 + r =~= p + prev.1 + (bb + r));
            assert(p + w.1 + r =~= (p + prev.1) + bb + r);
            lemma_raw_size_fits(b);
            lemma_bucket_read_written(b, seed, level, p + prev.1, r);
            lemma_u32_be_roundtrip(bucket_raw_size(b) as u32);
            lemma_u32_be_roundtrip(c.len() as u32);
            assert(bb == bucket_frame(bucket_raw_size(b) as u32, c));
            assert((start + prev.1.len()) as u64 == start + prev.1.len());
            assert(reads_bucket(p + w.1 + r, start + prev.1.len(), b, seed));
            assert forall|j: int| 0 <= j < k implies {
                &&& all_empty(bucket_of(cs, j)) ==> #[trigger] w.0[j] == 0
                &&& !all_empty(bucket_of(cs, j)) ==> w.0[j] > 0 && reads_bucket(p + w.1 + r, w.0[j] as int, bucket_of(cs, j), seed)
            } by {
                if j < k - 1 {
                    assert(w.0[j] == prev.0[j]);
                }
            }
        }
    }
}

/// The world x of chunk `i` of a region.
pub open spec fn world_x(region_x: i32, i: int) -> i64 {
    (region_x * 32 + i % 32) as i64
}

/// The world z of chunk `i` of a region.
pub open spec fn world_z(region_z: i32, i: int) -> i64 {
    (region_z * 32 + i / 32) as i64
}

/// Chunk `i` of region `(region_x, region_z)` lies at world coordinates
/// `32 * region_x + i % 32` and `32 * region_z + i / 32`, negative regions
/// included.
pub proof fn lemma_world_coords(region_x: i32, region_z: i32, i: int)
    requires
        0 <= i < 1024,
    ensures
        world_x(region_x, i) == 32 * (region_x as int) + i % 32,
        world_z(region_z, i) == 32 * (region_z as int) + i / 32,
{
}

/// The stored chunk `i` of the buckets (64 per bucket).
pub open spec fn entry_of(bs: Seq<Seq<Option<ChunkDataView>>>, i: int) -> Option<ChunkDataView> {
    bs[i / 64][i % 64]
}

/// A chunk read from a stored chunk: its data and write time, or nothing.
pub open spec fn is_read_chunk(c: Chunk, e: Option<ChunkDataView>, x: i64, z: i64) -> bool {
    &&& c.x == x
    &&& c.z == z
    &&& match e {
        None => c.raw_chunk@.len() == 0 && c.timestamps == 0,
        Some(d) => c.raw_chunk@ == d.3 && c.timestamps == d.1,
    }
}

/// The world coordinates of the first `n` chunks whose data does not match
/// their stored xxhash32.
pub open spec fn checksum_warnings(bs: Seq<Seq<Option<ChunkDataView>>>, seed: u32, region_x: i32, region_z: i32, n: nat) -> Seq<
    (i64, i64),
>
    decreases n,
{
    if n == 0 {
        Seq::empty()
    } else {
        let i = n - 1;
        checksum_warnings(bs, seed, region_x, region_z, (n - 1) as nat) + match entry_of(bs, i) {
            Some(d) => if xxh32_of(d.3, seed) != d.2 {
                seq![(world_x(region_x, i), world_z(region_z, i))]
            } else {
                Seq::empty()
            },
            None => Seq::empty(),
        }
    }
}

/// Reads the chunks of the 16 buckets that the offset table lists, from
/// `pos`, placed at world coordinates; gives them with the world
/// coordinates of the chunks whose checksum does not match.
pub fn read_chunks(data: &[u8], pos: usize, offset_table: [u64; 16], seed: u32, region_x: i32, region_z: i32) -> (r: Result<
    (Vec<Chunk>, Vec<(i64, i64)>),
    Error,
>)
    ensures
        match all_buckets_read(data@, pos as int, offset_table@) {
            Err(e) => r is Err && r->Err_0 == e,
            Ok((bs, _)) => r matches Ok((cs, ws)) && cs@.len() == 1024 && ws@ == checksum_warnings(
                bs,
                seed,
                region_x,
                region_z,
                1024,
            ) && forall|i: int|
                0 <= i < 1024 ==> is_read_chunk(
                    #[trigger] cs@[i],
                    entry_of(bs, i),
                    world_x(region_x, i),
                    world_z(region_z, i),
                ),
        },
        r matches Ok((cs, ws)) ==> cs@.len() == 1024 && forall|i: int|
            0 <= i < 1024 ==> (#[trigger] cs@[i]).x == 32 * (region_x as int) + i % 32 && cs@[i].z == 32 * (
            region_z as int) + i / 32,
{
    let (buckets, _end) = deserialize_all_bucket(data, pos, offset_table)?;
    let ghost bs = buckets_view(buckets@);
    proof {
        lemma_all_buckets_shape(data@, pos as int, offset_table@);
        assert forall|b: int| 0 <= b < 16 implies (#[trigger] buckets@[b])@.len() == 64 by {
            assert(bs[b].len() == 64);
            assert(bs[b] == chunk_data_view(buckets@[b]@));
        }
    }
    let mut chunk_data: Vec<Chunk> = Vec::new();
    let mut warnings: Vec<(i64, i64)> = Vec::new();
    for i in 0..1024
        invariant
            bs == buckets_view(buckets@),
            buckets@.len() == 16,
            forall|b: int| 0 <= b < 16 ==> (#[trigger] buckets@[b])@.len() == 64,
            chunk_data@.len() == i,
            warnings@ == checksum_warnings(bs, seed, region_x, region_z, i as nat),
            forall|k: int|
                0 <= k < i ==> is_read_chunk(
                    #[trigger] chunk_data@[k],
                    entry_of(bs, k),
                    world_x(region_x, k),
                    world_z(region_z, k),
                ),
    {
        let b = i / 64;
        let c = i % 64;
        let x = region_x as i64 * 32 + (i % 32) as i64;
        let z = region_z as i64 * 32 + (i / 32) as i64;
        proof {
            assert(bs[b as int].len() == 64);
            assert(entry_of(bs, i as int) == chunk_data_view(buckets@[b as int]@)[c as int]);
        }
        match &buckets[b][c] {
            None => {
                chunk_data.push(Chunk { raw_chunk: Vec::new(), timestamps: 0, x, z });
            },
            Some(cd) => {
                let checksum = xxh32(cd.data.as_slice(), seed);
                if checksum != cd.xxhash_checksum {
                    warnings.push((x, z));
                }
                chunk_data.push(Chunk { raw_chunk: slice_to_vec(cd.data.as_slice()), timestamps: cd.write_timestamp, x, z });
            },
        }
        proof {
            assert(warnings@ =~= checksum_warnings(bs, seed, region_x, region_z, (i + 1) as nat));
        }
    }
    Ok((chunk_data, warnings))
}

/// What `read_chunks` makes of the buckets that `write_chunks` wrote for the
/// 1024 chunks of a region: stored chunk `i` is the one written for chunk
/// `i`, and no chunk fails its checksum.
pub proof fn lemma_stored_chunks_read(cs: Seq<Chunk>, seed: u32, region_x: i32, region_z: i32)
    requires
        cs.len() == 1024,
    ensures
        forall|i: int| 0 <= i < 1024 ==> #[trigger] entry_of(buckets_stored(cs, seed, 16), i) == stored_entry(cs[i], seed),
        checksum_warnings(buckets_stored(cs, seed, 16), seed, region_x, region_z, 1024) == Seq::<(i64, i64)>::empty(),
{
    let bs = buckets_stored(cs, seed, 16);
    assert forall|i: int| 0 <= i < 1024 implies #[trigger] entry_of(bs, i) == stored_entry(cs[i], seed) by {
        let b = i / 64;
        let t = i % 64;
        assert(0 <= b < 16 && 0 <= t < 64 && 64 * b + t == i);
        assert(bucket_of(cs, b)[t] == cs[i]);
    }
    lemma_no_checksum_warnings(cs, seed, region_x, region_z, 1024);
}

proof fn lemma_no_checksum_warnings(cs: Seq<Chunk>, seed: u32, region_x: i32, region_z: i32, n: nat)
    requires
        cs.len() == 1024,
        n <= 1024,
        forall|i: int| 0 <= i < 1024 ==> #[trigger] entry_of(buckets_stored(cs, seed, 16), i) == stored_entry(cs[i], seed),
    ensures
        checksum_warnings(buckets_stored(cs, seed, 16), seed, region_x, region_z, n) == Seq::<(i64, i64)>::empty(),
    decreases n,
{
    if n > 0 {
        lemma_no_checksum_warnings(cs, seed, region_x, region_z, (n - 1) as nat);
        assert(entry_of(buckets_stored(cs, seed, 16), n - 1) == stored_entry(cs[n - 1], seed));
        assert(Seq::<(i64, i64)>::empty() + Seq::<(i64, i64)>::empty() =~= Seq::<(i64, i64)>::empty());
    }
}

/// The chunks of bucket `k` (64 per bucket; the last may be shorter).
pub open spec fn bucket_of(cs: Seq<Chunk>, k: int) -> Seq<Chunk> {
    cs.subrange(64 * k, if 64 * k + 64 <= cs.len() { 64 * k + 64 } else { cs.len() as int })
}

/// Every chunk is empty.
pub open spec fn all_empty(cs: Seq<Chunk>) -> bool {
    forall|i: int| 0 <= i < cs.len() ==> (#[trigger] cs[i]).raw_chunk@.len() == 0
}

/// Writing the first `k` buckets at file position `start`: a bucket of empty
/// chunks gets offset 0 and no bytes; any other gets the position where its
/// bytes begin.
pub open spec fn buckets_written(cs: Seq<Chunk>, seed: u32, level: i32, start: int, k: nat) -> Result<
    (Seq<u64>, Seq<u8>),
    Error,
>
    decreases k,
{
    if k == 0 {
        Ok((Seq::empty(), Seq::empty()))
    } else {
        match buckets_written(cs, seed, level, start, (k - 1) as nat) {
            Err(e) => Err(e),
            Ok((offs, bytes)) => {
                let b = bucket_of(cs, k - 1);
                if all_empty(b) {
                    Ok((offs.push(0), bytes))
                } else if start + bytes.len() > u64::MAX {
                    Err(Error::Overflow)
                } else {
                    match bucket_bytes(b, seed, level) {
                        Err(e) => Err(e),
                        Ok(bb) => Ok((offs.push((start + bytes.len()) as u64), bytes + bb)),
                    }
                }
            },
        }
    }
}

proof fn lemma_buckets_written_error_persists(cs: Seq<Chunk>, seed: u32, level: i32, start: int, k: nat, n: nat)
    requires
        k <= n,
        buckets_written(cs, seed, level, start, k) is Err,
    ensures
        buckets_written(cs, seed, level, start, n) == buckets_written(cs, seed, level, start, k),
    decreases n,
{
    if n > k {
        lemma_buckets_written_error_persists(cs, seed, level, start, k, (n - 1) as nat);
    }
}

/// The number of buckets that `n` chunks fill.
pub open spec fn bucket_count(n: int) -> int {
    (n + 63) / 64
}

/// Writes the chunks in buckets of 64 at file position `start`: the offset
/// table (zero for a bucket of empty chunks and for the buckets after the
/// last) and the bytes of the buckets.
///
/// The 1024 chunks of a region, written past the start of a file, read back
/// from there, whatever stands before and after them: every chunk with its
/// bytes, timestamp and checksum, every empty chunk as none, as long as each
/// zstd frame is no longer than its four-byte length can say.
pub fn write_chunks(all_chunk: Vec<Chunk>, seed: u32, compression_level: i32, start: u64) -> (r: Result<
    ([u64; 16], Vec<u8>),
    Error,
>)
    requires
        all_chunk@.len() <= 1024,
        forall|k: int| 0 <= k < 16 ==> bucket_raw_size(#[trigger] bucket_of(all_chunk@, k)) <= u32::MAX,
    ensures
        match buckets_written(all_chunk@, seed, compression_level, start as int, bucket_count(all_chunk@.len() as int) as nat) {
            Err(e) => r is Err && r->Err_0 == e,
            Ok((offs, bytes)) => r matches Ok((table, out)) && out@ == bytes && forall|k: int|
                0 <= k < 16 ==> #[trigger] table@[k] == if k < offs.len() {
                    offs[k]
                } else {
                    0
                },
        },
        r matches Ok((table, out)) ==> (all_chunk@.len() == 1024 && start > 0 && frames_fit(
            all_chunk@,
            seed,
            compression_level,
        ) ==> forall|p: Seq<u8>, q: Seq<u8>|
            p.len() == start ==> #[trigger] all_buckets_read(p + out@ + q, start as int, table@) == Ok::<
                (Seq<Seq<Option<ChunkDataView>>>, int),
                Error,
            >((buckets_stored(all_chunk@, seed, 16), start + out@.len()))),
        r matches Ok((table, out)) ==> (all_chunk@.len() == 1024 && start > 0 && frames_fit(
            all_chunk@,
            seed,
            compression_level,
        ) ==> (forall|k: int|
            0 <= k < 16 ==> (#[trigger] table@[k] == 0 <==> all_empty(bucket_of(all_chunk@, k)))) && forall|
            p: Seq<u8>,
            q: Seq<u8>,
            k: int,
        |
            p.len() == start && 0 <= k < 16 && !all_empty(bucket_of(all_chunk@, k)) ==> #[trigger] reads_bucket(
                p + out@ + q,
                table@[k] as int,
                bucket_of(all_chunk@, k),
                seed,
            )),
{
    let ghost cs = all_chunk@;
    let n = all_chunk.len();
    let buckets = (n + 63) / 64;
    let mut offset_table = [0u64; 16];
    let mut out: Vec<u8> = Vec::new();
    for k in 0..buckets
        invariant
            cs == all_chunk@,
            n == cs.len(),
            n <= 1024,
            buckets == bucket_count(n as int),
            buckets <= 16,
            forall|j: int| 0 <= j < 16 ==> bucket_raw_size(#[trigger] bucket_of(cs, j)) <= u32::MAX,
            offset_table@.len() == 16,
            buckets_written(cs, seed, compression_level, start as int, k as nat) matches Ok((offs, bytes)) && out@
                == bytes && offs.len() == k && forall|j: int|
                0 <= j < 16 ==> #[trigger] offset_table@[j] == if j < k {
                    offs[j]
                } else {
                    0
                },
            forall|j: int| 0 <= j < k ==> #[trigger] bucket_reversible(bucket_of(cs, j), seed, compression_level),
    {
        let lo = 64 * k;
        let hi = if lo + 64 <= n {
            lo + 64
        } else {
            n
        };
        let bucket = &all_chunk.as_slice()[lo..hi];
        assert(bucket@ == bucket_of(cs, k as int));
        let mut empty = true;
        for t in 0..hi - lo
            invariant
                bucket@.len() == hi - lo,
                empty == forall|u: int| 0 <= u < t ==> (#[trigger] bucket@[u]).raw_chunk@.len() == 0,
        {
            if !bucket[t].is_empty() {
                empty = false;
            }
        }
        let ghost prev = buckets_written(cs, seed, compression_level, start as int, k as nat)->Ok_0;
        if empty {
            offset_table[k] = 0;
            proof {
                assert(all_empty(bucket@));
            }
        } else {
            let len = out.len() as u64;
            if start > u64::MAX - len {
                proof {
                    lemma_buckets_written_error_persists(cs, seed, compression_level, start as int, (k + 1) as nat, buckets as nat);
                }
                return Err(Error::Overflow);
            }
            let position = start + len;
            let bytes = match serialize_bucket(bucket, seed, compression_level) {
                Ok(b) => b,
                Err(e) => {
                    proof {
                        lemma_buckets_written_error_persists(cs, seed, compression_level, start as int, (k + 1) as nat, buckets as nat);
                    }
                    return Err(e);
                },
            };
            offset_table[k] = position;
            out.extend_from_slice(bytes.as_slice());
        }
        proof {
            let next = buckets_written(cs, seed, compression_level, start as int, (k + 1) as nat)->Ok_0;
            assert(next.0 == prev.0.push(offset_table@[k as int]));
            assert(bucket_reversible(bucket_of(cs, k as int), seed, compression_level));
        }
    }
    proof {
        if n == 1024 && start > 0 && frames_fit(cs, seed, compression_level) {
            let w = buckets_written(cs, seed, compression_level, start as int, 16)->Ok_0;
            assert(buckets == 16);
            assert(offset_table@ =~= w.0);
            assert forall|p: Seq<u8>, q: Seq<u8>| p.len() == start implies #[trigger] all_buckets_read(
                p + out@ + q,
                start as int,
                offset_table@,
            ) == Ok::<(Seq<Seq<Option<ChunkDataView>>>, int), Error>(
                (buckets_stored(cs, seed, 16), start + out@.len()),
            ) by {
                lemma_buckets_read_written(cs, seed, compression_level, start as int, 16, p, q);
            }
            assert forall|p: Seq<u8>, q: Seq<u8>, k: int|
                p.len() == start && 0 <= k < 16 && !all_empty(bucket_of(cs, k)) implies #[trigger] reads_bucket(
                p + out@ + q,
                offset_table@[k] as int,
                bucket_of(cs, k),
                seed,
            ) by {
                lemma_bucket_offsets_read(cs, seed, compression_level, start as int, 16, p, q);
                assert(w.0[k] == offset_table@[k]);
            }
            assert forall|k: int| 0 <= k < 16 implies (#[trigger] offset_table@[k] == 0 <==> all_empty(
                bucket_of(cs, k),
            )) by {
                lemma_bucket_offsets_read(cs, seed, compression_level, start as int, 16, Seq::new(start as nat, |i: int| 0u8), Seq::empty());
                assert(w.0[k] == offset_table@[k]);
            }
        }
    }
    Ok((offset_table, out))
}

} // verus!
