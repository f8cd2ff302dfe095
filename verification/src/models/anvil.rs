//! The anvil region format: a table of 1024 chunk locations (sector offset
//! and count) and 1024 timestamps, then the chunks, each compressed and
//! padded to whole 4096-byte sectors; a chunk too large for 255 sectors is
//! kept in an external `.mcc` file.

use vstd::prelude::*;
use vstd::slice::slice_to_vec;
use vstd::utf8::encode_utf8;

use crate::bytes::be_value;
use crate::bytes::be_bytes;
use crate::bytes::be_u32_at;
use crate::bytes::byte_vecs;
use crate::bytes::bytes_view;
use crate::bytes::lemma_be_bytes_len;
use crate::bytes::lemma_be_roundtrip;
use crate::bytes::lemma_be_value_bound;
use crate::bytes::lemma_pow256_values;
use crate::bytes::lemma_u32_be_roundtrip;
use crate::bytes::push_be;
use crate::bytes::push_u32_be;
use crate::bytes::read_be;
use crate::bytes::read_u32_be;
use crate::bytes::u32_be;
use crate::codec::gzip_compress;
use crate::codec::gzip_compressed;
use crate::codec::gzip_decompress;
use crate::codec::gzip_decompressed;
use crate::codec::lz4_compress;
use crate::codec::lz4_compressed;
use crate::codec::lz4_decompress;
use crate::codec::lz4_decompressed;
use crate::codec::zlib_compress;
use crate::codec::zlib_compressed;
use crate::codec::zlib_decompress;
use crate::codec::zlib_decompressed;
use crate::error::Error;
use crate::region::Chunk;
use crate::utils::parse_region_coords;
use crate::utils::region_coords_spec;

verus! {

/// Where one chunk lies: its first sector and its number of sectors.
#[derive(Debug, Clone, Copy, PartialEq, Eq, Structural)]
pub struct LocationData {
    pub sector_offset: u32,
    pub sector_count: u8,
}

/// The 1024 chunk locations.
pub struct LocationTable {
    pub locations: Vec<LocationData>,
}

/// The timestamp of one chunk.
#[derive(Debug, Clone, Copy, PartialEq, Eq, Structural)]
pub struct TimestampData {
    pub timestamp: u32,
}

/// The 1024 chunk timestamps.
pub struct TimestampTable {
    pub timestamps_data: Vec<TimestampData>,
}

/// The five bytes in front of a stored chunk: its length (counting the type
/// byte) and its compression type.
#[derive(Debug, Clone, Copy, PartialEq, Eq, Structural)]
pub struct DataHeader {
    pub chunk_length: u32,
    pub compression_type: u8,
}

/// Location and timestamp of one chunk.
#[derive(Debug, Clone, Copy, PartialEq, Eq, Structural)]
pub struct ChunkDataInfo {
    pub sector_offset: u32,
    pub sector_count: u8,
    pub timestamp: u32,
}

/// The header of an anvil file: location and timestamp of each chunk.
pub struct SuperBlock {
    pub chunks_info: Vec<ChunkDataInfo>,
}

/// Reads a 24-bit big-endian number.
pub fn u24_be_to_u32(bytes: &[u8; 3]) -> (v: u32)
    ensures
        v == be_value(bytes@),
        v < 0x100_0000,
        be_bytes(v as nat, 3) == bytes@,
{
    proof {
        lemma_u24_roundtrip(0, bytes@);
    }
    let v = read_be(bytes.as_slice(), 0, 3);
    proof {
        assert(bytes@.subrange(0, 3) =~= bytes@);
        lemma_be_value_bound(bytes@);
        lemma_pow256_values();
    }
    v as u32
}

/// The three big-endian bytes of the low 24 bits of a number.
pub fn u32_to_u24_be(value: &u32) -> (b: [u8; 3])
    ensures
        b@ == be_bytes(*value as nat, 3),
        be_value(b@) == *value % 0x100_0000,
{
    proof {
        lemma_u24_roundtrip(*value, seq![0u8, 0, 0]);
    }
    let mut v: Vec<u8> = Vec::new();
    push_be(&mut v, *value as u64, 3);
    proof {
        lemma_be_bytes_len(*value as nat, 3);
        assert(v@ =~= be_bytes(*value as nat, 3));
    }
    let b = [v[0], v[1], v[2]];
    assert(b@ =~= v@);
    b
}

/// A number keeps its low 24 bits through its three bytes (so one below 2^24
/// survives the trip), three bytes survive the trip through their number, and
/// that number is below 2^24.
pub proof fn lemma_u24_roundtrip(value: u32, bytes: Seq<u8>)
    requires
        bytes.len() == 3,
    ensures
        be_value(be_bytes(value as nat, 3)) == value % 0x100_0000,
        be_bytes(be_value(bytes), 3) == bytes,
        be_value(bytes) < 0x100_0000,
{
    lemma_pow256_values();
    let v = value as nat;
    let b = be_bytes(v, 3);
    reveal_with_fuel(be_bytes, 4);
    reveal_with_fuel(be_value, 4);
    assert(be_bytes(v / 256 / 256, 1) =~= seq![((v / 256 / 256) % 256) as u8]);
    assert(b =~= seq![((v / 256 / 256) % 256) as u8, ((v / 256) % 256) as u8, (v % 256) as u8]);
    assert(b.drop_last().drop_last().drop_last() =~= Seq::<u8>::empty());
    assert(b.drop_last() =~= seq![((v / 256 / 256) % 256) as u8, ((v / 256) % 256) as u8]);
    assert(b.drop_last().drop_last() =~= seq![((v / 256 / 256) % 256) as u8]);
    assert(be_value(b) == (((v / 256 / 256) % 256) * 256 + (v / 256) % 256) * 256 + v % 256);
    assert((((value / 256 / 256) % 256) * 256 + (value / 256) % 256) * 256 + value % 256 == value % 0x100_0000)
        by (bit_vector);
    crate::bytes::lemma_be_bytes_of_value(bytes);
    lemma_be_value_bound(bytes);
}

/// The chunk record stored at `pos` of a location table: the 24-bit sector
/// offset, then the sector count.
pub open spec fn location_at(s: Seq<u8>, pos: int) -> LocationData {
    LocationData { sector_offset: be_value(s.subrange(pos, pos + 3)) as u32, sector_count: s[pos + 3] }
}

/// The chunk table stored from `pos`: 1024 locations, then 1024 big-endian timestamps.
pub open spec fn chunk_info_at(s: Seq<u8>, pos: int, i: int) -> ChunkDataInfo {
    ChunkDataInfo {
        sector_offset: location_at(s, pos + 4 * i).sector_offset,
        sector_count: location_at(s, pos + 4 * i).sector_count,
        timestamp: be_u32_at(s, pos + 4096 + 4 * i),
    }
}

/// The four bytes of a location: the low 24 bits of the offset, then the count.
pub open spec fn location_bytes(c: ChunkDataInfo) -> Seq<u8> {
    be_bytes(c.sector_offset as nat, 3).push(c.sector_count)
}

/// The 8192 bytes of a chunk table.
pub open spec fn superblock_bytes(infos: Seq<ChunkDataInfo>) -> Seq<u8> {
    locations_bytes(infos) + timestamps_bytes(infos)
}

pub open spec fn locations_bytes(infos: Seq<ChunkDataInfo>) -> Seq<u8>
    decreases infos.len(),
{
    if infos.len() == 0 {
        Seq::empty()
    } else {
        locations_bytes(infos.drop_last()) + location_bytes(infos.last())
    }
}

pub open spec fn timestamps_bytes(infos: Seq<ChunkDataInfo>) -> Seq<u8>
    decreases infos.len(),
{
    if infos.len() == 0 {
        Seq::empty()
    } else {
        timestamps_bytes(infos.drop_last()) + u32_be(infos.last().timestamp)
    }
}

/// The four bytes of a table location: the low 24 bits of the offset, then the count.
pub open spec fn location_data_bytes(l: LocationData) -> Seq<u8> {
    be_bytes(l.sector_offset as nat, 3).push(l.sector_count)
}

/// Locations one after the other.
pub open spec fn location_table_bytes(ls: Seq<LocationData>) -> Seq<u8>
    decreases ls.len(),
{
    if ls.len() == 0 {
        Seq::empty()
    } else {
        location_table_bytes(ls.drop_last()) + location_data_bytes(ls.last())
    }
}

/// Timestamps one after the other, big-endian.
pub open spec fn timestamp_table_bytes(ts: Seq<TimestampData>) -> Seq<u8>
    decreases ts.len(),
{
    if ts.len() == 0 {
        Seq::empty()
    } else {
        timestamp_table_bytes(ts.drop_last()) + u32_be(ts.last().timestamp)
    }
}

/// The locations of chunk entries.
pub open spec fn locations_of(infos: Seq<ChunkDataInfo>) -> Seq<LocationData> {
    Seq::new(infos.len(), |i: int| LocationData { sector_offset: infos[i].sector_offset, sector_count: infos[i].sector_count })
}

/// The timestamps of chunk entries.
pub open spec fn timestamps_of(infos: Seq<ChunkDataInfo>) -> Seq<TimestampData> {
    Seq::new(infos.len(), |i: int| TimestampData { timestamp: infos[i].timestamp })
}

proof fn lemma_tables_of_entries(infos: Seq<ChunkDataInfo>)
    ensures
        location_table_bytes(locations_of(infos)) == locations_bytes(infos),
        timestamp_table_bytes(timestamps_of(infos)) == timestamps_bytes(infos),
    decreases infos.len(),
{
    if infos.len() > 0 {
        lemma_tables_of_entries(infos.drop_last());
        assert(locations_of(infos).drop_last() =~= locations_of(infos.drop_last()));
        assert(timestamps_of(infos).drop_last() =~= timestamps_of(infos.drop_last()));
    } else {
        assert(locations_of(infos) =~= Seq::<LocationData>::empty());
        assert(timestamps_of(infos) =~= Seq::<TimestampData>::empty());
    }
}

impl LocationTable {
    /// Reads the 1024 locations stored from `pos`.
    pub fn read(data: &[u8], pos: usize) -> (r: Result<LocationTable, Error>)
        ensures
            pos + 4096 > data@.len() ==> r is Err && r->Err_0 == Error::UnexpectedEof,
            pos + 4096 <= data@.len() ==> (r matches Ok(t) && t.locations@ == Seq::new(
                1024,
                |i: int| location_at(data@, pos + 4 * i),
            )),
    {
        if pos > data.len() || data.len() - pos < 4096 {
            return Err(Error::UnexpectedEof);
        }
        let mut locations: Vec<LocationData> = Vec::new();
        for i in 0..1024
            invariant
                pos + 4096 <= data@.len(),
                data@.len() == data.len(),
                locations@ =~= Seq::new(i as nat, |k: int| location_at(data@, pos + 4 * k)),
        {
            let at = pos + 4 * i;
            let bytes = [data[at], data[at + 1], data[at + 2]];
            assert(bytes@ =~= data@.subrange(at as int, at + 3));
            let sector_offset = u24_be_to_u32(&bytes);
            locations.push(LocationData { sector_offset, sector_count: data[at + 3] });
        }
        Ok(LocationTable { locations })
    }

    /// Appends the locations, four bytes each.
    pub fn write(&self, out: &mut Vec<u8>)
        ensures
            final(out)@ == old(out)@ + location_table_bytes(self.locations@),
    {
        let ghost before = out@;
        let n = self.locations.len();
        for i in 0..n
            invariant
                n == self.locations@.len(),
                out@ == before + location_table_bytes(self.locations@.take(i as int)),
        {
            let l = self.locations[i];
            let b = u32_to_u24_be(&l.sector_offset);
            out.push(b[0]);
            out.push(b[1]);
            out.push(b[2]);
            out.push(l.sector_count);
            proof {
                assert(self.locations@.take(i + 1).drop_last() =~= self.locations@.take(i as int));
                lemma_be_bytes_len(l.sector_offset as nat, 3);
                assert(out@ =~= before + location_table_bytes(self.locations@.take(i + 1)));
            }
        }
        assert(self.locations@.take(n as int) =~= self.locations@);
    }
}

impl TimestampTable {
    /// Reads the 1024 big-endian timestamps stored from `pos`.
    pub fn read(data: &[u8], pos: usize) -> (r: Result<TimestampTable, Error>)
        ensures
            pos + 4096 > data@.len() ==> r is Err && r->Err_0 == Error::UnexpectedEof,
            pos + 4096 <= data@.len() ==> (r matches Ok(t) && t.timestamps_data@ == Seq::new(
                1024,
                |i: int| TimestampData { timestamp: be_u32_at(data@, pos + 4 * i) },
            )),
    {
        if pos > data.len() || data.len() - pos < 4096 {
            return Err(Error::UnexpectedEof);
        }
        let mut timestamps_data: Vec<TimestampData> = Vec::new();
        for i in 0..1024
            invariant
                pos + 4096 <= data@.len(),
                data@.len() == data.len(),
                timestamps_data@ =~= Seq::new(i as nat, |k: int| TimestampData { timestamp: be_u32_at(data@, pos + 4 * k) }),
        {
            let timestamp = read_u32_be(data, pos + 4 * i)?;
            timestamps_data.push(TimestampData { timestamp });
        }
        Ok(TimestampTable { timestamps_data })
    }

    /// Appends the timestamps, four big-endian bytes each.
    pub fn write(&self, out: &mut Vec<u8>)
        ensures
            final(out)@ == old(out)@ + timestamp_table_bytes(self.timestamps_data@),
    {
        let ghost before = out@;
        let n = self.timestamps_data.len();
        for i in 0..n
            invariant
                n == self.timestamps_data@.len(),
                out@ == before + timestamp_table_bytes(self.timestamps_data@.take(i as int)),
        {
            push_u32_be(out, self.timestamps_data[i].timestamp);
            proof {
                assert(self.timestamps_data@.take(i + 1).drop_last() =~= self.timestamps_data@.take(i as int));
                assert(out@ =~= before + timestamp_table_bytes(self.timestamps_data@.take(i + 1)));
            }
        }
        assert(self.timestamps_data@.take(n as int) =~= self.timestamps_data@);
    }
}

/// The chunk table at the start of an anvil file.
pub open spec fn table_at(s: Seq<u8>) -> Seq<ChunkDataInfo> {
    Seq::new(1024, |i: int| chunk_info_at(s, 0, i))
}

/// Reads the chunk table stored from `pos`: the location table, then the
/// timestamp table, paired entry by entry.
pub fn deserialize_superblock(data: &[u8], pos: usize) -> (r: Result<SuperBlock, Error>)
    ensures
        pos + 8192 > data@.len() ==> r is Err && r->Err_0 == Error::UnexpectedEof,
        pos + 8192 <= data@.len() ==> (r matches Ok(sb) && sb.chunks_info@ == Seq::new(
            1024,
            |i: int| chunk_info_at(data@, pos as int, i),
        )),
{
    if pos > data.len() || data.len() - pos < 8192 {
        return Err(Error::UnexpectedEof);
    }
    let location_table = LocationTable::read(data, pos)?;
    let timestamp_table = TimestampTable::read(data, pos + 4096)?;
    let mut chunks_info: Vec<ChunkDataInfo> = Vec::new();
    for i in 0..1024
        invariant
            pos + 8192 <= data@.len(),
            location_table.locations@ == Seq::new(1024, |k: int| location_at(data@, pos + 4 * k)),
            timestamp_table.timestamps_data@ == Seq::new(
                1024,
                |k: int| TimestampData { timestamp: be_u32_at(data@, pos + 4096 + 4 * k) },
            ),
            chunks_info@ =~= Seq::new(i as nat, |k: int| chunk_info_at(data@, pos as int, k)),
    {
        let location = location_table.locations[i];
        let timestamp = timestamp_table.timestamps_data[i];
        chunks_info.push(
            ChunkDataInfo {
                sector_offset: location.sector_offset,
                sector_count: location.sector_count,
                timestamp: timestamp.timestamp,
            },
        );
    }
    Ok(SuperBlock { chunks_info })
}

/// Writes the chunk table (the 8192 bytes at the start of the file): the
/// location table, then the timestamp table; it must hold exactly 1024
/// entries. Only the low 24 bits of each sector offset are kept.
pub fn serialize_superblock(chunks_info: &[ChunkDataInfo]) -> (r: Result<Vec<u8>, Error>)
    ensures
        chunks_info@.len() != 1024 ==> r == Err::<Vec<u8>, Error>(Error::WrongChunkInfoCount(chunks_info@.len() as usize)),
        chunks_info@.len() == 1024 ==> bytes_view(r) == Ok::<Seq<u8>, Error>(superblock_bytes(chunks_info@)),
{
    if chunks_info.len() != 1024 {
        return Err(Error::WrongChunkInfoCount(chunks_info.len()));
    }
    let mut locations: Vec<LocationData> = Vec::new();
    let mut timestamps_data: Vec<TimestampData> = Vec::new();
    for i in 0..1024
        invariant
            chunks_info@.len() == 1024,
            locations@ =~= locations_of(chunks_info@.take(i as int)),
            timestamps_data@ =~= timestamps_of(chunks_info@.take(i as int)),
    {
        let c = chunks_info[i];
        locations.push(LocationData { sector_offset: c.sector_offset, sector_count: c.sector_count });
        timestamps_data.push(TimestampData { timestamp: c.timestamp });
    }
    assert(chunks_info@.take(1024) =~= chunks_info@);
    let location_table = LocationTable { locations };
    let timestamp_table = TimestampTable { timestamps_data };
    let mut out: Vec<u8> = Vec::new();
    location_table.write(&mut out);
    timestamp_table.write(&mut out);
    proof {
        lemma_tables_of_entries(chunks_info@);
        assert(out@ =~= superblock_bytes(chunks_info@));
    }
    Ok(out)
}

/// Where each entry lies in a written chunk table.
pub proof fn lemma_superblock_layout(infos: Seq<ChunkDataInfo>)
    ensures
        locations_bytes(infos).len() == 4 * infos.len(),
        timestamps_bytes(infos).len() == 4 * infos.len(),
        forall|i: int|
            0 <= i < infos.len() ==> #[trigger] locations_bytes(infos).subrange(4 * i, 4 * i + 4)
                == location_bytes(infos[i]),
        forall|i: int|
            0 <= i < infos.len() ==> #[trigger] timestamps_bytes(infos).subrange(4 * i, 4 * i + 4)
                == u32_be(infos[i].timestamp),
    decreases infos.len(),
{
    if infos.len() > 0 {
        let init = infos.drop_last();
        lemma_superblock_layout(init);
        lemma_be_bytes_len(infos.last().sector_offset as nat, 3);
        lemma_u32_be_roundtrip(infos.last().timestamp);
        let lb = locations_bytes(infos);
        let tb = timestamps_bytes(infos);
        assert forall|i: int| 0 <= i < infos.len() implies #[trigger] lb.subrange(4 * i, 4 * i + 4)
            == location_bytes(infos[i]) by {
            if i < infos.len() - 1 {
                assert(lb.subrange(4 * i, 4 * i + 4) =~= locations_bytes(init).subrange(4 * i, 4 * i + 4));
                assert(init[i] == infos[i]);
            } else {
                assert(lb.subrange(4 * i, 4 * i + 4) =~= location_bytes(infos.last()));
            }
        }
        assert forall|i: int| 0 <= i < infos.len() implies #[trigger] tb.subrange(4 * i, 4 * i + 4)
            == u32_be(infos[i].timestamp) by {
            if i < infos.len() - 1 {
                assert(tb.subrange(4 * i, 4 * i + 4) =~= timestamps_bytes(init).subrange(4 * i, 4 * i + 4));
                assert(init[i] == infos[i]);
            } else {
                assert(tb.subrange(4 * i, 4 * i + 4) =~= u32_be(infos.last().timestamp));
            }
        }
    }
}

/// A written chunk table reads back, where every sector offset is below 2^24.
pub proof fn lemma_superblock_roundtrip(infos: Seq<ChunkDataInfo>, rest: Seq<u8>)
    requires
        infos.len() == 1024,
        forall|i: int| 0 <= i < 1024 ==> (#[trigger] infos[i]).sector_offset < 0x100_0000,
    ensures
        superblock_bytes(infos).len() == 8192,
        Seq::new(1024, |i: int| chunk_info_at(superblock_bytes(infos) + rest, 0, i)) == infos,
{
    lemma_superblock_layout(infos);
    let lb = locations_bytes(infos);
    let tb = timestamps_bytes(infos);
    let s = lb + tb + rest;
    assert(superblock_bytes(infos) + rest =~= s);
    assert forall|i: int| 0 <= i < 1024 implies #[trigger] chunk_info_at(s, 0, i) == infos[i] by {
        let c = infos[i];
        assert(s.subrange(4 * i, 4 * i + 4) =~= lb.subrange(4 * i, 4 * i + 4));
        assert(s.subrange(4096 + 4 * i, 4096 + 4 * i + 4) =~= tb.subrange(4 * i, 4 * i + 4));
        lemma_be_bytes_len(c.sector_offset as nat, 3);
        assert(s.subrange(4 * i, 4 * i + 3) =~= be_bytes(c.sector_offset as nat, 3));
        lemma_pow256_values();
        lemma_be_roundtrip(c.sector_offset as nat, 3);
        assert(s[4 * i + 3] == location_bytes(c)[3]);
        lemma_u32_be_roundtrip(c.timestamp);
    }
    assert(Seq::new(1024, |i: int| chunk_info_at(s, 0, i)) =~= infos);
}

/// An optional result turned into a result with the given error.
pub open spec fn or_error(o: Option<Seq<u8>>, e: Error) -> Result<Seq<u8>, Error> {
    match o {
        Some(v) => Ok(v),
        None => Err(e),
    }
}

/// Compressing a chunk with one of the four types: 1 gzip, 2 zlib, 3 none, 4 LZ4.
pub open spec fn chunk_compressed(d: Seq<u8>, compression_type: u8, level: u8) -> Result<Seq<u8>, Error> {
    if compression_type == 1 {
        or_error(gzip_compressed(d, level as u32), Error::Compress)
    } else if compression_type == 2 {
        or_error(zlib_compressed(d, level as u32), Error::Compress)
    } else if compression_type == 3 {
        Ok(d)
    } else if compression_type == 4 {
        or_error(lz4_compressed(d), Error::Compress)
    } else {
        Err(Error::UnknownCompressionType(compression_type))
    }
}

/// Decompressing a chunk of one of the four types: 1 gzip, 2 zlib, 3 none, 4 LZ4.
pub open spec fn chunk_decompressed(d: Seq<u8>, compression_type: u8) -> Result<Seq<u8>, Error> {
    if compression_type == 1 {
        or_error(gzip_decompressed(d), Error::Decompress)
    } else if compression_type == 2 {
        or_error(zlib_decompressed(d), Error::Decompress)
    } else if compression_type == 3 {
        Ok(d)
    } else if compression_type == 4 {
        or_error(lz4_decompressed(d), Error::Decompress)
    } else {
        Err(Error::UnknownCompressionType(compression_type))
    }
}

/// What each anvil compression type means: type 1 is gzip and type 2 is zlib
/// (in both directions, at the given level), type 3 leaves the bytes as they
/// are, type 4 is LZ4, and any other type is refused.
pub proof fn lemma_chunk_codecs(d: Seq<u8>, compression_type: u8, level: u8)
    ensures
        compression_type == 1 ==> chunk_compressed(d, compression_type, level) == or_error(
            gzip_compressed(d, level as u32),
            Error::Compress,
        ) && chunk_decompressed(d, compression_type) == or_error(gzip_decompressed(d), Error::Decompress),
        compression_type == 2 ==> chunk_compressed(d, compression_type, level) == or_error(
            zlib_compressed(d, level as u32),
            Error::Compress,
        ) && chunk_decompressed(d, compression_type) == or_error(zlib_decompressed(d), Error::Decompress),
        compression_type == 3 ==> chunk_compressed(d, compression_type, level) == Ok::<Seq<u8>, Error>(d)
            && chunk_decompressed(d, compression_type) == Ok::<Seq<u8>, Error>(d),
        compression_type == 4 ==> chunk_compressed(d, compression_type, level) == or_error(
            lz4_compressed(d),
            Error::Compress,
        ) && chunk_decompressed(d, compression_type) == or_error(lz4_decompressed(d), Error::Decompress),
        !(1 <= compression_type <= 4) ==> chunk_compressed(d, compression_type, level) == Err::<Seq<u8>, Error>(
            Error::UnknownCompressionType(compression_type),
        ) && chunk_decompressed(d, compression_type) == Err::<Seq<u8>, Error>(
            Error::UnknownCompressionType(compression_type),
        ),
{
}

/// The level that gzip and zlib accept.
pub open spec fn level_accepted(compression_type: u8, level: u8) -> bool {
    (compression_type == 1 || compression_type == 2) ==> level <= 10
}

fn some_or(o: Option<Vec<u8>>, e: Error) -> (r: Result<Vec<u8>, Error>)
    ensures
        match o {
            Some(v) => r matches Ok(w) && w@ == v@,
            None => r == Err::<Vec<u8>, Error>(e),
        },
{
    match o {
        Some(v) => Ok(v),
        None => Err(e),
    }
}

/// Decompresses a chunk of the given compression type (1 gzip, 2 zlib, 3 none, 4 LZ4).
pub fn chunk_decompress(data: Vec<u8>, compression_type: u8) -> (r: Result<Vec<u8>, Error>)
    ensures
        bytes_view(r) == chunk_decompressed(data@, compression_type),
        compression_type == 1 ==> bytes_view(r) == or_error(gzip_decompressed(data@), Error::Decompress),
        compression_type == 2 ==> bytes_view(r) == or_error(zlib_decompressed(data@), Error::Decompress),
        compression_type == 3 ==> bytes_view(r) == Ok::<Seq<u8>, Error>(data@),
        compression_type == 4 ==> bytes_view(r) == or_error(lz4_decompressed(data@), Error::Decompress),
        !(1 <= compression_type <= 4) ==> r == Err::<Vec<u8>, Error>(Error::UnknownCompressionType(compression_type)),
{
    if compression_type == 1 {
        some_or(gzip_decompress(data.as_slice()), Error::Decompress)
    } else if compression_type == 2 {
        some_or(zlib_decompress(data.as_slice()), Error::Decompress)
    } else if compression_type == 3 {
        Ok(data)
    } else if compression_type == 4 {
        some_or(lz4_decompress(data.as_slice()), Error::Decompress)
    } else {
        Err(Error::UnknownCompressionType(compression_type))
    }
}

/// Compresses a chunk with the given compression type (1 gzip, 2 zlib, 3
/// none, 4 LZ4); gzip and zlib use `compression_level`. Decompressing the
/// result with the same type gives the chunk back.
pub fn chunk_compression(data: Vec<u8>, compression_type: u8, compression_level: u8) -> (r: Result<Vec<u8>, Error>)
    requires
        level_accepted(compression_type, compression_level),
    ensures
        bytes_view(r) == chunk_compressed(data@, compression_type, compression_level),
        r matches Ok(c) ==> chunk_decompressed(c@, compression_type) == Ok::<Seq<u8>, Error>(data@),
        compression_type == 1 ==> bytes_view(r) == or_error(
            gzip_compressed(data@, compression_level as u32),
            Error::Compress,
        ),
        compression_type == 2 ==> bytes_view(r) == or_error(
            zlib_compressed(data@, compression_level as u32),
            Error::Compress,
        ),
        compression_type == 3 ==> bytes_view(r) == Ok::<Seq<u8>, Error>(data@),
        compression_type == 4 ==> bytes_view(r) == or_error(lz4_compressed(data@), Error::Compress),
        !(1 <= compression_type <= 4) ==> r == Err::<Vec<u8>, Error>(Error::UnknownCompressionType(compression_type)),
{
    if compression_type == 1 {
        some_or(gzip_compress(data.as_slice(), compression_level as u32), Error::Compress)
    } else if compression_type == 2 {
        some_or(zlib_compress(data.as_slice(), compression_level as u32), Error::Compress)
    } else if compression_type == 3 {
        Ok(data)
    } else if compression_type == 4 {
        some_or(lz4_compress(data.as_slice()), Error::Compress)
    } else {
        Err(Error::UnknownCompressionType(compression_type))
    }
}

/// The five bytes of a chunk header: the length big-endian, then the type.
pub open spec fn data_header_bytes(h: DataHeader) -> Seq<u8> {
    u32_be(h.chunk_length).push(h.compression_type)
}

impl DataHeader {
    /// Reads the chunk header at `pos`.
    pub fn read(data: &[u8], pos: usize) -> (r: Result<DataHeader, Error>)
        ensures
            pos + 5 <= data@.len() ==> r == Ok::<DataHeader, Error>(
                DataHeader { chunk_length: be_u32_at(data@, pos as int), compression_type: data@[pos + 4] },
            ),
            pos + 5 > data@.len() ==> r == Err::<DataHeader, Error>(Error::UnexpectedEof),
    {
        if pos > data.len() || data.len() - pos < 5 {
            return Err(Error::UnexpectedEof);
        }
        let chunk_length = read_u32_be(data, pos)?;
        Ok(DataHeader { chunk_length, compression_type: data[pos + 4] })
    }

    /// Appends the five bytes of the header.
    pub fn write(&self, out: &mut Vec<u8>)
        ensures
            final(out)@ == old(out)@ + data_header_bytes(*self),
    {
        let ghost before = out@;
        push_u32_be(out, self.chunk_length);
        out.push(self.compression_type);
        proof {
            assert(final(out)@ =~= before + data_header_bytes(*self));
        }
    }
}

/// `n` zero bytes.
pub open spec fn zeros(n: nat) -> Seq<u8> {
    Seq::new(n, |i: int| 0u8)
}

/// The sectors that a chunk of `len` compressed bytes takes with its header.
pub open spec fn sectors_for(len: int) -> int {
    (5 + len + 4095) / 4096
}

/// The zero bytes that pad a chunk of `len` compressed bytes to whole sectors.
pub open spec fn padding_for(len: int) -> int {
    (4096 - ((5 + len) % 4096)) % 4096
}

/// A chunk stored in the region file: header, compressed bytes, padding.
pub open spec fn inline_bytes(t: Seq<u8>, compression_type: u8) -> Seq<u8> {
    data_header_bytes(DataHeader { chunk_length: (t.len() + 1) as u32, compression_type }) + t + zeros(
        padding_for(t.len() as int) as nat,
    )
}

/// The sector left for a chunk stored in an external file: a header whose
/// type has 128 added, then zeros.
pub open spec fn external_bytes(compression_type: u8) -> Seq<u8> {
    data_header_bytes(DataHeader { chunk_length: 1, compression_type: (compression_type + 128) as u8 })
        + zeros(4091)
}

/// What writing chunks gives: the sector bytes, the table entries and the
/// external chunks (chunk x, chunk z, compressed bytes).
pub type ChunksWritten = (Seq<u8>, Seq<ChunkDataInfo>, Seq<(i64, i64, Seq<u8>)>);

/// Puts one chunk's bytes, entry and external chunks in front of a successful write.
pub open spec fn prepend_written(
    b: Seq<u8>,
    info: ChunkDataInfo,
    ext: Seq<(i64, i64, Seq<u8>)>,
    r: Result<ChunksWritten, Error>,
) -> Result<ChunksWritten, Error> {
    match r {
        Ok((b2, infos, exts)) => Ok((b + b2, seq![info] + infos, ext + exts)),
        Err(e) => Err(e),
    }
}

/// Writing chunks from sector `offset` on: an empty chunk takes no sector; a
/// chunk whose compressed bytes and header fit 255 sectors is stored in the
/// file; a larger one goes to an external file and leaves one sector. A chunk
/// whose sectors would end past the `u32` range of sector numbers is an
/// overflow.
pub open spec fn chunks_written(cs: Seq<Chunk>, offset: int, compression_type: u8, level: u8) -> Result<
    ChunksWritten,
    Error,
>
    decreases cs.len(),
{
    if cs.len() == 0 {
        Ok((Seq::empty(), Seq::empty(), Seq::empty()))
    } else {
        let c = cs[0];
        let rest = cs.drop_first();
        if c.raw_chunk@.len() == 0 {
            prepend_written(
                Seq::empty(),
                ChunkDataInfo { sector_offset: 0, sector_count: 0, timestamp: c.timestamps as u32 },
                Seq::empty(),
                chunks_written(rest, offset, compression_type, level),
            )
        } else {
            match chunk_compressed(c.raw_chunk@, compression_type, level) {
                Err(e) => Err(e),
                Ok(t) => if offset + (if 5 + t.len() <= 255 * 4096 {
                    sectors_for(t.len() as int)
                } else {
                    1
                }) > u32::MAX {
                    Err(Error::Overflow)
                } else if 5 + t.len() <= 255 * 4096 {
                    prepend_written(
                        inline_bytes(t, compression_type),
                        ChunkDataInfo {
                            sector_offset: offset as u32,
                            sector_count: sectors_for(t.len() as int) as u8,
                            timestamp: c.timestamps as u32,
                        },
                        Seq::empty(),
                        chunks_written(rest, offset + sectors_for(t.len() as int), compression_type, level),
                    )
                } else {
                    prepend_written(
                        external_bytes(compression_type),
                        ChunkDataInfo { sector_offset: offset as u32, sector_count: 1, timestamp: c.timestamps as u32 },
                        seq![(c.x, c.z, t)],
                        chunks_written(rest, offset + 1, compression_type, level),
                    )
                },
            }
        }
    }
}

/// Decompressing what compressing a non-empty chunk gave yields the chunk again.
pub open spec fn chunk_reversible(c: Chunk, compression_type: u8, level: u8) -> bool {
    c.raw_chunk@.len() > 0 ==> (chunk_compressed(c.raw_chunk@, compression_type, level) matches Ok(z)
        ==> chunk_decompressed(z, compression_type) == Ok::<Seq<u8>, Error>(c.raw_chunk@))
}

/// Each chunk of `cs` that goes to an external file is found in `es` under its
/// index in the table, which is `base` plus its place in `cs`.
pub open spec fn externals_from(
    es: Seq<(u32, Seq<u8>)>,
    cs: Seq<Chunk>,
    base: int,
    compression_type: u8,
    level: u8,
) -> bool {
    forall|j: int|
        0 <= j < cs.len() ==> #[trigger] external_entry(es, cs[j], base + j, compression_type, level)
}

/// A non-empty chunk whose compressed bytes take more than 255 sectors is
/// found in `es` under `index`.
pub open spec fn external_entry(es: Seq<(u32, Seq<u8>)>, c: Chunk, index: int, compression_type: u8, level: u8) -> bool {
    c.raw_chunk@.len() > 0 ==> match chunk_compressed(c.raw_chunk@, compression_type, level) {
        Ok(z) => 5 + z.len() > 255 * 4096 ==> external_lookup(es, index as u32) == Some(z),
        Err(_) => true,
    }
}

/// Each chunk of `cs` that goes to an external file is found in `es` under
/// its index in the table.
pub open spec fn externals_held(es: Seq<(u32, Seq<u8>)>, cs: Seq<Chunk>, compression_type: u8, level: u8) -> bool {
    externals_from(es, cs, 0, compression_type, level)
}

/// The contents of the chunks.
pub open spec fn raw_chunks(cs: Seq<Chunk>) -> Seq<Seq<u8>> {
    Seq::new(cs.len(), |i: int| cs[i].raw_chunk@)
}

proof fn lemma_sector_arith(n: int)
    requires
        0 <= n,
    ensures
        5 + n + padding_for(n) == sectors_for(n) * 4096,
        0 <= padding_for(n) < 4096,
        1 <= sectors_for(n),
        5 + n <= 255 * 4096 ==> sectors_for(n) <= 255,
{
    let m = 5 + n;
    let k = m / 4096;
    let r = m % 4096;
    assert(m == 4096 * k + r && 0 <= r < 4096) by (nonlinear_arith)
        requires
            k == m / 4096,
            r == m % 4096,
            m >= 0,
    ;
    if r == 0 {
        assert((4096 - r) % 4096 == 0);
        assert((m + 4095) / 4096 == k) by (nonlinear_arith)
            requires
                m == 4096 * k,
                k >= 0,
        ;
    } else {
        assert((4096 - r) % 4096 == 4096 - r);
        assert((m + 4095) / 4096 == k + 1) by (nonlinear_arith)
            requires
                m == 4096 * k + r,
                0 < r < 4096,
                k >= 0,
        ;
    }
    assert(k >= 0) by (nonlinear_arith)
        requires
            k == m / 4096,
            m >= 5,
    ;
    if 5 + n <= 255 * 4096 {
        assert((m + 4095) / 4096 <= 255) by (nonlinear_arith)
            requires
                m <= 255 * 4096,
                m >= 0,
        ;
    }
    assert((m + 4095) / 4096 >= 1) by (nonlinear_arith)
        requires
            m >= 5,
    ;
}

/// A chunk stored in the file reads back from its sectors.
proof fn lemma_inline_read(
    z: Seq<u8>,
    raw: Seq<u8>,
    compression_type: u8,
    timestamp: u32,
    offset: int,
    base: int,
    p: Seq<u8>,
    tail: Seq<u8>,
    es: Seq<(u32, Seq<u8>)>,
)
    requires
        1 <= compression_type <= 4,
        5 + z.len() <= 255 * 4096,
        chunk_decompressed(z, compression_type) == Ok::<Seq<u8>, Error>(raw),
        2 <= offset,
        offset + sectors_for(z.len() as int) <= u32::MAX,
        p.len() == offset * 4096,
    ensures
        inline_bytes(z, compression_type).len() == sectors_for(z.len() as int) * 4096,
        1 <= sectors_for(z.len() as int) <= 255,
        chunk_read(
            p + inline_bytes(z, compression_type) + tail,
            es,
            ChunkDataInfo {
                sector_offset: offset as u32,
                sector_count: sectors_for(z.len() as int) as u8,
                timestamp,
            },
            base,
        ) == Ok::<Seq<u8>, Error>(raw),
{
    lemma_sector_arith(z.len() as int);
    let k = sectors_for(z.len() as int);
    let h = DataHeader { chunk_length: (z.len() + 1) as u32, compression_type };
    let b0 = inline_bytes(z, compression_type);
    lemma_u32_be_roundtrip(h.chunk_length);
    assert(b0.len() == k * 4096);
    let s = p + b0 + tail;
    let start = offset * 4096;
    assert(s.subrange(start, start + b0.len()) =~= b0);
    assert(s.subrange(start, start + 4) =~= u32_be(h.chunk_length)) by {
        assert(b0.subrange(0, 4) =~= u32_be(h.chunk_length));
        assert(s.subrange(start, start + 4) =~= b0.subrange(0, 4));
    }
    assert(s[start + 4] == compression_type) by {
        assert(b0[4] == compression_type);
        assert(s[start + 4] == b0[4]);
    }
    assert(s.subrange(start + 5, start + 5 + z.len()) =~= z) by {
        assert(b0.subrange(5, 5 + z.len() as int) =~= z);
        assert(s.subrange(start + 5, start + 5 + z.len()) =~= b0.subrange(5, 5 + z.len() as int));
    }
}

/// A chunk stored in an external file reads back from it.
proof fn lemma_external_read(
    z: Seq<u8>,
    raw: Seq<u8>,
    compression_type: u8,
    timestamp: u32,
    offset: int,
    base: int,
    p: Seq<u8>,
    tail: Seq<u8>,
    es: Seq<(u32, Seq<u8>)>,
)
    requires
        1 <= compression_type <= 4,
        chunk_decompressed(z, compression_type) == Ok::<Seq<u8>, Error>(raw),
        external_lookup(es, base as u32) == Some(z),
        2 <= offset,
        offset + 1 <= u32::MAX,
        p.len() == offset * 4096,
    ensures
        external_bytes(compression_type).len() == 4096,
        chunk_read(
            p + external_bytes(compression_type) + tail,
            es,
            ChunkDataInfo { sector_offset: offset as u32, sector_count: 1, timestamp },
            base,
        ) == Ok::<Seq<u8>, Error>(raw),
{
    let h = DataHeader { chunk_length: 1, compression_type: (compression_type + 128) as u8 };
    let b0 = external_bytes(compression_type);
    lemma_u32_be_roundtrip(1);
    assert(b0.len() == 4096);
    let s = p + b0 + tail;
    let start = offset * 4096;
    assert(s[start + 4] == compression_type + 128) by {
        assert(b0[4] == h.compression_type);
        assert(s[start + 4] == b0[4]);
    }
}

/// Every chunk read from a file whose table and sectors come from writing
/// `cs` (the sectors starting at sector `offset`) is the chunk written.
#[verifier::spinoff_prover]
proof fn lemma_written_reads(
    cs: Seq<Chunk>,
    offset: int,
    compression_type: u8,
    level: u8,
    base: int,
    p: Seq<u8>,
    es: Seq<(u32, Seq<u8>)>,
    q: Seq<u8>,
)
    requires
        chunks_written(cs, offset, compression_type, level) is Ok,
        2 <= offset,
        0 <= base,
        p.len() == offset * 4096,
        forall|j: int| 0 <= j < cs.len() ==> #[trigger] chunk_reversible(cs[j], compression_type, level),
        externals_from(es, cs, base, compression_type, level),
    ensures
        ({
            let w = chunks_written(cs, offset, compression_type, level)->Ok_0;
            &&& w.1.len() == cs.len()
            &&& forall|j: int|
                0 <= j < cs.len() ==> #[trigger] chunk_read(p + w.0 + q, es, w.1[j], base + j) == Ok::<
                    Seq<u8>,
                    Error,
                >(cs[j].raw_chunk@)
        }),
    decreases cs.len(),
{
    if cs.len() == 0 {
        return;
    }
    let c = cs[0];
    let rest = cs.drop_first();
    let raw = c.raw_chunk@;
    assert forall|j: int| 0 <= j < rest.len() implies #[trigger] chunk_reversible(rest[j], compression_type, level) by {
        assert(rest[j] == cs[j + 1]);
        assert(chunk_reversible(cs[j + 1], compression_type, level));
    }
    assert(externals_from(es, rest, base + 1, compression_type, level)) by {
        assert forall|j: int| 0 <= j < rest.len() implies #[trigger] external_entry(
            es,
            rest[j],
            base + 1 + j,
            compression_type,
            level,
        ) by {
            assert(rest[j] == cs[j + 1]);
            assert(base + 1 + j == base + (j + 1));
            assert(external_entry(es, cs[j + 1], base + (j + 1), compression_type, level));
        }
    }
    assert(chunk_reversible(cs[0], compression_type, level));
    assert(external_entry(es, cs[0], base + 0, compression_type, level));
    let w = chunks_written(cs, offset, compression_type, level)->Ok_0;
    let ts = c.timestamps as u32;
    let (k, b0): (int, Seq<u8>) = if raw.len() == 0 {
        (0, Seq::empty())
    } else {
        let z = chunk_compressed(raw, compression_type, level)->Ok_0;
        if 5 + z.len() <= 255 * 4096 {
            (sectors_for(z.len() as int), inline_bytes(z, compression_type))
        } else {
            (1, external_bytes(compression_type))
        }
    };
    if raw.len() > 0 {
        let z = chunk_compressed(raw, compression_type, level)->Ok_0;
        assert(1 <= compression_type <= 4);
        if 5 + z.len() <= 255 * 4096 {
            lemma_inline_read(z, raw, compression_type, ts, offset, base, p, w.0.subrange(b0.len() as int, w.0.len() as int) + q, es);
        } else {
            lemma_external_read(z, raw, compression_type, ts, offset, base, p, w.0.subrange(b0.len() as int, w.0.len() as int) + q, es);
        }
    }
    lemma_written_reads(rest, offset + k, compression_type, level, base + 1, p + b0, es, q);
    let wr = chunks_written(rest, offset + k, compression_type, level)->Ok_0;
    assert(w.0 =~= b0 + wr.0);
    assert(w.1 =~= seq![w.1[0]] + wr.1);
    assert(w.0.subrange(b0.len() as int, w.0.len() as int) =~= wr.0);
    assert(p + w.0 + q =~= p + b0 + wr.0 + q);
    assert(p + w.0 + q =~= p + b0 + (wr.0 + q));
    assert forall|j: int| 0 <= j < cs.len() implies #[trigger] chunk_read(p + w.0 + q, es, w.1[j], base + j)
        == Ok::<Seq<u8>, Error>(cs[j].raw_chunk@) by {
        if j == 0 {
            if raw.len() == 0 {
                assert(raw =~= Seq::<u8>::empty());
            }
        } else {
            assert(w.1[j] == wr.1[j - 1]);
            assert(rest[j - 1] == cs[j]);
            assert(base + j == base + 1 + (j - 1));
        }
    }
}

/// Writing gives one table entry per chunk, none of them past the sectors
/// that the chunks can take.
proof fn lemma_written_offsets(cs: Seq<Chunk>, offset: int, compression_type: u8, level: u8)
    requires
        chunks_written(cs, offset, compression_type, level) is Ok,
        0 <= offset,
    ensures
        ({
            let w = chunks_written(cs, offset, compression_type, level)->Ok_0;
            &&& w.1.len() == cs.len()
            &&& forall|j: int| 0 <= j < cs.len() ==> (#[trigger] w.1[j]).sector_offset <= offset + 255 * cs.len()
        }),
    decreases cs.len(),
{
    if cs.len() > 0 {
        let raw = cs[0].raw_chunk@;
        let rest = cs.drop_first();
        let w = chunks_written(cs, offset, compression_type, level)->Ok_0;
        let k = if raw.len() == 0 {
            0
        } else {
            let z = chunk_compressed(raw, compression_type, level)->Ok_0;
            lemma_sector_arith(z.len() as int);
            if 5 + z.len() <= 255 * 4096 {
                sectors_for(z.len() as int)
            } else {
                1
            }
        };
        lemma_written_offsets(rest, offset + k, compression_type, level);
        let wr = chunks_written(rest, offset + k, compression_type, level)->Ok_0;
        assert(w.1 =~= seq![w.1[0]] + wr.1);
        assert forall|j: int| 0 <= j < cs.len() implies (#[trigger] w.1[j]).sector_offset <= offset + 255
            * cs.len() by {
            if j > 0 {
                assert(w.1[j] == wr.1[j - 1]);
            }
        }
    }
}

/// When writing sends no chunk to an external file, every chunk is found in
/// any set of external files, since none is looked for.
pub proof fn lemma_no_externals(
    cs: Seq<Chunk>,
    offset: int,
    compression_type: u8,
    level: u8,
    base: int,
    es: Seq<(u32, Seq<u8>)>,
)
    requires
        chunks_written(cs, offset, compression_type, level) is Ok,
        chunks_written(cs, offset, compression_type, level)->Ok_0.2.len() == 0,
    ensures
        externals_from(es, cs, base, compression_type, level),
    decreases cs.len(),
{
    if cs.len() > 0 {
        let raw = cs[0].raw_chunk@;
        let rest = cs.drop_first();
        let k: int = if raw.len() == 0 {
            0
        } else {
            let z = chunk_compressed(raw, compression_type, level)->Ok_0;
            if 5 + z.len() <= 255 * 4096 {
                sectors_for(z.len() as int)
            } else {
                1
            }
        };
        let w = chunks_written(cs, offset, compression_type, level)->Ok_0;
        let wr = chunks_written(rest, offset + k, compression_type, level)->Ok_0;
        if raw.len() > 0 {
            let z = chunk_compressed(raw, compression_type, level)->Ok_0;
            if 5 + z.len() > 255 * 4096 {
                assert(w.2 =~= seq![(cs[0].x, cs[0].z, z)] + wr.2);
            }
        }
        assert(w.2.len() >= wr.2.len());
        lemma_no_externals(rest, offset + k, compression_type, level, base + 1, es);
        assert forall|j: int| 0 <= j < cs.len() implies #[trigger] external_entry(
            es,
            cs[j],
            base + j,
            compression_type,
            level,
        ) by {
            if j > 0 {
                assert(rest[j - 1] == cs[j]);
                assert(base + j == base + 1 + (j - 1));
                assert(external_entry(es, rest[j - 1], base + 1 + (j - 1), compression_type, level));
            }
        }
    }
}

/// A successful read gives one chunk per table entry.
pub proof fn lemma_chunks_read_len(s: Seq<u8>, es: Seq<(u32, Seq<u8>)>, infos: Seq<ChunkDataInfo>)
    ensures
        chunks_read(s, es, infos) matches Ok(ds) ==> ds.len() == infos.len(),
    decreases infos.len(),
{
    if infos.len() > 0 {
        lemma_chunks_read_len(s, es, infos.drop_last());
    }
}

/// A read that gives each chunk in turn gives them all.
proof fn lemma_reads_all(s: Seq<u8>, es: Seq<(u32, Seq<u8>)>, infos: Seq<ChunkDataInfo>, ds: Seq<Seq<u8>>)
    requires
        infos.len() == ds.len(),
        forall|j: int| 0 <= j < infos.len() ==> #[trigger] chunk_read(s, es, infos[j], j) == Ok::<Seq<u8>, Error>(ds[j]),
    ensures
        chunks_read(s, es, infos) == Ok::<Seq<Seq<u8>>, Error>(ds),
    decreases infos.len(),
{
    if infos.len() > 0 {
        let n = infos.len() - 1;
        assert forall|j: int| 0 <= j < infos.drop_last().len() implies #[trigger] chunk_read(s, es, infos.drop_last()[j], j)
            == Ok::<Seq<u8>, Error>(ds.drop_last()[j]) by {
            assert(infos.drop_last()[j] == infos[j]);
        }
        lemma_reads_all(s, es, infos.drop_last(), ds.drop_last());
        assert(chunk_read(s, es, infos[n], n) == Ok::<Seq<u8>, Error>(ds[n]));
        assert(ds.drop_last().push(ds[n]) =~= ds);
    } else {
        assert(ds =~= Seq::<Seq<u8>>::empty());
    }
}

/// A chunk that goes to an external `.mcc` file named after its coordinates.
pub struct ExternalChunk {
    pub x: i64,
    pub z: i64,
    pub data: Vec<u8>,
}

/// What writing the chunks of an anvil file produces: the sectors that follow
/// the chunk table, the table entries, and the chunks for external files.
pub struct ChunkDataOutput {
    pub sectors: Vec<u8>,
    pub chunks_info: Vec<ChunkDataInfo>,
    pub external: Vec<ExternalChunk>,
}

/// The external chunks as values.
pub open spec fn externals_view(es: Seq<ExternalChunk>) -> Seq<(i64, i64, Seq<u8>)> {
    Seq::new(es.len(), |i: int| (es[i].x, es[i].z, es[i].data@))
}

/// The output as values.
pub open spec fn output_view(o: ChunkDataOutput) -> ChunksWritten {
    (o.sectors@, o.chunks_info@, externals_view(o.external@))
}

/// Puts the output written so far in front of a successful write.
pub open spec fn prepend_output(a: ChunksWritten, r: Result<ChunksWritten, Error>) -> Result<ChunksWritten, Error> {
    match r {
        Ok((b2, infos, exts)) => Ok((a.0 + b2, a.1 + infos, a.2 + exts)),
        Err(e) => Err(e),
    }
}

fn push_zeros(out: &mut Vec<u8>, n: usize)
    ensures
        final(out)@ == old(out)@ + zeros(n as nat),
{
    for i in 0..n
        invariant
            out@ == old(out)@ + zeros(i as nat),
    {
        out.push(0);
        assert(out@ =~= old(out)@ + zeros((i + 1) as nat));
    }
}

/// Writes the chunks of an anvil file from sector 2 on (after the chunk
/// table): each non-empty chunk compressed with `compression_type`, stored
/// with its header and padded to whole sectors, or, when that takes more than
/// 255 sectors, handed out for an external file with a one-sector marker.
/// Sector numbers past the `u32` range are an overflow error.
///
/// What is written reads back: behind any 8192 bytes of table, and before
/// anything else, the sectors give each chunk again, the external ones taken
/// from the external files under their index; and each sector offset stays
/// small enough for the 24 bits that the table keeps of it.
#[verifier::rlimit(40)]
pub fn serialize_chunk_data(chunks: Vec<Chunk>, compression_level: u8, compression_type: u8) -> (r: Result<
    ChunkDataOutput,
    Error,
>)
    requires
        level_accepted(compression_type, compression_level),
    ensures
        match r {
            Ok(o) => chunks_written(chunks@, 2, compression_type, compression_level) == Ok::<ChunksWritten, Error>(
                output_view(o),
            ),
            Err(e) => chunks_written(chunks@, 2, compression_type, compression_level) == Err::<ChunksWritten, Error>(e),
        },
        r matches Ok(o) ==> forall|p: Seq<u8>, es: Seq<(u32, Seq<u8>)>, q: Seq<u8>|
            p.len() == 8192 && externals_held(es, chunks@, compression_type, compression_level) ==> #[trigger] chunks_read(
                p + o.sectors@ + q,
                es,
                o.chunks_info@,
            ) == Ok::<Seq<Seq<u8>>, Error>(raw_chunks(chunks@)),
        r matches Ok(o) ==> o.chunks_info@.len() == chunks@.len() && forall|i: int|
            0 <= i < o.chunks_info@.len() ==> (#[trigger] o.chunks_info@[i]).sector_offset <= 2 + 255 * chunks@.len(),
{
    let ghost total = chunks_written(chunks@, 2, compression_type, compression_level);
    let mut out = ChunkDataOutput { sectors: Vec::new(), chunks_info: Vec::new(), external: Vec::new() };
    let mut sector_offset: u32 = 2;
    let n = chunks.len();
    proof {
        assert(chunks@.skip(0) =~= chunks@);
        match total {
            Ok((b2, infos, exts)) => {
                assert(Seq::<u8>::empty() + b2 =~= b2);
                assert(Seq::<ChunkDataInfo>::empty() + infos =~= infos);
                assert(externals_view(out.external@) + exts =~= exts);
            },
            Err(e) => {},
        }
    }
    for i in 0..n
        invariant
            n == chunks@.len(),
            level_accepted(compression_type, compression_level),
            2 <= sector_offset,
            total == chunks_written(chunks@, 2, compression_type, compression_level),
            total == prepend_output(
                output_view(out),
                chunks_written(chunks@.skip(i as int), sector_offset as int, compression_type, compression_level),
            ),
            forall|j: int| 0 <= j < i ==> #[trigger] chunk_reversible(chunks@[j], compression_type, compression_level),
    {
        let ghost before = output_view(out);
        let ghost rest_cs = chunks@.skip(i as int);
        proof {
            assert(rest_cs[0] == chunks@[i as int]);
            assert(rest_cs.drop_first() =~= chunks@.skip(i + 1));
        }
        let chunk = &chunks[i];
        if chunk.raw_chunk.len() == 0 {
            out.chunks_info.push(ChunkDataInfo { sector_offset: 0, sector_count: 0, timestamp: chunk.timestamps as u32 });
            proof {
                let info = ChunkDataInfo { sector_offset: 0, sector_count: 0, timestamp: chunk.timestamps as u32 };
                assert(output_view(out) == (before.0, before.1.push(info), before.2));
                match chunks_written(chunks@.skip(i + 1), sector_offset as int, compression_type, compression_level) {
                    Ok((b2, infos, exts)) => {
                        assert(before.0 + (Seq::<u8>::empty() + b2) =~= before.0 + b2);
                        assert(before.1 + (seq![info] + infos) =~= before.1.push(info) + infos);
                        assert(before.2 + (Seq::<(i64, i64, Seq<u8>)>::empty() + exts) =~= before.2 + exts);
                    },
                    Err(e) => {},
                }
            }
        } else {
            let raw = slice_to_vec(chunk.raw_chunk.as_slice());
            let t = match chunk_compression(raw, compression_type, compression_level) {
                Ok(t) => t,
                Err(e) => {
                    return Err(e);
                },
            };
            let tl = t.len();
            if tl <= 1044475 {
                let sector_count = (tl + 5 + 4095) / 4096;
                if sector_offset > u32::MAX - sector_count as u32 {
                    return Err(Error::Overflow);
                }
                let pad = (4096 - ((5 + tl) % 4096)) % 4096;
                let header = DataHeader { chunk_length: (tl as u32) + 1, compression_type };
                header.write(&mut out.sectors);
                out.sectors.extend_from_slice(t.as_slice());
                push_zeros(&mut out.sectors, pad);
                let info = ChunkDataInfo { sector_offset, sector_count: sector_count as u8, timestamp: chunk.timestamps as u32 };
                out.chunks_info.push(info);
                proof {
                    let b = inline_bytes(t@, compression_type);
                    assert(out.sectors@ =~= before.0 + b);
                    assert(output_view(out) == (before.0 + b, before.1.push(info), before.2));
                    match chunks_written(chunks@.skip(i + 1), sector_offset + sector_count, compression_type, compression_level) {
                        Ok((b2, infos, exts)) => {
                            assert(before.0 + (b + b2) =~= (before.0 + b) + b2);
                            assert(before.1 + (seq![info] + infos) =~= before.1.push(info) + infos);
                            assert(before.2 + (Seq::<(i64, i64, Seq<u8>)>::empty() + exts) =~= before.2 + exts);
                        },
                        Err(e) => {},
                    }
                }
                sector_offset = sector_offset + sector_count as u32;
            } else {
                if sector_offset == u32::MAX {
                    return Err(Error::Overflow);
                }
                let header = DataHeader { chunk_length: 1, compression_type: compression_type + 128 };
                header.write(&mut out.sectors);
                push_zeros(&mut out.sectors, 4091);
                let info = ChunkDataInfo { sector_offset, sector_count: 1, timestamp: chunk.timestamps as u32 };
                out.chunks_info.push(info);
                let ghost ext = (chunk.x, chunk.z, t@);
                out.external.push(ExternalChunk { x: chunk.x, z: chunk.z, data: t });
                proof {
                    let b = external_bytes(compression_type);
                    assert(out.sectors@ =~= before.0 + b);
                    assert(externals_view(out.external@) =~= before.2.push(ext));
                    assert(output_view(out) == (before.0 + b, before.1.push(info), before.2.push(ext)));
                    match chunks_written(chunks@.skip(i + 1), sector_offset + 1, compression_type, compression_level) {
                        Ok((b2, infos, exts)) => {
                            assert(before.0 + (b + b2) =~= (before.0 + b) + b2);
                            assert(before.1 + (seq![info] + infos) =~= before.1.push(info) + infos);
                            assert(before.2 + (seq![ext] + exts) =~= before.2.push(ext) + exts);
                        },
                        Err(e) => {},
                    }
                }
                sector_offset = sector_offset + 1;
            }
        }
    }
    proof {
        assert(chunks@.skip(n as int) =~= Seq::<Chunk>::empty());
        let v = output_view(out);
        assert(v.0 + Seq::<u8>::empty() =~= v.0);
        assert(v.1 + Seq::<ChunkDataInfo>::empty() =~= v.1);
        assert(v.2 + Seq::<(i64, i64, Seq<u8>)>::empty() =~= v.2);
        assert(total == Ok::<ChunksWritten, Error>(v));
        assert forall|p: Seq<u8>, es: Seq<(u32, Seq<u8>)>, q: Seq<u8>|
            p.len() == 8192 && externals_held(es, chunks@, compression_type, compression_level) implies #[trigger] chunks_read(
            p + out.sectors@ + q,
            es,
            out.chunks_info@,
        ) == Ok::<Seq<Seq<u8>>, Error>(raw_chunks(chunks@)) by {
            lemma_written_reads(chunks@, 2, compression_type, compression_level, 0, p, es, q);
            assert forall|j: int| 0 <= j < out.chunks_info@.len() implies #[trigger] chunk_read(
                p + out.sectors@ + q,
                es,
                out.chunks_info@[j],
                j,
            ) == Ok::<Seq<u8>, Error>(raw_chunks(chunks@)[j]) by {
                assert(0 + j == j);
            }
            lemma_reads_all(p + out.sectors@ + q, es, out.chunks_info@, raw_chunks(chunks@));
        }
        lemma_written_offsets(chunks@, 2, compression_type, compression_level);
    }
    Ok(out)
}

/// The index in the 32 x 32 grid of the chunk named by a file name of the
/// form `r.<x>.<z>.linear` (coordinates taken modulo 32).
pub open spec fn mcc_index_spec(name: Seq<u8>) -> Result<u32, Error> {
    match region_coords_spec(name) {
        Err(e) => Err(Error::Coords(e)),
        Ok((x, z)) => Ok(((z % 32) * 32 + (x % 32)) as u32),
    }
}

/// The index in the 32 x 32 grid of the chunk that a file name names.
pub fn mcc_path_to_index(file_name: &str) -> (r: Result<u32, Error>)
    ensures
        r == mcc_index_spec(encode_utf8(file_name@)),
{
    let (x, z) = match parse_region_coords(file_name) {
        Ok(c) => c,
        Err(e) => {
            return Err(Error::Coords(e));
        },
    };
    let local_x = ((x % 32) + 32) % 32;
    let local_z = ((z % 32) + 32) % 32;
    let index = local_z * 32 + local_x;
    Ok(index as u32)
}

/// The index of each external file (by its name) with its contents; the first
/// name that does not parse is an error.
pub open spec fn mcc_entries(ms: Seq<(Seq<char>, Seq<u8>)>) -> Result<Seq<(u32, Seq<u8>)>, Error>
    decreases ms.len(),
{
    if ms.len() == 0 {
        Ok(Seq::empty())
    } else {
        match mcc_entries(ms.drop_last()) {
            Err(e) => Err(e),
            Ok(es) => match mcc_index_spec(encode_utf8(ms.last().0)) {
                Err(e) => Err(e),
                Ok(i) => Ok(es.push((i, ms.last().1))),
            },
        }
    }
}

/// The contents of the last external file with the given index.
pub open spec fn external_lookup(es: Seq<(u32, Seq<u8>)>, index: u32) -> Option<Seq<u8>>
    decreases es.len(),
{
    if es.len() == 0 {
        None
    } else if es.last().0 == index {
        Some(es.last().1)
    } else {
        external_lookup(es.drop_last(), index)
    }
}

/// Reading chunk `index` of a file from its table entry.
pub open spec fn chunk_read(s: Seq<u8>, es: Seq<(u32, Seq<u8>)>, info: ChunkDataInfo, index: int) -> Result<
    Seq<u8>,
    Error,
> {
    if info.sector_offset == 0 || info.sector_count == 0 {
        Ok(Seq::empty())
    } else {
        let start = info.sector_offset * 4096;
        if start + 5 > s.len() {
            Err(Error::UnexpectedEof)
        } else {
            let len = be_u32_at(s, start);
            let t = s[start + 4];
            if t >= 128 {
                match external_lookup(es, index as u32) {
                    None => Err(Error::MissingExternalChunk(index as u32)),
                    Some(d) => chunk_decompressed(d, (t - 128) as u8),
                }
            } else if len == 0 || len > info.sector_count * 4096 - 4 {
                Err(Error::CorruptChunk)
            } else if start + 5 + (len - 1) > s.len() {
                Err(Error::UnexpectedEof)
            } else {
                chunk_decompressed(s.subrange(start + 5, start + 5 + (len - 1)), t)
            }
        }
    }
}

/// Reading the chunks of a file, in table order; the first error wins.
pub open spec fn chunks_read(s: Seq<u8>, es: Seq<(u32, Seq<u8>)>, infos: Seq<ChunkDataInfo>) -> Result<
    Seq<Seq<u8>>,
    Error,
>
    decreases infos.len(),
{
    if infos.len() == 0 {
        Ok(Seq::empty())
    } else {
        match chunks_read(s, es, infos.drop_last()) {
            Err(e) => Err(e),
            Ok(done) => match chunk_read(s, es, infos.last(), infos.len() - 1) {
                Err(e) => Err(e),
                Ok(d) => Ok(done.push(d)),
            },
        }
    }
}

/// The external files as name and contents.
pub open spec fn mcc_view(m: Seq<(String, Vec<u8>)>) -> Seq<(Seq<char>, Seq<u8>)> {
    Seq::new(m.len(), |i: int| (m[i].0@, m[i].1@))
}

/// The optional external files as values.
pub open spec fn mcc_opt_view(mcc: Option<Vec<(String, Vec<u8>)>>) -> Option<Seq<(Seq<char>, Seq<u8>)>> {
    match mcc {
        Some(m) => Some(mcc_view(m@)),
        None => None,
    }
}

/// Reading the chunks of an anvil file given as a whole, with the external
/// files that it may need.
pub open spec fn chunk_data_read(s: Seq<u8>, mcc: Option<Seq<(Seq<char>, Seq<u8>)>>, infos: Seq<ChunkDataInfo>) -> Result<
    Seq<Seq<u8>>,
    Error,
> {
    let es = match mcc {
        None => Ok(Seq::empty()),
        Some(ms) => mcc_entries(ms),
    };
    match es {
        Err(e) => Err(e),
        Ok(es) => chunks_read(s, es, infos),
    }
}

fn lookup_external(es: &Vec<(u32, Vec<u8>)>, index: u32) -> (r: Option<&Vec<u8>>)
    ensures
        match r {
            Some(d) => external_lookup(es_view(es@), index) == Some(d@),
            None => external_lookup(es_view(es@), index) is None,
        },
{
    let mut found: Option<&Vec<u8>> = None;
    let n = es.len();
    for i in 0..n
        invariant
            n == es@.len(),
            match found {
                Some(d) => external_lookup(es_view(es@).take(i as int), index) == Some(d@),
                None => external_lookup(es_view(es@).take(i as int), index) is None,
            },
    {
        proof {
            assert(es_view(es@).take(i + 1).drop_last() =~= es_view(es@).take(i as int));
        }
        if es[i].0 == index {
            found = Some(&es[i].1);
        }
    }
    assert(es_view(es@).take(n as int) =~= es_view(es@));
    found
}

/// The index entries as values.
pub open spec fn es_view(es: Seq<(u32, Vec<u8>)>) -> Seq<(u32, Seq<u8>)> {
    Seq::new(es.len(), |i: int| (es[i].0, es[i].1@))
}

/// Reads the chunks of an anvil file given as a whole: each entry of the
/// table gives an empty chunk (no sector), a chunk stored in the file (length
/// checked against its sectors) or a chunk stored in an external file, found
/// by the index that its file name gives; each is decompressed.
pub fn deserialize_chunk_data(data: &[u8], mcc: Option<Vec<(String, Vec<u8>)>>, superblock: &SuperBlock) -> (r: Result<
    Vec<Vec<u8>>,
    Error,
>)
    ensures
        match r {
            Ok(v) => chunk_data_read(data@, mcc_opt_view(mcc), superblock.chunks_info@) == Ok::<
                Seq<Seq<u8>>,
                Error,
            >(byte_vecs(v@)),
            Err(e) => chunk_data_read(data@, mcc_opt_view(mcc), superblock.chunks_info@) == Err::<
                Seq<Seq<u8>>,
                Error,
            >(e),
        },
{
    let mut index_mcc: Vec<(u32, Vec<u8>)> = Vec::new();
    let ghost mv = mcc_opt_view(mcc);
    match mcc {
        Some(files) => {
            let n = files.len();
            proof {
                assert(mv == Some(mcc_view(files@)));
                assert(mcc_view(files@).take(0) =~= Seq::<(Seq<char>, Seq<u8>)>::empty());
                assert(es_view(index_mcc@) =~= Seq::<(u32, Seq<u8>)>::empty());
            }
            for i in 0..n
                invariant
                    n == files@.len(),
                    mv == Some(mcc_view(files@)),
                    mv == mcc_opt_view(mcc),
                    mcc_entries(mcc_view(files@).take(i as int)) == Ok::<Seq<(u32, Seq<u8>)>, Error>(es_view(index_mcc@)),
            {
                proof {
                    assert(mcc_view(files@).take(i + 1).drop_last() =~= mcc_view(files@).take(i as int));
                }
                let idx = match mcc_path_to_index(files[i].0.as_str()) {
                    Ok(idx) => idx,
                    Err(e) => {
                        proof {
                            lemma_mcc_entries_error(mcc_view(files@), i as int, e);
                        }
                        return Err(e);
                    },
                };
                let contents = slice_to_vec(files[i].1.as_slice());
                let ghost before = es_view(index_mcc@);
                index_mcc.push((idx, contents));
                proof {
                    assert(es_view(index_mcc@) =~= before.push((idx, files@[i as int].1@)));
                }
            }
            proof {
                assert(mcc_view(files@).take(n as int) =~= mcc_view(files@));
            }
        },
        None => {
            assert(es_view(index_mcc@) =~= Seq::<(u32, Seq<u8>)>::empty());
        },
    }
    let ghost es = es_view(index_mcc@);
    let infos = &superblock.chunks_info;
    let mut result: Vec<Vec<u8>> = Vec::new();
    let n = infos.len();
    proof {
        assert(chunk_data_read(data@, mv, infos@) == chunks_read(data@, es, infos@));
        assert(infos@.take(0) =~= Seq::<ChunkDataInfo>::empty());
        assert(byte_vecs(result@) =~= Seq::<Seq<u8>>::empty());
    }
    for i in 0..n
        invariant
            n == infos@.len(),
            chunk_data_read(data@, mv, infos@) == chunks_read(data@, es, infos@),
            mv == mcc_opt_view(mcc),
            infos@ == superblock.chunks_info@,
            es == es_view(index_mcc@),
            chunks_read(data@, es, infos@.take(i as int)) == Ok::<Seq<Seq<u8>>, Error>(byte_vecs(result@)),
    {
        proof {
            assert(infos@.take(i + 1).drop_last() =~= infos@.take(i as int));
            assert(infos@.take(i + 1).last() == infos@[i as int]);
        }
        let info = infos[i];
        let piece = read_one_chunk(data, &index_mcc, info, i);
        match piece {
            Ok(d) => {
                let ghost before = byte_vecs(result@);
                result.push(d);
                proof {
                    assert(byte_vecs(result@) =~= before.push(d@));
                }
            },
            Err(e) => {
                proof {
                    lemma_chunks_read_error(data@, es, infos@, i as int, e);
                }
                return Err(e);
            },
        }
    }
    proof {
        assert(infos@.take(n as int) =~= infos@);
    }
    Ok(result)
}

/// An error at entry `i`, after `i` good entries, is the error of the whole read.
proof fn lemma_chunks_read_error(s: Seq<u8>, es: Seq<(u32, Seq<u8>)>, infos: Seq<ChunkDataInfo>, i: int, e: Error)
    requires
        0 <= i < infos.len(),
        chunks_read(s, es, infos.take(i)) is Ok,
        chunk_read(s, es, infos[i], i) == Err::<Seq<u8>, Error>(e),
    ensures
        chunks_read(s, es, infos) == Err::<Seq<Seq<u8>>, Error>(e),
    decreases infos.len(),
{
    if i == infos.len() - 1 {
        assert(infos.drop_last() =~= infos.take(i));
    } else {
        assert(infos.drop_last().take(i) =~= infos.take(i));
        lemma_chunks_read_error(s, es, infos.drop_last(), i, e);
    }
}

/// An error at file `i`, after `i` good names, is the error of the whole index.
proof fn lemma_mcc_entries_error(ms: Seq<(Seq<char>, Seq<u8>)>, i: int, e: Error)
    requires
        0 <= i < ms.len(),
        mcc_entries(ms.take(i)) is Ok,
        mcc_index_spec(encode_utf8(ms[i].0)) == Err::<u32, Error>(e),
    ensures
        mcc_entries(ms) == Err::<Seq<(u32, Seq<u8>)>, Error>(e),
    decreases ms.len(),
{
    if i == ms.len() - 1 {
        assert(ms.drop_last() =~= ms.take(i));
    } else {
        assert(ms.drop_last().take(i) =~= ms.take(i));
        lemma_mcc_entries_error(ms.drop_last(), i, e);
    }
}

fn read_one_chunk(data: &[u8], index_mcc: &Vec<(u32, Vec<u8>)>, info: ChunkDataInfo, index: usize) -> (r: Result<Vec<u8>, Error>)
    ensures
        bytes_view(r) == chunk_read(data@, es_view(index_mcc@), info, index as int),
{
    if info.sector_offset == 0 || info.sector_count == 0 {
        return Ok(Vec::new());
    }
    let start = info.sector_offset as u64 * 4096;
    if start > data.len() as u64 || data.len() as u64 - start < 5 {
        return Err(Error::UnexpectedEof);
    }
    let start = start as usize;
    let header = DataHeader::read(data, start)?;
    if header.compression_type >= 128 {
        match lookup_external(index_mcc, index as u32) {
            None => Err(Error::MissingExternalChunk(index as u32)),
            Some(d) => chunk_decompress(slice_to_vec(d.as_slice()), header.compression_type - 128),
        }
    } else {
        let max_len = info.sector_count as u32 * 4096 - 4;
        if header.chunk_length == 0 || header.chunk_length > max_len {
            return Err(Error::CorruptChunk);
        }
        let len = (header.chunk_length - 1) as usize;
        if data.len() - (start + 5) < len {
            return Err(Error::UnexpectedEof);
        }
        let t = slice_to_vec(&data[start + 5..start + 5 + len]);
        chunk_decompress(t, header.compression_type)
    }
}

} // verus!
