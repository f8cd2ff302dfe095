use vstd::prelude::*;
use vstd::slice::slice_to_vec;

use crate::bytes::byte_vecs;
use crate::bytes::push_u32_be;
use crate::bytes::read_bytes;
use crate::bytes::u32_be;
use crate::codec::xxh64;
use crate::codec::xxh64_of;
use crate::codec::zstd_decompress;
use crate::codec::zstd_decompressed;
use crate::error::Error;
use crate::features::FeatureMap;
use crate::models::anvil::chunk_data_read;
use crate::models::anvil::deserialize_chunk_data;
use crate::models::anvil::deserialize_superblock;
use crate::models::anvil::externals_view;
use crate::models::anvil::lemma_chunks_read_len;
use crate::models::anvil::lemma_no_externals;
use crate::models::anvil::lemma_superblock_roundtrip;
use crate::models::anvil::level_accepted;
use crate::models::anvil::mcc_opt_view;
use crate::models::anvil::raw_chunks;
use crate::models::anvil::serialize_chunk_data;
use crate::models::anvil::serialize_superblock;
use crate::models::anvil::superblock_bytes;
use crate::models::anvil::table_at;
use crate::models::anvil::chunk_info_at;
use crate::models::anvil::chunks_read;
use crate::models::anvil::chunks_written;
use crate::models::anvil::mcc_entries;
use crate::models::anvil::ExternalChunk;
use crate::models::linear_v1::chunk_header_at;
use crate::models::linear_v1::superblock_read;
use crate::models::linear_v1::ChunkHeaders;
use crate::models::linear_v1::SuperBlock;

verus! {

/// One chunk of a region: its raw (uncompressed) payload, its timestamp and its coordinates.
pub struct Chunk {
    pub raw_chunk: Vec<u8>,
    pub timestamps: u64,
    pub x: i64,
    pub z: i64,
}

impl Chunk {
    /// Builds a chunk from its index inside the 32 x 32 region grid.
    pub fn new(raw_chunk: Vec<u8>, timestamps: u64, index: u16) -> (c: Chunk)
        ensures
            c.raw_chunk@ == raw_chunk@,
            c.timestamps == timestamps,
            c.x == index as int % 32,
            c.z == index as int / 32,
    {
        let x = (index % 32) as i64;
        let z = (index / 32) as i64;
        Chunk { raw_chunk, timestamps, x, z }
    }

    /// A chunk is empty when it carries no payload.
    pub fn is_empty(&self) -> (b: bool)
        ensures
            b == (self.raw_chunk@.len() == 0),
    {
        self.raw_chunk.len() == 0
    }
}

/// A region: its chunks, its coordinates and its feature table.
pub struct Region {
    pub chunks: Vec<Chunk>,
    pub region_x: i32,
    pub region_z: i32,
    pub nbt_features: FeatureMap,
}

/// Where payload `i` of a linear v1 frame begins: after the 8192 header
/// bytes and the payloads before it.
pub open spec fn v1_offset(p: Seq<u8>, i: nat) -> int
    decreases i,
{
    if i == 0 {
        8192
    } else {
        v1_offset(p, (i - 1) as nat) + chunk_header_at(p, 8 * (i - 1)).size
    }
}

/// The first `n` payloads of a decompressed linear v1 frame, or the first
/// that runs past its end.
pub open spec fn v1_payloads(p: Seq<u8>, n: nat) -> Result<Seq<Seq<u8>>, Error>
    decreases n,
{
    if n == 0 {
        Ok(Seq::empty())
    } else {
        match v1_payloads(p, (n - 1) as nat) {
            Err(e) => Err(e),
            Ok(v) => {
                let off = v1_offset(p, (n - 1) as nat);
                let size = chunk_header_at(p, 8 * (n - 1)).size;
                if off + size > p.len() {
                    Err(Error::UnexpectedEof)
                } else {
                    Ok(v.push(p.subrange(off, off + size)))
                }
            },
        }
    }
}

proof fn lemma_v1_payloads_len(p: Seq<u8>, n: nat)
    ensures
        v1_payloads(p, n) matches Ok(ps) ==> ps.len() == n,
    decreases n,
{
    if n > 0 {
        lemma_v1_payloads_len(p, (n - 1) as nat);
    }
}

proof fn lemma_v1_payloads_error_persists(p: Seq<u8>, k: nat, n: nat)
    requires
        k <= n,
        v1_payloads(p, k) is Err,
    ensures
        v1_payloads(p, n) == v1_payloads(p, k),
    decreases n,
{
    if n > k {
        lemma_v1_payloads_error_persists(p, k, (n - 1) as nat);
    }
}

/// Chunk `i` of a region read from a decompressed linear v1 frame.
pub open spec fn is_v1_chunk(c: Chunk, p: Seq<u8>, payload: Seq<u8>, i: int) -> bool {
    &&& c.raw_chunk@ == payload
    &&& c.timestamps == chunk_header_at(p, 8 * i).timestamp as u64
    &&& c.x == i % 32
    &&& c.z == i / 32
}

/// Chunk `i` of a region read from an anvil file: the given data and timestamp, at `(i % 32, i / 32)`.
pub open spec fn is_anvil_chunk(c: Chunk, data: Seq<u8>, timestamp: u32, i: int) -> bool {
    &&& c.raw_chunk@ == data
    &&& c.timestamps == timestamp as u64
    &&& c.x == i % 32
    &&& c.z == i / 32
}

/// A chunk read from entry `i` of a region file (anvil or linear v1) lies at
/// `x = i % 32`, `z = i / 32` of the region's grid.
pub proof fn lemma_read_chunk_position(c: Chunk, data: Seq<u8>, payload: Seq<u8>, timestamp: u32, i: int)
    ensures
        is_anvil_chunk(c, data, timestamp, i) ==> c.x == i % 32 && c.z == i / 32 && c.raw_chunk@ == data,
        is_v1_chunk(c, data, payload, i) ==> c.x == i % 32 && c.z == i / 32 && c.raw_chunk@ == payload,
{
}

/// An anvil file as bytes, with the chunks that go to external `.mcc` files.
pub struct AnvilFile {
    pub bytes: Vec<u8>,
    pub external: Vec<ExternalChunk>,
}

/// The bytes that the region hash covers for the chunks: for each chunk a
/// zero byte if it is empty, else a one byte and its length big-endian.
pub open spec fn chunks_hash_bytes(cs: Seq<Chunk>) -> Seq<u8>
    decreases cs.len(),
{
    if cs.len() == 0 {
        Seq::empty()
    } else {
        chunks_hash_bytes(cs.drop_last()) + if cs.last().raw_chunk@.len() == 0 {
            seq![0u8]
        } else {
            seq![1u8] + u32_be(cs.last().raw_chunk@.len() as u32)
        }
    }
}

/// The bytes that the region hash covers: the coordinates big-endian, then the chunks.
pub open spec fn region_hash_bytes(x: i32, z: i32, cs: Seq<Chunk>) -> Seq<u8> {
    u32_be(x as u32) + u32_be(z as u32) + chunks_hash_bytes(cs)
}

impl Region {
    pub fn new(chunks: Vec<Chunk>, region_x: i32, region_z: i32, nbt_features: FeatureMap) -> (r: Region)
        ensures
            r.chunks@ == chunks@,
            r.region_x == region_x,
            r.region_z == region_z,
            r.nbt_features == nbt_features,
    {
        Region { chunks, region_x, region_z, nbt_features }
    }

    /// The number of chunks.
    pub fn chunk_count(&self) -> (n: usize)
        ensures
            n == self.chunks@.len(),
    {
        self.chunks.len()
    }

    /// Builds a region from a decompressed linear v1 frame: 1024 chunk
    /// headers, then the payloads one after the other; chunk `i` lies at
    /// `(i % 32, i / 32)`.
    pub fn from_linear_v1_payload(payload: &[u8], region_x: i32, region_z: i32) -> (r: Result<Region, Error>)
        ensures
            payload@.len() < 8192 ==> r is Err && r->Err_0 == Error::UnexpectedEof,
            payload@.len() >= 8192 ==> match v1_payloads(payload@, 1024) {
                Err(e) => r is Err && r->Err_0 == e,
                Ok(ps) => r matches Ok(reg) && reg.region_x == region_x && reg.region_z == region_z
                    && reg.nbt_features@ == Map::<Seq<char>, u32>::empty() && reg.chunks@.len() == 1024
                    && forall|i: int| 0 <= i < 1024 ==> is_v1_chunk(#[trigger] reg.chunks@[i], payload@, ps[i], i),
            },
            r matches Ok(reg) ==> reg.chunks@.len() == 1024 && forall|i: int|
                0 <= i < 1024 ==> (#[trigger] reg.chunks@[i]).x == i % 32 && reg.chunks@[i].z == i / 32,
    {
        let headers = ChunkHeaders::read(payload, 0)?;
        let mut chunks: Vec<Chunk> = Vec::new();
        let mut pos: usize = 8192;
        for index in 0..1024
            invariant
                payload@.len() >= 8192,
                headers.chunk_headers@ == Seq::new(1024, |i: int| chunk_header_at(payload@, 8 * i)),
                pos == v1_offset(payload@, index as nat),
                pos <= payload@.len(),
                v1_payloads(payload@, index as nat) matches Ok(ps) && chunks@.len() == index && forall|i: int|
                    0 <= i < index ==> is_v1_chunk(#[trigger] chunks@[i], payload@, ps[i], i),
        {
            let header = headers.chunk_headers[index];
            let size = header.size as usize;
            let ghost ps = v1_payloads(payload@, index as nat)->Ok_0;
            proof {
                lemma_v1_payloads_len(payload@, index as nat);
            }
            if payload.len() - pos < size {
                proof {
                    lemma_v1_payloads_error_persists(payload@, (index + 1) as nat, 1024);
                }
                return Err(Error::UnexpectedEof);
            }
            let data = slice_to_vec(&payload[pos..pos + size]);
            let chunk = Chunk::new(data, header.timestamp as u64, index as u16);
            chunks.push(chunk);
            pos = pos + size;
            proof {
                let ps2 = v1_payloads(payload@, (index + 1) as nat)->Ok_0;
                assert(ps2 == ps.push(data@));
                assert forall|i: int| 0 <= i < index + 1 implies is_v1_chunk(#[trigger] chunks@[i], payload@, ps2[i], i) by {
                    if i < index {
                        assert(ps2[i] == ps[i]);
                    }
                }
            }
        }
        Ok(Region { chunks, region_x, region_z, nbt_features: FeatureMap::new() })
    }

    /// Reads a region from a whole linear v1 file: the superblock, then the
    /// zstd frame of `compressed_data_length` bytes that follows it.
    pub fn from_linear_v1(data: &[u8], region_x: i32, region_z: i32) -> (r: Result<Region, Error>)
        ensures
            superblock_read(data@, 0) is Err ==> r is Err && r->Err_0 == superblock_read(data@, 0)->Err_0,
            superblock_read(data@, 0) matches Ok(sb) ==> {
                let end = 32 + sb.compressed_data_length;
                &&& end > data@.len() ==> r is Err && r->Err_0 == Error::UnexpectedEof
                &&& end <= data@.len() ==> match zstd_decompressed(data@.subrange(32, end)) {
                    None => r is Err && r->Err_0 == Error::Decompress,
                    Some(p) => (p.len() < 8192 ==> r is Err && r->Err_0 == Error::UnexpectedEof) && (
                    p.len() >= 8192 ==> match v1_payloads(p, 1024) {
                        Err(e) => r is Err && r->Err_0 == e,
                        Ok(ps) => r matches Ok(reg) && reg.region_x == region_x && reg.region_z
                            == region_z && reg.nbt_features@ == Map::<Seq<char>, u32>::empty()
                            && reg.chunks@.len() == 1024 && forall|i: int|
                            0 <= i < 1024 ==> is_v1_chunk(#[trigger] reg.chunks@[i], p, ps[i], i),
                    }),
                }
            },
            r matches Ok(reg) ==> reg.chunks@.len() == 1024 && forall|i: int|
                0 <= i < 1024 ==> (#[trigger] reg.chunks@[i]).x == i % 32 && reg.chunks@[i].z == i / 32,
    {
        let superblock = SuperBlock::read(data, 0)?;
        let compressed = read_bytes(data, 32, superblock.compressed_data_length as usize)?;
        let payload = match zstd_decompress(compressed.as_slice()) {
            Some(p) => p,
            None => {
                return Err(Error::Decompress);
            },
        };
        Region::from_linear_v1_payload(payload.as_slice(), region_x, region_z)
    }

    /// Builds a region from a whole anvil file and the external chunk files
    /// that it may need (name and contents): chunk `i` gets the data that the
    /// file's table gives for entry `i`, that entry's timestamp, and lies at
    /// `(i % 32, i / 32)`.
    pub fn from_anvil(data: &[u8], mcc: Option<Vec<(String, Vec<u8>)>>, region_x: i32, region_z: i32) -> (r: Result<
        Region,
        Error,
    >)
        ensures
            data@.len() < 8192 ==> r is Err && r->Err_0 == Error::UnexpectedEof,
            data@.len() >= 8192 ==> match chunk_data_read(data@, mcc_opt_view(mcc), table_at(data@)) {
                Err(e) => r is Err && r->Err_0 == e,
                Ok(ds) => r matches Ok(reg) && reg.region_x == region_x && reg.region_z == region_z
                    && reg.nbt_features@ == Map::<Seq<char>, u32>::empty() && reg.chunks@.len() == 1024
                    && forall|i: int|
                    0 <= i < 1024 ==> is_anvil_chunk(#[trigger] reg.chunks@[i], ds[i], table_at(data@)[i].timestamp, i),
            },
            r matches Ok(reg) ==> reg.chunks@.len() == 1024 && forall|i: int|
                0 <= i < 1024 ==> (#[trigger] reg.chunks@[i]).x == i % 32 && reg.chunks@[i].z == i / 32
                    && reg.chunks@[i].timestamps == table_at(data@)[i].timestamp as u64,
    {
        let superblock = deserialize_superblock(data, 0)?;
        let ghost infos = superblock.chunks_info@;
        let ghost mv = mcc_opt_view(mcc);
        let datas = deserialize_chunk_data(data, mcc, &superblock)?;
        proof {
            assert(infos =~= table_at(data@));
            match mv {
                None => lemma_chunks_read_len(data@, Seq::empty(), infos),
                Some(ms) => {
                    if let Ok(es) = mcc_entries(ms) {
                        lemma_chunks_read_len(data@, es, infos);
                    }
                },
            }
        }
        let mut chunks: Vec<Chunk> = Vec::new();
        for i in 0..1024
            invariant
                datas@.len() == 1024,
                superblock.chunks_info@ == infos,
                infos.len() == 1024,
                chunks@.len() == i,
                forall|k: int|
                    0 <= k < i ==> is_anvil_chunk(#[trigger] chunks@[k], datas@[k]@, infos[k].timestamp, k),
        {
            let raw = slice_to_vec(datas[i].as_slice());
            let chunk = Chunk::new(raw, superblock.chunks_info[i].timestamp as u64, i as u16);
            chunks.push(chunk);
        }
        proof {
            assert(byte_vecs(datas@).len() == 1024);
        }
        Ok(Region::new(chunks, region_x, region_z, FeatureMap::new()))
    }

    /// Writes the region as an anvil file: the chunks compressed with
    /// `compression_type` (see `serialize_chunk_data`), behind the chunk table;
    /// with the chunks that go to external files. A region needs 1024 chunks.
    ///
    /// Written without external chunks, the file reads back as the chunks of
    /// the region.
    pub fn to_anvil(self, compression_level: u8, compression_type: u8) -> (r: Result<AnvilFile, Error>)
        requires
            level_accepted(compression_type, compression_level),
        ensures
            match chunks_written(self.chunks@, 2, compression_type, compression_level) {
                Err(e) => r is Err && r->Err_0 == e,
                Ok((b, infos, exts)) => {
                    &&& self.chunks@.len() != 1024 ==> r is Err && r->Err_0 == Error::WrongChunkInfoCount(
                        self.chunks@.len() as usize,
                    )
                    &&& self.chunks@.len() == 1024 ==> (r matches Ok(f) && f.bytes@ == superblock_bytes(infos) + b
                        && externals_view(f.external@) == exts)
                },
            },
            r matches Ok(f) ==> (f.external@.len() == 0 ==> chunk_data_read(f.bytes@, None, table_at(f.bytes@))
                == Ok::<Seq<Seq<u8>>, Error>(raw_chunks(self.chunks@))),
    {
        let ghost cs = self.chunks@;
        let out = serialize_chunk_data(self.chunks, compression_level, compression_type)?;
        assert(out.chunks_info@.len() == cs.len());
        let mut bytes = serialize_superblock(out.chunks_info.as_slice())?;
        let ghost table = bytes@;
        bytes.extend_from_slice(out.sectors.as_slice());
        proof {
            let infos = out.chunks_info@;
            assert(infos.len() == 1024);
            assert forall|i: int| 0 <= i < 1024 implies (#[trigger] infos[i]).sector_offset < 0x100_0000 by {}
            lemma_superblock_roundtrip(infos, out.sectors@);
            assert(table == superblock_bytes(infos));
            assert(bytes@ == superblock_bytes(infos) + out.sectors@);
            assert(table_at(bytes@) == Seq::new(1024, |i: int| chunk_info_at(superblock_bytes(infos) + out.sectors@, 0, i)));
            if out.external@.len() == 0 {
                assert(externals_view(out.external@).len() == 0);
                lemma_no_externals(cs, 2, compression_type, compression_level, 0, Seq::empty());
                assert(table + out.sectors@ + Seq::<u8>::empty() =~= bytes@);
                assert(chunks_read(table + out.sectors@ + Seq::<u8>::empty(), Seq::empty(), infos)
                    == Ok::<Seq<Seq<u8>>, Error>(raw_chunks(cs)));
            }
        }
        Ok(AnvilFile { bytes, external: out.external })
    }

    /// The bytes that the region hash covers.
    pub fn hash_input(&self) -> (out: Vec<u8>)
        ensures
            out@ == region_hash_bytes(self.region_x, self.region_z, self.chunks@),
    {
        let mut out: Vec<u8> = Vec::new();
        push_u32_be(&mut out, self.region_x as u32);
        push_u32_be(&mut out, self.region_z as u32);
        let ghost head = out@;
        let n = self.chunks.len();
        for i in 0..n
            invariant
                n == self.chunks@.len(),
                head == u32_be(self.region_x as u32) + u32_be(self.region_z as u32),
                out@ == head + chunks_hash_bytes(self.chunks@.take(i as int)),
        {
            let ghost before = out@;
            let chunk = &self.chunks[i];
            if chunk.is_empty() {
                out.push(0);
            } else {
                out.push(1);
                push_u32_be(&mut out, chunk.raw_chunk.len() as u32);
            }
            proof {
                assert(self.chunks@.take(i + 1).drop_last() =~= self.chunks@.take(i as int));
                assert(out@ =~= head + chunks_hash_bytes(self.chunks@.take(i + 1)));
            }
        }
        proof {
            assert(self.chunks@.take(n as int) =~= self.chunks@);
        }
        out
    }

    /// The xxhash64 (seed 0) of the coordinates and of which chunks are
    /// present with their lengths.
    pub fn hash(&self) -> (h: u64)
        ensures
            h == xxh64_of(region_hash_bytes(self.region_x, self.region_z, self.chunks@), 0),
    {
        let input = self.hash_input();
        xxh64(input.as_slice(), 0)
    }
}

/// The region hash depends on the coordinates and on which chunks are
/// present with what lengths only: two regions at the same coordinates whose
/// chunks have the same lengths, one by one, hash alike.
pub proof fn lemma_hash_by_lengths(x: i32, z: i32, a: Seq<Chunk>, b: Seq<Chunk>)
    requires
        a.len() == b.len(),
        forall|i: int| 0 <= i < a.len() ==> (#[trigger] a[i]).raw_chunk@.len() == b[i].raw_chunk@.len(),
    ensures
        chunks_hash_bytes(a) == chunks_hash_bytes(b),
        region_hash_bytes(x, z, a) == region_hash_bytes(x, z, b),
    decreases a.len(),
{
    if a.len() > 0 {
        lemma_hash_by_lengths(x, z, a.drop_last(), b.drop_last());
        assert(a.last().raw_chunk@.len() == b.last().raw_chunk@.len());
    } else {
        assert(b.len() == 0);
    }
}

} // verus!
