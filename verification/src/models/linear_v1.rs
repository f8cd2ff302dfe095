//! The linear v1 region format: a little-endian superblock, then one zstd
//! frame holding 1024 chunk headers followed by the chunk payloads.

use vstd::prelude::*;

use crate::bytes::has_magic_at;
use crate::bytes::le_u16_at;
use crate::bytes::le_u32_at;
use crate::bytes::le_u64_at;
use crate::bytes::read_u16_le;
use crate::bytes::read_u32_le;
use crate::bytes::read_u64_le;
use crate::error::Error;
use crate::models::linear_v2::MAGIC;

verus! {

/// The header of a linear v1 file (fields little-endian, after the magic).
#[derive(Debug, Clone, Copy, PartialEq, Eq, Structural)]
pub struct SuperBlock {
    pub version: u8,
    pub newest_timestamp: u64,
    pub compression_level: i8,
    pub chunk_count: i16,
    pub compressed_data_length: u32,
    pub reserved: u64,
}

/// Reading a linear v1 superblock at `pos` (32 bytes, magic first).
pub open spec fn superblock_read(s: Seq<u8>, pos: int) -> Result<SuperBlock, Error> {
    if pos + 8 > s.len() {
        Err(Error::UnexpectedEof)
    } else if s.subrange(pos, pos + 8) != MAGIC@ {
        Err(Error::BadMagic)
    } else if pos + 32 > s.len() {
        Err(Error::UnexpectedEof)
    } else {
        Ok(
            SuperBlock {
                version: s[pos + 8],
                newest_timestamp: le_u64_at(s, pos + 9),
                compression_level: s[pos + 17] as i8,
                chunk_count: le_u16_at(s, pos + 18) as i16,
                compressed_data_length: le_u32_at(s, pos + 20),
                reserved: le_u64_at(s, pos + 24),
            },
        )
    }
}

impl SuperBlock {
    /// Reads the superblock at `pos`.
    pub fn read(data: &[u8], pos: usize) -> (r: Result<SuperBlock, Error>)
        ensures
            r == superblock_read(data@, pos as int),
    {
        if pos > data.len() || data.len() - pos < 8 {
            return Err(Error::UnexpectedEof);
        }
        if !has_magic_at(data, pos, &MAGIC) {
            return Err(Error::BadMagic);
        }
        if data.len() - pos < 32 {
            return Err(Error::UnexpectedEof);
        }
        let version = data[pos + 8];
        let newest_timestamp = read_u64_le(data, pos + 9)?;
        let compression_level = data[pos + 17] as i8;
        let chunk_count = read_u16_le(data, pos + 18)? as i16;
        let compressed_data_length = read_u32_le(data, pos + 20)?;
        let reserved = read_u64_le(data, pos + 24)?;
        Ok(SuperBlock { version, newest_timestamp, compression_level, chunk_count, compressed_data_length, reserved })
    }
}

/// The size and timestamp of one chunk payload.
#[derive(Debug, Clone, Copy, PartialEq, Eq, Structural)]
pub struct ChunkHeader {
    pub size: u32,
    pub timestamp: u32,
}

/// The 1024 chunk headers.
pub struct ChunkHeaders {
    pub chunk_headers: Vec<ChunkHeader>,
}

/// The chunk header stored at `pos` (little-endian size, then timestamp).
pub open spec fn chunk_header_at(s: Seq<u8>, pos: int) -> ChunkHeader {
    ChunkHeader { size: le_u32_at(s, pos), timestamp: le_u32_at(s, pos + 4) }
}

impl ChunkHeaders {
    /// Reads the 1024 chunk headers stored from `pos`.
    pub fn read(data: &[u8], pos: usize) -> (r: Result<ChunkHeaders, Error>)
        ensures
            pos + 8192 > data@.len() ==> r is Err && r->Err_0 == Error::UnexpectedEof,
            pos + 8192 <= data@.len() ==> (r matches Ok(h) && h.chunk_headers@ == Seq::new(
                1024,
                |i: int| chunk_header_at(data@, pos + 8 * i),
            )),
    {
        if pos > data.len() || data.len() - pos < 8192 {
            return Err(Error::UnexpectedEof);
        }
        let mut chunk_headers: Vec<ChunkHeader> = Vec::new();
        for i in 0..1024
            invariant
                pos + 8192 <= data@.len(),
                data@.len() == data.len(),
                chunk_headers@ =~= Seq::new(i as nat, |k: int| chunk_header_at(data@, pos + 8 * k)),
        {
            let at = pos + 8 * i;
            let size = read_u32_le(data, at)?;
            let timestamp = read_u32_le(data, at + 4)?;
            chunk_headers.push(ChunkHeader { size, timestamp });
        }
        Ok(ChunkHeaders { chunk_headers })
    }
}

} // verus!
