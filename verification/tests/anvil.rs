use region::error::CoordsError;
use region::error::Error;
use region::models::anvil::chunk_compression;
use region::models::anvil::chunk_decompress;
use region::models::anvil::deserialize_chunk_data;
use region::models::anvil::deserialize_superblock;
use region::models::anvil::mcc_path_to_index;
use region::models::anvil::serialize_chunk_data;
use region::models::anvil::serialize_superblock;
use region::models::anvil::u24_be_to_u32;
use region::models::anvil::u32_to_u24_be;
use region::models::anvil::ChunkDataInfo;
use region::models::anvil::DataHeader;
use region::models::anvil::LocationData;
use region::models::anvil::LocationTable;
use region::models::anvil::SuperBlock;
use region::models::anvil::TimestampData;
use region::models::anvil::TimestampTable;
use region::features::FeatureMap;
use region::region::Chunk;
use region::region::Region;

fn sample(len: usize, seed: u8) -> Vec<u8> {
    (0..len).map(|i| (i as u8).wrapping_mul(31).wrapping_add(seed)).collect()
}

fn info(sector_offset: u32, sector_count: u8, timestamp: u32) -> ChunkDataInfo {
    ChunkDataInfo { sector_offset, sector_count, timestamp }
}

#[test]
fn compression_roundtrips_for_every_type() {
    let data = sample(5000, 7);
    for t in 1..=4u8 {
        let packed = chunk_compression(data.clone(), t, 6).ok().unwrap();
        assert_eq!(chunk_decompress(packed, t).ok().unwrap(), data);
    }
}

#[test]
fn compression_type_three_stores_the_bytes() {
    let data = sample(100, 1);
    assert_eq!(chunk_compression(data.clone(), 3, 0).ok().unwrap(), data);
    assert_eq!(chunk_decompress(data.clone(), 3).ok().unwrap(), data);
}

#[test]
fn compression_changes_repetitive_bytes() {
    let data = vec![5u8; 4096];
    for t in [1u8, 2, 4] {
        let packed = chunk_compression(data.clone(), t, 6).ok().unwrap();
        assert_ne!(packed, data);
        assert!(packed.len() < data.len());
    }
}

#[test]
fn unknown_compression_type_is_an_error() {
    assert_eq!(chunk_compression(vec![1], 5, 1), Err(Error::UnknownCompressionType(5)));
    assert_eq!(chunk_compression(vec![1], 0, 1), Err(Error::UnknownCompressionType(0)));
    assert_eq!(chunk_decompress(vec![1], 9), Err(Error::UnknownCompressionType(9)));
}

#[test]
fn corrupt_compressed_data_does_not_decompress() {
    for t in [1u8, 2, 4] {
        assert_eq!(chunk_decompress(vec![1, 2, 3, 4, 5, 6, 7, 8], t), Err(Error::Decompress));
    }
}

#[test]
fn data_header_is_five_big_endian_bytes() {
    let h = DataHeader { chunk_length: 0x01020304, compression_type: 2 };
    let mut out = vec![9];
    h.write(&mut out);
    assert_eq!(out, vec![9, 1, 2, 3, 4, 2]);
    assert_eq!(DataHeader::read(&out, 1), Ok(h));
    assert_eq!(DataHeader::read(&out, 2), Err(Error::UnexpectedEof));
}

#[test]
fn superblock_needs_1024_entries() {
    let infos = vec![info(2, 1, 0); 3];
    assert_eq!(serialize_superblock(&infos), Err(Error::WrongChunkInfoCount(3)));
}

#[test]
fn superblock_roundtrips() {
    let infos: Vec<ChunkDataInfo> = (0..1024u32).map(|i| info(i * 3 + 2, (i % 200) as u8, i * 1000)).collect();
    let mut bytes = serialize_superblock(&infos).ok().unwrap();
    assert_eq!(bytes.len(), 8192);
    assert_eq!(&bytes[0..4], &[0, 0, 2, 0]);
    assert_eq!(&bytes[4096 + 4..4096 + 8], &1000u32.to_be_bytes());
    bytes.extend_from_slice(&[1, 2, 3]);
    let sb = deserialize_superblock(&bytes, 0).ok().unwrap();
    assert_eq!(sb.chunks_info, infos);
}

#[test]
fn superblock_keeps_low_24_bits_of_offsets() {
    let mut infos = vec![info(0, 0, 0); 1024];
    infos[0] = info(0x0123_4567, 1, 0);
    let bytes = serialize_superblock(&infos).ok().unwrap();
    let sb = deserialize_superblock(&bytes, 0).ok().unwrap();
    assert_eq!(sb.chunks_info[0].sector_offset, 0x23_4567);
}

#[test]
fn short_superblock_is_an_error() {
    assert!(matches!(deserialize_superblock(&[0u8; 8191], 0), Err(Error::UnexpectedEof)));
    assert!(matches!(deserialize_superblock(&[0u8; 8192], 1), Err(Error::UnexpectedEof)));
}

#[test]
fn mcc_index_follows_region_file_coordinates() {
    assert_eq!(mcc_path_to_index("r.33.-1.linear"), Ok(31 * 32 + 1));
    assert_eq!(mcc_path_to_index("r.0.0.linear"), Ok(0));
    assert_eq!(mcc_path_to_index("r.-32.64.linear"), Ok(0));
    assert_eq!(mcc_path_to_index("c.1.2.mcc"), Err(Error::Coords(CoordsError::InvalidFormat)));
}

fn region_chunks() -> Vec<Chunk> {
    let mut chunks: Vec<Chunk> = (0..1024u16).map(|i| Chunk::new(Vec::new(), i as u64, i)).collect();
    chunks[0] = Chunk::new(sample(10, 1), 42, 0);
    chunks[5] = Chunk::new(sample(9000, 2), 43, 5);
    chunks[1023] = Chunk::new(sample(4091, 3), 44, 1023);
    chunks
}

#[test]
fn written_chunks_read_back() {
    for t in 1..=4u8 {
        let chunks = region_chunks();
        let expected: Vec<Vec<u8>> = chunks.iter().map(|c| c.raw_chunk.clone()).collect();
        let out = serialize_chunk_data(chunks, 6, t).ok().unwrap();
        assert!(out.external.is_empty());
        assert_eq!(out.sectors.len() % 4096, 0);
        let mut file = serialize_superblock(&out.chunks_info).ok().unwrap();
        file.extend_from_slice(&out.sectors);
        let sb = deserialize_superblock(&file, 0).ok().unwrap();
        assert_eq!(sb.chunks_info, out.chunks_info);
        let read = deserialize_chunk_data(&file, None, &sb).ok().unwrap();
        assert_eq!(read, expected);
    }
}

#[test]
fn written_chunk_layout() {
    let out = serialize_chunk_data(region_chunks(), 0, 3).ok().unwrap();
    assert_eq!(out.chunks_info[0], info(2, 1, 42));
    assert_eq!(out.chunks_info[1], info(0, 0, 1));
    assert_eq!(out.chunks_info[5], info(3, 3, 43));
    assert_eq!(out.chunks_info[1023], info(6, 1, 44));
    assert_eq!(&out.sectors[0..5], &[0, 0, 0, 11, 3]);
    assert_eq!(out.sectors.len(), 5 * 4096);
}

#[test]
fn oversized_chunk_goes_to_an_external_file() {
    let mut chunks: Vec<Chunk> = (0..1024u16).map(|i| Chunk::new(Vec::new(), 0, i)).collect();
    let big = sample(255 * 4096, 9);
    chunks[7] = Chunk::new(big.clone(), 1, 7);
    let out = serialize_chunk_data(chunks, 0, 3).ok().unwrap();
    assert_eq!(out.external.len(), 1);
    assert_eq!((out.external[0].x, out.external[0].z), (7, 0));
    assert_eq!(out.external[0].data, big);
    assert_eq!(out.chunks_info[7], info(2, 1, 1));
    assert_eq!(out.sectors.len(), 4096);
    assert_eq!(&out.sectors[0..5], &[0, 0, 0, 1, 131]);
    let mut file = serialize_superblock(&out.chunks_info).ok().unwrap();
    file.extend_from_slice(&out.sectors);
    let sb = deserialize_superblock(&file, 0).ok().unwrap();
    assert!(matches!(deserialize_chunk_data(&file, None, &sb), Err(Error::MissingExternalChunk(7))));
    let mcc = vec![(String::from("r.7.0.linear"), out.external[0].data.clone())];
    let read = deserialize_chunk_data(&file, Some(mcc), &sb).ok().unwrap();
    assert_eq!(read[7], big);
    let bad_name = vec![(String::from("c.7.0.mcc"), Vec::new())];
    assert!(matches!(
        deserialize_chunk_data(&file, Some(bad_name), &sb),
        Err(Error::Coords(CoordsError::InvalidFormat))
    ));
}

#[test]
fn write_reports_unknown_compression_type() {
    let chunks = region_chunks();
    assert!(matches!(serialize_chunk_data(chunks, 1, 7), Err(Error::UnknownCompressionType(7))));
    let empty: Vec<Chunk> = (0..4u16).map(|i| Chunk::new(Vec::new(), 0, i)).collect();
    assert_eq!(serialize_chunk_data(empty, 1, 7).ok().unwrap().chunks_info.len(), 4);
}

#[test]
fn read_rejects_corrupt_lengths() {
    let mut infos = vec![info(0, 0, 0); 1024];
    infos[0] = info(2, 1, 0);
    let mut file = serialize_superblock(&infos).ok().unwrap();
    let mut sector = vec![0u8; 4096];
    sector[0..4].copy_from_slice(&5000u32.to_be_bytes());
    sector[4] = 3;
    file.extend_from_slice(&sector);
    let sb = SuperBlock { chunks_info: infos.clone() };
    assert!(matches!(deserialize_chunk_data(&file, None, &sb), Err(Error::CorruptChunk)));
    file[8192..8196].copy_from_slice(&0u32.to_be_bytes());
    assert!(matches!(deserialize_chunk_data(&file, None, &sb), Err(Error::CorruptChunk)));
    file.truncate(8192 + 3);
    assert!(matches!(deserialize_chunk_data(&file, None, &sb), Err(Error::UnexpectedEof)));
}

#[test]
fn location_and_timestamp_tables_roundtrip() {
    let locations: Vec<LocationData> =
        (0..1024u32).map(|i| LocationData { sector_offset: i * 77, sector_count: (i % 256) as u8 }).collect();
    let table = LocationTable { locations: locations.clone() };
    let mut out = Vec::new();
    table.write(&mut out);
    assert_eq!(out.len(), 4096);
    assert_eq!(&out[4..8], &[0, 0, 77, 1]);
    assert_eq!(LocationTable::read(&out, 0).ok().unwrap().locations, locations);
    assert!(matches!(LocationTable::read(&out, 1), Err(Error::UnexpectedEof)));
    let stamps: Vec<TimestampData> = (0..1024u32).map(|i| TimestampData { timestamp: i * 1_000_003 }).collect();
    let ts = TimestampTable { timestamps_data: stamps.clone() };
    let mut tout = vec![0xEE];
    ts.write(&mut tout);
    assert_eq!(tout.len(), 4097);
    assert_eq!(&tout[5..9], &1_000_003u32.to_be_bytes());
    assert_eq!(TimestampTable::read(&tout, 1).ok().unwrap().timestamps_data, stamps);
    assert!(matches!(TimestampTable::read(&tout, 2), Err(Error::UnexpectedEof)));
}

#[test]
fn region_written_as_anvil_reads_back_with_the_same_hash() {
    let r = Region::new(region_chunks(), 4, -7, FeatureMap::new());
    let before = r.hash();
    let expected: Vec<Vec<u8>> = r.chunks.iter().map(|c| c.raw_chunk.clone()).collect();
    let file = r.to_anvil(6, 2).ok().unwrap();
    assert!(file.external.is_empty());
    let back = Region::from_anvil(&file.bytes, None, 4, -7).ok().unwrap();
    assert_eq!(back.chunk_count(), 1024);
    let got: Vec<Vec<u8>> = back.chunks.iter().map(|c| c.raw_chunk.clone()).collect();
    assert_eq!(got, expected);
    assert_eq!(back.chunks[5].timestamps, 43);
    assert_eq!((back.chunks[33].x, back.chunks[33].z), (1, 1));
    assert_eq!(back.hash(), before);
}

#[test]
fn to_anvil_needs_1024_chunks() {
    let chunks: Vec<Chunk> = (0..3u16).map(|i| Chunk::new(vec![1], 0, i)).collect();
    let r = Region::new(chunks, 0, 0, FeatureMap::new());
    assert!(matches!(r.to_anvil(1, 3), Err(Error::WrongChunkInfoCount(3))));
    let bad_type = Region::new(region_chunks(), 0, 0, FeatureMap::new());
    assert!(matches!(bad_type.to_anvil(1, 9), Err(Error::UnknownCompressionType(9))));
}

#[test]
fn from_anvil_needs_the_table() {
    assert!(matches!(Region::from_anvil(&[0u8; 100], None, 0, 0), Err(Error::UnexpectedEof)));
    let empty = Region::from_anvil(&[0u8; 8192], None, 1, 2).ok().unwrap();
    assert!(empty.chunks.iter().all(|c| c.is_empty() && c.timestamps == 0));
}

#[test]
fn u24_conversions_keep_the_low_24_bits() {
    assert_eq!(u24_be_to_u32(&[0x01, 0x02, 0x03]), 0x010203);
    assert_eq!(u32_to_u24_be(&0x12345678), [0x34, 0x56, 0x78]);
    for v in [0u32, 1, 0xFF_FFFF, 0x100_0000, 0xDEAD_BEEF, u32::MAX] {
        assert_eq!(u24_be_to_u32(&u32_to_u24_be(&v)), v & 0xFF_FFFF);
    }
    for b in [[0u8, 0, 0], [0xFF, 0xFF, 0xFF], [0x80, 0x00, 0x01]] {
        assert_eq!(u32_to_u24_be(&u24_be_to_u32(&b)), b);
        assert!(u24_be_to_u32(&b) < 1 << 24);
    }
}
