use region::error::Error;
use region::features::FeatureMap;
use region::models::linear_v1::ChunkHeaders;
use region::models::linear_v1::SuperBlock;
use region::models::linear_v2::MAGIC;
use region::region::Chunk;
use region::region::Region;

fn v1_payload(chunks: &[(Vec<u8>, u32)]) -> Vec<u8> {
    let mut out = Vec::new();
    for i in 0..1024 {
        match chunks.get(i) {
            Some((data, ts)) => {
                out.extend_from_slice(&(data.len() as u32).to_le_bytes());
                out.extend_from_slice(&ts.to_le_bytes());
            }
            None => {
                out.extend_from_slice(&0u32.to_le_bytes());
                out.extend_from_slice(&0u32.to_le_bytes());
            }
        }
    }
    for (data, _) in chunks {
        out.extend_from_slice(data);
    }
    out
}

fn v1_file(payload: &[u8]) -> Vec<u8> {
    let frame = zstd::stream::encode_all(payload, 3).unwrap();
    let mut out = MAGIC.to_vec();
    out.push(1);
    out.extend_from_slice(&77u64.to_le_bytes());
    out.push(3);
    out.extend_from_slice(&2i16.to_le_bytes());
    out.extend_from_slice(&(frame.len() as u32).to_le_bytes());
    out.extend_from_slice(&0u64.to_le_bytes());
    out.extend_from_slice(&frame);
    out
}

#[test]
fn chunk_new_places_index_on_the_grid() {
    let c = Chunk::new(vec![1, 2, 3], 9, 33);
    assert_eq!((c.x, c.z), (1, 1));
    assert_eq!(c.raw_chunk, vec![1, 2, 3]);
    assert_eq!(c.timestamps, 9);
    let last = Chunk::new(Vec::new(), 0, 1023);
    assert_eq!((last.x, last.z), (31, 31));
    let first = Chunk::new(Vec::new(), 0, 0);
    assert_eq!((first.x, first.z), (0, 0));
}

#[test]
fn chunk_is_empty_exactly_without_bytes() {
    assert!(Chunk::new(Vec::new(), 5, 0).is_empty());
    assert!(!Chunk::new(vec![0], 5, 0).is_empty());
}

#[test]
fn region_new_keeps_its_parts() {
    let chunks = vec![Chunk::new(vec![1], 1, 0), Chunk::new(Vec::new(), 0, 1)];
    let r = Region::new(chunks, -4, 9, FeatureMap::new());
    assert_eq!(r.chunk_count(), 2);
    assert_eq!((r.region_x, r.region_z), (-4, 9));
    assert_eq!(r.nbt_features.len(), 0);
}

#[test]
fn region_hash_covers_coordinates_and_chunk_lengths() {
    let r = Region::new(vec![Chunk::new(vec![7, 7], 1, 0), Chunk::new(Vec::new(), 0, 1)], 1, -1, FeatureMap::new());
    let expected_input: Vec<u8> = vec![0, 0, 0, 1, 0xFF, 0xFF, 0xFF, 0xFF, 1, 0, 0, 0, 2, 0];
    assert_eq!(r.hash_input(), expected_input);
    assert_eq!(r.hash(), xxhash_rust::xxh64::xxh64(&expected_input, 0));
}

#[test]
fn region_hash_ignores_chunk_contents_but_not_lengths() {
    let a = Region::new(vec![Chunk::new(vec![1, 2], 1, 0)], 0, 0, FeatureMap::new());
    let b = Region::new(vec![Chunk::new(vec![3, 4], 8, 0)], 0, 0, FeatureMap::new());
    let c = Region::new(vec![Chunk::new(vec![3, 4, 5], 8, 0)], 0, 0, FeatureMap::new());
    let d = Region::new(vec![Chunk::new(vec![1, 2], 1, 0)], 0, 1, FeatureMap::new());
    assert_eq!(a.hash(), b.hash());
    assert_ne!(a.hash(), c.hash());
    assert_ne!(a.hash(), d.hash());
}

#[test]
fn v1_superblock_reads_little_endian_fields() {
    let file = v1_file(&v1_payload(&[]));
    let sb = SuperBlock::read(&file, 0).unwrap();
    assert_eq!(sb.version, 1);
    assert_eq!(sb.newest_timestamp, 77);
    assert_eq!(sb.compression_level, 3);
    assert_eq!(sb.chunk_count, 2);
    assert_eq!(sb.compressed_data_length as usize, file.len() - 32);
    assert_eq!(sb.reserved, 0);
}

#[test]
fn v1_superblock_errors() {
    assert_eq!(SuperBlock::read(&[0u8; 4], 0), Err(Error::UnexpectedEof));
    assert_eq!(SuperBlock::read(&[0u8; 40], 0), Err(Error::BadMagic));
    let mut short = MAGIC.to_vec();
    short.extend_from_slice(&[0u8; 10]);
    assert_eq!(SuperBlock::read(&short, 0), Err(Error::UnexpectedEof));
}

#[test]
fn v1_chunk_headers_read_1024_entries() {
    let payload = v1_payload(&[(vec![9; 5], 11)]);
    let headers = ChunkHeaders::read(&payload, 0).ok().unwrap();
    assert_eq!(headers.chunk_headers.len(), 1024);
    assert_eq!((headers.chunk_headers[0].size, headers.chunk_headers[0].timestamp), (5, 11));
    assert_eq!((headers.chunk_headers[1].size, headers.chunk_headers[1].timestamp), (0, 0));
    assert!(ChunkHeaders::read(&payload[..100], 0).is_err());
}

#[test]
fn v1_region_reads_chunks_in_order() {
    let payload = v1_payload(&[(vec![1, 2, 3], 100), (Vec::new(), 5), (vec![4; 10], 200)]);
    let file = v1_file(&payload);
    let r = Region::from_linear_v1(&file, 3, -2).ok().unwrap();
    assert_eq!((r.region_x, r.region_z), (3, -2));
    assert_eq!(r.chunk_count(), 1024);
    assert_eq!(r.chunks[0].raw_chunk, vec![1, 2, 3]);
    assert_eq!(r.chunks[0].timestamps, 100);
    assert!(r.chunks[1].is_empty());
    assert_eq!(r.chunks[1].timestamps, 5);
    assert_eq!(r.chunks[2].raw_chunk, vec![4; 10]);
    assert_eq!((r.chunks[2].x, r.chunks[2].z), (2, 0));
    assert_eq!((r.chunks[1023].x, r.chunks[1023].z), (31, 31));
    assert_eq!(r.nbt_features.len(), 0);
}

#[test]
fn v1_region_errors() {
    assert!(matches!(Region::from_linear_v1(&[0u8; 64], 0, 0), Err(Error::BadMagic)));
    let mut truncated = v1_file(&v1_payload(&[]));
    truncated.truncate(40);
    assert!(matches!(Region::from_linear_v1(&truncated, 0, 0), Err(Error::UnexpectedEof)));
    let mut garbage = MAGIC.to_vec();
    garbage.push(1);
    garbage.extend_from_slice(&[0u8; 11]);
    garbage.extend_from_slice(&4u32.to_le_bytes());
    garbage.extend_from_slice(&[0u8; 8]);
    garbage.extend_from_slice(&[1, 2, 3, 4]);
    assert!(matches!(Region::from_linear_v1(&garbage, 0, 0), Err(Error::Decompress)));
    let short_payload = v1_file(&[0u8; 100]);
    assert!(matches!(Region::from_linear_v1(&short_payload, 0, 0), Err(Error::UnexpectedEof)));
    let mut missing = v1_payload(&[(vec![1, 2, 3], 1)]);
    missing.truncate(missing.len() - 1);
    assert!(matches!(Region::from_linear_v1(&v1_file(&missing), 0, 0), Err(Error::UnexpectedEof)));
}

#[test]
fn v1_payload_without_frame() {
    let payload = v1_payload(&[(vec![8, 8], 3)]);
    let r = Region::from_linear_v1_payload(&payload, 1, 1).ok().unwrap();
    assert_eq!(r.chunks[0].raw_chunk, vec![8, 8]);
    assert!(matches!(Region::from_linear_v1_payload(&payload[..8000], 1, 1), Err(Error::UnexpectedEof)));
}
