use region::error::Error;
use region::features::FeatureMap;
use region::mclinear::utils::get_file_type;
use region::mclinear::utils::FileType;
use region::models::linear_v2::deserialize_bitmap;
use region::models::linear_v2::deserialize_bucket;
use region::models::linear_v2::deserialize_bucket_data;
use region::models::linear_v2::deserialize_bucket_header;
use region::models::linear_v2::deserialize_hashmap;
use region::models::linear_v2::serialize_bitmap;
use region::models::linear_v2::serialize_bucket;
use region::models::linear_v2::serialize_bucket_header;
use region::models::linear_v2::serialize_hashmap;
use region::models::linear_v2::write_compressed_buckets;
use region::models::linear_v2::BucketChunk;
use region::models::linear_v2::BucketHeader;
use region::models::linear_v2::ChunkBitMap;
use region::models::linear_v2::SuperBlock;
use region::models::linear_v2::MAGIC;

fn header(bucket_size: u32, compress_level: i8, xxhash64: u64) -> BucketHeader {
    BucketHeader { bucket_size, compress_level, xxhash64 }
}

fn bits_from(pattern: impl Fn(usize) -> bool) -> [bool; 1024] {
    let mut bits = [false; 1024];
    for (k, b) in bits.iter_mut().enumerate() {
        *b = pattern(k);
    }
    bits
}

#[test]
fn bitmap_packs_most_significant_bit_first() {
    let mut bits = [false; 1024];
    bits[0] = true;
    bits[9] = true;
    bits[1023] = true;
    let bytes = serialize_bitmap(&bits);
    assert_eq!(bytes[0], 0x80);
    assert_eq!(bytes[1], 0x40);
    assert_eq!(bytes[127], 0x01);
    assert_eq!(bytes[2], 0);
}

#[test]
fn bitmap_roundtrips_both_ways() {
    let bits = bits_from(|k| k % 3 == 0 || k % 7 == 1);
    assert_eq!(deserialize_bitmap(&serialize_bitmap(&bits)), bits);
    let mut bytes = [0u8; 128];
    for (i, b) in bytes.iter_mut().enumerate() {
        *b = (i as u8).wrapping_mul(37);
    }
    assert_eq!(serialize_bitmap(&deserialize_bitmap(&bytes)), bytes);
}

#[test]
fn chunk_bitmap_reads_and_writes_128_bytes() {
    let m = ChunkBitMap { bit_map: bits_from(|k| k % 5 == 0) };
    let mut out = vec![1, 2];
    m.write(&mut out);
    assert_eq!(out.len(), 130);
    let back = ChunkBitMap::read(&out, 2).ok().unwrap();
    assert_eq!(back.bit_map, m.bit_map);
    assert!(matches!(ChunkBitMap::read(&out, 3), Err(Error::UnexpectedEof)));
}

#[test]
fn bucket_header_is_13_big_endian_bytes() {
    let h = header(0x01020304, -3, 0x1122334455667788);
    let mut out = Vec::new();
    h.write(&mut out);
    assert_eq!(out, vec![1, 2, 3, 4, 0xFD, 0x11, 0x22, 0x33, 0x44, 0x55, 0x66, 0x77, 0x88]);
    assert_eq!(BucketHeader::read(&out, 0), Ok(h));
    assert_eq!(BucketHeader::read(&out, 1), Err(Error::UnexpectedEof));
}

#[test]
fn bucket_header_table_roundtrips() {
    let hs: Vec<BucketHeader> = (0..4u32).map(|i| header(i * 10, i as i8, i as u64 * 99)).collect();
    let mut bytes = serialize_bucket_header(&hs).ok().unwrap();
    assert_eq!(bytes.len(), 52);
    bytes.push(7);
    let (back, end) = deserialize_bucket_header(&bytes, 0, 2).ok().unwrap();
    assert_eq!(back, hs);
    assert_eq!(end, 52);
}

#[test]
fn bucket_header_table_checks_its_size() {
    let hs = vec![header(1, 1, 1); 3];
    assert_eq!(serialize_bucket_header(&hs), Err(Error::InvalidBucketLength(3)));
    assert!(matches!(deserialize_bucket_header(&[0u8; 100], 0, 3), Err(Error::InvalidGridSize(3))));
    assert!(matches!(deserialize_bucket_header(&[0u8; 100], 0, 4), Err(Error::UnexpectedEof)));
    let (one, end) = deserialize_bucket_header(&[0u8; 13], 0, 1).ok().unwrap();
    assert_eq!(one, vec![header(0, 0, 0)]);
    assert_eq!(end, 13);
}

#[test]
fn large_grids_are_accepted() {
    let bytes = vec![0u8; 13 * 1024];
    let (hs, end) = deserialize_bucket_header(&bytes, 0, 32).ok().unwrap();
    assert_eq!(hs.len(), 1024);
    assert_eq!(end, 13 * 1024);
    let (hs16, _) = deserialize_bucket_header(&bytes, 0, 16).ok().unwrap();
    assert_eq!(hs16.len(), 256);
}

#[test]
fn bucket_data_checks_xxhash64() {
    let a = vec![1u8, 2, 3];
    let b = vec![4u8; 5];
    let ha = header(3, 1, xxhash_rust::xxh64::xxh64(&a, 0));
    let hb = header(5, 1, 12345);
    let mut data = vec![0u8];
    data.extend_from_slice(&a);
    data.extend_from_slice(&b);
    let (bs, end) = deserialize_bucket_data(&data, 1, vec![ha, hb], true).ok().unwrap();
    assert_eq!(bs, vec![a.clone(), b.clone()]);
    assert_eq!(end, 9);
    let computed = xxhash_rust::xxh64::xxh64(&b, 0);
    assert_eq!(
        deserialize_bucket_data(&data, 1, vec![ha, hb], false),
        Err(Error::HashMismatch { stored: 12345, computed })
    );
    assert_eq!(deserialize_bucket_data(&data, 2, vec![ha, hb], true), Err(Error::UnexpectedEof));
}

#[test]
fn bucket_grid_roundtrips() {
    let datas: Vec<Vec<u8>> = (0..4).map(|i| vec![i as u8; 100 + i * 50]).collect();
    let out = serialize_bucket(2, datas.clone(), 3).ok().unwrap();
    let (back, end) = deserialize_bucket(&out, 0, 2).ok().unwrap();
    assert_eq!(back, datas);
    assert_eq!(end, out.len());
}

#[test]
fn bucket_of_64_bytes_is_written_empty() {
    let datas = vec![vec![9u8; 64]];
    let out = serialize_bucket(1, datas, 3).ok().unwrap();
    assert_eq!(out.len(), 13);
    assert_eq!(&out[0..4], &[0, 0, 0, 0]);
    assert_eq!(out[4], 3);
    assert_eq!(&out[5..13], &xxhash_rust::xxh64::xxh64(&[], 0).to_be_bytes());
}

#[test]
fn bucket_grid_checks_size_and_count() {
    assert_eq!(serialize_bucket(3, vec![Vec::new(); 9], 1), Err(Error::InvalidGridSize(3)));
    assert_eq!(
        serialize_bucket(2, vec![Vec::new(); 3], 1),
        Err(Error::BucketCountMismatch { expected_count: 4, actual_count: 3 })
    );
    assert!(matches!(deserialize_bucket(&[0u8; 10], 0, 5), Err(Error::InvalidGridSize(5))));
}

#[test]
fn compressed_buckets_are_written_behind_their_headers() {
    let cs = vec![vec![1u8, 2], vec![3u8]];
    assert_eq!(write_compressed_buckets(&cs, 2), Err(Error::InvalidBucketLength(2)));
    let four = vec![vec![1u8, 2], vec![3u8], Vec::new(), vec![4u8, 5, 6]];
    let out = write_compressed_buckets(&four, 2).ok().unwrap();
    assert_eq!(out.len(), 4 * 13 + 6);
    assert_eq!(&out[52..], &[1, 2, 3, 4, 5, 6]);
    let (hs, _) = deserialize_bucket_header(&out, 0, 2).ok().unwrap();
    assert_eq!(hs[3], header(3, 2, xxhash_rust::xxh64::xxh64(&[4, 5, 6], 0)));
}

#[test]
fn superblock_v2_roundtrips() {
    let sb = SuperBlock { version: 3, newest_timestamp: 123456789, grid_size: 8, region_x: -5, region_z: 17 };
    let mut out = Vec::new();
    sb.write(&mut out);
    assert_eq!(out.len(), 26);
    assert_eq!(&out[0..8], &MAGIC);
    assert_eq!(&out[18..22], &(-5i32).to_be_bytes());
    out.push(0);
    assert_eq!(SuperBlock::read(&out, 0), Ok(sb));
    assert_eq!(SuperBlock::read(&out[..20], 0), Err(Error::UnexpectedEof));
    let mut bad = out.clone();
    bad[0] = 0;
    assert_eq!(SuperBlock::read(&bad, 0), Err(Error::BadMagic));
}

#[test]
fn bucket_chunk_size_counts_the_timestamp() {
    let c = BucketChunk { chunk_size: 11, timestamp: 99, chunk_data: vec![7, 8, 9] };
    let mut out = Vec::new();
    c.write(&mut out);
    assert_eq!(out.len(), 15);
    let (back, end) = BucketChunk::read(&out, 0).ok().unwrap();
    assert_eq!((back.chunk_size, back.timestamp, back.chunk_data), (11, 99, vec![7, 8, 9]));
    assert_eq!(end, 15);
    let small = BucketChunk { chunk_size: 3, timestamp: 1, chunk_data: Vec::new() };
    let mut out2 = Vec::new();
    small.write(&mut out2);
    let (back2, end2) = BucketChunk::read(&out2, 0).ok().unwrap();
    assert_eq!((back2.chunk_size, back2.chunk_data.len(), end2), (3, 0, 12));
    assert!(matches!(BucketChunk::read(&out[..14], 0), Err(Error::UnexpectedEof)));
    assert!(matches!(BucketChunk::read(&out[..11], 0), Err(Error::UnexpectedEof)));
}

#[test]
fn feature_map_keeps_insertion_order_and_updates_in_place() {
    let mut m = FeatureMap::new();
    m.insert(String::from("b"), 1);
    m.insert(String::from("a"), 2);
    m.insert(String::from("b"), 3);
    assert_eq!(m.len(), 2);
    assert_eq!(m.entry(0), (&String::from("b"), 3));
    assert_eq!(m.entry(1), (&String::from("a"), 2));
}

#[test]
fn features_roundtrip() {
    let mut m = FeatureMap::new();
    m.insert(String::from("lighting"), 7);
    m.insert(String::from("héllo"), 0xFFFF_FFFF);
    let bytes = serialize_hashmap(&m).ok().unwrap();
    assert_eq!(&bytes[0..9], b"\x08lighting");
    assert_eq!(&bytes[9..13], &[0, 0, 0, 7]);
    assert_eq!(*bytes.last().unwrap(), 0);
    let mut framed = vec![5u8];
    framed.extend_from_slice(&bytes);
    framed.push(42);
    let (back, end) = deserialize_hashmap(&framed, 1).ok().unwrap();
    assert_eq!(end, bytes.len() + 1);
    assert_eq!(back.len(), 2);
    assert_eq!(back.entry(0), (&String::from("lighting"), 7));
    assert_eq!(back.entry(1), (&String::from("héllo"), 0xFFFF_FFFF));
}

#[test]
fn features_errors() {
    let mut m = FeatureMap::new();
    m.insert("x".repeat(256), 1);
    assert_eq!(serialize_hashmap(&m), Err(Error::KeyTooLong(256)));
    assert!(matches!(deserialize_hashmap(&[2, 0xFF, 0xFE, 0, 0, 0, 0, 0], 0), Err(Error::InvalidUtf8)));
    assert!(matches!(deserialize_hashmap(&[3, b'a', b'b'], 0), Err(Error::UnexpectedEof)));
    assert!(matches!(deserialize_hashmap(&[1, b'a', 0, 0], 0), Err(Error::UnexpectedEof)));
    assert!(matches!(deserialize_hashmap(&[], 0), Err(Error::UnexpectedEof)));
    let (empty, end) = deserialize_hashmap(&[0], 0).ok().unwrap();
    assert_eq!((empty.len(), end), (0, 1));
}

#[test]
fn features_read_keeps_the_last_value_of_a_repeated_name() {
    let bytes = [1, b'k', 0, 0, 0, 1, 1, b'k', 0, 0, 0, 2, 0];
    let (m, _) = deserialize_hashmap(&bytes, 0).ok().unwrap();
    assert_eq!(m.len(), 1);
    assert_eq!(m.entry(0), (&String::from("k"), 2));
}

#[test]
fn bucket_grid_compresses_its_buckets() {
    let datas = vec![vec![0u8; 10000]];
    let out = serialize_bucket(1, datas, 3).ok().unwrap();
    assert!(out.len() < 1000);
    assert_eq!(&out[4..5], &[3]);
    let frame = &out[13..];
    assert_eq!(zstd::stream::decode_all(frame).unwrap(), vec![0u8; 10000]);
}

#[test]
fn written_superblock_tells_its_file_type() {
    for (version, expected) in [(1u8, Ok(FileType::LinearV1)), (2, Ok(FileType::LinearV1)), (3, Ok(FileType::LinearV2)), (9, Err(Error::UnknownLinearVersion(9)))] {
        let sb = SuperBlock { version, newest_timestamp: 1, grid_size: 1, region_x: 0, region_z: 0 };
        let mut out = Vec::new();
        sb.write(&mut out);
        assert_eq!(get_file_type(&out), expected);
    }
}
