use region::error::CoordsError;
use region::error::Error;
use region::error::IntErrorKind;
use region::mclinear::b_linear_v3::deserialize_all_bucket;
use region::mclinear::b_linear_v3::deserialize_bucket;
use region::mclinear::b_linear_v3::deserialize_bucket_data;
use region::mclinear::b_linear_v3::read_chunks;
use region::mclinear::b_linear_v3::serialize_bucket;
use region::mclinear::b_linear_v3::write_chunks;
use region::mclinear::b_linear_v3::BucketOffsetTable;
use region::mclinear::b_linear_v3::Header;
use region::mclinear::b_linear_v3::MAGIC;
use region::mclinear::utils::collect_mcc_files;
use region::mclinear::utils::get_file_type;
use region::mclinear::utils::FileType;
use region::mclinear::utils::Linear;
use region::models::linear_v2::MAGIC as LINEAR_MAGIC;
use region::region::Chunk;

fn sample(len: usize, seed: u8) -> Vec<u8> {
    (0..len).map(|i| (i as u8).wrapping_mul(13).wrapping_add(seed)).collect()
}

fn region_chunks() -> Vec<Chunk> {
    let mut chunks: Vec<Chunk> = (0..1024u16).map(|i| Chunk::new(Vec::new(), 0, i)).collect();
    chunks[0] = Chunk::new(sample(100, 1), 11, 0);
    chunks[63] = Chunk::new(sample(7, 2), 12, 63);
    chunks[700] = Chunk::new(sample(3000, 3), 13, 700);
    chunks
}

#[test]
fn v3_header_roundtrips() {
    let h = Header { version: 3, zstd_level: -2, xxhash32_seed: 0xDEADBEEF };
    let mut out = Vec::new();
    h.write(&mut out);
    assert_eq!(out.len(), 14);
    assert_eq!(&out[0..8], &MAGIC);
    assert_eq!(&out[8..14], &[3, 0xFE, 0xDE, 0xAD, 0xBE, 0xEF]);
    assert_eq!(Header::read(&out, 0), Ok(h));
    assert_eq!(Header::read(&out[..10], 0), Err(Error::UnexpectedEof));
    assert_eq!(Header::read(&out[..5], 0), Err(Error::UnexpectedEof));
    let mut bad = out.clone();
    bad[7] = 0;
    assert_eq!(Header::read(&bad, 0), Err(Error::BadMagic));
}

#[test]
fn offset_table_roundtrips() {
    let mut offsets = [0u64; 16];
    for (i, o) in offsets.iter_mut().enumerate() {
        *o = (i as u64) * 0x0101_0101_0101;
    }
    let t = BucketOffsetTable { offsets };
    let mut out = Vec::new();
    t.write(&mut out);
    assert_eq!(out.len(), 128);
    assert_eq!(&out[8..16], &0x0101_0101_0101u64.to_be_bytes());
    assert_eq!(BucketOffsetTable::read(&out, 0).ok().unwrap().offsets, offsets);
    assert!(matches!(BucketOffsetTable::read(&out, 1), Err(Error::UnexpectedEof)));
}

#[test]
fn bucket_roundtrips_with_checksums() {
    let chunks: Vec<Chunk> = (0..64u16)
        .map(|i| if i % 5 == 0 { Chunk::new(sample(i as usize + 1, 4), i as u64, i) } else { Chunk::new(Vec::new(), 0, i) })
        .collect();
    let bytes = serialize_bucket(&chunks, 77, 3).ok().unwrap();
    let raw_size: u32 = chunks.iter().map(|c| if c.raw_chunk.is_empty() { 4 } else { 20 + c.raw_chunk.len() as u32 }).sum();
    assert_eq!(&bytes[0..4], &raw_size.to_be_bytes());
    assert_eq!(&bytes[4..8], &((bytes.len() - 8) as u32).to_be_bytes());
    let (entries, end) = deserialize_bucket(&bytes, 0).ok().unwrap();
    assert_eq!(end, bytes.len());
    assert_eq!(entries.len(), 64);
    for (i, e) in entries.iter().enumerate() {
        if i % 5 == 0 {
            let d = e.clone().unwrap();
            assert_eq!(d.data, chunks[i].raw_chunk);
            assert_eq!(d.chunk_size as usize, chunks[i].raw_chunk.len());
            assert_eq!(d.write_timestamp, i as u64);
            assert_eq!(d.xxhash_checksum, xxhash_rust::xxh32::xxh32(&chunks[i].raw_chunk, 77));
        } else {
            assert!(e.is_none());
        }
    }
}

#[test]
fn bucket_errors() {
    assert!(matches!(deserialize_bucket(&[0u8; 7], 0), Err(Error::UnexpectedEof)));
    let mut truncated = vec![0u8, 0, 0, 0, 0, 0, 0, 9];
    truncated.extend_from_slice(&[1, 2, 3]);
    assert!(matches!(deserialize_bucket(&truncated, 0), Err(Error::UnexpectedEof)));
    let mut garbage = vec![0u8, 0, 0, 0, 0, 0, 0, 4];
    garbage.extend_from_slice(&[1, 2, 3, 4]);
    assert!(matches!(deserialize_bucket(&garbage, 0), Err(Error::Decompress)));
    let short = zstd::stream::encode_all(&[0u8, 0, 0, 0][..], 1).unwrap();
    let mut one_entry = vec![0u8, 0, 0, 4];
    one_entry.extend_from_slice(&(short.len() as u32).to_be_bytes());
    one_entry.extend_from_slice(&short);
    assert!(matches!(deserialize_bucket(&one_entry, 0), Err(Error::UnexpectedEof)));
}

#[test]
fn empty_offsets_read_as_empty_buckets() {
    let (buckets, end) = deserialize_all_bucket(&[], 0, [0u64; 16]).ok().unwrap();
    assert_eq!(buckets.len(), 16);
    assert!(buckets.iter().all(|b| b.len() == 64 && b.iter().all(|e| e.is_none())));
    assert_eq!(end, 0);
}

#[test]
fn written_region_reads_back() {
    let chunks = region_chunks();
    let (table, bytes) = write_chunks(region_chunks(), 5, 3, 150).ok().unwrap();
    assert_eq!(table[0], 150);
    assert_ne!(table[10], 0);
    for (k, o) in table.iter().enumerate() {
        if k != 0 && k != 10 {
            assert_eq!(*o, 0);
        }
    }
    let mut file = vec![0xAAu8; 150];
    file.extend_from_slice(&bytes);
    file.extend_from_slice(&[1, 2, 3]);
    let (read, warnings) = read_chunks(&file, 150, table, 5, -1, 2).ok().unwrap();
    assert!(warnings.is_empty());
    assert_eq!(read.len(), 1024);
    for i in 0..1024 {
        assert_eq!(read[i].raw_chunk, chunks[i].raw_chunk);
        if !chunks[i].raw_chunk.is_empty() {
            assert_eq!(read[i].timestamps, chunks[i].timestamps);
        }
        assert_eq!(read[i].x, -32 + (i as i64 % 32));
        assert_eq!(read[i].z, 64 + (i as i64 / 32));
    }
}

#[test]
fn checksum_mismatch_gives_a_warning() {
    let (table, bytes) = write_chunks(region_chunks(), 5, 3, 1).ok().unwrap();
    let mut file = vec![0u8];
    file.extend_from_slice(&bytes);
    let (read, warnings) = read_chunks(&file, 1, table, 6, 0, 0).ok().unwrap();
    assert_eq!(warnings, vec![(0, 0), (31, 1), (700 % 32, 700 / 32)]);
    assert_eq!(read[0].raw_chunk, sample(100, 1));
}

#[test]
fn write_chunks_of_empty_region_writes_nothing() {
    let chunks: Vec<Chunk> = (0..1024u16).map(|i| Chunk::new(Vec::new(), 5, i)).collect();
    let (table, bytes) = write_chunks(chunks, 0, 3, 10).ok().unwrap();
    assert_eq!(table, [0u64; 16]);
    assert!(bytes.is_empty());
}

#[test]
fn linear_header_gives_the_file_type() {
    let mut v1 = LINEAR_MAGIC.to_vec();
    v1.push(1);
    assert_eq!(get_file_type(&v1), Ok(FileType::LinearV1));
    v1[8] = 2;
    assert_eq!(get_file_type(&v1), Ok(FileType::LinearV1));
    v1[8] = 3;
    assert_eq!(get_file_type(&v1), Ok(FileType::LinearV2));
    v1[8] = 4;
    assert_eq!(get_file_type(&v1), Err(Error::UnknownLinearVersion(4)));
    assert_eq!(get_file_type(&[0u8; 9]), Ok(FileType::Anvil));
    assert_eq!(get_file_type(&[0u8; 3]), Err(Error::UnexpectedEof));
    assert_eq!(get_file_type(&LINEAR_MAGIC), Err(Error::UnexpectedEof));
    assert_eq!(Linear::read(&v1, 0), Ok(Linear { version: 4 }));
}

#[test]
fn mcc_files_are_collected_in_chunk_order() {
    let files = vec![
        String::from("c.33.-31.mcc"),
        String::from("r.1.-1.mca"),
        String::from("c.32.-32.mcc"),
        String::from("c.99.99.mcc"),
    ];
    let found = collect_mcc_files("r.1.-1.mca", &files).unwrap();
    assert_eq!(found, Some(vec![String::from("c.32.-32.mcc"), String::from("c.33.-31.mcc")]));
    assert_eq!(collect_mcc_files("r.5.5.mca", &files), Ok(None));
    assert_eq!(collect_mcc_files("q.1.1.mca", &files), Err(CoordsError::InvalidFormat));
    assert_eq!(collect_mcc_files("r.x.1.mca", &files), Err(CoordsError::ParseInt(IntErrorKind::InvalidDigit)));
}

#[test]
fn bucket_frame_is_zstd_of_the_entries() {
    let chunks: Vec<Chunk> = (0..64u16).map(|i| Chunk::new(vec![1u8; 500], 2, i)).collect();
    let bytes = serialize_bucket(&chunks, 0, 5).ok().unwrap();
    assert!(bytes.len() < 64 * 520);
    let entries = zstd::stream::decode_all(&bytes[8..]).unwrap();
    assert_eq!(entries.len(), 64 * 520);
    assert_eq!(&entries[0..4], &516u32.to_be_bytes());
    assert_eq!(&entries[4..8], &500u32.to_be_bytes());
}

#[test]
fn decompressed_entries_are_read_in_order() {
    let mut dec = Vec::new();
    dec.extend_from_slice(&19u32.to_be_bytes());
    dec.extend_from_slice(&3u32.to_be_bytes());
    dec.extend_from_slice(&9u64.to_be_bytes());
    dec.extend_from_slice(&0xABCDu32.to_be_bytes());
    dec.extend_from_slice(&[7, 8, 9]);
    for _ in 0..63 {
        dec.extend_from_slice(&0u32.to_be_bytes());
    }
    let entries = deserialize_bucket_data(&dec).ok().unwrap();
    assert_eq!(entries.len(), 64);
    let first = entries[0].clone().unwrap();
    assert_eq!((first.chunk_size, first.write_timestamp, first.xxhash_checksum), (3, 9, 0xABCD));
    assert_eq!(first.data, vec![7, 8, 9]);
    assert!(entries[1..].iter().all(|e| e.is_none()));
    assert!(matches!(deserialize_bucket_data(&dec[..dec.len() - 4]), Err(Error::UnexpectedEof)));
    let mut too_small = 15u32.to_be_bytes().to_vec();
    too_small.extend_from_slice(&[0u8; 15]);
    assert!(matches!(deserialize_bucket_data(&too_small), Err(Error::UnexpectedEof)));
}
