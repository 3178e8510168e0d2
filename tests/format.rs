use mcstream::chunk::read_chunk_index;
use mcstream::error::McStreamError;
use mcstream::header::read_header;
use mcstream::types::ChunkPos;
use mcstream::unpacker::read_mcs_index;
use mcstream::{CompressionType, McsDecoder, McsEncoder};

fn stone_file(compression: CompressionType) -> Vec<u8> {
    let mut encoder = McsEncoder::new(compression);
    encoder.add_block("stone".to_string(), 0, 0, 0, None).unwrap();
    encoder.write_to_bytes().unwrap()
}

#[test]
fn golden_single_stone_block() {
    let bytes = stone_file(CompressionType::Uncompressed);
    let expected: Vec<u8> = vec![
        // magic, version 1.0 (big-endian), compression 0, flags 0
        b'M', b'C', b'S', b'T', b'R', b'M', 0, 0, 0x01, 0x00, 0, 0,
        // index offset 20, reserved
        20, 0, 0, 0, 0, 0, 0, 0,
        // one index entry: chunk (0, 0), data at 40, 24 bytes
        1, 0, 0, 0, 0, 0, 0, 0, 0, 0, 0, 0, 40, 0, 0, 0, 24, 0, 0, 0,
        // palette: one id "stone"
        1, 0, 5, 0, b's', b't', b'o', b'n', b'e',
        // one block record: index 0, x 0, y 64, z 0, no metadata
        1, 0, 0, 0, 0, 0, 0, 64, 0, 0, 0,
        // no metadata blobs
        0, 0, 0, 0,
    ];
    assert_eq!(bytes, expected);
}

fn sample_encoder(compression: CompressionType) -> McsEncoder {
    let mut encoder = McsEncoder::new(compression);
    encoder.add_block("minecraft:stone".to_string(), -1, -64, 5, None).unwrap();
    encoder.add_block("minecraft:chest".to_string(), 17, 319, -33, Some(vec![10, 0, 0])).unwrap();
    encoder.add_block("minecraft:stone".to_string(), 3, 63, 3, None).unwrap();
    encoder.add_block("minecraft:air".to_string(), 3, 64, 3, None).unwrap();
    encoder.add_block("minecraft:dirt".to_string(), -17, -1, 0, Some(vec![])).unwrap();
    encoder
}

fn placed(chunks: &Vec<mcstream::types::ChunkData>) -> Vec<((i32, i32, i32), String, Option<Vec<u8>>)> {
    let mut out = Vec::new();
    for chunk in chunks {
        for block in &chunk.blocks {
            let x = chunk.pos.x * 16 + block.pos.x as i32;
            let z = chunk.pos.z * 16 + block.pos.z as i32;
            let id = chunk.palette[block.palette_index as usize].clone();
            out.push(((x, block.pos.actual_y(), z), id, block.nbt.clone()));
        }
    }
    out.sort();
    out
}

fn round_trip(compression: CompressionType) {
    let encoder = sample_encoder(compression);
    let bytes = encoder.write_to_bytes().unwrap();
    let decoder = McsDecoder::from_bytes(&bytes).unwrap();
    assert_eq!(placed(decoder.get_chunks()), placed(encoder.get_chunks()));
    let mut expected = vec![
        ((-1, -64, 5), "minecraft:stone".to_string(), None),
        ((17, 319, -33), "minecraft:chest".to_string(), Some(vec![10, 0, 0])),
        ((3, 63, 3), "minecraft:stone".to_string(), None),
        ((-17, -1, 0), "minecraft:dirt".to_string(), Some(vec![])),
    ];
    expected.sort();
    assert_eq!(placed(decoder.get_chunks()), expected);
    assert_eq!(decoder.compression_type(), compression);
    assert_eq!(decoder.header().index_table_offset, 20);
}

#[test]
fn round_trip_uncompressed() {
    round_trip(CompressionType::Uncompressed);
}

#[test]
fn round_trip_zstandard() {
    round_trip(CompressionType::Zstandard);
}

#[test]
fn round_trip_lz4() {
    round_trip(CompressionType::LZ4);
}

#[test]
fn round_trip_brotli() {
    round_trip(CompressionType::Brotli);
}

#[test]
fn heights_survive_a_file_round_trip() {
    let mut encoder = McsEncoder::new(CompressionType::Zstandard);
    for y in [-64, -1, 0, 63, 319] {
        encoder.add_block("minecraft:stone".to_string(), -1, y, 0, None).unwrap();
    }
    let decoder = McsDecoder::from_bytes(&encoder.write_to_bytes().unwrap()).unwrap();
    let chunk = decoder.get_chunk(-1, 0).unwrap();
    let ys: Vec<i32> = chunk.blocks.iter().map(|b| b.pos.actual_y()).collect();
    assert_eq!(ys, vec![-64, -1, 0, 63, 319]);
    assert!(chunk.blocks.iter().all(|b| b.pos.x == 15));
    assert!(decoder.get_chunk(0, 0).is_none());
}

#[test]
fn index_ranges_lie_inside_the_file_and_do_not_overlap() {
    let bytes = sample_encoder(CompressionType::Brotli).write_to_bytes().unwrap();
    let entries = read_mcs_index(&bytes).unwrap();
    assert_eq!(entries.len(), 4);
    let mut ranges: Vec<(u64, u64)> = entries
        .iter()
        .map(|e| (e.data_offset as u64, e.data_offset as u64 + e.compressed_size as u64))
        .collect();
    ranges.sort();
    for pair in ranges.windows(2) {
        assert!(pair[0].1 <= pair[1].0);
    }
    for r in &ranges {
        assert!(r.1 <= bytes.len() as u64);
    }
    let positions: Vec<ChunkPos> = entries.iter().map(|e| ChunkPos::new(e.chunk_x, e.chunk_z)).collect();
    assert!(positions.contains(&ChunkPos::new(-1, 0)));
    assert!(positions.contains(&ChunkPos::new(1, -3)));
    assert!(positions.contains(&ChunkPos::new(-2, 0)));
}

#[test]
fn truncation_after_the_index_is_rejected() {
    let bytes = sample_encoder(CompressionType::Uncompressed).write_to_bytes().unwrap();
    let header = read_header(&bytes).unwrap();
    let (entries, end) = read_chunk_index(&bytes, header.index_table_offset as usize).unwrap();
    assert_eq!(end, 20 + 4 + 16 * entries.len());
    let truncated = &bytes[..end];
    assert!(matches!(McsDecoder::from_bytes(truncated), Err(McStreamError::ValidationError(_))));
}

#[test]
fn index_offset_beyond_the_file_is_rejected() {
    let mut bytes = stone_file(CompressionType::Uncompressed);
    let beyond = (bytes.len() as u32 + 5).to_le_bytes();
    bytes[12..16].copy_from_slice(&beyond);
    assert!(matches!(McsDecoder::from_bytes(&bytes), Err(McStreamError::ValidationError(_))));
    let at_end = (bytes.len() as u32).to_le_bytes();
    bytes[12..16].copy_from_slice(&at_end);
    assert!(matches!(McsDecoder::from_bytes(&bytes), Err(McStreamError::ValidationError(_))));
}

#[test]
fn every_truncation_is_rejected_without_panicking() {
    let bytes = sample_encoder(CompressionType::LZ4).write_to_bytes().unwrap();
    for len in 0..bytes.len() {
        assert!(McsDecoder::from_bytes(&bytes[..len]).is_err());
    }
}

#[test]
fn short_file_is_rejected() {
    assert!(matches!(McsDecoder::from_bytes(&[0u8; 19]), Err(McStreamError::ValidationError(_))));
}

#[test]
fn bad_magic_version_and_compression_are_rejected() {
    let good = stone_file(CompressionType::Uncompressed);
    let mut bad_magic = good.clone();
    bad_magic[0] = b'X';
    assert!(matches!(McsDecoder::from_bytes(&bad_magic), Err(McStreamError::InvalidMagic)));
    let mut bad_version = good.clone();
    bad_version[8] = 2;
    assert!(matches!(
        McsDecoder::from_bytes(&bad_version),
        Err(McStreamError::UnsupportedVersion(0x0200))
    ));
    let mut bad_compression = good.clone();
    bad_compression[10] = 4;
    assert!(matches!(
        McsDecoder::from_bytes(&bad_compression),
        Err(McStreamError::UnsupportedCompression(4))
    ));
}

#[test]
fn empty_index_is_rejected() {
    let mut bytes = stone_file(CompressionType::Uncompressed);
    bytes[20..24].copy_from_slice(&[0, 0, 0, 0]);
    assert!(matches!(McsDecoder::from_bytes(&bytes), Err(McStreamError::ChunkIndexError)));
}

#[test]
fn chunk_range_beyond_the_file_is_rejected() {
    let mut bytes = stone_file(CompressionType::Uncompressed);
    bytes[36..40].copy_from_slice(&1000u32.to_le_bytes());
    assert!(matches!(McsDecoder::from_bytes(&bytes), Err(McStreamError::ValidationError(_))));
}

#[test]
fn corrupt_compressed_chunk_is_a_decompression_error() {
    let mut bytes = stone_file(CompressionType::Zstandard);
    let last = bytes.len() - 1;
    for b in &mut bytes[40..last] {
        *b = 0xAA;
    }
    assert!(McsDecoder::from_bytes(&bytes).is_err());
}

#[test]
fn writing_no_chunks_fails() {
    let encoder = McsEncoder::new(CompressionType::Zstandard);
    assert!(matches!(encoder.write_to_bytes(), Err(McStreamError::ValidationError(_))));
}

#[test]
fn signature_is_appended_and_read_back() {
    let mut encoder = McsEncoder::new(CompressionType::Uncompressed).with_signature(vec![9, 8, 7]);
    encoder.add_block("stone".to_string(), 0, 0, 0, None).unwrap();
    let bytes = encoder.write_to_bytes().unwrap();
    assert_eq!(bytes.len(), 67);
    assert_eq!(bytes[11], 1);
    assert_eq!(&bytes[64..], &[9, 8, 7]);
    let decoder = McsDecoder::from_bytes(&bytes).unwrap();
    assert_eq!(decoder.signature(), Some(&vec![9, 8, 7]));
    assert_eq!(decoder.data_hash(), &mcstream::utils::calculate_sha256(&bytes[..64]));
    let data = decoder.to_mcs_data();
    assert_eq!(data.signature, Some(vec![9, 8, 7]));
    assert_eq!(data.chunks.len(), 1);
    assert_eq!(data.header.flags, 1);
}

#[test]
fn trailing_bytes_without_the_flag_are_ignored() {
    let mut bytes = stone_file(CompressionType::Uncompressed);
    bytes.extend_from_slice(&[1, 2, 3]);
    let decoder = McsDecoder::from_bytes(&bytes).unwrap();
    assert_eq!(decoder.signature(), None);
    assert_eq!(decoder.data_hash(), &mcstream::utils::calculate_sha256(&bytes[..64]));
}

#[test]
fn duplicate_chunk_coordinates_are_rejected() {
    let mut encoder = McsEncoder::new(CompressionType::Uncompressed);
    encoder.add_block("stone".to_string(), 0, 0, 0, None).unwrap();
    encoder.add_block("stone".to_string(), 16, 0, 0, None).unwrap();
    let mut bytes = encoder.write_to_bytes().unwrap();
    // make the second entry name chunk (0, 0) as well
    bytes[40..44].copy_from_slice(&0i32.to_le_bytes());
    assert!(matches!(McsDecoder::from_bytes(&bytes), Err(McStreamError::ChunkIndexError)));
}

#[test]
fn compressed_files_lay_out_data_right_after_the_index() {
    for compression in [CompressionType::Zstandard, CompressionType::LZ4, CompressionType::Brotli] {
        let encoder = sample_encoder(compression).with_signature(vec![0xEE, 0xFF]);
        let bytes = encoder.write_to_bytes().unwrap();
        let entries = read_mcs_index(&bytes).unwrap();
        let n = entries.len();
        assert_eq!(entries[0].data_offset as usize, 24 + 16 * n);
        for pair in entries.windows(2) {
            assert_eq!(pair[1].data_offset, pair[0].data_offset + pair[0].compressed_size);
        }
        let last = &entries[n - 1];
        let end = (last.data_offset + last.compressed_size) as usize;
        assert_eq!(&bytes[end..], &[0xEE, 0xFF]);
        assert_eq!(&bytes[16..20], &[0, 0, 0, 0]);
        assert!(matches!(
            McsDecoder::from_bytes(&bytes[..24 + 16 * n]),
            Err(McStreamError::ValidationError(_))
        ));
    }
}
