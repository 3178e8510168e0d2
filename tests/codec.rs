use mcstream::chunk::{
    compress_chunk, decompress_chunk, deserialize_chunk, serialize_chunk, validate_local_pos,
    write_chunk_index,
};
use mcstream::error::McStreamError;
use mcstream::header::{update_index_table_offset, write_header};
use mcstream::nbt::{get_nbt_root_type, validate_nbt, NbtTagType};
use mcstream::palette::{create_palette, read_palette, validate_palette, write_palette};
use mcstream::types::{Block, ChunkData, ChunkIndexEntry, ChunkPos, LocalBlockPos};
use mcstream::utils::{
    calculate_sha256, read_signature, validate_file_size, verify_file_hash, write_signature,
};
use mcstream::CompressionType;

#[test]
fn palette_round_trips_and_rejects_air() {
    let palette = vec!["minecraft:stone".to_string(), "b\u{e9}ton".to_string()];
    let mut out = Vec::new();
    write_palette(&mut out, &palette).unwrap();
    assert_eq!(out.len(), 2 + 2 + 15 + 2 + 6);
    assert_eq!(&out[..4], &[2, 0, 15, 0]);
    let (read, end) = read_palette(&out, 0).unwrap();
    assert_eq!(read, palette);
    assert_eq!(end, out.len());
    let with_air = vec!["x".to_string(), "minecraft:air".to_string()];
    assert_eq!(validate_palette(&with_air), Err(McStreamError::AirInPalette));
    let mut untouched = vec![1u8];
    assert_eq!(write_palette(&mut untouched, &with_air), Err(McStreamError::AirInPalette));
    assert_eq!(untouched, vec![1u8]);
}

#[test]
fn palette_reader_rejects_bad_input() {
    assert!(matches!(read_palette(&[1], 0), Err(McStreamError::ValidationError(_))));
    assert!(matches!(read_palette(&[1, 0, 3, 0, b'a'], 0), Err(McStreamError::ValidationError(_))));
    assert!(matches!(read_palette(&[1, 0, 2, 0, 0xC3, 0x28], 0), Err(McStreamError::PaletteError(_))));
    let mut air = vec![1, 0, 13, 0];
    air.extend_from_slice(b"minecraft:air");
    assert_eq!(read_palette(&air, 0), Err(McStreamError::AirInPalette));
}

#[test]
fn oversized_palette_id_is_rejected() {
    let palette = vec!["x".repeat(65536)];
    assert!(matches!(write_palette(&mut Vec::new(), &palette), Err(McStreamError::PaletteError(_))));
}

fn sample_chunk() -> ChunkData {
    ChunkData {
        pos: ChunkPos::new(2, -3),
        palette: vec!["stone".to_string(), "chest".to_string()],
        blocks: vec![
            Block { palette_index: 0, pos: LocalBlockPos::new(1, 2, 3), nbt: None },
            Block { palette_index: 1, pos: LocalBlockPos::new(15, 383, 0), nbt: Some(vec![10, 9]) },
            Block { palette_index: 0, pos: LocalBlockPos::new(0, 0, 15), nbt: Some(vec![]) },
        ],
    }
}

#[test]
fn chunk_payload_layout_and_round_trip() {
    let chunk = sample_chunk();
    let bytes = serialize_chunk(&chunk).unwrap();
    let palette_len = 2 + (2 + 5) + (2 + 5);
    assert_eq!(&bytes[palette_len..palette_len + 4], &[3, 0, 0, 0]);
    let first = palette_len + 4;
    assert_eq!(&bytes[first..first + 7], &[0, 0, 1, 2, 0, 3, 0]);
    assert_eq!(&bytes[first + 7..first + 14], &[1, 0, 15, 0x7F, 0x01, 0, 1]);
    let meta = first + 21;
    assert_eq!(&bytes[meta..], &[2, 0, 0, 0, 2, 0, 0, 0, 10, 9, 0, 0, 0, 0]);
    let back = deserialize_chunk(&bytes, chunk.pos).unwrap();
    assert_eq!(back.palette, chunk.palette);
    assert_eq!(back.blocks.len(), 3);
    assert_eq!(back.blocks[1].nbt, Some(vec![10, 9]));
    assert_eq!(back.blocks[2].nbt, Some(vec![]));
    assert_eq!(back.blocks[2].pos, LocalBlockPos::new(0, 0, 15));
}

#[test]
fn metadata_count_mismatch_is_an_nbt_error() {
    let mut bytes = serialize_chunk(&sample_chunk()).unwrap();
    let meta = 2 + 7 + 7 + 4 + 21;
    bytes[meta] = 3;
    assert!(matches!(deserialize_chunk(&bytes, ChunkPos::new(0, 0)), Err(McStreamError::NbtError(_))));
}

#[test]
fn out_of_range_records_are_rejected() {
    let mut bytes = serialize_chunk(&sample_chunk()).unwrap();
    let first = 2 + 7 + 7 + 4;
    bytes[first + 2] = 16;
    assert!(matches!(deserialize_chunk(&bytes, ChunkPos::new(0, 0)), Err(McStreamError::CoordinateOutOfRange)));
    let mut bytes = serialize_chunk(&sample_chunk()).unwrap();
    bytes[first] = 2;
    assert!(matches!(deserialize_chunk(&bytes, ChunkPos::new(0, 0)), Err(McStreamError::PaletteError(_))));
    assert_eq!(validate_local_pos(&LocalBlockPos::new(0, 384, 0)), Err(McStreamError::CoordinateOutOfRange));
    assert_eq!(validate_local_pos(&LocalBlockPos::new(15, 383, 15)), Ok(()));
}

#[test]
fn compressed_chunk_round_trips() {
    let chunk = sample_chunk();
    for (alg, id) in [
        (CompressionType::Uncompressed, 0u8),
        (CompressionType::Zstandard, 1),
        (CompressionType::LZ4, 2),
        (CompressionType::Brotli, 3),
    ] {
        let packed = compress_chunk(&chunk, alg).unwrap();
        let back = decompress_chunk(&packed, id, chunk.pos).unwrap();
        assert_eq!(back.blocks.len(), 3);
        assert_eq!(back.palette, chunk.palette);
        assert_eq!(back.pos, chunk.pos);
    }
    assert!(matches!(
        decompress_chunk(&[], 9, ChunkPos::new(0, 0)),
        Err(McStreamError::UnsupportedCompression(9))
    ));
}

#[test]
fn header_and_index_layout() {
    let mut out = Vec::new();
    write_header(&mut out, CompressionType::Brotli, true);
    assert_eq!(out.len(), 20);
    assert_eq!(&out[8..12], &[1, 0, 3, 1]);
    update_index_table_offset(&mut out, 0x01020304);
    assert_eq!(&out[12..16], &[4, 3, 2, 1]);
    let entries = [ChunkIndexEntry { chunk_x: -1, chunk_z: 2, data_offset: 5, compressed_size: 6 }];
    let mut index = Vec::new();
    write_chunk_index(&mut index, &entries).unwrap();
    assert_eq!(
        index,
        vec![1, 0, 0, 0, 0xFF, 0xFF, 0xFF, 0xFF, 2, 0, 0, 0, 5, 0, 0, 0, 6, 0, 0, 0]
    );
}

#[test]
fn nbt_helpers() {
    assert_eq!(validate_nbt(&[]), Ok(()));
    assert_eq!(validate_nbt(&[12, 1]), Ok(()));
    assert!(matches!(validate_nbt(&[13]), Err(McStreamError::NbtError(_))));
    assert_eq!(get_nbt_root_type(&[10, 0]), Ok(NbtTagType::Compound));
    assert_eq!(get_nbt_root_type(&[0]), Ok(NbtTagType::End));
    assert!(matches!(get_nbt_root_type(&[]), Err(McStreamError::NbtError(_))));
    assert!(matches!(NbtTagType::try_from(200), Err(McStreamError::NbtError(_))));
    assert_eq!(NbtTagType::try_from(7), Ok(NbtTagType::ByteArray));
}

#[test]
fn hashing_and_size_checks() {
    let digest = calculate_sha256(b"abc");
    assert_eq!(
        digest[..4],
        [0xba, 0x78, 0x16, 0xbf]
    );
    assert_eq!(digest[28..], [0xf2, 0x00, 0x15, 0xad]);
    assert!(verify_file_hash(b"abc", &digest));
    assert!(!verify_file_hash(b"abd", &digest));
    assert_eq!(validate_file_size(0xFFFF_FFFF), Ok(()));
    assert_eq!(validate_file_size(0x1_0000_0000), Err(McStreamError::FileTooLarge));
}

#[test]
fn length_prefixed_signatures() {
    let mut out = vec![7u8];
    write_signature(&mut out, &[1, 2, 3]).unwrap();
    assert_eq!(out, vec![7, 3, 0, 1, 2, 3]);
    assert_eq!(read_signature(&out, 1), Ok((vec![1, 2, 3], 6)));
    assert!(matches!(read_signature(&out[..5], 1), Err(McStreamError::ValidationError(_))));
    assert!(matches!(write_signature(&mut out, &vec![0u8; 65536]), Err(McStreamError::ValidationError(_))));
}

#[test]
fn create_palette_keeps_first_seen_order_and_skips_air() {
    let ids: Vec<String> = ["b", "minecraft:air", "a", "b", "c", "a"].iter().map(|s| s.to_string()).collect();
    let (palette, index) = create_palette(&ids).unwrap();
    assert_eq!(palette, vec!["b".to_string(), "a".to_string(), "c".to_string()]);
    assert_eq!(index, vec![("b".to_string(), 0), ("a".to_string(), 1), ("c".to_string(), 2)]);
    let (empty, none) = create_palette(&[]).unwrap();
    assert!(empty.is_empty() && none.is_empty());
}
