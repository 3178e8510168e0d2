use mcstream::error::McStreamError;
use mcstream::types::{Block, ChunkData, ChunkPos, LocalBlockPos};
use mcstream::{CompressionType, McsEncoder};

#[test]
fn air_never_creates_a_chunk_or_palette_entry() {
    let mut encoder = McsEncoder::new(CompressionType::Uncompressed);
    encoder.add_block("minecraft:air".to_string(), 0, 0, 0, None).unwrap();
    encoder.add_block("minecraft:cave_air_minecraft:air".to_string(), 1, 1, 1, None).unwrap();
    assert!(encoder.get_chunks().is_empty());
    encoder.add_block("minecraft:stone".to_string(), 0, 0, 0, None).unwrap();
    encoder.add_block("minecraft:air".to_string(), 2, 0, 0, None).unwrap();
    let chunks = encoder.get_chunks();
    assert_eq!(chunks.len(), 1);
    assert_eq!(chunks[0].palette, vec!["minecraft:stone".to_string()]);
    assert_eq!(chunks[0].blocks.len(), 1);
}

#[test]
fn repeated_ids_share_one_palette_entry() {
    let mut encoder = McsEncoder::new(CompressionType::Uncompressed);
    encoder.add_block("a".to_string(), 0, 0, 0, None).unwrap();
    encoder.add_block("b".to_string(), 1, 0, 0, None).unwrap();
    encoder.add_block("a".to_string(), 2, 0, 0, None).unwrap();
    encoder.add_block("a".to_string(), 3, 5, 0, None).unwrap();
    let chunk = &encoder.get_chunks()[0];
    assert_eq!(chunk.palette, vec!["a".to_string(), "b".to_string()]);
    let indices: Vec<u16> = chunk.blocks.iter().map(|b| b.palette_index).collect();
    assert_eq!(indices, vec![0, 1, 0, 0]);
}

#[test]
fn negative_coordinates_land_in_negative_chunks() {
    let mut encoder = McsEncoder::new(CompressionType::Uncompressed);
    encoder.add_block("stone".to_string(), -1, 10, -16, None).unwrap();
    encoder.add_block("stone".to_string(), -17, 10, -17, None).unwrap();
    let chunks = encoder.get_chunks();
    assert_eq!(chunks[0].pos, ChunkPos::new(-1, -1));
    assert_eq!(chunks[0].blocks[0].pos, LocalBlockPos::new(15, 74, 0));
    assert_eq!(chunks[1].pos, ChunkPos::new(-2, -2));
    assert_eq!(chunks[1].blocks[0].pos, LocalBlockPos::new(15, 74, 15));
}

#[test]
fn heights_out_of_range_are_rejected() {
    let mut encoder = McsEncoder::new(CompressionType::Uncompressed);
    assert_eq!(
        encoder.add_block("stone".to_string(), 0, -65, 0, None),
        Err(McStreamError::CoordinateOutOfRange)
    );
    assert_eq!(
        encoder.add_block("stone".to_string(), 0, 320, 0, None),
        Err(McStreamError::CoordinateOutOfRange)
    );
    assert_eq!(
        encoder.add_block("stone".to_string(), 0, 65536, 0, None),
        Err(McStreamError::CoordinateOutOfRange)
    );
    assert!(encoder.get_chunks().is_empty());
}

#[test]
fn add_blocks_places_every_position() {
    let mut encoder = McsEncoder::new(CompressionType::Uncompressed);
    encoder
        .add_blocks("glass".to_string(), &[(0, 0, 0), (1, 0, 0), (16, 0, 0)], Some(vec![1]))
        .unwrap();
    let chunks = encoder.get_chunks();
    assert_eq!(chunks.len(), 2);
    assert_eq!(chunks[0].blocks.len(), 2);
    assert_eq!(chunks[1].blocks.len(), 1);
    assert_eq!(chunks[1].blocks[0].nbt, Some(vec![1]));
    let mut failing = McsEncoder::new(CompressionType::Uncompressed);
    assert_eq!(
        failing.add_blocks("glass".to_string(), &[(0, 0, 0), (0, 400, 0), (1, 0, 0)], None),
        Err(McStreamError::CoordinateOutOfRange)
    );
    assert_eq!(failing.get_chunks()[0].blocks.len(), 1);
}

fn chunk_with(pos: LocalBlockPos, palette_index: u16, palette: Vec<&str>) -> ChunkData {
    ChunkData {
        pos: ChunkPos::new(3, 4),
        palette: palette.into_iter().map(|s| s.to_string()).collect(),
        blocks: vec![Block { palette_index, pos, nbt: None }],
    }
}

#[test]
fn add_chunk_checks_before_storing() {
    let mut encoder = McsEncoder::new(CompressionType::Uncompressed);
    let bad_pos = chunk_with(LocalBlockPos::new(16, 0, 0), 0, vec!["stone"]);
    assert_eq!(encoder.add_chunk(bad_pos), Err(McStreamError::CoordinateOutOfRange));
    let bad_y = chunk_with(LocalBlockPos::new(0, 384, 0), 0, vec!["stone"]);
    assert_eq!(encoder.add_chunk(bad_y), Err(McStreamError::CoordinateOutOfRange));
    let bad_index = chunk_with(LocalBlockPos::new(0, 0, 0), 1, vec!["stone"]);
    assert!(matches!(encoder.add_chunk(bad_index), Err(McStreamError::PaletteError(_))));
    let air = chunk_with(LocalBlockPos::new(0, 0, 0), 0, vec!["minecraft:air"]);
    assert_eq!(encoder.add_chunk(air), Err(McStreamError::AirInPalette));
    let repeated = chunk_with(LocalBlockPos::new(0, 0, 0), 0, vec!["stone", "stone"]);
    assert!(matches!(encoder.add_chunk(repeated), Err(McStreamError::PaletteError(_))));
    assert!(encoder.get_chunks().is_empty());
    let good = chunk_with(LocalBlockPos::new(15, 383, 15), 0, vec!["stone"]);
    encoder.add_chunk(good).unwrap();
    let replacement = chunk_with(LocalBlockPos::new(1, 1, 1), 1, vec!["stone", "dirt"]);
    encoder.add_chunk(replacement).unwrap();
    assert_eq!(encoder.get_chunks().len(), 1);
    assert_eq!(encoder.get_chunks()[0].palette.len(), 2);
    encoder.add_block("sand".to_string(), 48, 0, 64, None).unwrap();
    assert_eq!(encoder.get_chunks().len(), 1);
    assert_eq!(encoder.get_chunks()[0].palette[2], "sand");
}

#[test]
fn clear_drops_all_chunks() {
    let mut encoder = McsEncoder::new(CompressionType::LZ4);
    encoder.add_block("stone".to_string(), 0, 0, 0, None).unwrap();
    encoder.clear();
    assert!(encoder.get_chunks().is_empty());
    encoder.add_block("stone".to_string(), 0, 0, 0, None).unwrap();
    assert_eq!(encoder.get_chunks().len(), 1);
}
