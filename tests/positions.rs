use mcstream::types::{BlockPos, ChunkPos, LocalBlockPos};

#[test]
fn negative_x_maps_to_previous_chunk() {
    let p = BlockPos::new(-1, 0, 0);
    assert_eq!(p.chunk_pos(), ChunkPos::new(-1, 0));
    assert_eq!(p.local_pos().x, 15);
}

#[test]
fn heights_round_trip_through_local_positions() {
    for y in [-64, -1, 0, 63, 319] {
        let local = BlockPos::new(5, y, 7).local_pos();
        assert_eq!(local.actual_y(), y);
    }
    assert_eq!(LocalBlockPos::new(0, 0, 0).actual_y(), -64);
}
