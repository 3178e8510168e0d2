use vstd::prelude::*;

verus! {

/// Lowest block height that can be stored.
pub const MIN_Y: i32 = -64;

/// Highest block height that can be stored.
pub const MAX_Y: i32 = 319;

/// Largest stored (re-based) height inside a chunk.
pub const MAX_LOCAL_Y: u16 = 383;

/// Largest local horizontal coordinate inside a chunk.
pub const MAX_LOCAL_XZ: u8 = 15;

/// An absolute block coordinate.
#[derive(Debug, Clone, Copy, PartialEq, Eq, Hash, Structural)]
pub struct BlockPos {
    pub x: i32,
    pub y: i32,
    pub z: i32,
}

/// The coordinate of a 16 x 16 column of blocks.
#[derive(Debug, Clone, Copy, PartialEq, Eq, Hash, Structural)]
pub struct ChunkPos {
    pub x: i32,
    pub z: i32,
}

/// A block coordinate relative to its chunk, with the height re-based to be non-negative.
#[derive(Debug, Clone, Copy, PartialEq, Eq, Hash, Structural)]
pub struct LocalBlockPos {
    pub x: u8,
    pub y: u16,
    pub z: u8,
}

/// The chunk coordinate containing a global horizontal coordinate (floor division by 16).
pub open spec fn chunk_coord(v: int) -> int {
    v / 16
}

/// The position of a global horizontal coordinate inside its chunk.
pub open spec fn local_coord(v: int) -> int {
    v % 16
}

/// True when a local position lies inside a chunk's bounds.
pub open spec fn local_pos_valid(p: LocalBlockPos) -> bool {
    p.x <= 15 && p.z <= 15 && p.y <= 383
}

/// The global coordinate of a local position inside the chunk at `c`.
pub open spec fn global_of(c: ChunkPos, p: LocalBlockPos) -> (int, int, int) {
    (c.x * 16 + p.x, p.y - 64, c.z * 16 + p.z)
}

/// A global position with a height in `[-64, 319]` is recovered exactly from the chunk and
/// local position it maps to.
pub proof fn lemma_position_round_trip(x: i32, y: i32, z: i32)
    requires
        MIN_Y <= y <= MAX_Y,
    ensures
        global_of(
            ChunkPos { x: chunk_coord(x as int) as i32, z: chunk_coord(z as int) as i32 },
            LocalBlockPos {
                x: local_coord(x as int) as u8,
                y: (y + 64) as u16,
                z: local_coord(z as int) as u8,
            },
        ) == (x as int, y as int, z as int),
        local_pos_valid(
            LocalBlockPos {
                x: local_coord(x as int) as u8,
                y: (y + 64) as u16,
                z: local_coord(z as int) as u8,
            },
        ),
{
}

impl BlockPos {
    pub fn new(x: i32, y: i32, z: i32) -> (r: Self)
        ensures
            r == (BlockPos { x, y, z }),
    {
        BlockPos { x, y, z }
    }

    /// The chunk containing this position: each horizontal coordinate shifted right by 4,
    /// which rounds towards negative infinity.
    pub fn chunk_pos(&self) -> (r: ChunkPos)
        ensures
            r.x == chunk_coord(self.x as int),
            r.z == chunk_coord(self.z as int),
    {
        ChunkPos { x: floor_div16(self.x), z: floor_div16(self.z) }
    }

    /// The position inside the containing chunk; the height is moved up by 64 and kept
    /// modulo 2^16, so it is meaningful only for heights in `[-64, 319]`.
    pub fn local_pos(&self) -> (r: LocalBlockPos)
        ensures
            r.x == local_coord(self.x as int),
            r.z == local_coord(self.z as int),
            r.y == (self.y + 64) % 65536,
            MIN_Y <= self.y <= MAX_Y ==> r.y == self.y + 64 && local_pos_valid(r),
    {
        LocalBlockPos { x: mod16(self.x), y: rebase_y(self.y), z: mod16(self.z) }
    }
}

impl ChunkPos {
    pub fn new(x: i32, z: i32) -> (r: Self)
        ensures
            r == (ChunkPos { x, z }),
    {
        ChunkPos { x, z }
    }
}

impl LocalBlockPos {
    pub fn new(x: u8, y: u16, z: u8) -> (r: Self)
        ensures
            r == (LocalBlockPos { x, y, z }),
    {
        LocalBlockPos { x, y, z }
    }

    /// The global height that the stored height stands for.
    pub fn actual_y(&self) -> (r: i32)
        ensures
            r == self.y - 64,
    {
        self.y as i32 - 64
    }
}

/// `v` shifted right arithmetically by 4 bits.
pub fn floor_div16(v: i32) -> (r: i32)
    ensures
        r == chunk_coord(v as int),
{
    if v >= 0 {
        v / 16
    } else {
        let q = (v as i64 + 1) / 16 - 1;
        assert(q == (v as int) / 16) by {
            // for negative v, truncating division of v + 1 rounds up by one step
            assert((v as int + 1) <= 0);
        }
        q as i32
    }
}

/// The low four bits of `v`.
pub fn mod16(v: i32) -> (r: u8)
    ensures
        r == local_coord(v as int),
        r <= 15,
{
    let q = floor_div16(v);
    let m = (v as i64 - (q as i64) * 16) as u8;
    m
}

/// A height moved up by 64, modulo 2^16.
fn rebase_y(y: i32) -> (r: u16)
    ensures
        r == (y + 64) % 65536,
{
    let t: i64 = y as i64 + 64;
    let m: i64 = t % 65536;
    if m >= 0 {
        m as u16
    } else {
        (m + 65536) as u16
    }
}

/// One stored block: its palette slot, its place inside the chunk and optional metadata.
#[derive(Debug, Clone)]
pub struct Block {
    pub palette_index: u16,
    pub pos: LocalBlockPos,
    pub nbt: Option<Vec<u8>>,
}

/// A chunk: its coordinate, its palette of block-type ids, and its blocks in insertion order.
#[derive(Debug, Clone)]
pub struct ChunkData {
    pub pos: ChunkPos,
    pub palette: Vec<String>,
    pub blocks: Vec<Block>,
}

/// What a block holds, as plain values.
pub struct BlockView {
    pub palette_index: u16,
    pub pos: LocalBlockPos,
    pub nbt: Option<Seq<u8>>,
}

/// What a chunk holds, as plain values.
pub struct ChunkView {
    pub pos: ChunkPos,
    pub palette: Seq<Seq<char>>,
    pub blocks: Seq<BlockView>,
}

/// The metadata of a block, as bytes.
pub open spec fn nbt_view(n: Option<Vec<u8>>) -> Option<Seq<u8>> {
    match n {
        Some(v) => Some(v@),
        None => None,
    }
}

impl View for Block {
    type V = BlockView;

    open spec fn view(&self) -> BlockView {
        BlockView { palette_index: self.palette_index, pos: self.pos, nbt: nbt_view(self.nbt) }
    }
}

/// The ids of a palette, as character sequences.
pub open spec fn palette_view(p: Seq<String>) -> Seq<Seq<char>> {
    p.map_values(|s: String| s@)
}

/// The blocks of a chunk, as plain values.
pub open spec fn blocks_view(b: Seq<Block>) -> Seq<BlockView> {
    b.map_values(|x: Block| x@)
}

impl View for ChunkData {
    type V = ChunkView;

    open spec fn view(&self) -> ChunkView {
        ChunkView {
            pos: self.pos,
            palette: palette_view(self.palette@),
            blocks: blocks_view(self.blocks@),
        }
    }
}

/// One entry of the chunk index: where a chunk's compressed bytes lie in the file.
#[derive(Debug, Clone, Copy, PartialEq, Eq, Structural)]
pub struct ChunkIndexEntry {
    pub chunk_x: i32,
    pub chunk_z: i32,
    pub data_offset: u32,
    pub compressed_size: u32,
}

/// The fixed file header.
#[derive(Debug, Clone, Copy, PartialEq, Eq, Structural)]
pub struct McsHeader {
    pub version: u16,
    pub compression: u8,
    pub flags: u8,
    pub index_table_offset: u32,
}

/// Everything a decoded file holds.
#[derive(Debug, Clone)]
pub struct McsData {
    pub header: McsHeader,
    pub chunks: Vec<ChunkData>,
    pub data_hash: [u8; 32],
    pub signature: Option<Vec<u8>>,
}

} // verus!
