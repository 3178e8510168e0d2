use crate::bytes::{copy_range, i32_bits};
use crate::bytes::push_all;
use crate::chunk::{
    blocks_valid, chunk_bytes, chunk_writable, compress_chunk, decode_chunk, index_bytes,
    lemma_chunk_round_trip, lemma_index_round_trip, validate_local_pos,
    write_chunk_index,
};
use crate::compression::{compressed, compression_of_id, decompressed};
use crate::header::{
    flags_for, header_bytes, lemma_header_round_trip, update_index_table_offset, write_header,
};
use crate::types::{ChunkIndexEntry, McsHeader};
use crate::unpacker::{
    coords_distinct, decode_chunks, decode_file, entries_in_bounds, entry_bytes_of, entry_end,
    entry_pos, footer_offset, parse_layout, DecodedFile,
};
use crate::utils::sha256_of;
use crate::MCS_VERSION;
use crate::error::{ErrorKind, McStreamError};
use crate::palette::{first_seen, is_air, is_air_id, palette_air_free, validate_palette};
use crate::types::{
    blocks_view, chunk_coord, global_of, local_coord, local_pos_valid, nbt_view, palette_view, Block,
    BlockPos, BlockView, ChunkData, ChunkPos, ChunkView, LocalBlockPos,
};
use crate::unpacker::chunks_view;
use crate::CompressionType;
use vstd::hash_map::HashMapWithView;
use vstd::multiset::Multiset;
use vstd::prelude::*;

verus! {

/// True when a chunk can be held by the encoder: its palette holds no air-marked id, no id
/// twice and at most 65536 ids (every index fits 16 bits), and every block lies inside the chunk and names an entry.
pub open spec fn chunk_ok(c: ChunkView) -> bool {
    &&& palette_air_free(c.palette)
    &&& c.palette.len() <= 65536
    &&& c.palette.no_duplicates()
    &&& blocks_valid(c)
}

/// True when no two chunks share a coordinate.
pub open spec fn positions_distinct(cs: Seq<ChunkView>) -> bool {
    forall|i: int, j: int|
        0 <= i < cs.len() && 0 <= j < cs.len() && i != j ==> (#[trigger] cs[i]).pos != (
        #[trigger] cs[j]).pos
}

/// True when every chunk is acceptable and coordinates are distinct.
pub open spec fn chunks_ok(cs: Seq<ChunkView>) -> bool {
    &&& positions_distinct(cs)
    &&& forall|i: int| 0 <= i < cs.len() ==> chunk_ok(#[trigger] cs[i])
}

/// The chunk containing a global horizontal position.
pub open spec fn chunk_of(x: int, z: int) -> ChunkPos {
    ChunkPos { x: chunk_coord(x) as i32, z: chunk_coord(z) as i32 }
}

/// The local position of a global position whose height is in range.
pub open spec fn local_of(x: int, y: int, z: int) -> LocalBlockPos {
    LocalBlockPos { x: local_coord(x) as u8, y: (y + 64) as u16, z: local_coord(z) as u8 }
}

/// True when some chunk sits at `p`.
pub open spec fn has_chunk(cs: Seq<ChunkView>, p: ChunkPos) -> bool {
    exists|i: int| 0 <= i < cs.len() && (#[trigger] cs[i]).pos == p
}

/// The index of the chunk at `p` (meaningful when `has_chunk`).
pub open spec fn chunk_index(cs: Seq<ChunkView>, p: ChunkPos) -> int {
    choose|i: int| 0 <= i < cs.len() && (#[trigger] cs[i]).pos == p
}

/// A chunk with one more block: `id` reuses its palette entry or is appended to the palette.
pub open spec fn with_block(
    c: ChunkView,
    id: Seq<char>,
    lp: LocalBlockPos,
    nbt: Option<Seq<u8>>,
) -> ChunkView {
    if c.palette.contains(id) {
        ChunkView {
            pos: c.pos,
            palette: c.palette,
            blocks: c.blocks.push(
                BlockView { palette_index: c.palette.index_of(id) as u16, pos: lp, nbt },
            ),
        }
    } else {
        ChunkView {
            pos: c.pos,
            palette: c.palette.push(id),
            blocks: c.blocks.push(BlockView { palette_index: c.palette.len() as u16, pos: lp, nbt }),
        }
    }
}

/// The chunks after adding a block to the chunk at `p`, created empty when missing.
pub open spec fn chunks_with_block(
    cs: Seq<ChunkView>,
    p: ChunkPos,
    id: Seq<char>,
    lp: LocalBlockPos,
    nbt: Option<Seq<u8>>,
) -> Seq<ChunkView> {
    if has_chunk(cs, p) {
        cs.update(chunk_index(cs, p), with_block(cs[chunk_index(cs, p)], id, lp, nbt))
    } else {
        cs.push(with_block(ChunkView { pos: p, palette: seq![], blocks: seq![] }, id, lp, nbt))
    }
}

/// True when the chunk at `p` can take `id`: it already lists it or its palette has room.
pub open spec fn palette_room(cs: Seq<ChunkView>, p: ChunkPos, id: Seq<char>) -> bool {
    has_chunk(cs, p) ==> cs[chunk_index(cs, p)].palette.contains(id)
        || cs[chunk_index(cs, p)].palette.len() < 65536
}

/// What adding a block does to the chunks: air is dropped, a height outside `[-64, 319]`
/// is rejected, a new id is refused only when all 65536 sixteen-bit palette indices are taken,
/// and otherwise the block is appended.
pub open spec fn add_block_spec(
    cs: Seq<ChunkView>,
    id: Seq<char>,
    x: i32,
    y: i32,
    z: i32,
    nbt: Option<Seq<u8>>,
) -> Result<Seq<ChunkView>, ErrorKind> {
    if is_air_id(id) {
        Ok(cs)
    } else if y < -64 || y > 319 {
        Err(ErrorKind::CoordinateOutOfRange)
    } else if !palette_room(cs, chunk_of(x as int, z as int), id) {
        Err(ErrorKind::Palette)
    } else {
        Ok(
            chunks_with_block(
                cs,
                chunk_of(x as int, z as int),
                id,
                local_of(x as int, y as int, z as int),
                nbt,
            ),
        )
    }
}

proof fn lemma_with_block_ok(c: ChunkView, id: Seq<char>, lp: LocalBlockPos, nbt: Option<Seq<u8>>)
    requires
        chunk_ok(c),
        !is_air_id(id),
        local_pos_valid(lp),
        c.palette.contains(id) || c.palette.len() < 65536,
    ensures
        chunk_ok(with_block(c, id, lp, nbt)),
        with_block(c, id, lp, nbt).pos == c.pos,
{
    let w = with_block(c, id, lp, nbt);
    if c.palette.contains(id) {
        let k = c.palette.index_of(id);
        assert(0 <= k < c.palette.len());
        assert(w.blocks.last().palette_index == k);
    } else {
        assert forall|k: int| 0 <= k < w.palette.len() implies !is_air_id(#[trigger] w.palette[k]) by {
            if k < c.palette.len() {
                assert(w.palette[k] == c.palette[k]);
            }
        }
        assert forall|i: int, j: int|
            0 <= i < w.palette.len() && 0 <= j < w.palette.len() && i != j implies w.palette[i]
            != w.palette[j] by {
            if i < c.palette.len() && j < c.palette.len() {
            } else if i < c.palette.len() {
                assert(c.palette[i] != id);
            } else {
                assert(c.palette[j] != id);
            }
        }
    }
    assert forall|i: int| 0 <= i < w.blocks.len() implies local_pos_valid(
        (#[trigger] w.blocks[i]).pos,
    ) && w.blocks[i].palette_index < w.palette.len() by {
        if i < c.blocks.len() {
            assert(w.blocks[i] == c.blocks[i]);
        }
    }
}

/// The chunks after one addition still have distinct coordinates, and the chunk at `p`
/// sits at a known index.
proof fn lemma_with_block_positions(
    cs: Seq<ChunkView>,
    p: ChunkPos,
    id: Seq<char>,
    lp: LocalBlockPos,
    nbt: Option<Seq<u8>>,
)
    requires
        positions_distinct(cs),
    ensures
        positions_distinct(chunks_with_block(cs, p, id, lp, nbt)),
        has_chunk(chunks_with_block(cs, p, id, lp, nbt), p),
        chunk_index(chunks_with_block(cs, p, id, lp, nbt), p) == if has_chunk(cs, p) {
            chunk_index(cs, p)
        } else {
            cs.len() as int
        },
{
    let cs1 = chunks_with_block(cs, p, id, lp, nbt);
    if has_chunk(cs, p) {
        let i = chunk_index(cs, p);
        assert(cs1[i].pos == p);
        assert forall|a: int, b: int|
            0 <= a < cs1.len() && 0 <= b < cs1.len() && a != b implies (#[trigger] cs1[a]).pos != (
            #[trigger] cs1[b]).pos by {
            assert(cs1[a].pos == cs[a].pos);
            assert(cs1[b].pos == cs[b].pos);
        }
    } else {
        let i = cs.len() as int;
        assert(cs1[i].pos == p);
        assert forall|a: int, b: int|
            0 <= a < cs1.len() && 0 <= b < cs1.len() && a != b implies (#[trigger] cs1[a]).pos != (
            #[trigger] cs1[b]).pos by {
            if a < cs.len() {
                assert(cs1[a] == cs[a]);
                assert(cs[a].pos != p);
            }
            if b < cs.len() {
                assert(cs1[b] == cs[b]);
                assert(cs[b].pos != p);
            }
        }
    }
    let j = chunk_index(cs1, p);
    assert(cs1[j].pos == p);
}

/// The palette of an acceptable chunk lists each id once, so its length is the number of
/// distinct ids it holds.
pub proof fn lemma_palette_len_is_distinct_count(c: ChunkView)
    requires
        chunk_ok(c),
    ensures
        c.palette.len() == c.palette.to_set().len(),
{
    c.palette.unique_seq_to_set();
}

/// Adding two blocks of the same id to the same chunk uses one palette entry for both: the
/// second addition leaves the palette as the first left it and gives its block the same
/// index.
pub proof fn lemma_same_id_twice_shares_entry(
    cs: Seq<ChunkView>,
    id: Seq<char>,
    x1: i32,
    y1: i32,
    z1: i32,
    n1: Option<Seq<u8>>,
    x2: i32,
    y2: i32,
    z2: i32,
    n2: Option<Seq<u8>>,
)
    requires
        chunks_ok(cs),
        !is_air_id(id),
        crate::types::MIN_Y <= y1 <= crate::types::MAX_Y,
        crate::types::MIN_Y <= y2 <= crate::types::MAX_Y,
        chunk_of(x1 as int, z1 as int) == chunk_of(x2 as int, z2 as int),
        palette_room(cs, chunk_of(x1 as int, z1 as int), id),
    ensures
        add_block_spec(cs, id, x1, y1, z1, n1) matches Ok(cs1) && add_block_spec(
            cs1,
            id,
            x2,
            y2,
            z2,
            n2,
        ) matches Ok(cs2) && {
            let p = chunk_of(x1 as int, z1 as int);
            let i = chunk_index(cs1, p);
            &&& chunk_index(cs2, p) == i
            &&& cs2[i].palette == cs1[i].palette
            &&& cs1[i].palette.contains(id)
            &&& cs2[i].blocks.last().palette_index == cs1[i].blocks.last().palette_index
        },
{
    let p = chunk_of(x1 as int, z1 as int);
    let lp1 = local_of(x1 as int, y1 as int, z1 as int);
    let lp2 = local_of(x2 as int, y2 as int, z2 as int);
    let cs1 = chunks_with_block(cs, p, id, lp1, n1);
    lemma_with_block_positions(cs, p, id, lp1, n1);
    let i = chunk_index(cs1, p);
    let c0 = if has_chunk(cs, p) {
        cs[chunk_index(cs, p)]
    } else {
        ChunkView { pos: p, palette: seq![], blocks: seq![] }
    };
    assert(cs1[i] == with_block(c0, id, lp1, n1));
    if has_chunk(cs, p) {
        assert(chunk_ok(cs[chunk_index(cs, p)]));
    }
    assert(c0.palette.no_duplicates());
    let c1 = cs1[i];
    assert(c1.palette.contains(id)) by {
        if !c0.palette.contains(id) {
            assert(c1.palette[c0.palette.len() as int] == id);
        }
    }
    assert(c1.palette.no_duplicates()) by {
        if !c0.palette.contains(id) {
            assert forall|a: int, b: int|
                0 <= a < c1.palette.len() && 0 <= b < c1.palette.len() && a != b implies c1.palette[a]
                != c1.palette[b] by {
                if a < c0.palette.len() && b < c0.palette.len() {
                } else if a < c0.palette.len() {
                    assert(c0.palette[a] != id);
                } else {
                    assert(c0.palette[b] != id);
                }
            }
        }
    }
    assert(palette_room(cs1, p, id));
    let cs2 = chunks_with_block(cs1, p, id, lp2, n2);
    lemma_with_block_positions(cs1, p, id, lp2, n2);
    assert(cs2[i] == with_block(c1, id, lp2, n2));
    let k = c1.palette.index_of(id);
    assert(c1.palette[k] == id);
    if c0.palette.contains(id) {
        assert(c1.palette == c0.palette);
        assert(c1.blocks.last().palette_index == c0.palette.index_of(id) as u16);
    } else {
        assert(c1.palette[c0.palette.len() as int] == id);
        assert(k == c0.palette.len());
    }
}

/// A placed block as its global position, its type id and its metadata.
pub open spec fn block_entry(c: ChunkView, b: BlockView) -> ((int, int, int), Seq<char>, Option<
    Seq<u8>,
>) {
    (global_of(c.pos, b.pos), c.palette[b.palette_index as int], b.nbt)
}

/// The placed blocks among the first `n` blocks of a chunk.
pub open spec fn chunk_entries(c: ChunkView, n: nat) -> Multiset<
    ((int, int, int), Seq<char>, Option<Seq<u8>>),
>
    decreases n,
{
    if n == 0 || n > c.blocks.len() {
        Multiset::empty()
    } else {
        chunk_entries(c, (n - 1) as nat).insert(block_entry(c, c.blocks[n - 1]))
    }
}

/// Every placed block of the chunks, as a multiset of (position, id, metadata).
pub open spec fn placed_blocks(cs: Seq<ChunkView>) -> Multiset<
    ((int, int, int), Seq<char>, Option<Seq<u8>>),
>
    decreases cs.len(),
{
    if cs.len() == 0 {
        Multiset::empty()
    } else {
        placed_blocks(cs.drop_last()).add(chunk_entries(cs.last(), cs.last().blocks.len()))
    }
}

proof fn lemma_chunk_entries_prefix(c: ChunkView, w: ChunkView, n: nat)
    requires
        n <= c.blocks.len(),
        n <= w.blocks.len(),
        w.pos == c.pos,
        forall|k: int| 0 <= k < n ==> #[trigger] w.blocks[k] == c.blocks[k],
        forall|k: int| 0 <= k < n ==> #[trigger] w.palette[c.blocks[k].palette_index as int] == c.palette[c.blocks[k].palette_index as int],
    ensures
        chunk_entries(w, n) == chunk_entries(c, n),
    decreases n,
{
    if n > 0 {
        lemma_chunk_entries_prefix(c, w, (n - 1) as nat);
        assert(w.blocks[n - 1] == c.blocks[n - 1]);
        assert(block_entry(w, w.blocks[n - 1]) == block_entry(c, c.blocks[n - 1]));
    }
}

proof fn lemma_with_block_entries(c: ChunkView, id: Seq<char>, lp: LocalBlockPos, nbt: Option<Seq<u8>>)
    requires
        chunk_ok(c),
        c.palette.contains(id) || c.palette.len() < 65536,
    ensures
        chunk_entries(with_block(c, id, lp, nbt), with_block(c, id, lp, nbt).blocks.len())
            == chunk_entries(c, c.blocks.len()).insert((global_of(c.pos, lp), id, nbt)),
{
    let w = with_block(c, id, lp, nbt);
    let n = c.blocks.len();
    assert forall|k: int| 0 <= k < n implies #[trigger] w.palette[c.blocks[k].palette_index as int]
        == c.palette[c.blocks[k].palette_index as int] by {
        assert(c.blocks[k].palette_index < c.palette.len());
    }
    assert forall|k: int| 0 <= k < n implies #[trigger] w.blocks[k] == c.blocks[k] by {}
    lemma_chunk_entries_prefix(c, w, n);
    let b = w.blocks[n as int];
    if c.palette.contains(id) {
        let k = c.palette.index_of(id);
        assert(c.palette[k] == id);
        assert(b.palette_index == k);
    } else {
        assert(w.palette[c.palette.len() as int] == id);
    }
    assert(block_entry(w, b) == (global_of(c.pos, lp), id, nbt));
}

proof fn lemma_placed_update(
    cs: Seq<ChunkView>,
    i: int,
    w: ChunkView,
    e: ((int, int, int), Seq<char>, Option<Seq<u8>>),
)
    requires
        0 <= i < cs.len(),
        chunk_entries(w, w.blocks.len()) == chunk_entries(cs[i], cs[i].blocks.len()).insert(e),
    ensures
        placed_blocks(cs.update(i, w)) == placed_blocks(cs).insert(e),
    decreases cs.len(),
{
    let u = cs.update(i, w);
    if i == cs.len() - 1 {
        assert(u.drop_last() =~= cs.drop_last());
        assert(placed_blocks(u) =~= placed_blocks(cs).insert(e));
    } else {
        lemma_placed_update(cs.drop_last(), i, w, e);
        assert(u.drop_last() =~= cs.drop_last().update(i, w));
        assert(u.last() == cs.last());
        assert(placed_blocks(u) =~= placed_blocks(cs).insert(e));
    }
}

/// Adding a block that is not air-marked, at a height in range, into a chunk that can take
/// its id, places exactly that block: its position, id and metadata join the multiset of
/// placed blocks and nothing else changes.
pub proof fn lemma_add_block_places(
    cs: Seq<ChunkView>,
    id: Seq<char>,
    x: i32,
    y: i32,
    z: i32,
    nbt: Option<Seq<u8>>,
)
    requires
        chunks_ok(cs),
        !is_air_id(id),
        crate::types::MIN_Y <= y <= crate::types::MAX_Y,
        palette_room(cs, chunk_of(x as int, z as int), id),
    ensures
        add_block_spec(cs, id, x, y, z, nbt) matches Ok(cs2) && placed_blocks(cs2)
            == placed_blocks(cs).insert(((x as int, y as int, z as int), id, nbt)),
{
    let p = chunk_of(x as int, z as int);
    let lp = local_of(x as int, y as int, z as int);
    crate::types::lemma_position_round_trip(x, y, z);
    assert(global_of(p, lp) == (x as int, y as int, z as int));
    let e = ((x as int, y as int, z as int), id, nbt);
    if has_chunk(cs, p) {
        let i = chunk_index(cs, p);
        assert(chunk_ok(cs[i]));
        lemma_with_block_entries(cs[i], id, lp, nbt);
        lemma_placed_update(cs, i, with_block(cs[i], id, lp, nbt), e);
    } else {
        let c0 = ChunkView { pos: p, palette: seq![], blocks: seq![] };
        assert(chunk_ok(c0));
        lemma_with_block_entries(c0, id, lp, nbt);
        assert(chunk_entries(c0, 0) == Multiset::<((int, int, int), Seq<char>, Option<Seq<u8>>)>::empty());
        let cs2 = cs.push(with_block(c0, id, lp, nbt));
        assert(cs2.drop_last() =~= cs);
        assert(placed_blocks(cs2) =~= placed_blocks(cs).insert(e));
    }
}

/// A written file decodes to the same placed blocks, each with its position, id and
/// metadata, as the encoder held.
pub proof fn lemma_round_trip_blocks(f: Seq<u8>, v: EncoderView)
    requires
        written_file(f, v),
    ensures
        decode_file(f) matches Ok(d) && placed_blocks(d.chunks) == placed_blocks(v.chunks),
{
}

/// What adding the blocks `(id, x, y, z, metadata)` one after another does to the chunks;
/// the first failure stops the run.
pub open spec fn add_each_spec(
    cs: Seq<ChunkView>,
    ops: Seq<(Seq<char>, i32, i32, i32, Option<Seq<u8>>)>,
) -> Result<Seq<ChunkView>, ErrorKind>
    decreases ops.len(),
{
    if ops.len() == 0 {
        Ok(cs)
    } else {
        match add_each_spec(cs, ops.drop_last()) {
            Err(e) => Err(e),
            Ok(c2) => add_block_spec(c2, ops.last().0, ops.last().1, ops.last().2, ops.last().3, ops.last().4),
        }
    }
}

/// The ids of a run of additions.
pub open spec fn op_ids(ops: Seq<(Seq<char>, i32, i32, i32, Option<Seq<u8>>)>) -> Seq<Seq<char>> {
    ops.map_values(|o: (Seq<char>, i32, i32, i32, Option<Seq<u8>>)| o.0)
}

/// Adding blocks that all fall in one chunk, starting from an empty encoder, leaves at most
/// that chunk, whose palette lists the non-air ids added in the order first seen, each once;
/// its length is the number of distinct non-air ids added.
pub proof fn lemma_palette_of_additions(
    ops: Seq<(Seq<char>, i32, i32, i32, Option<Seq<u8>>)>,
    p: ChunkPos,
    cs: Seq<ChunkView>,
)
    requires
        forall|k: int| 0 <= k < ops.len() ==> chunk_of((#[trigger] ops[k]).1 as int, ops[k].3 as int) == p,
        add_each_spec(seq![], ops) == Ok::<Seq<ChunkView>, ErrorKind>(cs),
    ensures
        cs.len() <= 1,
        cs.len() == 1 ==> cs[0].pos == p && cs[0].palette == first_seen(op_ids(ops)),
        cs.len() == 0 ==> first_seen(op_ids(ops)).len() == 0,
        cs.len() == 1 ==> cs[0].palette.len() == crate::palette::non_air_ids(op_ids(ops)).len(),
    decreases ops.len(),
{
    crate::palette::lemma_first_seen_counts_distinct(op_ids(ops));
    if ops.len() > 0 {
        let init = ops.drop_last();
        let o = ops.last();
        assert(op_ids(ops).drop_last() =~= op_ids(init));
        assert(op_ids(ops).last() == o.0);
        let r0 = add_each_spec(seq![], init);
        assert(r0 is Ok);
        let cs0 = r0->Ok_0;
        assert forall|k: int| 0 <= k < init.len() implies chunk_of((#[trigger] init[k]).1 as int, init[k].3 as int) == p by {
            assert(init[k] == ops[k]);
        }
        lemma_palette_of_additions(init, p, cs0);
        assert(chunk_of(o.1 as int, o.3 as int) == p) by {
            assert(ops[ops.len() - 1] == o);
        }
        if !is_air_id(o.0) {
            let lp = local_of(o.1 as int, o.2 as int, o.3 as int);
            if cs0.len() == 1 {
                assert(has_chunk(cs0, p)) by {
                    assert(cs0[0].pos == p);
                }
                let i = chunk_index(cs0, p);
                assert(i == 0);
            } else {
                assert(!has_chunk(cs0, p));
                assert(first_seen(op_ids(init)) =~= Seq::<Seq<char>>::empty());
                assert(!first_seen(op_ids(init)).contains(o.0));
            }
        }
    }
}

/// What adding one block at each position, in order, does to the chunks; the first failure
/// stops the run.
pub open spec fn add_blocks_spec(
    cs: Seq<ChunkView>,
    id: Seq<char>,
    ps: Seq<(i32, i32, i32)>,
    nbt: Option<Seq<u8>>,
) -> Result<Seq<ChunkView>, ErrorKind>
    decreases ps.len(),
{
    if ps.len() == 0 {
        Ok(cs)
    } else {
        match add_blocks_spec(cs, id, ps.drop_last(), nbt) {
            Err(e) => Err(e),
            Ok(c2) => add_block_spec(c2, id, ps.last().0, ps.last().1, ps.last().2, nbt),
        }
    }
}

proof fn lemma_add_blocks_err_persists(
    cs: Seq<ChunkView>,
    id: Seq<char>,
    ps: Seq<(i32, i32, i32)>,
    nbt: Option<Seq<u8>>,
    i: int,
)
    requires
        0 <= i <= ps.len(),
        add_blocks_spec(cs, id, ps.subrange(0, i), nbt) is Err,
    ensures
        add_blocks_spec(cs, id, ps, nbt) == add_blocks_spec(cs, id, ps.subrange(0, i), nbt),
    decreases ps.len() - i,
{
    if i < ps.len() {
        assert(ps.subrange(0, i + 1).drop_last() =~= ps.subrange(0, i));
        lemma_add_blocks_err_persists(cs, id, ps, nbt, i + 1);
    } else {
        assert(ps.subrange(0, i) =~= ps);
    }
}

/// Why a supplied chunk is refused, if it is: a block outside the chunk, a block naming a
/// missing palette entry, an air-marked id, or a palette with repeated ids or over 65536.
pub open spec fn chunk_check(c: ChunkView) -> Option<ErrorKind> {
    if !(forall|i: int| 0 <= i < c.blocks.len() ==> local_pos_valid((#[trigger] c.blocks[i]).pos)) {
        Some(ErrorKind::CoordinateOutOfRange)
    } else if !(forall|i: int|
        0 <= i < c.blocks.len() ==> (#[trigger] c.blocks[i]).palette_index < c.palette.len()) {
        Some(ErrorKind::Palette)
    } else if !palette_air_free(c.palette) {
        Some(ErrorKind::AirInPalette)
    } else if c.palette.len() > 65536 || !c.palette.no_duplicates() {
        Some(ErrorKind::Palette)
    } else {
        None
    }
}

/// The chunks after storing `c`, replacing any chunk at the same coordinate.
pub open spec fn chunks_with_chunk(cs: Seq<ChunkView>, c: ChunkView) -> Seq<ChunkView> {
    if has_chunk(cs, c.pos) {
        cs.update(chunk_index(cs, c.pos), c)
    } else {
        cs.push(c)
    }
}

/// The signature bytes appended after the chunk data.
pub open spec fn signature_bytes(sig: Option<Seq<u8>>) -> Seq<u8> {
    match sig {
        Some(b) => b,
        None => seq![],
    }
}

/// The signature a reader finds: only a non-empty one is seen.
pub open spec fn readable_signature(sig: Option<Seq<u8>>) -> Option<Seq<u8>> {
    match sig {
        Some(b) => if b.len() > 0 {
            Some(b)
        } else {
            None
        },
        None => None,
    }
}

/// The bytes chunk `c` is stored as in a file compressed with `alg`.
pub open spec fn stored(alg: CompressionType, c: ChunkView) -> Seq<u8> {
    compressed(alg, chunk_bytes(c))
}

/// The stored bytes of every chunk, in order.
pub open spec fn stored_all(alg: CompressionType, cs: Seq<ChunkView>) -> Seq<Seq<u8>> {
    cs.map_values(|c: ChunkView| stored(alg, c))
}

/// Byte strings one after another.
pub open spec fn concat_bytes(ds: Seq<Seq<u8>>) -> Seq<u8>
    decreases ds.len(),
{
    if ds.len() == 0 {
        seq![]
    } else {
        concat_bytes(ds.drop_last()) + ds.last()
    }
}

/// The index entry a file written with `alg` holds for chunk `k`: its data start right after
/// the index table and the data of the chunks before it.
pub open spec fn image_entry(alg: CompressionType, cs: Seq<ChunkView>, k: int) -> ChunkIndexEntry {
    ChunkIndexEntry {
        chunk_x: cs[k].pos.x,
        chunk_z: cs[k].pos.z,
        data_offset: (24 + 16 * cs.len() + concat_bytes(stored_all(alg, cs).subrange(0, k)).len()) as u32,
        compressed_size: stored(alg, cs[k]).len() as u32,
    }
}

/// The index entries of a file written with `alg`.
pub open spec fn image_entries(alg: CompressionType, cs: Seq<ChunkView>) -> Seq<ChunkIndexEntry> {
    Seq::new(cs.len(), |k: int| image_entry(alg, cs, k))
}

/// The exact file the encoder state `v` is written as: the header with the index at byte 20,
/// the index table, every chunk's stored bytes back to back, then the signature verbatim.
pub open spec fn file_image(v: EncoderView) -> Seq<u8> {
    header_bytes(v.compression.spec_id(), flags_for(v.signature is Some), 20) + index_bytes(
        image_entries(v.compression, v.chunks),
    ) + concat_bytes(stored_all(v.compression, v.chunks)) + signature_bytes(v.signature)
}

/// The size of the file the encoder state `v` is written as.
pub open spec fn file_image_size(v: EncoderView) -> int {
    (24 + 16 * v.chunks.len() + concat_bytes(stored_all(v.compression, v.chunks)).len()
        + signature_bytes(v.signature).len()) as int
}

proof fn lemma_concat_prefix(ds: Seq<Seq<u8>>, i: int)
    requires
        0 <= i <= ds.len(),
    ensures
        concat_bytes(ds.subrange(0, i)).len() <= concat_bytes(ds).len(),
    decreases ds.len() - i,
{
    if i < ds.len() {
        lemma_concat_prefix(ds, i + 1);
        assert(ds.subrange(0, i + 1).drop_last() =~= ds.subrange(0, i));
    } else {
        assert(ds.subrange(0, i) =~= ds);
    }
}

/// Entry `k` describes chunk `k`: its coordinate, the size of its compressed bytes `ds[k]`,
/// which decompress to the chunk's payload, and a range after the index and before `end`.
pub open spec fn laid_out(
    alg: CompressionType,
    cs: Seq<ChunkView>,
    es: Seq<ChunkIndexEntry>,
    ds: Seq<Seq<u8>>,
    k: int,
    base: int,
    end: int,
) -> bool {
    &&& entry_end(es[k]) <= end
    &&& es[k].data_offset >= base
    &&& entry_pos(es[k]) == cs[k].pos
    &&& es[k].compressed_size == ds[k].len()
    &&& es[k].data_offset == base + concat_bytes(ds.subrange(0, k)).len()
    &&& ds[k] == stored(alg, cs[k])
    &&& ds[k].len() > 0
    &&& decompressed(alg, ds[k]) == Some(chunk_bytes(cs[k]))
    &&& chunk_writable(cs[k])
}

/// The index entries and compressed bytes of all chunks, laid out one after another right
/// after the index table up to `end`.
pub open spec fn laid_out_all(
    alg: CompressionType,
    cs: Seq<ChunkView>,
    es: Seq<ChunkIndexEntry>,
    ds: Seq<Seq<u8>>,
    end: int,
) -> bool {
    let n = cs.len();
    let base: int = 24 + 16 * n as int;
    &&& n > 0
    &&& es.len() == n
    &&& ds.len() == n
    &&& base <= end <= u32::MAX
    &&& end == base + concat_bytes(ds).len()
    &&& end == entry_end(es[n - 1])
    &&& es[0].data_offset == base
    &&& footer_offset(es) == end
    &&& forall|k: int| 0 <= k < n ==> #[trigger] laid_out(alg, cs, es, ds, k, base, end)
    &&& forall|k: int| 0 < k < n ==> #[trigger] follows(es, k)
    &&& ranges_ordered(es)
}

/// True when entry `k`'s bytes start right where entry `k - 1`'s end.
pub open spec fn follows(es: Seq<ChunkIndexEntry>, k: int) -> bool {
    es[k].data_offset == entry_end(es[k - 1])
}

/// True when every entry's byte range ends before any later entry's begins: no two ranges
/// overlap.
pub open spec fn ranges_ordered(es: Seq<ChunkIndexEntry>) -> bool {
    forall|k: int, j: int|
        0 <= k < j < es.len() ==> entry_end(#[trigger] es[k]) <= (#[trigger] es[j]).data_offset
}

/// True when every chunk can be written.
pub open spec fn all_writable(cs: Seq<ChunkView>) -> bool {
    forall|k: int| 0 <= k < cs.len() ==> chunk_writable(#[trigger] cs[k])
}

/// The header an encoder writes.
pub open spec fn written_header(v: EncoderView) -> McsHeader {
    McsHeader {
        version: MCS_VERSION,
        compression: v.compression.spec_id(),
        flags: flags_for(v.signature is Some),
        index_table_offset: 20,
    }
}

/// What a file written from the encoder state `v` holds: decoding it gives back the
/// header, every chunk in order and the signature; its index ranges lie inside the file
/// and do not overlap; the digest covers everything before the signature.
pub open spec fn written_file(f: Seq<u8>, v: EncoderView) -> bool {
    &&& decode_file(f) == Ok::<DecodedFile, ErrorKind>(
        DecodedFile {
            header: written_header(v),
            chunks: v.chunks,
            data_hash: sha256_of(f.subrange(0, f.len() - signature_bytes(v.signature).len())),
            signature: readable_signature(v.signature),
        },
    )
    &&& parse_layout(f) matches Ok((h, es)) && entries_in_bounds(es, f.len() as int)
        && ranges_ordered(es)
}

proof fn lemma_id_round_trip(c: CompressionType)
    ensures
        compression_of_id(c.spec_id()) == c,
        c.spec_id() <= 3,
{
}

proof fn lemma_decode_chunks_all(
    s: Seq<u8>,
    id: u8,
    es: Seq<ChunkIndexEntry>,
    cs: Seq<ChunkView>,
    n: nat,
)
    requires
        n <= es.len(),
        n <= cs.len(),
        forall|k: int|
            0 <= k < n ==> decode_chunk(id, entry_bytes_of(s, #[trigger] es[k]), entry_pos(es[k]))
                == Ok::<ChunkView, ErrorKind>(cs[k]),
    ensures
        decode_chunks(s, id, es, n) == Ok::<Seq<ChunkView>, ErrorKind>(cs.subrange(0, n as int)),
    decreases n,
{
    if n == 0 {
        assert(cs.subrange(0, 0) =~= Seq::<ChunkView>::empty());
    } else {
        lemma_decode_chunks_all(s, id, es, cs, (n - 1) as nat);
        assert(cs.subrange(0, n - 1).push(cs[n - 1]) =~= cs.subrange(0, n as int));
        assert(decode_chunk(id, entry_bytes_of(s, es[n - 1]), entry_pos(es[n - 1])) == Ok::<
            ChunkView,
            ErrorKind,
        >(cs[n - 1]));
    }
}

proof fn lemma_written_file(
    f: Seq<u8>,
    v: EncoderView,
    es: Seq<ChunkIndexEntry>,
    ds: Seq<Seq<u8>>,
    data_end: int,
)
    requires
        f.len() <= u32::MAX,
        f.len() >= 20,
        f.subrange(0, 20) == header_bytes(v.compression.spec_id(), flags_for(v.signature is Some), 20),
        20 + index_bytes(es).len() <= f.len(),
        f.subrange(20, 20 + index_bytes(es).len() as int) == index_bytes(es),
        es.len() <= u32::MAX,
        es.len() == v.chunks.len(),
        es.len() == ds.len(),
        es.len() > 0,
        positions_distinct(v.chunks),
        forall|k: int|
            0 <= k < es.len() ==> entry_pos(#[trigger] es[k]) == v.chunks[k].pos && entry_end(es[k])
                <= data_end && entry_bytes_of(f, es[k]) == ds[k] && decompressed(
                v.compression,
                ds[k],
            ) == Some(chunk_bytes(v.chunks[k])) && chunk_writable(v.chunks[k]) && chunk_ok(
                v.chunks[k],
            ),
        footer_offset(es) == data_end,
        f.len() == data_end + signature_bytes(v.signature).len(),
        f.subrange(data_end, f.len() as int) == signature_bytes(v.signature),
        ranges_ordered(es),
    ensures
        written_file(f, v),
        parse_layout(f) == Ok::<(McsHeader, Seq<ChunkIndexEntry>), ErrorKind>(
            (written_header(v), es),
        ),
{
    let cs = v.chunks;
    let id = v.compression.spec_id();
    lemma_id_round_trip(v.compression);
    lemma_header_round_trip(f, id, flags_for(v.signature is Some), 20);
    lemma_index_round_trip(f, 20, es);
    assert(entries_in_bounds(es, f.len() as int));
    assert(coords_distinct(es)) by {
        assert forall|a: int, b: int|
            0 <= a < es.len() && 0 <= b < es.len() && a != b implies entry_pos(#[trigger] es[a])
            != entry_pos(#[trigger] es[b]) by {
            assert(entry_pos(es[a]) == cs[a].pos);
            assert(entry_pos(es[b]) == cs[b].pos);
        }
    }
    assert forall|k: int| 0 <= k < es.len() implies decode_chunk(
        id,
        entry_bytes_of(f, #[trigger] es[k]),
        entry_pos(es[k]),
    ) == Ok::<ChunkView, ErrorKind>(cs[k]) by {
        lemma_chunk_round_trip(cs[k]);
    }
    lemma_decode_chunks_all(f, id, es, cs, es.len());
    assert(cs.subrange(0, es.len() as int) =~= cs);
}

/// Appends each chunk's compressed bytes in order; chunk `k` lands at its entry's offset.
fn append_chunk_data(
    out: &mut Vec<u8>,
    datas: &Vec<Vec<u8>>,
    entries: &Vec<ChunkIndexEntry>,
    base: u64,
)
    requires
        old(out)@.len() == base,
        entries@.len() == datas@.len(),
        entries@.len() > 0,
        entries@[0].data_offset == base,
        forall|k: int| 0 < k < entries@.len() ==> #[trigger] follows(entries@, k),
        forall|k: int|
            0 <= k < entries@.len() ==> (#[trigger] entries@[k]).compressed_size == datas@[k]@.len(),
    ensures
        final(out)@.subrange(0, base as int) == old(out)@,
        final(out)@.len() == entry_end(entries@[entries@.len() - 1]),
        forall|k: int|
            0 <= k < entries@.len() ==> final(out)@.subrange(
                (#[trigger] entries@[k]).data_offset as int,
                entry_end(entries@[k]),
            ) == datas@[k]@,
        final(out)@ == old(out)@ + concat_bytes(datas@.map_values(|d: Vec<u8>| d@)),
{
    let ghost es = entries@;
    let ghost prefix = out@;
    let ghost dsv = datas@.map_values(|d: Vec<u8>| d@);
    let n = datas.len();
    assert(dsv.subrange(0, 0) =~= Seq::<Seq<u8>>::empty());
    assert(out@ =~= prefix + concat_bytes(dsv.subrange(0, 0)));
        let mut j: usize = 0;
        while j < n
            invariant
                n == es.len(),
                n == datas@.len(),
                es == entries@,
                prefix.len() == base,
                0 < n,
                base == prefix.len(),
                j <= n,
                dsv == datas@.map_values(|d: Vec<u8>| d@),
                out@ == prefix + concat_bytes(dsv.subrange(0, j as int)),
                out@.subrange(0, base as int) == prefix,
                j == 0 ==> out@.len() == base,
                j > 0 ==> out@.len() == entry_end(es[j - 1]),
                es[0].data_offset == base,
                forall|k: int| 0 < k < n ==> #[trigger] follows(es, k),
                forall|k: int| 0 <= k < n ==> (#[trigger] es[k]).compressed_size == datas@[k]@.len(),
                forall|k: int|
                    0 <= k < j ==> out@.subrange(
                        (#[trigger] es[k]).data_offset as int,
                        entry_end(es[k]),
                    ) == datas@[k]@,
                forall|k: int| 0 <= k < j ==> entry_end(#[trigger] es[k]) <= out@.len(),
            decreases n - j,
        {
            let ghost before = out@;
            if j > 0 {
                assert(follows(es, j as int));
            }
            assert(es[j as int].data_offset == before.len());
            push_all(out, datas[j].as_slice());
            proof {
                assert(dsv.subrange(0, j + 1).drop_last() =~= dsv.subrange(0, j as int));
                assert(dsv.subrange(0, j + 1).last() == datas@[j as int]@);
                assert(out@ =~= prefix + concat_bytes(dsv.subrange(0, j + 1)));
                assert forall|k: int| 0 <= k < j + 1 implies out@.subrange(
                    (#[trigger] es[k]).data_offset as int,
                    entry_end(es[k]),
                ) == datas@[k]@ by {
                    if k < j {
                        assert(out@.subrange(es[k].data_offset as int, entry_end(es[k])) =~= before.subrange(
                            es[k].data_offset as int,
                            entry_end(es[k]),
                        ));
                    } else {
                        assert(out@.subrange(es[k].data_offset as int, entry_end(es[k])) =~= datas@[k]@);
                    }
                }
                assert(out@.subrange(0, base as int) =~= before.subrange(0, base as int));
            }
            j = j + 1;
        }
    assert(out@.subrange(0, base as int) =~= prefix) by {
        assert(out@.subrange(0, base as int) == prefix);
    }
    assert(dsv.subrange(0, n as int) =~= dsv);
}

proof fn lemma_prefix_len(
    w0: Seq<u8>,
    w1: Seq<u8>,
    w2: Seq<u8>,
    es: Seq<ChunkIndexEntry>,
    v: EncoderView,
    base: int,
)
    requires
        w0 == header_bytes(v.compression.spec_id(), flags_for(v.signature is Some), 0),
        w1 == w0.subrange(0, 12) + crate::bytes::le32(20) + w0.subrange(16, w0.len() as int),
        w2 == w1 + index_bytes(es),
        es.len() <= u32::MAX,
        base == 24 + 16 * es.len(),
    ensures
        w2.len() == base,
        w2.subrange(0, 20) == header_bytes(v.compression.spec_id(), flags_for(v.signature is Some), 20),
        w2.subrange(20, base) == index_bytes(es),
{
    assert(w1 =~= header_bytes(v.compression.spec_id(), flags_for(v.signature is Some), 20));
    assert(w2.subrange(20, 20 + index_bytes(es).len() as int) =~= index_bytes(es));
    lemma_index_round_trip(w2, 20, es);
    assert(w2.subrange(0, 20) =~= w1);
}

proof fn lemma_assemble(
    w0: Seq<u8>,
    w1: Seq<u8>,
    w2: Seq<u8>,
    mid: Seq<u8>,
    f: Seq<u8>,
    v: EncoderView,
    es: Seq<ChunkIndexEntry>,
    ds: Seq<Seq<u8>>,
    base: int,
)
    requires
        w2.len() == base,
        w2.subrange(0, 20) == header_bytes(v.compression.spec_id(), flags_for(v.signature is Some), 20),
        w2.subrange(20, base) == index_bytes(es),
        base == 24 + 16 * es.len(),
        mid.subrange(0, base) == w2,
        es.len() > 0,
        mid.len() == entry_end(es[es.len() - 1]),
        f == mid + signature_bytes(v.signature),
        f.len() <= u32::MAX,
        es.len() <= u32::MAX,
        es.len() == v.chunks.len(),
        es.len() == ds.len(),
        positions_distinct(v.chunks),
        footer_offset(es) == mid.len(),
        ranges_ordered(es),
        forall|k: int|
            0 <= k < es.len() ==> mid.subrange(
                (#[trigger] es[k]).data_offset as int,
                entry_end(es[k]),
            ) == ds[k],
        forall|k: int|
            0 <= k < es.len() ==> entry_end(#[trigger] es[k]) <= mid.len() && entry_pos(es[k])
                == v.chunks[k].pos && es[k].data_offset >= base && decompressed(
                v.compression,
                ds[k],
            ) == Some(chunk_bytes(v.chunks[k])) && chunk_writable(v.chunks[k]) && chunk_ok(
                v.chunks[k],
            ),
    ensures
        written_file(f, v),
        parse_layout(f) == Ok::<(McsHeader, Seq<ChunkIndexEntry>), ErrorKind>(
            (written_header(v), es),
        ),
{
    let sigb = signature_bytes(v.signature);
    assert(f.subrange(0, 20) =~= w2.subrange(0, 20));
    assert(f.subrange(20, 20 + index_bytes(es).len() as int) =~= w2.subrange(20, base));
    assert forall|k: int| 0 <= k < es.len() implies entry_bytes_of(f, #[trigger] es[k]) == ds[k] by {
        assert(f.subrange(es[k].data_offset as int, entry_end(es[k])) =~= mid.subrange(
            es[k].data_offset as int,
            entry_end(es[k]),
        ));
    }
    assert(f.subrange(mid.len() as int, f.len() as int) =~= sigb);
    lemma_written_file(f, v, es, ds, mid.len() as int);
}

/// The key of a chunk coordinate in the encoder's index: both coordinates' bit patterns.
pub open spec fn chunk_key(p: ChunkPos) -> int {
    i32_bits(p.x) * 4294967296 + i32_bits(p.z)
}

pub(crate) proof fn lemma_chunk_key_injective(a: ChunkPos, b: ChunkPos)
    requires
        chunk_key(a) == chunk_key(b),
    ensures
        a == b,
{
    let ax = i32_bits(a.x);
    let az = i32_bits(a.z);
    let bx = i32_bits(b.x);
    let bz = i32_bits(b.z);
    crate::bytes::lemma_i32_bits_round_trip(a.x);
    crate::bytes::lemma_i32_bits_round_trip(a.z);
    crate::bytes::lemma_i32_bits_round_trip(b.x);
    crate::bytes::lemma_i32_bits_round_trip(b.z);
    assert(ax == bx) by (nonlinear_arith)
        requires
            ax * 4294967296 + az == bx * 4294967296 + bz,
            0 <= az < 4294967296,
            0 <= bz < 4294967296,
    ;
}

/// The index key of a chunk coordinate.
pub(crate) fn key_of(p: ChunkPos) -> (r: u64)
    ensures
        r == chunk_key(p),
{
    let bx: u64 = if p.x >= 0 {
        p.x as u64
    } else {
        (p.x as i64 + 4294967296i64) as u64
    };
    let bz: u64 = if p.z >= 0 {
        p.z as u64
    } else {
        (p.z as i64 + 4294967296i64) as u64
    };
    assert(bx * 4294967296 + bz <= u64::MAX) by (nonlinear_arith)
        requires
            bx < 4294967296,
            bz < 4294967296,
    ;
    bx * 4294967296 + bz
}

/// What the encoder holds, as plain values.
pub struct EncoderView {
    pub compression: CompressionType,
    pub signature: Option<Seq<u8>>,
    pub chunks: Seq<ChunkView>,
}

/// Accumulates blocks into chunks and writes them out as one file.
pub struct McsEncoder {
    compression: CompressionType,
    chunks: Vec<ChunkData>,
    lookup: HashMapWithView<u64, usize>,
    signature: Option<Vec<u8>>,
}

impl View for McsEncoder {
    type V = EncoderView;

    closed spec fn view(&self) -> EncoderView {
        EncoderView {
            compression: self.compression,
            signature: nbt_view(self.signature),
            chunks: chunks_view(self.chunks@),
        }
    }
}

/// A copy of optional metadata bytes.
fn copy_nbt(n: &Option<Vec<u8>>) -> (r: Option<Vec<u8>>)
    ensures
        nbt_view(r) == nbt_view(*n),
{
    match n {
        Some(v) => Some(copy_range(v.as_slice(), 0, v.len())),
        None => None,
    }
}

/// The position of `id` in the palette, if present.
fn find_in_palette(palette: &Vec<String>, id: &String) -> (r: Option<usize>)
    ensures
        r matches Some(k) ==> k < palette@.len() && palette@[k as int]@ == id@,
        r is None ==> !palette_view(palette@).contains(id@),
{
    let mut k: usize = 0;
    while k < palette.len()
        invariant
            k <= palette@.len(),
            forall|j: int| 0 <= j < k ==> (#[trigger] palette@[j])@ != id@,
        decreases palette@.len() - k,
    {
        if palette[k] == *id {
            return Some(k);
        }
        k = k + 1;
    }
    assert forall|j: int| 0 <= j < palette_view(palette@).len() implies #[trigger] palette_view(
        palette@,
    )[j] != id@ by {
        assert(palette_view(palette@)[j] == palette@[j]@);
    }
    None
}

/// Checks a supplied chunk: blocks inside the chunk and naming palette entries, and a
/// palette without air-marked or repeated ids and with at most 65536 ids.
fn check_chunk(chunk: &ChunkData) -> (r: Result<(), McStreamError>)
    ensures
        match chunk_check(chunk@) {
            Some(k) => r matches Err(e) && e.kind() == k,
            None => r is Ok && chunk_ok(chunk@),
        },
{
        let ghost cv = chunk@;
        let mut i: usize = 0;
        while i < chunk.blocks.len()
            invariant
                cv == chunk@,
                i <= chunk.blocks@.len(),
                forall|k: int| 0 <= k < i ==> local_pos_valid((#[trigger] cv.blocks[k]).pos),
            decreases chunk.blocks@.len() - i,
        {
            assert(cv.blocks[i as int] == chunk.blocks@[i as int]@);
            match validate_local_pos(&chunk.blocks[i].pos) {
                Ok(()) => {},
                Err(e) => {
                    return Err(e);
                },
            }
            i = i + 1;
        }
        let mut j: usize = 0;
        while j < chunk.blocks.len()
            invariant
                cv == chunk@,
                j <= chunk.blocks@.len(),
                forall|k: int| 0 <= k < cv.blocks.len() ==> local_pos_valid((#[trigger] cv.blocks[k]).pos),
                forall|k: int|
                    0 <= k < j ==> (#[trigger] cv.blocks[k]).palette_index < cv.palette.len(),
            decreases chunk.blocks@.len() - j,
        {
            assert(cv.blocks[j as int] == chunk.blocks@[j as int]@);
            if chunk.blocks[j].palette_index as usize >= chunk.palette.len() {
                return Err(McStreamError::PaletteError("block names a missing palette entry".to_string()));
            }
            j = j + 1;
        }
        match validate_palette(chunk.palette.as_slice()) {
            Ok(()) => {},
            Err(e) => {
                return Err(e);
            },
        }
        if chunk.palette.len() > 65536 {
            return Err(McStreamError::PaletteError("palette has more than 65536 ids".to_string()));
        }
        let mut a: usize = 0;
        while a < chunk.palette.len()
            invariant
                cv == chunk@,
                forall|k: int| 0 <= k < cv.blocks.len() ==> local_pos_valid((#[trigger] cv.blocks[k]).pos),
                forall|k: int|
                    0 <= k < cv.blocks.len() ==> (#[trigger] cv.blocks[k]).palette_index < cv.palette.len(),
                palette_air_free(cv.palette),
                cv.palette.len() <= 65536,
                a <= chunk.palette@.len(),
                forall|p: int, q: int|
                    0 <= p < a && 0 <= q < cv.palette.len() && p != q ==> cv.palette[p]
                        != cv.palette[q],
            decreases chunk.palette@.len() - a,
        {
            let mut b: usize = 0;
            while b < chunk.palette.len()
                invariant
                    cv == chunk@,
                    forall|k: int| 0 <= k < cv.blocks.len() ==> local_pos_valid((#[trigger] cv.blocks[k]).pos),
                    forall|k: int|
                        0 <= k < cv.blocks.len() ==> (#[trigger] cv.blocks[k]).palette_index < cv.palette.len(),
                    palette_air_free(cv.palette),
                    cv.palette.len() <= 65536,
                    a < chunk.palette@.len(),
                    b <= chunk.palette@.len(),
                    forall|p: int, q: int|
                        0 <= p < a && 0 <= q < cv.palette.len() && p != q ==> cv.palette[p]
                            != cv.palette[q],
                    forall|q: int| 0 <= q < b && q != a ==> cv.palette[a as int] != cv.palette[q],
                decreases chunk.palette@.len() - b,
            {
                assert(cv.palette[a as int] == chunk.palette@[a as int]@);
                assert(cv.palette[b as int] == chunk.palette@[b as int]@);
                if a != b && chunk.palette[a] == chunk.palette[b] {
                    assert(!cv.palette.no_duplicates()) by {
                        assert(cv.palette[a as int] == cv.palette[b as int]);
                    }
                    return Err(McStreamError::PaletteError("palette repeats an id".to_string()));
                }
                b = b + 1;
            }
            a = a + 1;
        }
    Ok(())
}

impl McsEncoder {
    /// True when the chunks are acceptable and the coordinate index lists exactly them.
    #[verifier::opaque]
    pub closed spec fn wf(&self) -> bool {
        &&& chunks_ok(chunks_view(self.chunks@))
        &&& forall|i: int|
            0 <= i < self.chunks@.len() ==> #[trigger] self.lookup@.contains_key(
                chunk_key(self.chunks@[i].pos) as u64,
            ) && self.lookup@[chunk_key(self.chunks@[i].pos) as u64] == i
        &&& forall|k: u64| #[trigger]
            self.lookup@.contains_key(k) ==> self.lookup@[k] < self.chunks@.len() && chunk_key(
                self.chunks@[self.lookup@[k] as int].pos,
            ) == k
    }

    /// The chunks of a well-formed encoder are acceptable and at distinct coordinates.
    pub proof fn lemma_wf_chunks(&self)
        requires
            self.wf(),
        ensures
            chunks_ok(self@.chunks),
    {
        reveal(McsEncoder::wf);
    }

    /// An empty encoder for the given algorithm, without signature.
    pub fn new(compression: CompressionType) -> (r: Self)
        ensures
            r.wf(),
            r@ == (EncoderView { compression, signature: None, chunks: seq![] }),
    {
        proof {
            reveal(McsEncoder::wf);
        }
        proof {
            broadcast use vstd::std_specs::hash::axiom_u64_obeys_hash_table_key_model;
        }
        let r = McsEncoder {
            compression,
            chunks: Vec::new(),
            lookup: HashMapWithView::new(),
            signature: None,
        };
        assert(chunks_view(r.chunks@) =~= Seq::<ChunkView>::empty());
        r
    }

    /// The same encoder, appending `signature` verbatim after the chunk data when written.
    pub fn with_signature(self, signature: Vec<u8>) -> (r: Self)
        requires
            self.wf(),
        ensures
            r.wf(),
            r@ == (EncoderView {
                compression: self@.compression,
                signature: Some(signature@),
                chunks: self@.chunks,
            }),
    {
        proof {
            reveal(McsEncoder::wf);
        }
        McsEncoder {
            compression: self.compression,
            chunks: self.chunks,
            lookup: self.lookup,
            signature: Some(signature),
        }
    }

    /// The stored chunks, in the order they were first created.
    pub fn get_chunks(&self) -> (r: &Vec<ChunkData>)
        ensures
            chunks_view(r@) == self@.chunks,
    {
        &self.chunks
    }

    /// Drops every stored chunk.
    pub fn clear(&mut self)
        ensures
            final(self).wf(),
            final(self)@ == (EncoderView { chunks: seq![], ..old(self)@ }),
    {
        proof {
            reveal(McsEncoder::wf);
        }
        self.chunks = Vec::new();
        self.lookup.clear();
        assert(chunks_view(self.chunks@) =~= Seq::<ChunkView>::empty());
    }

    /// Adds one block at global position `(x, y, z)`. An air-marked id is dropped; a height
    /// outside `[-64, 319]` is rejected; the id reuses its palette entry in the target chunk
    /// or is appended to it, and the chunk is created on first use. The only other failure is
    /// a new id for a chunk whose 65536 sixteen-bit palette indices are all taken.
    pub fn add_block(
        &mut self,
        block_id: String,
        x: i32,
        y: i32,
        z: i32,
        nbt: Option<Vec<u8>>,
    ) -> (r: Result<(), McStreamError>)
        requires
            old(self).wf(),
        ensures
            final(self).wf(),
            final(self)@.compression == old(self)@.compression,
            final(self)@.signature == old(self)@.signature,
            match add_block_spec(old(self)@.chunks, block_id@, x, y, z, nbt_view(nbt)) {
                Ok(cs) => r is Ok && final(self)@.chunks == cs,
                Err(k) => r matches Err(e) && e.kind() == k && final(self)@.chunks == old(
                    self,
                )@.chunks,
            },
    {
        proof {
            reveal(McsEncoder::wf);
        }
        if is_air(block_id.as_str()) {
            return Ok(());
        }
        if y < -64 || y > 319 {
            return Err(McStreamError::CoordinateOutOfRange);
        }
        let bp = BlockPos::new(x, y, z);
        let cp = bp.chunk_pos();
        let lp = bp.local_pos();
        match validate_local_pos(&lp) {
            Ok(()) => {},
            Err(e) => {
                return Err(e);
            },
        }
        let ghost cs = chunks_view(self.chunks@);
        let ghost id = block_id@;
        let ghost nv = nbt_view(nbt);
        assert(cp == chunk_of(x as int, z as int));
        assert(lp == local_of(x as int, y as int, z as int));
        let key = key_of(cp);
        let existing = match self.lookup.get(&key) {
            Some(i) => Some(*i),
            None => None,
        };
        match existing {
            Some(idx) => {
                proof {
                    lemma_chunk_key_injective(self.chunks@[idx as int].pos, cp);
                    assert(cs[idx as int] == self.chunks@[idx as int]@);
                    assert(has_chunk(cs, cp));
                    let ci = chunk_index(cs, cp);
                    assert(ci == idx);
                }
                let pi = find_in_palette(&self.chunks[idx].palette, &block_id);
                proof {
                    assert(cs[idx as int].palette == palette_view(self.chunks@[idx as int].palette@));
                    if pi is Some {
                        let k = pi->0 as int;
                        assert(cs[idx as int].palette[k] == id);
                        assert(cs[idx as int].palette.contains(id));
                        assert(cs[idx as int].palette.index_of(id) == k) by {
                            let j = cs[idx as int].palette.index_of(id);
                            assert(cs[idx as int].palette.no_duplicates());
                            assert(cs[idx as int].palette[j] == id);
                        }
                    }
                }
                let palette_index: u16 = match pi {
                    Some(k) => k as u16,
                    None => {
                        if self.chunks[idx].palette.len() >= 65536 {
                            return Err(
                                McStreamError::PaletteError("all 65536 palette indices of the chunk are taken".to_string()),
                            );
                        }
                        self.chunks[idx].palette.len() as u16
                    },
                };
                let mut c = ChunkData { pos: cp, palette: Vec::new(), blocks: Vec::new() };
                self.chunks.set_and_swap(idx, &mut c);
                let ghost before = c@;
                let ghost new_block = BlockView { palette_index, pos: lp, nbt: nv };
                if pi.is_none() {
                    c.palette.push(block_id);
                    assert(palette_view(c.palette@) =~= before.palette.push(id));
                } else {
                    assert(palette_view(c.palette@) == before.palette);
                }
                c.blocks.push(Block { palette_index, pos: lp, nbt });
                assert(blocks_view(c.blocks@) =~= before.blocks.push(new_block));
                assert(c@ == with_block(before, id, lp, nv));
                self.chunks.set_and_swap(idx, &mut c);
                proof {
                    lemma_with_block_ok(before, id, lp, nv);
                    assert(chunks_view(self.chunks@) =~= cs.update(idx as int, with_block(before, id, lp, nv)));
                    let ncs = chunks_view(self.chunks@);
                    assert forall|i: int| 0 <= i < ncs.len() implies chunk_ok(#[trigger] ncs[i]) by {
                        if i != idx {
                            assert(ncs[i] == cs[i]);
                        }
                    }
                    assert forall|i: int, j: int|
                        0 <= i < ncs.len() && 0 <= j < ncs.len() && i != j implies (
                        #[trigger] ncs[i]).pos != (#[trigger] ncs[j]).pos by {
                        assert(ncs[i].pos == cs[i].pos);
                        assert(ncs[j].pos == cs[j].pos);
                    }
                    assert forall|i: int| 0 <= i < self.chunks@.len() implies self.chunks@[i].pos
                        == old(self).chunks@[i].pos by {
                        if i != idx {
                        }
                    }
                }
            },
            None => {
                proof {
                    assert(!has_chunk(cs, cp)) by {
                        if has_chunk(cs, cp) {
                            let i = chunk_index(cs, cp);
                            assert(cs[i] == self.chunks@[i]@);
                            assert(self.lookup@.contains_key(chunk_key(self.chunks@[i].pos) as u64));
                        }
                    }
                }
                let mut palette: Vec<String> = Vec::new();
                palette.push(block_id);
                let mut blocks: Vec<Block> = Vec::new();
                blocks.push(Block { palette_index: 0, pos: lp, nbt });
                let idx = self.chunks.len();
                let ghost empty = ChunkView { pos: cp, palette: seq![], blocks: seq![] };
                let nc = ChunkData { pos: cp, palette, blocks };
                assert(palette_view(nc.palette@) =~= seq![id]);
                assert(blocks_view(nc.blocks@) =~= seq![BlockView { palette_index: 0, pos: lp, nbt: nv }]);
                assert(nc@ == with_block(empty, id, lp, nv));
                self.chunks.push(nc);
                self.lookup.insert(key, idx);
                proof {
                    assert(chunk_ok(empty));
                    lemma_with_block_ok(empty, id, lp, nv);
                    assert(chunks_view(self.chunks@) =~= cs.push(with_block(empty, id, lp, nv)));
                    let ncs = chunks_view(self.chunks@);
                    assert forall|i: int| 0 <= i < ncs.len() implies chunk_ok(#[trigger] ncs[i]) by {
                        if i < cs.len() {
                            assert(ncs[i] == cs[i]);
                        }
                    }
                    assert forall|i: int, j: int|
                        0 <= i < ncs.len() && 0 <= j < ncs.len() && i != j implies (
                        #[trigger] ncs[i]).pos != (#[trigger] ncs[j]).pos by {
                        if i < cs.len() && j < cs.len() {
                            assert(ncs[i] == cs[i]);
                            assert(ncs[j] == cs[j]);
                        } else if i < cs.len() {
                            assert(ncs[i] == cs[i]);
                            assert(cs[i].pos != cp);
                        } else {
                            assert(ncs[j] == cs[j]);
                            assert(cs[j].pos != cp);
                        }
                    }
                    assert forall|i: int| 0 <= i < self.chunks@.len() implies #[trigger] self.lookup@.contains_key(
                        chunk_key(self.chunks@[i].pos) as u64,
                    ) && self.lookup@[chunk_key(self.chunks@[i].pos) as u64] == i by {
                        if i < idx {
                            assert(self.chunks@[i] == old(self).chunks@[i]);
                            assert(cs[i] == old(self).chunks@[i]@);
                            assert(old(self).lookup@.contains_key(chunk_key(old(self).chunks@[i].pos) as u64));
                            if chunk_key(self.chunks@[i].pos) == chunk_key(cp) {
                                lemma_chunk_key_injective(self.chunks@[i].pos, cp);
                            }
                        } else {
                            assert(self.chunks@[i].pos == cp);
                        }
                    }
                    assert forall|k: u64| #[trigger] self.lookup@.contains_key(k) implies self.lookup@[k]
                        < self.chunks@.len() && chunk_key(self.chunks@[self.lookup@[k] as int].pos)
                        == k by {
                        if k != key {
                            assert(old(self).lookup@.contains_key(k));
                        }
                    }
                }
            },
        }
        Ok(())
    }

    /// Adds a block of the same id and metadata at each position, in order; the first
    /// failure stops the run, keeping the blocks added before it.
    pub fn add_blocks(
        &mut self,
        block_id: String,
        positions: &[(i32, i32, i32)],
        nbt: Option<Vec<u8>>,
    ) -> (r: Result<(), McStreamError>)
        requires
            old(self).wf(),
        ensures
            final(self).wf(),
            final(self)@.compression == old(self)@.compression,
            final(self)@.signature == old(self)@.signature,
            match add_blocks_spec(old(self)@.chunks, block_id@, positions@, nbt_view(nbt)) {
                Ok(cs) => r is Ok && final(self)@.chunks == cs,
                Err(k) => r matches Err(e) && e.kind() == k,
            },
    {
        let ghost start = self@.chunks;
        let ghost nv = nbt_view(nbt);
        let mut i: usize = 0;
        assert(positions@.subrange(0, 0) =~= Seq::<(i32, i32, i32)>::empty());
        while i < positions.len()
            invariant
                self.wf(),
                nv == nbt_view(nbt),
                start == old(self)@.chunks,
                i <= positions@.len(),
                self@.compression == old(self)@.compression,
                self@.signature == old(self)@.signature,
                add_blocks_spec(start, block_id@, positions@.subrange(0, i as int), nv) == Ok::<
                    Seq<ChunkView>,
                    ErrorKind,
                >(self@.chunks),
            decreases positions@.len() - i,
        {
            let (x, y, z) = positions[i];
            let ghost pre = positions@.subrange(0, i as int + 1);
            assert(pre.drop_last() =~= positions@.subrange(0, i as int));
            assert(pre.last() == (x, y, z));
            let bid = block_id.clone();
            let bn = copy_nbt(&nbt);
            assert(bid@ == block_id@);
            let ghost prev = self@.chunks;
            assert(add_blocks_spec(start, block_id@, pre, nv) == add_block_spec(
                prev,
                block_id@,
                x,
                y,
                z,
                nv,
            ));
            match self.add_block(bid, x, y, z, bn) {
                Ok(()) => {
                    assert(add_block_spec(prev, block_id@, x, y, z, nv) == Ok::<
                        Seq<ChunkView>,
                        ErrorKind,
                    >(self@.chunks));
                },
                Err(e) => {
                    proof {
                        lemma_add_blocks_err_persists(start, block_id@, positions@, nv, i + 1);
                    }
                    return Err(e);
                },
            }
            i = i + 1;
        }
        assert(positions@.subrange(0, positions@.len() as int) =~= positions@);
        Ok(())
    }

    /// Stores a whole chunk, replacing any chunk at the same coordinate. The chunk is checked
    /// entirely first; if it is refused nothing changes.
    pub fn add_chunk(&mut self, chunk: ChunkData) -> (r: Result<(), McStreamError>)
        requires
            old(self).wf(),
        ensures
            final(self).wf(),
            final(self)@.compression == old(self)@.compression,
            final(self)@.signature == old(self)@.signature,
            match chunk_check(chunk@) {
                Some(k) => r matches Err(e) && e.kind() == k && final(self)@.chunks == old(
                    self,
                )@.chunks,
                None => r is Ok && final(self)@.chunks == chunks_with_chunk(
                    old(self)@.chunks,
                    chunk@,
                ),
            },
    {
        proof {
            reveal(McsEncoder::wf);
        }
        let ghost cv = chunk@;
        match check_chunk(&chunk) {
            Ok(()) => {},
            Err(e) => {
                return Err(e);
            },
        }
        assert(chunk_ok(cv));
        let ghost cs = chunks_view(self.chunks@);
        let pos = chunk.pos;
        let key = key_of(pos);
        let existing = match self.lookup.get(&key) {
            Some(idx) => Some(*idx),
            None => None,
        };
        match existing {
            Some(idx) => {
                proof {
                    lemma_chunk_key_injective(self.chunks@[idx as int].pos, pos);
                    assert(cs[idx as int] == self.chunks@[idx as int]@);
                    assert(has_chunk(cs, pos));
                    assert(chunk_index(cs, pos) == idx);
                }
                let mut c = chunk;
                self.chunks.set_and_swap(idx, &mut c);
                proof {
                    assert(chunks_view(self.chunks@) =~= cs.update(idx as int, cv));
                    let ncs = chunks_view(self.chunks@);
                    assert forall|i: int| 0 <= i < ncs.len() implies chunk_ok(#[trigger] ncs[i]) by {
                        if i != idx {
                            assert(ncs[i] == cs[i]);
                        }
                    }
                    assert forall|i: int, j: int|
                        0 <= i < ncs.len() && 0 <= j < ncs.len() && i != j implies (
                        #[trigger] ncs[i]).pos != (#[trigger] ncs[j]).pos by {
                        assert(ncs[i].pos == cs[i].pos);
                        assert(ncs[j].pos == cs[j].pos);
                    }
                    assert forall|i: int| 0 <= i < self.chunks@.len() implies self.chunks@[i].pos
                        == old(self).chunks@[i].pos by {
                        if i != idx {
                        }
                    }
                }
            },
            None => {
                proof {
                    assert(!has_chunk(cs, pos)) by {
                        if has_chunk(cs, pos) {
                            let i = chunk_index(cs, pos);
                            assert(cs[i] == self.chunks@[i]@);
                            assert(self.lookup@.contains_key(chunk_key(self.chunks@[i].pos) as u64));
                        }
                    }
                }
                let idx = self.chunks.len();
                self.chunks.push(chunk);
                self.lookup.insert(key, idx);
                proof {
                    assert(chunks_view(self.chunks@) =~= cs.push(cv));
                    let ncs = chunks_view(self.chunks@);
                    assert forall|i: int| 0 <= i < ncs.len() implies chunk_ok(#[trigger] ncs[i]) by {
                        if i < cs.len() {
                            assert(ncs[i] == cs[i]);
                        }
                    }
                    assert forall|i: int, j: int|
                        0 <= i < ncs.len() && 0 <= j < ncs.len() && i != j implies (
                        #[trigger] ncs[i]).pos != (#[trigger] ncs[j]).pos by {
                        if i < cs.len() && j < cs.len() {
                            assert(ncs[i] == cs[i]);
                            assert(ncs[j] == cs[j]);
                        } else if i < cs.len() {
                            assert(ncs[i] == cs[i]);
                            assert(cs[i].pos != pos);
                        } else {
                            assert(ncs[j] == cs[j]);
                            assert(cs[j].pos != pos);
                        }
                    }
                    assert forall|i: int| 0 <= i < self.chunks@.len() implies #[trigger] self.lookup@.contains_key(
                        chunk_key(self.chunks@[i].pos) as u64,
                    ) && self.lookup@[chunk_key(self.chunks@[i].pos) as u64] == i by {
                        if i < idx {
                            assert(self.chunks@[i] == old(self).chunks@[i]);
                            assert(cs[i] == old(self).chunks@[i]@);
                            assert(old(self).lookup@.contains_key(chunk_key(old(self).chunks@[i].pos) as u64));
                            if chunk_key(self.chunks@[i].pos) == chunk_key(pos) {
                                lemma_chunk_key_injective(self.chunks@[i].pos, pos);
                            }
                        } else {
                            assert(self.chunks@[i].pos == pos);
                        }
                    }
                    assert forall|k: u64| #[trigger] self.lookup@.contains_key(k) implies self.lookup@[k]
                        < self.chunks@.len() && chunk_key(self.chunks@[self.lookup@[k] as int].pos)
                        == k by {
                        if k != key {
                            assert(old(self).lookup@.contains_key(k));
                        }
                    }
                }
            },
        }
        Ok(())
    }

    /// Compresses every chunk in order and lays out the index entries: the data of chunk
    /// `k` starts where that of chunk `k - 1` ends, the first right after the index table.
    #[verifier::rlimit(50)]
    fn compress_chunks(&self) -> (r: Result<(Vec<ChunkIndexEntry>, Vec<Vec<u8>>, u64), McStreamError>)
        requires
            0 < self.chunks@.len() <= 268435454,
        ensures
            r matches Ok((entries, datas, cursor)) ==> laid_out_all(
                self@.compression,
                self@.chunks,
                entries@,
                datas@.map_values(|d: Vec<u8>| d@),
                cursor as int,
            ),
            all_writable(self@.chunks) && 24 + 16 * self@.chunks.len() + concat_bytes(
                stored_all(self@.compression, self@.chunks),
            ).len() <= u32::MAX ==> r is Ok,
    {
        let ghost fits = all_writable(self@.chunks) && 24 + 16 * self@.chunks.len() + concat_bytes(
            stored_all(self@.compression, self@.chunks),
        ).len() <= u32::MAX;
        let ghost cs = self@.chunks;
        let ghost alg = self.compression;
        let n = self.chunks.len();
        let base: u64 = 24 + 16 * n as u64;
        let mut cursor: u64 = base;
        let mut datas: Vec<Vec<u8>> = Vec::new();
        let mut entries: Vec<ChunkIndexEntry> = Vec::new();
        let ghost mut ds: Seq<Seq<u8>> = seq![];
        let mut i: usize = 0;
        while i < n
            invariant
                cs == self@.chunks,
                cs == chunks_view(self.chunks@),
                alg == self.compression,
                alg == self@.compression,
                n == cs.len(),
                0 < n <= 268435454,
                base == 24 + 16 * n,
                i <= n,
                entries@.len() == i,
                ds.len() == i,
                datas@.map_values(|d: Vec<u8>| d@) == ds,
                base <= cursor <= u32::MAX,
                i == 0 ==> cursor == base,
                i > 0 ==> cursor == entry_end(entries@[i - 1]),
                i > 0 ==> entries@[0].data_offset == base,
                footer_offset(entries@) <= cursor,
                i > 0 ==> footer_offset(entries@) == cursor,
                forall|k: int| 0 <= k < i ==> #[trigger] laid_out(alg, cs, entries@, ds, k, base as int, cursor as int),
                forall|k: int| 0 < k < i ==> #[trigger] follows(entries@, k),
                ranges_ordered(entries@),
                fits == (all_writable(cs) && base + concat_bytes(stored_all(alg, cs)).len()
                    <= u32::MAX),
                cursor == base + concat_bytes(ds).len(),
                ds == stored_all(alg, cs).subrange(0, i as int),
            decreases n - i,
        {
            assert(cs[i as int] == self.chunks@[i as int]@);
            let ghost sa = stored_all(alg, cs);
            proof {
                if fits {
                    assert(chunk_writable(cs[i as int]));
                }
                lemma_concat_prefix(sa, i + 1);
                assert(sa.subrange(0, i + 1).drop_last() =~= sa.subrange(0, i as int));
                assert(sa.subrange(0, i + 1).last() == stored(alg, cs[i as int]));
            }
            let c = match compress_chunk(&self.chunks[i], self.compression) {
                Ok(c) => c,
                Err(e) => {
                    return Err(e);
                },
            };
            let len = c.len();
            if len as u64 > 4294967295u64 - cursor {
                return Err(McStreamError::ValidationError("file would exceed 4 GiB".to_string()));
            }
            let pos = self.chunks[i].pos;
            let e = ChunkIndexEntry {
                chunk_x: pos.x,
                chunk_z: pos.z,
                data_offset: cursor as u32,
                compressed_size: len as u32,
            };
            let ghost old_entries = entries@;
            let ghost old_ds = ds;
            let ghost old_cursor = cursor as int;
            entries.push(e);
            proof {
                ds = ds.push(c@);
            }
            datas.push(c);
            cursor = cursor + len as u64;
            proof {
                assert(ds =~= sa.subrange(0, i + 1));
                assert(ds.drop_last() =~= old_ds);
                assert(datas@.map_values(|d: Vec<u8>| d@) =~= ds);
                assert(entries@.drop_last() =~= old_entries);
                assert forall|k: int| 0 <= k < i + 1 implies #[trigger] laid_out(
                    alg,
                    cs,
                    entries@,
                    ds,
                    k,
                    base as int,
                    cursor as int,
                ) by {
                    if k < i {
                        assert(laid_out(alg, cs, old_entries, old_ds, k, base as int, old_cursor));
                        assert(entries@[k] == old_entries[k]);
                        assert(ds[k] == old_ds[k]);
                        assert(ds.subrange(0, k) =~= old_ds.subrange(0, k));
                    } else {
                        assert(ds.subrange(0, k) =~= old_ds);
                    }
                }
                assert forall|k: int| 0 < k < i + 1 implies #[trigger] follows(entries@, k) by {
                    if k < i {
                        assert(follows(old_entries, k));
                        assert(entries@[k] == old_entries[k]);
                        assert(entries@[k - 1] == old_entries[k - 1]);
                    }
                }
                assert forall|k: int, j: int|
                    0 <= k < j < entries@.len() implies entry_end(#[trigger] entries@[k]) <= (
                    #[trigger] entries@[j]).data_offset by {
                    assert(entries@[k] == old_entries[k]);
                    if j < i {
                        assert(entries@[j] == old_entries[j]);
                    } else {
                        assert(laid_out(alg, cs, old_entries, old_ds, k, base as int, old_cursor));
                    }
                }
            }
            i = i + 1;
        }
        proof {
            assert(stored_all(alg, cs).subrange(0, n as int) =~= stored_all(alg, cs));
        }
        Ok((entries, datas, cursor))
    }

    /// Serializes everything into one file image: the header, the index table, each chunk's
    /// compressed bytes in the order the chunks were created, and the signature verbatim.
    /// Fails exactly when there are no chunks, when a chunk cannot be written, or when the
    /// file would exceed 4 GiB.
    pub fn write_to_bytes(&self) -> (r: Result<Vec<u8>, McStreamError>)
        requires
            self.wf(),
        ensures
            self@.chunks.len() == 0 ==> (r matches Err(e) && e is ValidationError),
            (exists|k: int|
                0 <= k < self@.chunks.len() && !chunk_writable(#[trigger] self@.chunks[k]))
                ==> r is Err,
            r matches Ok(f) ==> f@ == file_image(self@),
            r matches Ok(f) ==> written_file(f@, self@),
            r matches Ok(f) ==> decode_file(f@.subrange(0, 24 + 16 * self@.chunks.len() as int))
                == Err::<DecodedFile, ErrorKind>(ErrorKind::Validation),
            self@.chunks.len() > 0 && all_writable(self@.chunks) && file_image_size(self@)
                <= u32::MAX ==> r is Ok,
    {
        let ghost cs = self@.chunks;
        let ghost alg = self.compression;
        proof {
            self.lemma_wf_chunks();
        }
        let n = self.chunks.len();
        if n == 0 {
            return Err(McStreamError::ValidationError("no chunks to write".to_string()));
        }
        if n > 268435454 {
            return Err(McStreamError::ValidationError("too many chunks for one file".to_string()));
        }
        let (entries, datas, cursor) = match self.compress_chunks() {
            Ok(x) => x,
            Err(e) => {
                return Err(e);
            },
        };
        proof {
            assert forall|k: int| 0 <= k < cs.len() implies chunk_writable(#[trigger] cs[k]) by {
                assert(laid_out(
                    alg,
                    cs,
                    entries@,
                    datas@.map_values(|d: Vec<u8>| d@),
                    k,
                    24 + 16 * cs.len() as int,
                    cursor as int,
                ));
            }
            let ds = datas@.map_values(|d: Vec<u8>| d@);
            let base = 24 + 16 * cs.len() as int;
            assert forall|k: int| 0 <= k < cs.len() implies #[trigger] ds[k] == stored_all(alg, cs)[k] by {
                assert(laid_out(alg, cs, entries@, ds, k, base, cursor as int));
            }
            assert(ds =~= stored_all(alg, cs));
            assert forall|k: int| 0 <= k < cs.len() implies #[trigger] entries@[k] == image_entry(
                alg,
                cs,
                k,
            ) by {
                assert(laid_out(alg, cs, entries@, ds, k, base, cursor as int));
            }
            assert(entries@ =~= image_entries(alg, cs));
        }
        self.assemble_file(&entries, &datas, cursor)
    }

    /// Writes the header, the index table, the compressed chunks and the signature.
    fn assemble_file(&self, entries: &Vec<ChunkIndexEntry>, datas: &Vec<Vec<u8>>, cursor: u64) -> (r: Result<
        Vec<u8>,
        McStreamError,
    >)
        requires
            chunks_ok(self@.chunks),
            laid_out_all(
                self@.compression,
                self@.chunks,
                entries@,
                datas@.map_values(|d: Vec<u8>| d@),
                cursor as int,
            ),
        ensures
            r matches Ok(f) ==> written_file(f@, self@),
            r matches Ok(f) ==> f@ == header_bytes(
                self@.compression.spec_id(),
                flags_for(self@.signature is Some),
                20,
            ) + index_bytes(entries@) + concat_bytes(datas@.map_values(|d: Vec<u8>| d@))
                + signature_bytes(self@.signature),
            r matches Ok(f) ==> decode_file(f@.subrange(0, 24 + 16 * entries@.len() as int)) == Err::<
                DecodedFile,
                ErrorKind,
            >(ErrorKind::Validation),
            cursor + signature_bytes(self@.signature).len() <= u32::MAX ==> r is Ok,
    {
        let ghost cs = self@.chunks;
        let ghost alg = self.compression;
        let n = entries.len();
        let base: u64 = 24 + 16 * n as u64;
        let sig_len: usize = match &self.signature {
            Some(sg) => sg.len(),
            None => 0,
        };
        if sig_len as u64 > 4294967295u64 - cursor {
            return Err(McStreamError::ValidationError("file would exceed 4 GiB".to_string()));
        }
        let ghost es = entries@;
        let mut out: Vec<u8> = Vec::new();
        write_header(&mut out, self.compression, self.signature.is_some());
        let ghost w0 = out@;
        update_index_table_offset(&mut out, 20);
        let ghost w1 = out@;
        match write_chunk_index(&mut out, entries.as_slice()) {
            Ok(()) => {},
            Err(e) => {
                return Err(e);
            },
        }
        let ghost w2 = out@;
        proof {
            lemma_prefix_len(w0, w1, w2, es, self@, base as int);
        }
        let ghost ds = datas@.map_values(|d: Vec<u8>| d@);
        proof {
            assert forall|k: int| 0 <= k < es.len() implies (#[trigger] es[k]).compressed_size
                == datas@[k]@.len() by {
                assert(laid_out(alg, cs, es, ds, k, base as int, cursor as int));
                assert(ds[k] == datas@[k]@);
            }
        }
        append_chunk_data(&mut out, datas, entries, base);
        let ghost mid = out@;
        match &self.signature {
            Some(sg) => {
                push_all(&mut out, sg.as_slice());
            },
            None => {},
        }
        proof {
            assert forall|k: int| 0 <= k < es.len() implies #[trigger] ds[k] == datas@[k]@ by {}
            assert forall|k: int| 0 <= k < es.len() implies chunk_ok(#[trigger] self@.chunks[k]) by {}
            assert forall|k: int| 0 <= k < es.len() implies entry_end(#[trigger] es[k]) <= mid.len()
                && entry_pos(es[k]) == self@.chunks[k].pos && es[k].data_offset >= base
                && decompressed(self@.compression, ds[k]) == Some(chunk_bytes(self@.chunks[k]))
                && chunk_writable(self@.chunks[k]) && chunk_ok(self@.chunks[k]) by {
                assert(laid_out(alg, cs, es, ds, k, base as int, cursor as int));
            }
            lemma_assemble(w0, w1, w2, mid, out@, self@, es, ds, base as int);
            let hb = header_bytes(alg.spec_id(), flags_for(self@.signature is Some), 20);
            assert(w2 =~= hb + index_bytes(es)) by {
                assert(w2 =~= w2.subrange(0, 20) + w2.subrange(20, base as int));
            }
            assert(out@ =~= hb + index_bytes(es) + concat_bytes(ds) + signature_bytes(
                self@.signature,
            ));
            assert forall|k: int| 0 <= k < es.len() implies (#[trigger] es[k]).data_offset
                >= written_header(self@).index_table_offset + 4 + 16 * es.len()
                && es[k].compressed_size > 0 by {
                assert(laid_out(alg, cs, es, ds, k, base as int, cursor as int));
            }
            crate::unpacker::lemma_truncated_after_index_rejected(out@, written_header(self@), es);
        }
        Ok(out)
    }
}

} // verus!
