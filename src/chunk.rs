use crate::bytes::{
    bits_i32, copy_range, i32_bits, le16, le16_at, le32, le32_at, push_all, push_i32_le, push_le16,
    push_le32, read_i32_le, read_le16, read_le32,
};
use crate::compression::{
    compress_data, compressed, compression_of_id, compression_type_from_u8, decompress_data,
    decompressed,
};
use crate::error::{ErrorKind, McStreamError};
use crate::palette::{
    palette_air_free, palette_bytes, palette_fits, palette_view_of, parse_palette, read_palette,
    write_palette,
};
use crate::types::{
    blocks_view, local_pos_valid, Block, BlockView, ChunkData, ChunkIndexEntry, ChunkPos,
    ChunkView, LocalBlockPos, MAX_LOCAL_XZ, MAX_LOCAL_Y,
};
use crate::CompressionType;
use vstd::prelude::*;

verus! {

/// Rejects a local position outside the chunk: x and z above 15 or a stored height above 383.
pub fn validate_local_pos(pos: &LocalBlockPos) -> (r: Result<(), McStreamError>)
    ensures
        r is Ok <==> local_pos_valid(*pos),
        r matches Err(e) ==> e is CoordinateOutOfRange,
{
    if pos.x > MAX_LOCAL_XZ || pos.z > MAX_LOCAL_XZ || pos.y > MAX_LOCAL_Y {
        return Err(McStreamError::CoordinateOutOfRange);
    }
    Ok(())
}

// ---------------------------------------------------------------------------------------------
// Chunk payload layout
// ---------------------------------------------------------------------------------------------

/// The flags byte of a block record: bit 0 is set when metadata follows.
pub open spec fn flag_of(b: BlockView) -> u8 {
    if b.nbt is Some {
        1
    } else {
        0
    }
}

/// The fixed 7-byte record of a block.
pub open spec fn record_bytes(b: BlockView) -> Seq<u8> {
    le16(b.palette_index as int) + seq![b.pos.x] + le16(b.pos.y as int) + seq![b.pos.z, flag_of(b)]
}

/// The fixed records of blocks, one after another.
pub open spec fn records_bytes(bs: Seq<BlockView>) -> Seq<u8>
    decreases bs.len(),
{
    if bs.len() == 0 {
        seq![]
    } else {
        records_bytes(bs.drop_last()) + record_bytes(bs.last())
    }
}

/// How many of the blocks carry metadata.
pub open spec fn meta_count(bs: Seq<BlockView>) -> nat
    decreases bs.len(),
{
    if bs.len() == 0 {
        0
    } else {
        meta_count(bs.drop_last()) + if bs.last().nbt is Some {
            1nat
        } else {
            0nat
        }
    }
}

/// The metadata blob of a block on the wire, or nothing.
pub open spec fn meta_bytes(b: BlockView) -> Seq<u8> {
    match b.nbt {
        Some(d) => le32(d.len() as int) + d,
        None => seq![],
    }
}

/// The length-prefixed metadata blobs of the blocks that carry one, in block order.
pub open spec fn metas_bytes(bs: Seq<BlockView>) -> Seq<u8>
    decreases bs.len(),
{
    if bs.len() == 0 {
        seq![]
    } else {
        metas_bytes(bs.drop_last()) + meta_bytes(bs.last())
    }
}

/// The uncompressed payload of a chunk.
pub open spec fn chunk_bytes(c: ChunkView) -> Seq<u8> {
    palette_bytes(c.palette) + le32(c.blocks.len() as int) + records_bytes(c.blocks) + le32(
        meta_count(c.blocks) as int,
    ) + metas_bytes(c.blocks)
}

/// True when the block's metadata blob, if any, fits a 32-bit length field.
pub open spec fn meta_fits(b: BlockView) -> bool {
    match b.nbt {
        Some(d) => d.len() <= u32::MAX,
        None => true,
    }
}

/// True when every metadata blob fits a 32-bit length field.
pub open spec fn metas_fit(bs: Seq<BlockView>) -> bool {
    forall|i: int| 0 <= i < bs.len() ==> meta_fits(#[trigger] bs[i])
}

/// True when a chunk can be written: its palette is storable and its counts fit their fields.
pub open spec fn chunk_writable(c: ChunkView) -> bool {
    &&& palette_air_free(c.palette)
    &&& palette_fits(c.palette)
    &&& c.blocks.len() <= u32::MAX
    &&& metas_fit(c.blocks)
}

/// True when every block of the chunk lies inside it and names a palette entry.
pub open spec fn blocks_valid(c: ChunkView) -> bool {
    forall|i: int|
        0 <= i < c.blocks.len() ==> local_pos_valid((#[trigger] c.blocks[i]).pos)
            && c.blocks[i].palette_index < c.palette.len()
}

/// A block record as read, before its metadata is attached: a flagged block holds an empty
/// placeholder.
pub open spec fn record_at(s: Seq<u8>, p: int) -> BlockView {
    BlockView {
        palette_index: le16_at(s, p) as u16,
        pos: LocalBlockPos { x: s[p + 2], y: le16_at(s, p + 3) as u16, z: s[p + 5] },
        nbt: if s[p + 6] % 2 == 1 {
            Some(seq![])
        } else {
            None
        },
    }
}

/// Reads one block record at `p` for a palette of `plen` entries.
pub open spec fn parse_record(s: Seq<u8>, p: int, plen: int) -> Result<(BlockView, int), ErrorKind> {
    if p + 7 > s.len() {
        Err(ErrorKind::Validation)
    } else if !local_pos_valid(record_at(s, p).pos) {
        Err(ErrorKind::CoordinateOutOfRange)
    } else if record_at(s, p).palette_index >= plen {
        Err(ErrorKind::Palette)
    } else {
        Ok((record_at(s, p), p + 7))
    }
}

/// Reads `n` block records one after another from `p`.
pub open spec fn parse_records(s: Seq<u8>, p: int, n: nat, plen: int) -> Result<
    (Seq<BlockView>, int),
    ErrorKind,
>
    decreases n,
{
    if n == 0 {
        Ok((seq![], p))
    } else {
        match parse_records(s, p, (n - 1) as nat, plen) {
            Err(e) => Err(e),
            Ok((bs, q)) => match parse_record(s, q, plen) {
                Err(e) => Err(e),
                Ok((b, q2)) => Ok((bs.push(b), q2)),
            },
        }
    }
}

/// Reads one length-prefixed metadata blob at `p`.
pub open spec fn parse_blob(s: Seq<u8>, p: int) -> Result<(Seq<u8>, int), ErrorKind> {
    if p + 4 > s.len() || p + 4 + le32_at(s, p) > s.len() {
        Err(ErrorKind::Validation)
    } else {
        Ok((s.subrange(p + 4, p + 4 + le32_at(s, p)), p + 4 + le32_at(s, p)))
    }
}

/// Reads `n` metadata blobs one after another from `p`.
pub open spec fn parse_blobs(s: Seq<u8>, p: int, n: nat) -> Result<(Seq<Seq<u8>>, int), ErrorKind>
    decreases n,
{
    if n == 0 {
        Ok((seq![], p))
    } else {
        match parse_blobs(s, p, (n - 1) as nat) {
            Err(e) => Err(e),
            Ok((ds, q)) => match parse_blob(s, q) {
                Err(e) => Err(e),
                Ok((d, q2)) => Ok((ds.push(d), q2)),
            },
        }
    }
}

/// Gives the flagged records their blobs, in order.
pub open spec fn attach(recs: Seq<BlockView>, blobs: Seq<Seq<u8>>) -> Seq<BlockView>
    decreases recs.len(),
{
    if recs.len() == 0 {
        seq![]
    } else if recs.last().nbt is Some {
        attach(recs.drop_last(), blobs.drop_last()).push(
            BlockView {
                palette_index: recs.last().palette_index,
                pos: recs.last().pos,
                nbt: Some(blobs.last()),
            },
        )
    } else {
        attach(recs.drop_last(), blobs).push(recs.last())
    }
}

/// Reads a chunk payload: palette, records, then metadata, whose count must match the
/// flagged records.
pub open spec fn parse_chunk(s: Seq<u8>, pos: ChunkPos) -> Result<ChunkView, ErrorKind> {
    match parse_palette(s, 0) {
        Err(e) => Err(e),
        Ok((pal, pal_end)) => if pal_end + 4 > s.len() {
            Err(ErrorKind::Validation)
        } else {
            match parse_records(s, pal_end + 4, le32_at(s, pal_end) as nat, pal.len() as int) {
                Err(e) => Err(e),
                Ok((recs, recs_end)) => if recs_end + 4 > s.len() {
                    Err(ErrorKind::Validation)
                } else if le32_at(s, recs_end) != meta_count(recs) {
                    Err(ErrorKind::Nbt)
                } else {
                    match parse_blobs(s, recs_end + 4, meta_count(recs)) {
                        Err(e) => Err(e),
                        Ok((blobs, _)) => Ok(
                            ChunkView { pos, palette: pal, blocks: attach(recs, blobs) },
                        ),
                    }
                }
            }
        }
    }
}

/// True when every metadata blob of the blocks fits a 32-bit length.
fn check_metas_fit(blocks: &Vec<Block>) -> (r: bool)
    ensures
        r == metas_fit(blocks_view(blocks@)),
{
    let mut i: usize = 0;
    while i < blocks.len()
        invariant
            i <= blocks@.len(),
            forall|k: int| 0 <= k < i ==> meta_fits((#[trigger] blocks@[k])@),
        decreases blocks@.len() - i,
    {
        match &blocks[i].nbt {
            Some(d) => {
                if d.len() > 4294967295 {
                    assert(blocks_view(blocks@)[i as int] == blocks@[i as int]@);
                    return false;
                }
            },
            None => {},
        }
        i = i + 1;
    }
    assert forall|k: int| 0 <= k < blocks_view(blocks@).len() implies meta_fits(
        #[trigger] blocks_view(blocks@)[k],
    ) by {
        assert(blocks_view(blocks@)[k] == blocks@[k]@);
    }
    true
}

/// Serializes a chunk into its uncompressed payload.
pub fn serialize_chunk(chunk: &ChunkData) -> (r: Result<Vec<u8>, McStreamError>)
    ensures
        r matches Ok(b) ==> b@ == chunk_bytes(chunk@),
        r is Ok <==> chunk_writable(chunk@),
        !palette_air_free(chunk@.palette) ==> r matches Err(McStreamError::AirInPalette),
        palette_air_free(chunk@.palette) && !palette_fits(chunk@.palette) ==> r matches Err(
            McStreamError::PaletteError(_),
        ),
        palette_air_free(chunk@.palette) && palette_fits(chunk@.palette) && !chunk_writable(
            chunk@,
        ) ==> r matches Err(McStreamError::ValidationError(_)),
{
    let mut buffer: Vec<u8> = Vec::new();
    match write_palette(&mut buffer, chunk.palette.as_slice()) {
        Ok(()) => {},
        Err(e) => {
            return Err(e);
        },
    }
    if chunk.blocks.len() > 4294967295 {
        return Err(McStreamError::ValidationError("too many blocks in one chunk".to_string()));
    }
    if !check_metas_fit(&chunk.blocks) {
        return Err(McStreamError::ValidationError("metadata blob is too long".to_string()));
    }
    let ghost bs = blocks_view(chunk.blocks@);
    let ghost head = buffer@;
    push_le32(&mut buffer, chunk.blocks.len() as u32);
    let mut i: usize = 0;
    let mut flagged: u32 = 0;
    while i < chunk.blocks.len()
        invariant
            i <= chunk.blocks@.len() <= u32::MAX,
            bs == blocks_view(chunk.blocks@),
            buffer@ == head + le32(bs.len() as int) + records_bytes(bs.subrange(0, i as int)),
            flagged == meta_count(bs.subrange(0, i as int)),
            flagged <= i,
        decreases chunk.blocks@.len() - i,
    {
        let b = &chunk.blocks[i];
        let ghost before = buffer@;
        push_le16(&mut buffer, b.palette_index);
        buffer.push(b.pos.x);
        push_le16(&mut buffer, b.pos.y);
        buffer.push(b.pos.z);
        let has_nbt = b.nbt.is_some();
        buffer.push(if has_nbt {
            1u8
        } else {
            0u8
        });
        proof {
            let pre = bs.subrange(0, i as int + 1);
            assert(pre.drop_last() =~= bs.subrange(0, i as int));
            assert(pre.last() == bs[i as int]);
            assert(bs[i as int] == b@);
            assert(buffer@ =~= before + record_bytes(b@));
        }
        if has_nbt {
            flagged = flagged + 1;
        }
        i = i + 1;
    }
    assert(bs.subrange(0, bs.len() as int) =~= bs);
    push_le32(&mut buffer, flagged);
    let ghost mid = buffer@;
    let mut j: usize = 0;
    while j < chunk.blocks.len()
        invariant
            j <= chunk.blocks@.len(),
            bs == blocks_view(chunk.blocks@),
            metas_fit(bs),
            buffer@ == mid + metas_bytes(bs.subrange(0, j as int)),
        decreases chunk.blocks@.len() - j,
    {
        let ghost before = buffer@;
        assert(bs[j as int] == chunk.blocks@[j as int]@);
        match &chunk.blocks[j].nbt {
            Some(d) => {
                push_le32(&mut buffer, d.len() as u32);
                push_all(&mut buffer, d.as_slice());
            },
            None => {},
        }
        proof {
            let pre = bs.subrange(0, j as int + 1);
            assert(pre.drop_last() =~= bs.subrange(0, j as int));
            assert(pre.last() == bs[j as int]);
            assert(buffer@ =~= before + meta_bytes(bs[j as int]));
        }
        j = j + 1;
    }
    assert(buffer@ =~= chunk_bytes(chunk@));
    Ok(buffer)
}

/// Once reading the first `i` records fails, reading more records fails the same way.
pub proof fn lemma_records_err_persists(s: Seq<u8>, p: int, i: nat, m: nat, plen: int)
    requires
        i <= m,
        parse_records(s, p, i, plen) is Err,
    ensures
        parse_records(s, p, m, plen) == parse_records(s, p, i, plen),
    decreases m - i,
{
    if i < m {
        lemma_records_err_persists(s, p, i, (m - 1) as nat, plen);
    }
}

/// Once reading the first `i` blobs fails, reading more blobs fails the same way.
pub proof fn lemma_blobs_err_persists(s: Seq<u8>, p: int, i: nat, m: nat)
    requires
        i <= m,
        parse_blobs(s, p, i) is Err,
    ensures
        parse_blobs(s, p, m) == parse_blobs(s, p, i),
    decreases m - i,
{
    if i < m {
        lemma_blobs_err_persists(s, p, i, (m - 1) as nat);
    }
}

/// A prefix of the blocks carries no more metadata than all of them.
pub proof fn lemma_meta_count_prefix(bs: Seq<BlockView>, i: int)
    requires
        0 <= i <= bs.len(),
    ensures
        meta_count(bs.subrange(0, i)) <= meta_count(bs),
    decreases bs.len() - i,
{
    if i < bs.len() {
        lemma_meta_count_prefix(bs, i + 1);
        let pre = bs.subrange(0, i + 1);
        assert(pre.drop_last() =~= bs.subrange(0, i));
    } else {
        assert(bs.subrange(0, i) =~= bs);
    }
}

/// Reads a chunk payload produced by `serialize_chunk`, tagging it with `pos`.
/// Every record is checked to lie inside the chunk and to name a palette entry, and the
/// metadata count must match the flagged records.
pub fn deserialize_chunk(data: &[u8], pos: ChunkPos) -> (r: Result<ChunkData, McStreamError>)
    ensures
        match parse_chunk(data@, pos) {
            Ok(c) => r matches Ok(d) && d@ == c,
            Err(k) => r matches Err(e) && e.kind() == k,
        },
{
    let (palette, pal_end) = match read_palette(data, 0) {
        Ok(x) => x,
        Err(e) => {
            return Err(e);
        },
    };
    let ghost plen = palette@.len() as int;
    let ghost pal = palette_view_of(palette@);
    assert(pal.len() == plen);
    if data.len() - pal_end < 4 {
        return Err(McStreamError::ValidationError("block count is truncated".to_string()));
    }
    let count = read_le32(data, pal_end);
    let mut p: usize = pal_end + 4;
    let mut recs: Vec<Block> = Vec::new();
    let mut flagged: u32 = 0;
    let mut i: u32 = 0;
    assert(blocks_view(recs@) =~= Seq::<BlockView>::empty());
    while i < count
        invariant
            parse_palette(data@, 0) == Ok::<(Seq<Seq<char>>, int), ErrorKind>((pal, pal_end as int)),
            pal.len() == plen,
            pal_end + 4 <= data@.len(),
            count == le32_at(data@, pal_end as int),
            plen == palette@.len(),
            i <= count,
            p <= data@.len(),
            parse_records(data@, pal_end + 4, i as nat, plen) == Ok::<(Seq<BlockView>, int), ErrorKind>(
                (blocks_view(recs@), p as int),
            ),
            flagged == meta_count(blocks_view(recs@)),
            flagged <= i,
        decreases count - i,
    {
        if data.len() - p < 7 {
            proof {
                assert(parse_record(data@, p as int, plen) == Err::<(BlockView, int), ErrorKind>(
                    ErrorKind::Validation,
                ));
                assert(parse_records(data@, pal_end + 4, (i + 1) as nat, plen) == Err::<
                    (Seq<BlockView>, int),
                    ErrorKind,
                >(ErrorKind::Validation));
                lemma_records_err_persists(data@, pal_end + 4, (i + 1) as nat, count as nat, plen);
            }
            return Err(McStreamError::ValidationError("block record is truncated".to_string()));
        }
        let idx = read_le16(data, p);
        let x = data[p + 2];
        let y = read_le16(data, p + 3);
        let z = data[p + 5];
        let flags = data[p + 6];
        let lp = LocalBlockPos { x, y, z };
        assert(lp == record_at(data@, p as int).pos);
        if x > 15 || z > 15 || y > 383 {
            proof {
                assert(parse_record(data@, p as int, plen) == Err::<(BlockView, int), ErrorKind>(
                    ErrorKind::CoordinateOutOfRange,
                ));
                assert(parse_records(data@, pal_end + 4, (i + 1) as nat, plen) == Err::<
                    (Seq<BlockView>, int),
                    ErrorKind,
                >(ErrorKind::CoordinateOutOfRange));
                lemma_records_err_persists(data@, pal_end + 4, (i + 1) as nat, count as nat, plen);
            }
            return Err(McStreamError::CoordinateOutOfRange);
        }
        if idx as usize >= palette.len() {
            proof {
                lemma_records_err_persists(data@, pal_end + 4, (i + 1) as nat, count as nat, plen);
            }
            return Err(McStreamError::PaletteError("block names a missing palette entry".to_string()));
        }
        let has_nbt = flags % 2 == 1;
        let ghost before = recs@;
        recs.push(
            Block {
                palette_index: idx,
                pos: lp,
                nbt: if has_nbt {
                    Some(Vec::new())
                } else {
                    None
                },
            },
        );
        proof {
            assert(recs@.last()@ == record_at(data@, p as int));
            assert(blocks_view(recs@) =~= blocks_view(before).push(record_at(data@, p as int)));
            assert(blocks_view(recs@).drop_last() =~= blocks_view(before));
        }
        if has_nbt {
            flagged = flagged + 1;
        }
        p = p + 7;
        i = i + 1;
    }
    let ghost rv = blocks_view(recs@);
    if data.len() - p < 4 {
        return Err(McStreamError::ValidationError("metadata count is truncated".to_string()));
    }
    let m = read_le32(data, p);
    if m != flagged {
        return Err(McStreamError::NbtError("metadata count does not match flagged blocks".to_string()));
    }
    let mut q: usize = p + 4;
    let mut ranges: Vec<(usize, usize)> = Vec::new();
    let ghost mut blobs: Seq<Seq<u8>> = seq![];
    let mut k: u32 = 0;
    while k < m
        invariant
            parse_palette(data@, 0) == Ok::<(Seq<Seq<char>>, int), ErrorKind>((pal, pal_end as int)),
            pal.len() == plen,
            pal_end + 4 <= data@.len(),
            count == le32_at(data@, pal_end as int),
            parse_records(data@, pal_end + 4, count as nat, plen) == Ok::<(Seq<BlockView>, int), ErrorKind>(
                (rv, p as int),
            ),
            m == le32_at(data@, p as int),
            m == meta_count(rv),
            p + 4 <= data@.len(),
            k <= m,
            q <= data@.len(),
            parse_blobs(data@, p + 4, k as nat) == Ok::<(Seq<Seq<u8>>, int), ErrorKind>(
                (blobs, q as int),
            ),
            ranges@.len() == k,
            blobs.len() == k,
            forall|t: int|
                0 <= t < k ==> (#[trigger] ranges@[t]).0 <= ranges@[t].1 <= data@.len()
                    && data@.subrange(ranges@[t].0 as int, ranges@[t].1 as int) == blobs[t],
        decreases m - k,
    {
        if data.len() - q < 4 {
            proof {
                assert(parse_blob(data@, q as int) == Err::<(Seq<u8>, int), ErrorKind>(
                    ErrorKind::Validation,
                ));
                assert(parse_blobs(data@, p + 4, (k + 1) as nat) == Err::<
                    (Seq<Seq<u8>>, int),
                    ErrorKind,
                >(ErrorKind::Validation));
                lemma_blobs_err_persists(data@, p + 4, (k + 1) as nat, m as nat);
            }
            return Err(McStreamError::ValidationError("metadata length is truncated".to_string()));
        }
        let n = read_le32(data, q);
        if data.len() - q - 4 < n as usize {
            proof {
                assert(parse_blob(data@, q as int) == Err::<(Seq<u8>, int), ErrorKind>(
                    ErrorKind::Validation,
                ));
                assert(parse_blobs(data@, p + 4, (k + 1) as nat) == Err::<
                    (Seq<Seq<u8>>, int),
                    ErrorKind,
                >(ErrorKind::Validation));
                lemma_blobs_err_persists(data@, p + 4, (k + 1) as nat, m as nat);
            }
            return Err(McStreamError::ValidationError("metadata blob is truncated".to_string()));
        }
        let end = q + 4 + n as usize;
        ranges.push((q + 4, end));
        proof {
            blobs = blobs.push(data@.subrange(q + 4, end as int));
        }
        q = end;
        k = k + 1;
    }
    let mut blocks: Vec<Block> = Vec::new();
    let mut j: usize = 0;
    let mut b: usize = 0;
    assert(blocks_view(blocks@) =~= attach(rv.subrange(0, 0), blobs.subrange(0, 0)));
    while b < recs.len()
        invariant
            b <= recs@.len(),
            rv == blocks_view(recs@),
            m == meta_count(rv),
            ranges@.len() == m,
            blobs.len() == m,
            forall|t: int|
                0 <= t < m ==> (#[trigger] ranges@[t]).0 <= ranges@[t].1 <= data@.len()
                    && data@.subrange(ranges@[t].0 as int, ranges@[t].1 as int) == blobs[t],
            j == meta_count(rv.subrange(0, b as int)),
            blocks_view(blocks@) == attach(rv.subrange(0, b as int), blobs.subrange(0, j as int)),
        decreases recs@.len() - b,
    {
        let rec = &recs[b];
        let ghost before = blocks@;
        proof {
            lemma_meta_count_prefix(rv, b + 1);
            let pre = rv.subrange(0, b + 1);
            assert(pre.drop_last() =~= rv.subrange(0, b as int));
            assert(pre.last() == rv[b as int]);
            assert(rv[b as int] == rec@);
        }
        if rec.nbt.is_some() {
            let d = copy_range(data, ranges[j].0, ranges[j].1);
            blocks.push(Block { palette_index: rec.palette_index, pos: rec.pos, nbt: Some(d) });
            proof {
                let bl = blobs.subrange(0, j + 1);
                assert(bl.drop_last() =~= blobs.subrange(0, j as int));
                assert(bl.last() == blobs[j as int]);
                assert(blocks_view(blocks@) =~= blocks_view(before).push(blocks@.last()@));
            }
            j = j + 1;
        } else {
            blocks.push(Block { palette_index: rec.palette_index, pos: rec.pos, nbt: None });
            proof {
                assert(blocks_view(blocks@) =~= blocks_view(before).push(blocks@.last()@));
            }
        }
        b = b + 1;
    }
    assert(rv.subrange(0, rv.len() as int) =~= rv);
    assert(blobs.subrange(0, blobs.len() as int) =~= blobs);
    Ok(ChunkData { pos, palette, blocks })
}

/// A block as its fixed record reads back: flagged blocks hold an empty placeholder.
pub open spec fn placeholder(b: BlockView) -> BlockView {
    BlockView {
        palette_index: b.palette_index,
        pos: b.pos,
        nbt: if b.nbt is Some {
            Some(seq![])
        } else {
            None
        },
    }
}

/// The metadata blobs of the blocks that carry one, in block order.
pub open spec fn nbts(bs: Seq<BlockView>) -> Seq<Seq<u8>>
    decreases bs.len(),
{
    if bs.len() == 0 {
        seq![]
    } else {
        match bs.last().nbt {
            Some(d) => nbts(bs.drop_last()).push(d),
            None => nbts(bs.drop_last()),
        }
    }
}

/// True when every block lies inside its chunk and names one of `plen` palette entries.
pub open spec fn records_valid(bs: Seq<BlockView>, plen: int) -> bool {
    forall|i: int|
        0 <= i < bs.len() ==> local_pos_valid((#[trigger] bs[i]).pos) && bs[i].palette_index
            < plen
}

proof fn lemma_record_round_trip(s: Seq<u8>, q: int, b: BlockView, plen: int)
    requires
        0 <= q,
        q + 7 <= s.len(),
        s.subrange(q, q + 7) == record_bytes(b),
        local_pos_valid(b.pos),
        b.palette_index < plen,
    ensures
        parse_record(s, q, plen) == Ok::<(BlockView, int), ErrorKind>((placeholder(b), q + 7)),
{
    let t = record_bytes(b);
    crate::bytes::lemma_le16_round_trip(b.palette_index as int);
    crate::bytes::lemma_le16_round_trip(b.pos.y as int);
    assert(t.len() == 7);
    assert(s[q] == t[0] && s[q + 1] == t[1] && s[q + 2] == t[2] && s[q + 3] == t[3] && s[q + 4]
        == t[4] && s[q + 5] == t[5] && s[q + 6] == t[6]);
    assert(le16_at(s, q) == le16_at(le16(b.palette_index as int), 0));
    assert(le16_at(s, q + 3) == le16_at(le16(b.pos.y as int), 0));
    assert(record_at(s, q) == placeholder(b));
}

proof fn lemma_records_round_trip(s: Seq<u8>, p: int, bs: Seq<BlockView>, plen: int)
    requires
        0 <= p,
        p + records_bytes(bs).len() <= s.len(),
        s.subrange(p, p + records_bytes(bs).len()) == records_bytes(bs),
        records_valid(bs, plen),
    ensures
        records_bytes(bs).len() == 7 * bs.len(),
        parse_records(s, p, bs.len(), plen) == Ok::<(Seq<BlockView>, int), ErrorKind>(
            (bs.map_values(|b: BlockView| placeholder(b)), p + records_bytes(bs).len()),
        ),
    decreases bs.len(),
{
    if bs.len() == 0 {
        assert(bs.map_values(|b: BlockView| placeholder(b)) =~= Seq::<BlockView>::empty());
    } else {
        let init = bs.drop_last();
        let a = records_bytes(init);
        let t = record_bytes(bs.last());
        let whole = s.subrange(p, p + records_bytes(bs).len());
        assert(whole == a + t);
        assert(s.subrange(p, p + a.len()) =~= whole.subrange(0, a.len() as int));
        assert(whole.subrange(0, a.len() as int) =~= a);
        assert(records_valid(init, plen)) by {
            assert forall|i: int| 0 <= i < init.len() implies local_pos_valid(
                (#[trigger] init[i]).pos,
            ) && init[i].palette_index < plen by {
                assert(init[i] == bs[i]);
            }
        }
        lemma_records_round_trip(s, p, init, plen);
        let q = p + a.len();
        assert(t.len() == 7);
        assert(s.subrange(q, q + 7) =~= whole.subrange(a.len() as int, a.len() as int + 7));
        assert(whole.subrange(a.len() as int, a.len() as int + 7) =~= t);
        assert(bs[bs.len() - 1] == bs.last());
        lemma_record_round_trip(s, q, bs.last(), plen);
        assert(bs.map_values(|b: BlockView| placeholder(b)) =~= init.map_values(
            |b: BlockView| placeholder(b),
        ).push(placeholder(bs.last())));
        assert(parse_records(s, p, bs.len(), plen) == (match parse_records(
            s,
            p,
            init.len(),
            plen,
        ) {
            Err(e) => Err(e),
            Ok((v, q1)) => match parse_record(s, q1, plen) {
                Err(e) => Err(e),
                Ok((b, q2)) => Ok((v.push(b), q2)),
            },
        }));
    }
}

proof fn lemma_blobs_round_trip(s: Seq<u8>, p: int, bs: Seq<BlockView>)
    requires
        0 <= p,
        p + metas_bytes(bs).len() <= s.len(),
        s.subrange(p, p + metas_bytes(bs).len()) == metas_bytes(bs),
        metas_fit(bs),
    ensures
        parse_blobs(s, p, meta_count(bs)) == Ok::<(Seq<Seq<u8>>, int), ErrorKind>(
            (nbts(bs), p + metas_bytes(bs).len()),
        ),
    decreases bs.len(),
{
    if bs.len() > 0 {
        let init = bs.drop_last();
        let a = metas_bytes(init);
        let t = meta_bytes(bs.last());
        let whole = s.subrange(p, p + metas_bytes(bs).len());
        assert(whole == a + t);
        assert(s.subrange(p, p + a.len()) =~= whole.subrange(0, a.len() as int));
        assert(whole.subrange(0, a.len() as int) =~= a);
        assert(metas_fit(init)) by {
            assert forall|i: int| 0 <= i < init.len() implies meta_fits(#[trigger] init[i]) by {
                assert(init[i] == bs[i]);
            }
        }
        lemma_blobs_round_trip(s, p, init);
        assert(meta_fits(bs[bs.len() - 1]));
        assert(bs[bs.len() - 1] == bs.last());
        match bs.last().nbt {
            Some(d) => {
                let q = p + a.len();
                crate::bytes::lemma_le32_round_trip(d.len() as int);
                assert(t.len() == 4 + d.len());
                assert(s.subrange(q, q + t.len()) =~= whole.subrange(a.len() as int, a.len() as int + t.len()));
                assert(whole.subrange(a.len() as int, a.len() as int + t.len()) =~= t);
                assert(s[q] == t[0] && s[q + 1] == t[1] && s[q + 2] == t[2] && s[q + 3] == t[3]);
                assert(le32_at(s, q) == le32_at(le32(d.len() as int), 0));
                assert(s.subrange(q + 4, q + 4 + d.len()) =~= t.subrange(4, 4 + d.len() as int));
                assert(t.subrange(4, 4 + d.len() as int) =~= d);
                assert(parse_blobs(s, p, meta_count(bs)) == (match parse_blobs(
                    s,
                    p,
                    meta_count(init),
                ) {
                    Err(e) => Err(e),
                    Ok((v, q1)) => match parse_blob(s, q1) {
                        Err(e) => Err(e),
                        Ok((d, q2)) => Ok((v.push(d), q2)),
                    },
                }));
            },
            None => {
                assert(metas_bytes(bs) =~= a);
            },
        }
    } else {
        assert(metas_bytes(bs) =~= Seq::<u8>::empty());
    }
}

proof fn lemma_attach_placeholders(bs: Seq<BlockView>)
    ensures
        meta_count(bs.map_values(|b: BlockView| placeholder(b))) == meta_count(bs),
        nbts(bs).len() == meta_count(bs),
        attach(bs.map_values(|b: BlockView| placeholder(b)), nbts(bs)) == bs,
    decreases bs.len(),
{
    let st = bs.map_values(|b: BlockView| placeholder(b));
    if bs.len() == 0 {
        assert(st =~= Seq::<BlockView>::empty());
        assert(attach(st, nbts(bs)) =~= bs);
    } else {
        let init = bs.drop_last();
        lemma_attach_placeholders(init);
        assert(st.drop_last() =~= init.map_values(|b: BlockView| placeholder(b)));
        assert(st.last() == placeholder(bs.last()));
        assert(init.push(bs.last()) =~= bs);
        match bs.last().nbt {
            Some(d) => {
                assert(nbts(bs).drop_last() =~= nbts(init));
            },
            None => {},
        }
        assert(attach(st, nbts(bs)) =~= bs);
    }
}

/// A writable chunk whose blocks are valid reads back from its payload exactly.
pub proof fn lemma_chunk_round_trip(c: ChunkView)
    requires
        chunk_writable(c),
        blocks_valid(c),
    ensures
        parse_chunk(chunk_bytes(c), c.pos) == Ok::<ChunkView, ErrorKind>(c),
{
    let s = chunk_bytes(c);
    let a = palette_bytes(c.palette);
    let l1 = le32(c.blocks.len() as int);
    let rb = records_bytes(c.blocks);
    let l2 = le32(meta_count(c.blocks) as int);
    let mb = metas_bytes(c.blocks);
    assert(s == a + l1 + rb + l2 + mb);
    let pal_end = a.len() as int;
    let recs_end = pal_end + 4 + rb.len();
    assert(s.subrange(0, pal_end) =~= a);
    crate::palette::lemma_palette_round_trip(s, 0, c.palette);
    crate::bytes::lemma_le32_round_trip(c.blocks.len() as int);
    assert(s[pal_end] == l1[0] && s[pal_end + 1] == l1[1] && s[pal_end + 2] == l1[2] && s[pal_end + 3] == l1[3]);
    assert(le32_at(s, pal_end) == c.blocks.len());
    assert(s.subrange(pal_end + 4, pal_end + 4 + rb.len()) =~= rb);
    assert(records_valid(c.blocks, c.palette.len() as int));
    lemma_records_round_trip(s, pal_end + 4, c.blocks, c.palette.len() as int);
    lemma_attach_placeholders(c.blocks);
    let mc = meta_count(c.blocks);
    assert(mc <= c.blocks.len()) by {
        lemma_meta_count_prefix(c.blocks, c.blocks.len() as int);
        lemma_meta_count_le_len(c.blocks);
    }
    crate::bytes::lemma_le32_round_trip(mc as int);
    assert(s[recs_end] == l2[0] && s[recs_end + 1] == l2[1] && s[recs_end + 2] == l2[2] && s[recs_end + 3] == l2[3]);
    assert(le32_at(s, recs_end) == mc);
    assert(s.subrange(recs_end + 4, recs_end + 4 + mb.len()) =~= mb);
    lemma_blobs_round_trip(s, recs_end + 4, c.blocks);
}

proof fn lemma_meta_count_le_len(bs: Seq<BlockView>)
    ensures
        meta_count(bs) <= bs.len(),
    decreases bs.len(),
{
    if bs.len() > 0 {
        lemma_meta_count_le_len(bs.drop_last());
    }
}

// ---------------------------------------------------------------------------------------------
// Chunk index table
// ---------------------------------------------------------------------------------------------

/// The fixed 16-byte record of an index entry.
pub open spec fn index_entry_bytes(e: ChunkIndexEntry) -> Seq<u8> {
    le32(i32_bits(e.chunk_x)) + le32(i32_bits(e.chunk_z)) + le32(e.data_offset as int) + le32(
        e.compressed_size as int,
    )
}

/// Index entries, one after another.
pub open spec fn index_entries_bytes(es: Seq<ChunkIndexEntry>) -> Seq<u8>
    decreases es.len(),
{
    if es.len() == 0 {
        seq![]
    } else {
        index_entries_bytes(es.drop_last()) + index_entry_bytes(es.last())
    }
}

/// The index table: the entry count, then the entries.
pub open spec fn index_bytes(es: Seq<ChunkIndexEntry>) -> Seq<u8> {
    le32(es.len() as int) + index_entries_bytes(es)
}

/// The index entry whose record starts at `q`.
pub open spec fn index_entry_at(s: Seq<u8>, q: int) -> ChunkIndexEntry {
    ChunkIndexEntry {
        chunk_x: bits_i32(le32_at(s, q)),
        chunk_z: bits_i32(le32_at(s, q + 4)),
        data_offset: le32_at(s, q + 8) as u32,
        compressed_size: le32_at(s, q + 12) as u32,
    }
}

/// Reads the index table at `p`; it fails when the table does not fit in `s`.
pub open spec fn parse_index(s: Seq<u8>, p: int) -> Result<Seq<ChunkIndexEntry>, ErrorKind> {
    if p < 0 || p + 4 > s.len() || p + 4 + 16 * le32_at(s, p) > s.len() {
        Err(ErrorKind::Validation)
    } else {
        Ok(Seq::new(le32_at(s, p) as nat, |i: int| index_entry_at(s, p + 4 + 16 * i)))
    }
}

/// Appends the index table: the entry count, then 16 bytes per entry.
pub fn write_chunk_index(out: &mut Vec<u8>, entries: &[ChunkIndexEntry]) -> (r: Result<
    (),
    McStreamError,
>)
    ensures
        r is Ok <==> entries@.len() <= u32::MAX,
        r is Ok ==> final(out)@ == old(out)@ + index_bytes(entries@),
        r matches Err(e) ==> e is ChunkIndexError && final(out)@ == old(out)@,
{
    if entries.len() > 4294967295 {
        return Err(McStreamError::ChunkIndexError);
    }
    let ghost start = out@;
    push_le32(out, entries.len() as u32);
    let mut i: usize = 0;
    while i < entries.len()
        invariant
            i <= entries@.len() <= u32::MAX,
            out@ == start + le32(entries@.len() as int) + index_entries_bytes(
                entries@.subrange(0, i as int),
            ),
        decreases entries@.len() - i,
    {
        let e = entries[i];
        let ghost before = out@;
        push_i32_le(out, e.chunk_x);
        push_i32_le(out, e.chunk_z);
        push_le32(out, e.data_offset);
        push_le32(out, e.compressed_size);
        proof {
            let pre = entries@.subrange(0, i as int + 1);
            assert(pre.drop_last() =~= entries@.subrange(0, i as int));
            assert(pre.last() == e);
            assert(out@ =~= before + index_entry_bytes(e));
        }
        i = i + 1;
    }
    assert(entries@.subrange(0, entries@.len() as int) =~= entries@);
    Ok(())
}

/// Reads the index table at `pos`, returning its entries and the position just after it.
pub fn read_chunk_index(data: &[u8], pos: usize) -> (r: Result<
    (Vec<ChunkIndexEntry>, usize),
    McStreamError,
>)
    ensures
        match parse_index(data@, pos as int) {
            Ok(es) => r matches Ok((v, end)) && v@ == es && end == pos + 4 + 16 * es.len(),
            Err(k) => r matches Err(e) && e.kind() == k,
        },
{
    if pos > data.len() || data.len() - pos < 4 {
        return Err(McStreamError::ValidationError("index entry count is truncated".to_string()));
    }
    let count = read_le32(data, pos);
    if (data.len() - pos - 4) / 16 < count as usize {
        return Err(McStreamError::ValidationError("index table is truncated".to_string()));
    }
    let mut entries: Vec<ChunkIndexEntry> = Vec::new();
    let mut p: usize = pos + 4;
    let mut i: u32 = 0;
    let dlen = data.len();
    while i < count
        invariant
            dlen == data@.len(),
            pos + 4 + 16 * count <= data@.len(),
            i <= count,
            p == pos + 4 + 16 * i,
            entries@.len() == i,
            forall|k: int|
                0 <= k < i ==> #[trigger] entries@[k] == index_entry_at(
                    data@,
                    pos + 4 + 16 * k,
                ),
        decreases count - i,
    {
        let e = ChunkIndexEntry {
            chunk_x: read_i32_le(data, p),
            chunk_z: read_i32_le(data, p + 4),
            data_offset: read_le32(data, p + 8),
            compressed_size: read_le32(data, p + 12),
        };
        entries.push(e);
        p = p + 16;
        i = i + 1;
    }
    assert(entries@ =~= Seq::new(
        le32_at(data@, pos as int) as nat,
        |i: int| index_entry_at(data@, pos + 4 + 16 * i),
    ));
    Ok((entries, p))
}

/// An index table written at `p` reads back as its entries.
pub proof fn lemma_index_round_trip(s: Seq<u8>, p: int, es: Seq<ChunkIndexEntry>)
    requires
        0 <= p,
        es.len() <= u32::MAX,
        p + index_bytes(es).len() <= s.len(),
        s.subrange(p, p + index_bytes(es).len()) == index_bytes(es),
    ensures
        index_bytes(es).len() == 4 + 16 * es.len(),
        parse_index(s, p) == Ok::<Seq<ChunkIndexEntry>, ErrorKind>(es),
{
    let t = index_bytes(es);
    let body = index_entries_bytes(es);
    crate::bytes::lemma_le32_round_trip(es.len() as int);
    assert(t == le32(es.len() as int) + body);
    assert(s.subrange(p + 4, p + 4 + body.len()) =~= t.subrange(4, t.len() as int));
    assert(t.subrange(4, t.len() as int) =~= body);
    lemma_index_entries_at(s, p + 4, es);
    assert(s[p] == t[0] && s[p + 1] == t[1] && s[p + 2] == t[2] && s[p + 3] == t[3]);
    assert(le32_at(s, p) == es.len());
    assert forall|i: int| 0 <= i < es.len() implies #[trigger] es[i] == index_entry_at(
        s,
        p + 4 + 16 * i,
    ) by {
        assert(index_entry_at(s, (p + 4) + 16 * i) == es[i]);
    }
    assert(Seq::new(es.len(), |i: int| index_entry_at(s, p + 4 + 16 * i)) =~= es);
}

proof fn lemma_index_entries_at(s: Seq<u8>, p: int, es: Seq<ChunkIndexEntry>)
    requires
        0 <= p,
        p + index_entries_bytes(es).len() <= s.len(),
        s.subrange(p, p + index_entries_bytes(es).len()) == index_entries_bytes(es),
    ensures
        index_entries_bytes(es).len() == 16 * es.len(),
        forall|k: int| 0 <= k < es.len() ==> #[trigger] index_entry_at(s, p + 16 * k) == es[k],
    decreases es.len(),
{
    if es.len() > 0 {
        let init = es.drop_last();
        let a = index_entries_bytes(init);
        let t = index_entry_bytes(es.last());
        let whole = s.subrange(p, p + index_entries_bytes(es).len());
        assert(whole == a + t);
        assert(s.subrange(p, p + a.len()) =~= whole.subrange(0, a.len() as int));
        assert(whole.subrange(0, a.len() as int) =~= a);
        lemma_index_entries_at(s, p, init);
        let q = p + a.len();
        let e = es.last();
        assert(t.len() == 16);
        assert forall|j: int| 0 <= j < 16 implies s[q + j] == #[trigger] t[j] by {
            assert(s[q + j] == whole[a.len() + j]);
        }
        crate::bytes::lemma_le32_round_trip(i32_bits(e.chunk_x));
        crate::bytes::lemma_le32_round_trip(i32_bits(e.chunk_z));
        crate::bytes::lemma_le32_round_trip(e.data_offset as int);
        crate::bytes::lemma_le32_round_trip(e.compressed_size as int);
        crate::bytes::lemma_i32_bits_round_trip(e.chunk_x);
        crate::bytes::lemma_i32_bits_round_trip(e.chunk_z);
        let b0 = le32(i32_bits(e.chunk_x));
        let b1 = le32(i32_bits(e.chunk_z));
        let b2 = le32(e.data_offset as int);
        let b3 = le32(e.compressed_size as int);
        assert(t == b0 + b1 + b2 + b3);
        assert(t[0] == b0[0] && t[1] == b0[1] && t[2] == b0[2] && t[3] == b0[3]);
        assert(t[4] == b1[0] && t[5] == b1[1] && t[6] == b1[2] && t[7] == b1[3]);
        assert(t[8] == b2[0] && t[9] == b2[1] && t[10] == b2[2] && t[11] == b2[3]);
        assert(t[12] == b3[0] && t[13] == b3[1] && t[14] == b3[2] && t[15] == b3[3]);
        assert(s[q] == t[0] && s[q + 1] == t[1] && s[q + 2] == t[2] && s[q + 3] == t[3]);
        assert(s[q + 4] == t[4] && s[q + 5] == t[5] && s[q + 6] == t[6] && s[q + 7] == t[7]);
        assert(s[q + 8] == t[8] && s[q + 9] == t[9] && s[q + 10] == t[10] && s[q + 11] == t[11]);
        assert(s[q + 12] == t[12] && s[q + 13] == t[13] && s[q + 14] == t[14] && s[q + 15]
            == t[15]);
        assert(le32_at(s, q) == le32_at(b0, 0));
        assert(le32_at(s, q + 4) == le32_at(b1, 0));
        assert(le32_at(s, q + 8) == le32_at(b2, 0));
        assert(le32_at(s, q + 12) == le32_at(b3, 0));
        assert(index_entry_at(s, q) == e);
        assert forall|k: int| 0 <= k < es.len() implies #[trigger] index_entry_at(s, p + 16 * k)
            == es[k] by {
            if k < es.len() - 1 {
                assert(es[k] == init[k]);
                assert(index_entry_at(s, p + 16 * k) == init[k]);
            }
        }
    }
}

// ---------------------------------------------------------------------------------------------
// Compressed chunks
// ---------------------------------------------------------------------------------------------

/// Serializes a chunk and compresses the payload.
pub fn compress_chunk(chunk: &ChunkData, compression_type: CompressionType) -> (r: Result<
    Vec<u8>,
    McStreamError,
>)
    ensures
        r is Ok <==> chunk_writable(chunk@),
        r matches Ok(c) ==> c@ == compressed(compression_type, chunk_bytes(chunk@)),
        r matches Ok(c) ==> decompressed(compression_type, c@) == Some(chunk_bytes(chunk@)),
        r matches Ok(c) ==> c@.len() > 0,
        !palette_air_free(chunk@.palette) ==> r matches Err(McStreamError::AirInPalette),
        palette_air_free(chunk@.palette) && !palette_fits(chunk@.palette) ==> r matches Err(
            McStreamError::PaletteError(_),
        ),
        palette_air_free(chunk@.palette) && palette_fits(chunk@.palette) && !chunk_writable(
            chunk@,
        ) ==> r matches Err(McStreamError::ValidationError(_)),
{
    let payload = match serialize_chunk(chunk) {
        Ok(b) => b,
        Err(e) => {
            return Err(e);
        },
    };
    assert(payload@.len() >= 2);
    compress_data(payload.as_slice(), compression_type)
}

/// What reading a compressed chunk stored under compression id `id` yields.
pub open spec fn decode_chunk(id: u8, data: Seq<u8>, pos: ChunkPos) -> Result<ChunkView, ErrorKind> {
    if id > 3 {
        Err(ErrorKind::UnsupportedCompression(id))
    } else {
        match decompressed(compression_of_id(id), data) {
            None => Err(ErrorKind::Decompression),
            Some(b) => parse_chunk(b, pos),
        }
    }
}

/// Decompresses a chunk's bytes with the algorithm of header id `compression_type` and
/// reads the payload; the outcome is exactly `decode_chunk`.
pub fn decompress_chunk(compressed_data: &[u8], compression_type: u8, pos: ChunkPos) -> (r: Result<
    ChunkData,
    McStreamError,
>)
    ensures
        match decode_chunk(compression_type, compressed_data@, pos) {
            Ok(c) => r matches Ok(d) && d@ == c,
            Err(k) => r matches Err(e) && e.kind() == k,
        },
{
    let compression = match compression_type_from_u8(compression_type) {
        Ok(c) => c,
        Err(e) => {
            return Err(e);
        },
    };
    let payload = match decompress_data(compressed_data, compression) {
        Ok(v) => v,
        Err(e) => {
            return Err(e);
        },
    };
    deserialize_chunk(payload.as_slice(), pos)
}

} // verus!
