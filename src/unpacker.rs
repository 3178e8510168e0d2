use crate::bytes::{copy_range, le32_at};
use crate::chunk::{decode_chunk, decompress_chunk, parse_index, read_chunk_index};
use crate::error::{ErrorKind, McStreamError};
use crate::header::{parse_header, read_header};
use crate::types::{nbt_view, Block, ChunkData, ChunkIndexEntry, ChunkPos, ChunkView, McsData, McsHeader};
use crate::utils::{calculate_sha256, sha256_of, validate_file_size};
use crate::CompressionType;
use crate::packer::{chunk_key, key_of, lemma_chunk_key_injective};
use vstd::hash_map::HashMapWithView;
use vstd::prelude::*;

verus! {

/// Where the bytes of an index entry end.
pub open spec fn entry_end(e: ChunkIndexEntry) -> int {
    e.data_offset + e.compressed_size
}

/// The chunk coordinate of an index entry.
pub open spec fn entry_pos(e: ChunkIndexEntry) -> ChunkPos {
    ChunkPos { x: e.chunk_x, z: e.chunk_z }
}

/// True when every entry's byte range lies inside a file of `len` bytes.
pub open spec fn entries_in_bounds(es: Seq<ChunkIndexEntry>, len: int) -> bool {
    forall|i: int| 0 <= i < es.len() ==> entry_end(#[trigger] es[i]) <= len
}

/// True when no two entries name the same chunk.
pub open spec fn coords_distinct(es: Seq<ChunkIndexEntry>) -> bool {
    forall|i: int, j: int|
        0 <= i < es.len() && 0 <= j < es.len() && i != j ==> entry_pos(#[trigger] es[i])
            != entry_pos(#[trigger] es[j])
}

/// The furthest end of any entry's byte range (0 for no entries).
pub open spec fn footer_offset(es: Seq<ChunkIndexEntry>) -> int
    decreases es.len(),
{
    if es.len() == 0 {
        0
    } else {
        let f = footer_offset(es.drop_last());
        if entry_end(es.last()) > f {
            entry_end(es.last())
        } else {
            f
        }
    }
}

/// Reads the header and the index table and checks them: the file size, the index offset,
/// a non-empty index, every range inside the file and distinct chunk coordinates.
pub open spec fn parse_layout(s: Seq<u8>) -> Result<(McsHeader, Seq<ChunkIndexEntry>), ErrorKind> {
    if s.len() < 20 {
        Err(ErrorKind::Validation)
    } else if s.len() > u32::MAX {
        Err(ErrorKind::FileTooLarge)
    } else {
        match parse_header(s) {
            Err(e) => Err(e),
            Ok(h) => if h.index_table_offset >= s.len() {
                Err(ErrorKind::Validation)
            } else {
                match parse_index(s, h.index_table_offset as int) {
                    Err(e) => Err(e),
                    Ok(es) => if es.len() == 0 {
                        Err(ErrorKind::ChunkIndex)
                    } else if !entries_in_bounds(es, s.len() as int) {
                        Err(ErrorKind::Validation)
                    } else if !coords_distinct(es) {
                        Err(ErrorKind::ChunkIndex)
                    } else {
                        Ok((h, es))
                    }
                }
            },
        }
    }
}

/// The bytes of an entry's range.
pub open spec fn entry_bytes_of(s: Seq<u8>, e: ChunkIndexEntry) -> Seq<u8> {
    s.subrange(e.data_offset as int, entry_end(e))
}

/// Decodes the chunks of the first `n` entries, stopping at the first failure.
pub open spec fn decode_chunks(s: Seq<u8>, id: u8, es: Seq<ChunkIndexEntry>, n: nat) -> Result<
    Seq<ChunkView>,
    ErrorKind,
>
    decreases n,
{
    if n == 0 {
        Ok(seq![])
    } else {
        match decode_chunks(s, id, es, (n - 1) as nat) {
            Err(e) => Err(e),
            Ok(cs) => match decode_chunk(id, entry_bytes_of(s, es[n - 1]), entry_pos(es[n - 1])) {
                Err(e) => Err(e),
                Ok(c) => Ok(cs.push(c)),
            },
        }
    }
}

/// Where the hashed content of the file ends: the furthest chunk end, within the file.
pub open spec fn content_end(es: Seq<ChunkIndexEntry>, len: int) -> int {
    if footer_offset(es) < len {
        footer_offset(es)
    } else {
        len
    }
}

/// The trailing signature: the bytes after the last chunk, when there are any and the
/// header's flag bit 0 is set. Trailing bytes without the flag are ignored as padding.
pub open spec fn signature_of(s: Seq<u8>, h: McsHeader, es: Seq<ChunkIndexEntry>) -> Option<
    Seq<u8>,
> {
    let f = content_end(es, s.len() as int);
    if f < s.len() && h.flags % 2 == 1 {
        Some(s.subrange(f, s.len() as int))
    } else {
        None
    }
}

/// Everything a decoded file holds, as plain values.
pub struct DecodedFile {
    pub header: McsHeader,
    pub chunks: Seq<ChunkView>,
    pub data_hash: Seq<u8>,
    pub signature: Option<Seq<u8>>,
}

/// The decoded file assembled from its parts.
pub open spec fn assembled(
    s: Seq<u8>,
    h: McsHeader,
    es: Seq<ChunkIndexEntry>,
    cs: Seq<ChunkView>,
) -> DecodedFile {
    DecodedFile {
        header: h,
        chunks: cs,
        data_hash: sha256_of(s.subrange(0, content_end(es, s.len() as int))),
        signature: signature_of(s, h, es),
    }
}

/// What decoding the bytes of a whole file yields.
pub open spec fn decode_file(s: Seq<u8>) -> Result<DecodedFile, ErrorKind> {
    match parse_layout(s) {
        Err(e) => Err(e),
        Ok((h, es)) => match decode_chunks(s, h.compression, es, es.len()) {
            Err(e) => Err(e),
            Ok(cs) => Ok(assembled(s, h, es, cs)),
        },
    }
}

/// The chunks, as plain values.
pub open spec fn chunks_view(cs: Seq<ChunkData>) -> Seq<ChunkView> {
    cs.map_values(|c: ChunkData| c@)
}

/// A decoded file: its header, its chunks in index order, the digest of everything before
/// the trailing signature, and that signature.
pub struct McsDecoder {
    header: McsHeader,
    chunks: Vec<ChunkData>,
    lookup: HashMapWithView<u64, usize>,
    data_hash: [u8; 32],
    signature: Option<Vec<u8>>,
}

impl View for McsDecoder {
    type V = DecodedFile;

    closed spec fn view(&self) -> DecodedFile {
        DecodedFile {
            header: self.header,
            chunks: chunks_view(self.chunks@),
            data_hash: self.data_hash@,
            signature: nbt_view(self.signature),
        }
    }
}

/// True when every entry's range lies inside a file of `len` bytes.
fn check_bounds(entries: &Vec<ChunkIndexEntry>, len: usize) -> (r: bool)
    ensures
        r == entries_in_bounds(entries@, len as int),
{
    let mut i: usize = 0;
    while i < entries.len()
        invariant
            i <= entries@.len(),
            forall|k: int| 0 <= k < i ==> entry_end(#[trigger] entries@[k]) <= len,
        decreases entries@.len() - i,
    {
        let e = entries[i];
        if e.data_offset as u64 + e.compressed_size as u64 > len as u64 {
            return false;
        }
        i = i + 1;
    }
    true
}

/// True when no two entries name the same chunk.
fn check_distinct(entries: &Vec<ChunkIndexEntry>) -> (r: bool)
    ensures
        r == coords_distinct(entries@),
{
    let n = entries.len();
    let mut i: usize = 0;
    while i < n
        invariant
            n == entries@.len(),
            i <= n,
            forall|a: int, b: int|
                0 <= a < i && 0 <= b < n && a != b ==> entry_pos(#[trigger] entries@[a])
                    != entry_pos(#[trigger] entries@[b]),
        decreases n - i,
    {
        let mut j: usize = 0;
        while j < n
            invariant
                n == entries@.len(),
                i < n,
                j <= n,
                forall|a: int, b: int|
                    0 <= a < i && 0 <= b < n && a != b ==> entry_pos(#[trigger] entries@[a])
                        != entry_pos(#[trigger] entries@[b]),
                forall|b: int|
                    0 <= b < j && b != i ==> entry_pos(entries@[i as int]) != entry_pos(
                        #[trigger] entries@[b],
                    ),
            decreases n - j,
        {
            if j != i && entries[i].chunk_x == entries[j].chunk_x && entries[i].chunk_z
                == entries[j].chunk_z {
                assert(entry_pos(entries@[i as int]) == entry_pos(entries@[j as int]));
                return false;
            }
            j = j + 1;
        }
        i = i + 1;
    }
    true
}

/// The furthest end of any entry's byte range.
fn footer_of(entries: &Vec<ChunkIndexEntry>) -> (r: u64)
    ensures
        r == footer_offset(entries@),
{
    let mut f: u64 = 0;
    let mut i: usize = 0;
    while i < entries.len()
        invariant
            i <= entries@.len(),
            f == footer_offset(entries@.subrange(0, i as int)),
            f <= 2 * u32::MAX,
        decreases entries@.len() - i,
    {
        let e = entries[i];
        let end = e.data_offset as u64 + e.compressed_size as u64;
        proof {
            let pre = entries@.subrange(0, i as int + 1);
            assert(pre.drop_last() =~= entries@.subrange(0, i as int));
            assert(pre.last() == e);
        }
        if end > f {
            f = end;
        }
        i = i + 1;
    }
    assert(entries@.subrange(0, entries@.len() as int) =~= entries@);
    f
}

/// Once decoding the first `i` chunks fails, decoding more chunks fails the same way.
pub proof fn lemma_decode_err_persists(
    s: Seq<u8>,
    id: u8,
    es: Seq<ChunkIndexEntry>,
    i: nat,
    m: nat,
)
    requires
        i <= m,
        decode_chunks(s, id, es, i) is Err,
    ensures
        decode_chunks(s, id, es, m) == decode_chunks(s, id, es, i),
    decreases m - i,
{
    if i < m {
        lemma_decode_err_persists(s, id, es, i, (m - 1) as nat);
    }
}

/// A copy of a chunk.
fn clone_chunk(c: &ChunkData) -> (r: ChunkData)
    ensures
        r@ == c@,
{
    let mut palette: Vec<String> = Vec::new();
    let mut i: usize = 0;
    while i < c.palette.len()
        invariant
            i <= c.palette@.len(),
            palette@.len() == i,
            forall|k: int| 0 <= k < i ==> (#[trigger] palette@[k])@ == c.palette@[k]@,
        decreases c.palette@.len() - i,
    {
        palette.push(c.palette[i].clone());
        i = i + 1;
    }
    let mut blocks: Vec<Block> = Vec::new();
    let mut j: usize = 0;
    while j < c.blocks.len()
        invariant
            j <= c.blocks@.len(),
            blocks@.len() == j,
            forall|k: int| 0 <= k < j ==> (#[trigger] blocks@[k])@ == c.blocks@[k]@,
        decreases c.blocks@.len() - j,
    {
        let b = &c.blocks[j];
        let nbt = match &b.nbt {
            Some(v) => Some(copy_range(v.as_slice(), 0, v.len())),
            None => None,
        };
        assert(nbt_view(nbt) == nbt_view(b.nbt));
        let ghost old_blocks = blocks@;
        blocks.push(Block { palette_index: b.palette_index, pos: b.pos, nbt });
        assert(blocks@[j as int]@ == c.blocks@[j as int]@);
        assert forall|k: int| 0 <= k < j + 1 implies (#[trigger] blocks@[k])@ == c.blocks@[k]@ by {
            if k < j {
                assert(blocks@[k] == old_blocks[k]);
            }
        }
        j = j + 1;
    }
    let r = ChunkData { pos: c.pos, palette, blocks };
    assert(r@.palette =~= c@.palette);
    assert(r@.blocks =~= c@.blocks);
    r
}

/// Reads the header and the index table of a whole file held in `data`, without loading
/// any chunk.
pub fn read_mcs_index(data: &[u8]) -> (r: Result<Vec<ChunkIndexEntry>, McStreamError>)
    ensures
        match parse_header(data@) {
            Err(k) => r matches Err(e) && e.kind() == k,
            Ok(h) => match parse_index(data@, h.index_table_offset as int) {
                Ok(es) => r matches Ok(v) && v@ == es,
                Err(k) => r matches Err(e) && e.kind() == k,
            },
        },
{
    let header = match read_header(data) {
        Ok(h) => h,
        Err(e) => {
            return Err(e);
        },
    };
    match read_chunk_index(data, header.index_table_offset as usize) {
        Ok((entries, _)) => Ok(entries),
        Err(e) => Err(e),
    }
}

impl McsDecoder {
    /// True when the coordinate index lists every chunk and leads only to chunks with the
    /// key looked up.
    #[verifier::opaque]
    pub closed spec fn wf(&self) -> bool {
        &&& forall|i: int|
            0 <= i < self.chunks@.len() ==> #[trigger] self.lookup@.contains_key(
                chunk_key(self.chunks@[i].pos) as u64,
            )
        &&& forall|k: u64| #[trigger]
            self.lookup@.contains_key(k) ==> self.lookup@[k] < self.chunks@.len() && chunk_key(
                self.chunks@[self.lookup@[k] as int].pos,
            ) == k
    }

    /// Reads and checks the header and the index table of a whole file held in `data`.
    pub fn read_layout(data: &[u8]) -> (r: Result<(McsHeader, Vec<ChunkIndexEntry>), McStreamError>)
        ensures
            match parse_layout(data@) {
                Ok((h, es)) => r matches Ok((h2, v)) && h2 == h && v@ == es,
                Err(k) => r matches Err(e) && e.kind() == k,
            },
    {
        let len = data.len();
        if len < 20 {
            return Err(McStreamError::ValidationError("file is smaller than its header".to_string()));
        }
        match validate_file_size(len as u64) {
            Ok(()) => {},
            Err(e) => {
                return Err(e);
            },
        }
        let header = match read_header(data) {
            Ok(h) => h,
            Err(e) => {
                return Err(e);
            },
        };
        if header.index_table_offset as usize >= len {
            return Err(McStreamError::ValidationError("index offset lies beyond the file".to_string()));
        }
        let (entries, _end) = match read_chunk_index(data, header.index_table_offset as usize) {
            Ok(x) => x,
            Err(e) => {
                return Err(e);
            },
        };
        if entries.len() == 0 {
            return Err(McStreamError::ChunkIndexError);
        }
        if !check_bounds(&entries, len) {
            return Err(McStreamError::ValidationError("chunk data lies beyond the file".to_string()));
        }
        if !check_distinct(&entries) {
            return Err(McStreamError::ChunkIndexError);
        }
        Ok((header, entries))
    }

    /// Builds the decoder from a file's bytes, its header and index, and its decoded chunks:
    /// the digest covers the bytes up to the furthest chunk end, and the bytes after it are
    /// the signature when the header's flag bit 0 is set.
    pub fn from_parts(
        data: &[u8],
        header: McsHeader,
        entries: &Vec<ChunkIndexEntry>,
        chunks: Vec<ChunkData>,
    ) -> (r: McsDecoder)
        ensures
            r@ == assembled(data@, header, entries@, chunks_view(chunks@)),
            r.wf(),
    {
        proof {
            broadcast use vstd::std_specs::hash::axiom_u64_obeys_hash_table_key_model;
        }
        let mut lookup: HashMapWithView<u64, usize> = HashMapWithView::new();
        let mut i: usize = 0;
        while i < chunks.len()
            invariant
                i <= chunks@.len(),
                forall|j: int|
                    0 <= j < i ==> #[trigger] lookup@.contains_key(chunk_key(chunks@[j].pos) as u64),
                forall|k: u64| #[trigger]
                    lookup@.contains_key(k) ==> lookup@[k] < i && chunk_key(
                        chunks@[lookup@[k] as int].pos,
                    ) == k,
            decreases chunks@.len() - i,
        {
            let key = key_of(chunks[i].pos);
            let ghost before = lookup@;
            lookup.insert(key, i);
            proof {
                assert forall|k: u64| #[trigger] lookup@.contains_key(k) implies lookup@[k] < i + 1
                    && chunk_key(chunks@[lookup@[k] as int].pos) == k by {
                    if k != key {
                        assert(before.contains_key(k));
                    }
                }
            }
            i = i + 1;
        }
        let footer = footer_of(entries);
        let len = data.len();
        let content: usize = if footer < len as u64 {
            footer as usize
        } else {
            len
        };
        let hashed = copy_range(data, 0, content);
        let data_hash = calculate_sha256(hashed.as_slice());
        let signature = if content < len && header.flags % 2 == 1 {
            Some(copy_range(data, content, len))
        } else {
            None
        };
        let r = McsDecoder { header, chunks, lookup, data_hash, signature };
        proof {
            reveal(McsDecoder::wf);
        }
        r
    }

    /// Decodes a whole file held in `data`: validates the layout, decompresses and reads
    /// every chunk in index order, and fails on the first error; the outcome is exactly
    /// `decode_file`.
    pub fn from_bytes(data: &[u8]) -> (r: Result<McsDecoder, McStreamError>)
        ensures
            match decode_file(data@) {
                Ok(d) => r matches Ok(dec) && dec@ == d && dec.wf(),
                Err(k) => r matches Err(e) && e.kind() == k,
            },
    {
        let (header, entries) = match McsDecoder::read_layout(data) {
            Ok(x) => x,
            Err(e) => {
                return Err(e);
            },
        };
        let ghost es = entries@;
        let mut chunks: Vec<ChunkData> = Vec::new();
        let mut i: usize = 0;
        assert(chunks_view(chunks@) =~= Seq::<ChunkView>::empty());
        while i < entries.len()
            invariant
                parse_layout(data@) == Ok::<(McsHeader, Seq<ChunkIndexEntry>), ErrorKind>(
                    (header, es),
                ),
                es == entries@,
                entries_in_bounds(es, data@.len() as int),
                i <= es.len(),
                decode_chunks(data@, header.compression, es, i as nat) == Ok::<
                    Seq<ChunkView>,
                    ErrorKind,
                >(chunks_view(chunks@)),
            decreases es.len() - i,
        {
            let e = entries[i];
            assert(entry_end(es[i as int]) <= data@.len());
            let start = e.data_offset as usize;
            let end = e.data_offset as usize + e.compressed_size as usize;
            let bytes = copy_range(data, start, end);
            let pos = ChunkPos { x: e.chunk_x, z: e.chunk_z };
            let chunk = match decompress_chunk(bytes.as_slice(), header.compression, pos) {
                Ok(c) => c,
                Err(err) => {
                    proof {
                        {
                            lemma_decode_err_persists(
                                data@,
                                header.compression,
                                es,
                                (i + 1) as nat,
                                es.len(),
                            );
                        }
                    }
                    return Err(err);
                },
            };
            let ghost before = chunks@;
            chunks.push(chunk);
            assert(chunks_view(chunks@) =~= chunks_view(before).push(chunks@.last()@));
            i = i + 1;
        }
        Ok(McsDecoder::from_parts(data, header, &entries, chunks))
    }

    /// The decoded chunks, in index order.
    pub fn get_chunks(&self) -> (r: &Vec<ChunkData>)
        ensures
            chunks_view(r@) == self@.chunks,
    {
        &self.chunks
    }

    /// The chunk at coordinate `(x, z)`, if the file holds one, found through the
    /// coordinate index.
    pub fn get_chunk(&self, x: i32, z: i32) -> (r: Option<&ChunkData>)
        requires
            self.wf(),
        ensures
            r matches Some(c) ==> c.pos == (ChunkPos { x, z }) && exists|i: int|
                0 <= i < self@.chunks.len() && self@.chunks[i] == c@,
            r is None ==> forall|i: int|
                0 <= i < self@.chunks.len() ==> (#[trigger] self@.chunks[i]).pos != (ChunkPos {
                    x,
                    z,
                }),
    {
        proof {
            reveal(McsDecoder::wf);
        }
        let p = ChunkPos { x, z };
        let key = key_of(p);
        match self.lookup.get(&key) {
            Some(i) => {
                let i = *i;
                proof {
                    lemma_chunk_key_injective(self.chunks@[i as int].pos, p);
                    assert(self@.chunks[i as int] == self.chunks@[i as int]@);
                }
                Some(&self.chunks[i])
            },
            None => {
                proof {
                    assert forall|k: int| 0 <= k < self@.chunks.len() implies (
                    #[trigger] self@.chunks[k]).pos != p by {
                        assert(self@.chunks[k] == self.chunks@[k]@);
                        assert(self.lookup@.contains_key(chunk_key(self.chunks@[k].pos) as u64));
                    }
                }
                None
            },
        }
    }

    /// A copy of everything the decoder holds.
    pub fn to_mcs_data(&self) -> (r: McsData)
        ensures
            r.header == self@.header,
            chunks_view(r.chunks@) == self@.chunks,
            r.data_hash@ == self@.data_hash,
            nbt_view(r.signature) == self@.signature,
    {
        let mut chunks: Vec<ChunkData> = Vec::new();
        let mut i: usize = 0;
        while i < self.chunks.len()
            invariant
                i <= self.chunks@.len(),
                chunks@.len() == i,
                forall|k: int| 0 <= k < i ==> (#[trigger] chunks@[k])@ == self.chunks@[k]@,
            decreases self.chunks@.len() - i,
        {
            chunks.push(clone_chunk(&self.chunks[i]));
            i = i + 1;
        }
        assert(chunks_view(chunks@) =~= chunks_view(self.chunks@));
        let signature = match &self.signature {
            Some(v) => Some(copy_range(v.as_slice(), 0, v.len())),
            None => None,
        };
        McsData { header: self.header, chunks, data_hash: self.data_hash, signature }
    }

    /// The file header.
    pub fn header(&self) -> (r: &McsHeader)
        ensures
            *r == self@.header,
    {
        &self.header
    }

    /// The SHA-256 digest of the file up to the end of the chunk data.
    pub fn data_hash(&self) -> (r: &[u8; 32])
        ensures
            r@ == self@.data_hash,
    {
        &self.data_hash
    }

    /// The trailing signature, if the file carries one.
    pub fn signature(&self) -> (r: Option<&Vec<u8>>)
        ensures
            match r {
                Some(v) => self@.signature == Some(v@),
                None => self@.signature is None,
            },
    {
        match &self.signature {
            Some(v) => Some(v),
            None => None,
        }
    }

    /// The compression algorithm named by the header.
    pub fn compression_type(&self) -> (r: CompressionType)
        ensures
            self@.header.compression <= 3 ==> r.spec_id() == self@.header.compression,
    {
        match self.header.compression {
            0 => CompressionType::Uncompressed,
            1 => CompressionType::Zstandard,
            2 => CompressionType::LZ4,
            3 => CompressionType::Brotli,
            _ => CompressionType::Uncompressed,
        }
    }
}

/// A file cut right after its index table is rejected as inconsistent, when every chunk's
/// bytes were stored after the table and are not empty.
pub proof fn lemma_truncated_after_index_rejected(s: Seq<u8>, h: McsHeader, es: Seq<ChunkIndexEntry>)
    requires
        parse_layout(s) == Ok::<(McsHeader, Seq<ChunkIndexEntry>), ErrorKind>((h, es)),
        forall|k: int|
            0 <= k < es.len() ==> (#[trigger] es[k]).data_offset >= h.index_table_offset + 4 + 16
                * es.len() && es[k].compressed_size > 0,
    ensures
        decode_file(s.subrange(0, h.index_table_offset + 4 + 16 * es.len())) == Err::<
            DecodedFile,
            ErrorKind,
        >(ErrorKind::Validation),
{
    let e = h.index_table_offset + 4 + 16 * es.len();
    let t = s.subrange(0, e);
    let off = h.index_table_offset as int;
    assert(parse_header(s) == Ok::<McsHeader, ErrorKind>(h));
    assert(parse_index(s, off) == Ok::<Seq<ChunkIndexEntry>, ErrorKind>(es));
    assert(t.len() == e);
    assert(t.subrange(0, 8) =~= s.subrange(0, 8));
    assert(t[8] == s[8] && t[9] == s[9] && t[10] == s[10] && t[11] == s[11]);
    assert(t[12] == s[12] && t[13] == s[13] && t[14] == s[14] && t[15] == s[15]);
    assert(parse_header(t) == parse_header(s));
    assert(t[off] == s[off] && t[off + 1] == s[off + 1] && t[off + 2] == s[off + 2] && t[off + 3]
        == s[off + 3]);
    assert forall|i: int| 0 <= i < es.len() implies #[trigger] index_entry_at_eq(s, t, off + 4 + 16 * i) by {
        let q = off + 4 + 16 * i;
        assert(q + 16 <= e) by (nonlinear_arith)
            requires
                q == off + 4 + 16 * i,
                0 <= i < es.len(),
                e == off + 4 + 16 * es.len(),
        ;
        assert forall|j: int| 0 <= j < 16 implies #[trigger] t[q + j] == s[q + j] by {}
    }
    assert(parse_index(t, off) =~= parse_index(s, off)) by {
        let n = le32_at(s, off) as nat;
        assert(Seq::new(n, |i: int| crate::chunk::index_entry_at(t, off + 4 + 16 * i)) =~= Seq::new(
            n,
            |i: int| crate::chunk::index_entry_at(s, off + 4 + 16 * i),
        )) by {
            assert forall|i: int| 0 <= i < n implies #[trigger] crate::chunk::index_entry_at(t, off + 4 + 16 * i)
                == crate::chunk::index_entry_at(s, off + 4 + 16 * i) by {
                assert(index_entry_at_eq(s, t, off + 4 + 16 * i));
            }
        }
    }
    assert(es.len() > 0);
    assert(!entries_in_bounds(es, t.len() as int)) by {
        assert(entry_end(es[0]) > t.len());
    }
}

/// Both byte sequences hold the same 16-byte index record at `q`.
pub open spec fn index_entry_at_eq(s: Seq<u8>, t: Seq<u8>, q: int) -> bool {
    forall|j: int| 0 <= j < 16 ==> #[trigger] t[q + j] == s[q + j]
}

/// A file whose index-offset field points at or beyond its end is rejected as inconsistent.
pub proof fn lemma_index_offset_beyond_end_rejected(s: Seq<u8>, v: u32)
    requires
        parse_header(s) is Ok,
        s.len() <= u32::MAX,
        v >= s.len(),
    ensures
        decode_file(s.subrange(0, 12) + crate::bytes::le32(v as int) + s.subrange(16, s.len() as int))
            == Err::<DecodedFile, ErrorKind>(ErrorKind::Validation),
{
    let t = s.subrange(0, 12) + crate::bytes::le32(v as int) + s.subrange(16, s.len() as int);
    crate::bytes::lemma_le32_round_trip(v as int);
    assert(t.len() == s.len());
    assert(t.subrange(0, 8) =~= s.subrange(0, 8));
    assert(t[8] == s[8] && t[9] == s[9] && t[10] == s[10] && t[11] == s[11]);
    assert(le32_at(t, 12) == v);
}

} // verus!
