use vstd::prelude::*;

verus! {

/// Two bytes holding `v`, least significant first.
pub open spec fn le16(v: int) -> Seq<u8> {
    seq![(v % 256) as u8, ((v / 256) % 256) as u8]
}

/// Two bytes holding `v`, most significant first.
pub open spec fn be16(v: int) -> Seq<u8> {
    seq![((v / 256) % 256) as u8, (v % 256) as u8]
}

/// Four bytes holding `v`, least significant first.
pub open spec fn le32(v: int) -> Seq<u8> {
    seq![
        (v % 256) as u8,
        ((v / 256) % 256) as u8,
        ((v / 65536) % 256) as u8,
        ((v / 16777216) % 256) as u8,
    ]
}

/// The little-endian 16-bit value stored at `p`.
pub open spec fn le16_at(s: Seq<u8>, p: int) -> int {
    s[p] + 256 * s[p + 1]
}

/// The big-endian 16-bit value stored at `p`.
pub open spec fn be16_at(s: Seq<u8>, p: int) -> int {
    256 * s[p] + s[p + 1]
}

/// The little-endian 32-bit value stored at `p`.
pub open spec fn le32_at(s: Seq<u8>, p: int) -> int {
    s[p] + 256 * s[p + 1] + 65536 * s[p + 2] + 16777216 * s[p + 3]
}

/// The two's complement bit pattern of a signed 32-bit value, as an unsigned number.
pub open spec fn i32_bits(v: i32) -> int {
    if v >= 0 {
        v as int
    } else {
        v + 4294967296
    }
}

/// The signed 32-bit value whose two's complement bit pattern is `u`.
pub open spec fn bits_i32(u: int) -> i32 {
    if u < 2147483648 {
        u as i32
    } else {
        (u - 4294967296) as i32
    }
}

pub proof fn lemma_le16_round_trip(v: int)
    requires
        0 <= v < 65536,
    ensures
        le16(v).len() == 2,
        le16_at(le16(v), 0) == v,
{
}

pub proof fn lemma_be16_round_trip(v: int)
    requires
        0 <= v < 65536,
    ensures
        be16(v).len() == 2,
        be16_at(be16(v), 0) == v,
{
}

pub proof fn lemma_le32_round_trip(v: int)
    requires
        0 <= v < 4294967296,
    ensures
        le32(v).len() == 4,
        le32_at(le32(v), 0) == v,
{
}

pub proof fn lemma_i32_bits_round_trip(v: i32)
    ensures
        0 <= i32_bits(v) < 4294967296,
        bits_i32(i32_bits(v)) == v,
{
}

/// Appends `v` as two little-endian bytes.
pub fn push_le16(out: &mut Vec<u8>, v: u16)
    ensures
        final(out)@ == old(out)@ + le16(v as int),
{
    out.push((v % 256) as u8);
    out.push((v / 256) as u8);
    assert(final(out)@ =~= old(out)@ + le16(v as int));
}

/// Appends `v` as two big-endian bytes.
pub fn push_be16(out: &mut Vec<u8>, v: u16)
    ensures
        final(out)@ == old(out)@ + be16(v as int),
{
    out.push((v / 256) as u8);
    out.push((v % 256) as u8);
    assert(final(out)@ =~= old(out)@ + be16(v as int));
}

/// Appends `v` as four little-endian bytes.
pub fn push_le32(out: &mut Vec<u8>, v: u32)
    ensures
        final(out)@ == old(out)@ + le32(v as int),
{
    out.push((v % 256) as u8);
    out.push(((v / 256) % 256) as u8);
    out.push(((v / 65536) % 256) as u8);
    out.push((v / 16777216) as u8);
    assert(final(out)@ =~= old(out)@ + le32(v as int));
}

/// Appends the two's complement bits of `v` as four little-endian bytes.
pub fn push_i32_le(out: &mut Vec<u8>, v: i32)
    ensures
        final(out)@ == old(out)@ + le32(i32_bits(v)),
{
    let u: u32 = if v >= 0 {
        v as u32
    } else {
        (v as i64 + 4294967296i64) as u32
    };
    push_le32(out, u);
}

/// Appends every byte of `src`.
pub fn push_all(out: &mut Vec<u8>, src: &[u8])
    ensures
        final(out)@ == old(out)@ + src@,
{
    let ghost start = out@;
    let mut i: usize = 0;
    while i < src.len()
        invariant
            i <= src@.len(),
            out@ == start + src@.subrange(0, i as int),
        decreases src@.len() - i,
    {
        out.push(src[i]);
        i = i + 1;
        assert(out@ =~= start + src@.subrange(0, i as int));
    }
    assert(src@.subrange(0, src@.len() as int) =~= src@);
}

/// Overwrites four bytes at `pos` with `v`, little-endian.
pub fn put_le32(out: &mut Vec<u8>, pos: usize, v: u32)
    requires
        pos + 4 <= old(out)@.len(),
    ensures
        final(out)@ == old(out)@.subrange(0, pos as int) + le32(v as int) + old(out)@.subrange(
            pos + 4,
            old(out)@.len() as int,
        ),
{
    let _len = out.len();
    let at1: usize = pos + 1;
    let at2: usize = pos + 2;
    let at3: usize = pos + 3;
    out.set(pos, (v % 256) as u8);
    out.set(at1, ((v / 256) % 256) as u8);
    out.set(at2, ((v / 65536) % 256) as u8);
    out.set(at3, (v / 16777216) as u8);
    assert(final(out)@ =~= old(out)@.subrange(0, pos as int) + le32(v as int) + old(
        out,
    )@.subrange(pos + 4, old(out)@.len() as int));
}

/// The little-endian 16-bit value at `pos`.
pub fn read_le16(data: &[u8], pos: usize) -> (r: u16)
    requires
        pos + 2 <= data@.len(),
    ensures
        r == le16_at(data@, pos as int),
{
    data[pos] as u16 + (data[pos + 1] as u16) * 256
}

/// The big-endian 16-bit value at `pos`.
pub fn read_be16(data: &[u8], pos: usize) -> (r: u16)
    requires
        pos + 2 <= data@.len(),
    ensures
        r == be16_at(data@, pos as int),
{
    (data[pos] as u16) * 256 + data[pos + 1] as u16
}

/// The little-endian 32-bit value at `pos`.
pub fn read_le32(data: &[u8], pos: usize) -> (r: u32)
    requires
        pos + 4 <= data@.len(),
    ensures
        r == le32_at(data@, pos as int),
{
    data[pos] as u32 + (data[pos + 1] as u32) * 256 + (data[pos + 2] as u32) * 65536 + (data[pos
        + 3] as u32) * 16777216
}

/// The signed 32-bit value whose little-endian bits are at `pos`.
pub fn read_i32_le(data: &[u8], pos: usize) -> (r: i32)
    requires
        pos + 4 <= data@.len(),
    ensures
        r == bits_i32(le32_at(data@, pos as int)),
{
    let u = read_le32(data, pos);
    if u < 2147483648 {
        u as i32
    } else {
        (u as i64 - 4294967296i64) as i32
    }
}

/// A copy of the bytes in `[start, end)`.
pub fn copy_range(data: &[u8], start: usize, end: usize) -> (r: Vec<u8>)
    requires
        start <= end <= data@.len(),
    ensures
        r@ == data@.subrange(start as int, end as int),
{
    let mut r: Vec<u8> = Vec::new();
    let mut i: usize = start;
    while i < end
        invariant
            start <= i <= end <= data@.len(),
            r@ == data@.subrange(start as int, i as int),
        decreases end - i,
    {
        r.push(data[i]);
        i = i + 1;
        assert(r@ =~= data@.subrange(start as int, i as int));
    }
    r
}

} // verus!
