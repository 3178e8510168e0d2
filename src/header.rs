use crate::bytes::{be16, be16_at, le32, le32_at, push_be16, push_le32, put_le32, read_be16, read_le32};
use crate::error::{ErrorKind, McStreamError};
use crate::types::McsHeader;
use crate::{CompressionType, MCS_VERSION};
use vstd::prelude::*;

verus! {

/// Byte offset of the index-table offset field inside the header.
pub const INDEX_OFFSET_FIELD: usize = 12;

/// The 8-byte magic tag "MCSTRM" followed by two zero bytes.
pub open spec fn magic() -> Seq<u8> {
    seq![77u8, 67u8, 83u8, 84u8, 82u8, 77u8, 0u8, 0u8]
}

/// The header on the wire.
pub open spec fn header_bytes(compression: u8, flags: u8, index_offset: u32) -> Seq<u8> {
    magic() + be16(MCS_VERSION as int) + seq![compression, flags] + le32(index_offset as int)
        + seq![0u8, 0u8, 0u8, 0u8]
}

/// The flags byte for a file with or without a trailing signature.
pub open spec fn flags_for(has_signature: bool) -> u8 {
    if has_signature {
        1
    } else {
        0
    }
}

/// Reads the header at the start of `s`, checking magic, version and compression id.
pub open spec fn parse_header(s: Seq<u8>) -> Result<McsHeader, ErrorKind> {
    if s.len() < 20 {
        Err(ErrorKind::Validation)
    } else if s.subrange(0, 8) != magic() {
        Err(ErrorKind::InvalidMagic)
    } else if be16_at(s, 8) != MCS_VERSION {
        Err(ErrorKind::UnsupportedVersion(be16_at(s, 8) as u16))
    } else if s[10] > 3 {
        Err(ErrorKind::UnsupportedCompression(s[10]))
    } else {
        Ok(
            McsHeader {
                version: MCS_VERSION,
                compression: s[10],
                flags: s[11],
                index_table_offset: le32_at(s, 12) as u32,
            },
        )
    }
}

/// Appends the 20-byte header with a placeholder index offset of zero.
pub fn write_header(out: &mut Vec<u8>, compression: CompressionType, has_signature: bool)
    ensures
        final(out)@ == old(out)@ + header_bytes(compression.spec_id(), flags_for(has_signature), 0),
{
    let ghost start = out@;
    out.push(77);
    out.push(67);
    out.push(83);
    out.push(84);
    out.push(82);
    out.push(77);
    out.push(0);
    out.push(0);
    push_be16(out, MCS_VERSION);
    out.push(compression.id());
    out.push(if has_signature {
        1u8
    } else {
        0u8
    });
    push_le32(out, 0);
    out.push(0);
    out.push(0);
    out.push(0);
    out.push(0);
    assert(out@ =~= start + header_bytes(compression.spec_id(), flags_for(has_signature), 0));
}

/// Reads and checks the header at the start of `data`.
pub fn read_header(data: &[u8]) -> (r: Result<McsHeader, McStreamError>)
    ensures
        match parse_header(data@) {
            Ok(h) => r == Ok::<McsHeader, McStreamError>(h),
            Err(k) => r matches Err(e) && e.kind() == k,
        },
{
    if data.len() < 20 {
        return Err(McStreamError::ValidationError("header is truncated".to_string()));
    }
    if !(data[0] == 77 && data[1] == 67 && data[2] == 83 && data[3] == 84 && data[4] == 82
        && data[5] == 77 && data[6] == 0 && data[7] == 0) {
        assert(data@.subrange(0, 8) != magic()) by {
            if data@.subrange(0, 8) == magic() {
                assert(data@[0] == data@.subrange(0, 8)[0]);
                assert(data@[1] == data@.subrange(0, 8)[1]);
                assert(data@[2] == data@.subrange(0, 8)[2]);
                assert(data@[3] == data@.subrange(0, 8)[3]);
                assert(data@[4] == data@.subrange(0, 8)[4]);
                assert(data@[5] == data@.subrange(0, 8)[5]);
                assert(data@[6] == data@.subrange(0, 8)[6]);
                assert(data@[7] == data@.subrange(0, 8)[7]);
            }
        }
        return Err(McStreamError::InvalidMagic);
    }
    assert(data@.subrange(0, 8) =~= magic());
    let version = read_be16(data, 8);
    if version != MCS_VERSION {
        return Err(McStreamError::UnsupportedVersion(version));
    }
    let compression = data[10];
    if compression > 3 {
        return Err(McStreamError::UnsupportedCompression(compression));
    }
    let flags = data[11];
    let index_table_offset = read_le32(data, 12);
    Ok(McsHeader { version, compression, flags, index_table_offset })
}

/// Overwrites the index-table offset field (bytes 12 to 15) of a header already written.
pub fn update_index_table_offset(out: &mut Vec<u8>, offset: u32)
    requires
        old(out)@.len() >= 20,
    ensures
        final(out)@ == old(out)@.subrange(0, 12) + le32(offset as int) + old(out)@.subrange(
            16,
            old(out)@.len() as int,
        ),
{
    put_le32(out, INDEX_OFFSET_FIELD, offset);
}

/// A header written by `write_header` and patched with `offset` reads back with its fields.
pub proof fn lemma_header_round_trip(s: Seq<u8>, compression: u8, flags: u8, offset: u32)
    requires
        compression <= 3,
        s.len() >= 20,
        s.subrange(0, 20) == header_bytes(compression, flags, offset),
    ensures
        parse_header(s) == Ok::<McsHeader, ErrorKind>(
            McsHeader {
                version: MCS_VERSION,
                compression,
                flags,
                index_table_offset: offset,
            },
        ),
{
    let t = header_bytes(compression, flags, offset);
    assert forall|j: int| 0 <= j < 20 implies s[j] == #[trigger] t[j] by {
        assert(s[j] == s.subrange(0, 20)[j]);
    }
    assert(s.subrange(0, 8) =~= magic());
    crate::bytes::lemma_be16_round_trip(MCS_VERSION as int);
    crate::bytes::lemma_le32_round_trip(offset as int);
    let v = be16(MCS_VERSION as int);
    let o = le32(offset as int);
    assert(t[8] == v[0] && t[9] == v[1]);
    assert(t[10] == compression && t[11] == flags);
    assert(s[10] == compression && s[11] == flags);
    assert(t[12] == o[0] && t[13] == o[1] && t[14] == o[2] && t[15] == o[3]);
    assert(be16_at(s, 8) == be16_at(v, 0));
    assert(le32_at(s, 12) == le32_at(o, 0));
}

} // verus!
