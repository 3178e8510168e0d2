use crate::bytes::{copy_range, le16, le16_at, push_all, push_le16, read_le16};
use crate::error::McStreamError;
use sha2::{Digest, Sha256};
use vstd::prelude::*;

verus! {

/// The SHA-256 digest of `data`.
pub uninterp spec fn sha256_of(data: Seq<u8>) -> Seq<u8>;

/// Relies on `sha2::Sha256::digest`: the 32-byte SHA-256 digest of the input.
#[verifier::external_body]
pub fn calculate_sha256(data: &[u8]) -> (r: [u8; 32])
    ensures
        r@ == sha256_of(data@),
{
    Sha256::digest(data).into()
}

/// True when `expected_hash` is the SHA-256 digest of `data`.
pub fn verify_file_hash(data: &[u8], expected_hash: &[u8; 32]) -> (r: bool)
    ensures
        r == (sha256_of(data@) == expected_hash@),
{
    let actual = calculate_sha256(data);
    hashes_equal(&actual, expected_hash)
}

/// True when two digests hold the same bytes.
fn hashes_equal(a: &[u8; 32], b: &[u8; 32]) -> (r: bool)
    ensures
        r == (a@ == b@),
{
    let mut i: usize = 0;
    while i < 32
        invariant
            i <= 32,
            a@.len() == 32,
            b@.len() == 32,
            forall|k: int| 0 <= k < i ==> a@[k] == b@[k],
        decreases 32 - i,
    {
        if a[i] != b[i] {
            return false;
        }
        i = i + 1;
    }
    assert(a@ =~= b@);
    true
}

/// Rejects a file larger than 4 GiB, the reach of the format's 32-bit offsets.
pub fn validate_file_size(size: u64) -> (r: Result<(), McStreamError>)
    ensures
        r is Ok <==> size <= u32::MAX,
        r matches Err(e) ==> e is FileTooLarge,
{
    if size > 0xFFFF_FFFF {
        return Err(McStreamError::FileTooLarge);
    }
    Ok(())
}

/// Reads a signature stored with a 16-bit little-endian length prefix at `pos`, returning it
/// and the position just after it.
pub fn read_signature(data: &[u8], pos: usize) -> (r: Result<(Vec<u8>, usize), McStreamError>)
    ensures
        pos + 2 <= data@.len() && pos + 2 + le16_at(data@, pos as int) <= data@.len() ==> (r
            matches Ok((sig, end)) && end == pos + 2 + le16_at(data@, pos as int) && sig@
            == data@.subrange(pos + 2, end as int)),
        !(pos + 2 <= data@.len() && pos + 2 + le16_at(data@, pos as int) <= data@.len()) ==> (r
            matches Err(e) && e is ValidationError),
{
    if pos > data.len() || data.len() - pos < 2 {
        return Err(McStreamError::ValidationError("signature length is truncated".to_string()));
    }
    let n = read_le16(data, pos);
    if data.len() - pos - 2 < n as usize {
        return Err(McStreamError::ValidationError("signature is truncated".to_string()));
    }
    let end = pos + 2 + n as usize;
    Ok((copy_range(data, pos + 2, end), end))
}

/// Appends a signature with a 16-bit little-endian length prefix; longer signatures are
/// rejected and nothing is written.
pub fn write_signature(out: &mut Vec<u8>, signature: &[u8]) -> (r: Result<(), McStreamError>)
    ensures
        r is Ok <==> signature@.len() <= 65535,
        r is Ok ==> final(out)@ == old(out)@ + le16(signature@.len() as int) + signature@,
        r matches Err(e) ==> e is ValidationError && final(out)@ == old(out)@,
{
    if signature.len() > 65535 {
        return Err(McStreamError::ValidationError("signature is too long".to_string()));
    }
    push_le16(out, signature.len() as u16);
    push_all(out, signature);
    Ok(())
}

} // verus!
