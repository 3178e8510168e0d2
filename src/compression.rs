use crate::error::McStreamError;
use crate::CompressionType;
use std::io::{Read, Write};
use vstd::prelude::*;

verus! {

/// Buffer size handed to the brotli encoder and decoder.
const BROTLI_BUFFER_SIZE: usize = 4096;

/// Brotli quality level.
const BROTLI_QUALITY: u32 = 4;

/// Brotli window size, as a power of two.
const BROTLI_LGWIN: u32 = 22;

/// Zstandard compression level.
const ZSTD_LEVEL: i32 = 3;

/// What the Zstandard stream encoder at level 3 produces for `data`.
pub uninterp spec fn zstd_compressed(data: Seq<u8>) -> Seq<u8>;

/// What the Zstandard stream decoder yields for `data`, or `None` when it rejects it.
pub uninterp spec fn zstd_decompressed(data: Seq<u8>) -> Option<Seq<u8>>;

/// What the LZ4 frame encoder with default settings produces for `data`.
pub uninterp spec fn lz4_compressed(data: Seq<u8>) -> Seq<u8>;

/// What the LZ4 frame decoder yields for `data`, or `None` when it rejects it.
pub uninterp spec fn lz4_decompressed(data: Seq<u8>) -> Option<Seq<u8>>;

/// What the brotli encoder (quality 4, window 22, 4096-byte buffer) produces for `data`.
pub uninterp spec fn brotli_compressed(data: Seq<u8>) -> Seq<u8>;

/// What the brotli decoder yields for `data`, or `None` when it rejects it.
pub uninterp spec fn brotli_decompressed(data: Seq<u8>) -> Option<Seq<u8>>;

/// The compressed form of `data` under an algorithm.
pub open spec fn compressed(alg: CompressionType, data: Seq<u8>) -> Seq<u8> {
    match alg {
        CompressionType::Uncompressed => data,
        CompressionType::Zstandard => zstd_compressed(data),
        CompressionType::LZ4 => lz4_compressed(data),
        CompressionType::Brotli => brotli_compressed(data),
    }
}

/// The decompressed form of `data` under an algorithm, or `None` when the decoder rejects it.
pub open spec fn decompressed(alg: CompressionType, data: Seq<u8>) -> Option<Seq<u8>> {
    match alg {
        CompressionType::Uncompressed => Some(data),
        CompressionType::Zstandard => zstd_decompressed(data),
        CompressionType::LZ4 => lz4_decompressed(data),
        CompressionType::Brotli => brotli_decompressed(data),
    }
}

/// Relies on `zstd::Encoder` (`new`, `write_all`, `finish`) writing into a `Vec`, which has
/// no failing path at level 3: the frame it produces depends on the input alone, is never
/// empty (it starts with the frame magic) and decodes back to the input.
#[verifier::external_body]
fn zstd_compress(data: &[u8]) -> (r: Result<Vec<u8>, String>)
    ensures
        r is Ok,
        r matches Ok(c) ==> c@ == zstd_compressed(data@),
        r matches Ok(c) ==> zstd_decompressed(c@) == Some(data@),
        r matches Ok(c) ==> c@.len() > 0,
{
    let mut out = Vec::new();
    let mut enc = match zstd::Encoder::new(&mut out, ZSTD_LEVEL) {
        Ok(enc) => enc,
        Err(e) => return Err(e.to_string()),
    };
    if let Err(e) = enc.write_all(data) {
        return Err(e.to_string());
    }
    if let Err(e) = enc.finish() {
        return Err(e.to_string());
    }
    Ok(out)
}

/// Relies on `zstd::Decoder` (`new`, `read_to_end`): it yields the decoding of the input and
/// fails exactly when the decoder rejects the input.
#[verifier::external_body]
fn zstd_decompress(data: &[u8]) -> (r: Result<Vec<u8>, String>)
    ensures
        r matches Ok(v) ==> zstd_decompressed(data@) == Some(v@),
        r is Err ==> zstd_decompressed(data@) is None,
{
    let mut out = Vec::new();
    let mut dec = match zstd::Decoder::new(data) {
        Ok(dec) => dec,
        Err(e) => return Err(e.to_string()),
    };
    match dec.read_to_end(&mut out) {
        Ok(_) => Ok(out),
        Err(e) => Err(e.to_string()),
    }
}

/// Relies on `lz4::EncoderBuilder::build`, `write_all` and `Encoder::finish` writing into a
/// `Vec`, which do not fail there: the frame depends on the input alone, is never empty (it
/// starts with the frame header) and decodes back to the input.
#[verifier::external_body]
fn lz4_compress(data: &[u8]) -> (r: Result<Vec<u8>, String>)
    ensures
        r is Ok,
        r matches Ok(c) ==> c@ == lz4_compressed(data@),
        r matches Ok(c) ==> lz4_decompressed(c@) == Some(data@),
        r matches Ok(c) ==> c@.len() > 0,
{
    let mut out = Vec::new();
    let mut enc = match lz4::EncoderBuilder::new().build(&mut out) {
        Ok(enc) => enc,
        Err(e) => return Err(e.to_string()),
    };
    if let Err(e) = enc.write_all(data) {
        return Err(e.to_string());
    }
    if let (_, Err(e)) = enc.finish() {
        return Err(e.to_string());
    }
    Ok(out)
}

/// Relies on `lz4::Decoder` (`new`, `read_to_end`): it yields the decoding of the input and
/// fails exactly when the decoder rejects the input.
#[verifier::external_body]
fn lz4_decompress(data: &[u8]) -> (r: Result<Vec<u8>, String>)
    ensures
        r matches Ok(v) ==> lz4_decompressed(data@) == Some(v@),
        r is Err ==> lz4_decompressed(data@) is None,
{
    let mut out = Vec::new();
    let mut dec = match lz4::Decoder::new(data) {
        Ok(dec) => dec,
        Err(e) => return Err(e.to_string()),
    };
    match dec.read_to_end(&mut out) {
        Ok(_) => Ok(out),
        Err(e) => Err(e.to_string()),
    }
}

/// Relies on `brotli::CompressorWriter` (`new`, `write_all`, `into_inner`, which finishes
/// the stream) writing into a `Vec`, which does not fail: the stream depends on the input
/// alone, is never empty (it ends with the last-block marker) and decodes back to it.
#[verifier::external_body]
fn brotli_compress(data: &[u8]) -> (r: Result<Vec<u8>, String>)
    ensures
        r is Ok,
        r matches Ok(c) ==> c@ == brotli_compressed(data@),
        r matches Ok(c) ==> brotli_decompressed(c@) == Some(data@),
        r matches Ok(c) ==> c@.len() > 0,
{
    let mut out = Vec::new();
    let mut enc = brotli::CompressorWriter::new(
        &mut out,
        BROTLI_BUFFER_SIZE,
        BROTLI_QUALITY,
        BROTLI_LGWIN,
    );
    if let Err(e) = enc.write_all(data) {
        return Err(e.to_string());
    }
    enc.into_inner();
    Ok(out)
}

/// Relies on `brotli::Decompressor` (`new`, `read_to_end`): it yields the decoding of the
/// input and fails exactly when the decoder rejects the input.
#[verifier::external_body]
fn brotli_decompress(data: &[u8]) -> (r: Result<Vec<u8>, String>)
    ensures
        r matches Ok(v) ==> brotli_decompressed(data@) == Some(v@),
        r is Err ==> brotli_decompressed(data@) is None,
{
    let mut out = Vec::new();
    let mut dec = brotli::Decompressor::new(data, BROTLI_BUFFER_SIZE);
    match dec.read_to_end(&mut out) {
        Ok(_) => Ok(out),
        Err(e) => Err(e.to_string()),
    }
}

/// A copy of `data`.
fn copy_bytes(data: &[u8]) -> (r: Vec<u8>)
    ensures
        r@ == data@,
{
    let mut out: Vec<u8> = Vec::new();
    crate::bytes::push_all(&mut out, data);
    out
}

/// Compresses `data` with the given algorithm; `Uncompressed` copies it unchanged. It always
/// succeeds, and the result decompresses back to `data`.
pub fn compress_data(data: &[u8], compression_type: CompressionType) -> (r: Result<
    Vec<u8>,
    McStreamError,
>)
    ensures
        r matches Ok(c) && c@ == compressed(compression_type, data@) && decompressed(
            compression_type,
            c@,
        ) == Some(data@) && (c@.len() > 0 || data@.len() == 0),
{
    let res = match compression_type {
        CompressionType::Uncompressed => {
            return Ok(copy_bytes(data));
        },
        CompressionType::Zstandard => zstd_compress(data),
        CompressionType::LZ4 => lz4_compress(data),
        CompressionType::Brotli => brotli_compress(data),
    };
    match res {
        Ok(c) => Ok(c),
        Err(msg) => Err(McStreamError::CompressionError(msg)),
    }
}

/// Decompresses `compressed_data` with the given algorithm; `Uncompressed` copies it. It
/// fails exactly when the decoder rejects the input.
pub fn decompress_data(compressed_data: &[u8], compression_type: CompressionType) -> (r: Result<
    Vec<u8>,
    McStreamError,
>)
    ensures
        r is Ok <==> decompressed(compression_type, compressed_data@) is Some,
        r matches Ok(v) ==> decompressed(compression_type, compressed_data@) == Some(v@),
        r matches Err(e) ==> e is DecompressionError,
{
    let res = match compression_type {
        CompressionType::Uncompressed => {
            return Ok(copy_bytes(compressed_data));
        },
        CompressionType::Zstandard => zstd_decompress(compressed_data),
        CompressionType::LZ4 => lz4_decompress(compressed_data),
        CompressionType::Brotli => brotli_decompress(compressed_data),
    };
    match res {
        Ok(v) => Ok(v),
        Err(msg) => Err(McStreamError::DecompressionError(msg)),
    }
}

/// The algorithm with the given header id.
pub open spec fn compression_of_id(id: u8) -> CompressionType {
    if id == 0 {
        CompressionType::Uncompressed
    } else if id == 1 {
        CompressionType::Zstandard
    } else if id == 2 {
        CompressionType::LZ4
    } else {
        CompressionType::Brotli
    }
}

/// The algorithm with the given header id; ids above 3 are unsupported.
pub fn compression_type_from_u8(value: u8) -> (r: Result<CompressionType, McStreamError>)
    ensures
        value <= 3 ==> r == Ok::<CompressionType, McStreamError>(compression_of_id(value)),
        value <= 3 ==> compression_of_id(value).spec_id() == value,
        value > 3 ==> r == Err::<CompressionType, McStreamError>(
            McStreamError::UnsupportedCompression(value),
        ),
{
    match value {
        0 => Ok(CompressionType::Uncompressed),
        1 => Ok(CompressionType::Zstandard),
        2 => Ok(CompressionType::LZ4),
        3 => Ok(CompressionType::Brotli),
        _ => Err(McStreamError::UnsupportedCompression(value)),
    }
}

} // verus!
