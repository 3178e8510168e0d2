use vstd::prelude::*;

pub mod bytes;
pub mod chunk;
pub mod compression;
pub mod error;
pub mod header;
pub mod nbt;
pub mod packer;
pub mod palette;
pub mod types;
pub mod unpacker;
pub mod utils;

pub use crate::error::McStreamError;
pub use crate::packer::McsEncoder;
pub use crate::unpacker::McsDecoder;

verus! {

/// Format version written into and accepted from the header (1.0).
pub const MCS_VERSION: u16 = 0x0100;

/// Size in bytes of the fixed file header.
pub const HEADER_SIZE: u32 = 20;

/// The compression algorithm applied to every chunk payload of a file.
#[derive(Debug, Clone, Copy, PartialEq, Eq, Structural)]
pub enum CompressionType {
    Uncompressed,
    Zstandard,
    LZ4,
    Brotli,
}

impl CompressionType {
    /// The identifier of the algorithm in the header.
    pub open spec fn spec_id(self) -> u8 {
        match self {
            CompressionType::Uncompressed => 0,
            CompressionType::Zstandard => 1,
            CompressionType::LZ4 => 2,
            CompressionType::Brotli => 3,
        }
    }

    /// The identifier of the algorithm in the header.
    pub fn id(self) -> (r: u8)
        ensures
            r == self.spec_id(),
    {
        match self {
            CompressionType::Uncompressed => 0,
            CompressionType::Zstandard => 1,
            CompressionType::LZ4 => 2,
            CompressionType::Brotli => 3,
        }
    }
}

} // verus!
