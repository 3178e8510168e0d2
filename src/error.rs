use vstd::prelude::*;

verus! {

/// Everything that can go wrong while building, writing or reading a stream.
#[derive(Debug, Clone, PartialEq, Eq)]
pub enum McStreamError {
    /// A storage failure, reported by whoever performed the I/O.
    Io(String),
    InvalidMagic,
    UnsupportedVersion(u16),
    UnsupportedCompression(u8),
    ChunkIndexError,
    CompressionError(String),
    DecompressionError(String),
    /// Block metadata that does not agree with the records announcing it.
    NbtError(String),
    PaletteError(String),
    FileTooLarge,
    CoordinateOutOfRange,
    AirInPalette,
    /// A structural consistency check failed (bounds, truncation, empty input).
    ValidationError(String),
}

/// The category of an error, without its message.
#[derive(Debug, Clone, Copy, PartialEq, Eq, Structural)]
pub enum ErrorKind {
    Io,
    InvalidMagic,
    UnsupportedVersion(u16),
    UnsupportedCompression(u8),
    ChunkIndex,
    Compression,
    Decompression,
    Nbt,
    Palette,
    FileTooLarge,
    CoordinateOutOfRange,
    AirInPalette,
    Validation,
}

impl McStreamError {
    /// The category of this error.
    pub open spec fn kind(&self) -> ErrorKind {
        match self {
            McStreamError::Io(_) => ErrorKind::Io,
            McStreamError::InvalidMagic => ErrorKind::InvalidMagic,
            McStreamError::UnsupportedVersion(v) => ErrorKind::UnsupportedVersion(*v),
            McStreamError::UnsupportedCompression(c) => ErrorKind::UnsupportedCompression(*c),
            McStreamError::ChunkIndexError => ErrorKind::ChunkIndex,
            McStreamError::CompressionError(_) => ErrorKind::Compression,
            McStreamError::DecompressionError(_) => ErrorKind::Decompression,
            McStreamError::NbtError(_) => ErrorKind::Nbt,
            McStreamError::PaletteError(_) => ErrorKind::Palette,
            McStreamError::FileTooLarge => ErrorKind::FileTooLarge,
            McStreamError::CoordinateOutOfRange => ErrorKind::CoordinateOutOfRange,
            McStreamError::AirInPalette => ErrorKind::AirInPalette,
            McStreamError::ValidationError(_) => ErrorKind::Validation,
        }
    }
}

} // verus!
