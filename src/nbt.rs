use crate::error::McStreamError;
use vstd::prelude::*;

verus! {

/// The root tag types of block metadata.
#[derive(Debug, Clone, Copy, PartialEq, Eq, Structural)]
pub enum NbtTagType {
    End,
    Byte,
    Short,
    Int,
    Long,
    Float,
    Double,
    ByteArray,
    String,
    List,
    Compound,
    IntArray,
    LongArray,
}

impl NbtTagType {
    /// The tag type with the given id, for ids 0 to 12.
    pub open spec fn spec_of_id(v: u8) -> NbtTagType {
        if v == 0 {
            NbtTagType::End
        } else if v == 1 {
            NbtTagType::Byte
        } else if v == 2 {
            NbtTagType::Short
        } else if v == 3 {
            NbtTagType::Int
        } else if v == 4 {
            NbtTagType::Long
        } else if v == 5 {
            NbtTagType::Float
        } else if v == 6 {
            NbtTagType::Double
        } else if v == 7 {
            NbtTagType::ByteArray
        } else if v == 8 {
            NbtTagType::String
        } else if v == 9 {
            NbtTagType::List
        } else if v == 10 {
            NbtTagType::Compound
        } else if v == 11 {
            NbtTagType::IntArray
        } else {
            NbtTagType::LongArray
        }
    }

    /// The tag type with the given id; ids above 12 are rejected.
    pub fn try_from(value: u8) -> (r: Result<NbtTagType, McStreamError>)
        ensures
            value <= 12 ==> r == Ok::<NbtTagType, McStreamError>(NbtTagType::spec_of_id(value)),
            value > 12 ==> (r matches Err(e) && e is NbtError),
    {
        match value {
            0 => Ok(NbtTagType::End),
            1 => Ok(NbtTagType::Byte),
            2 => Ok(NbtTagType::Short),
            3 => Ok(NbtTagType::Int),
            4 => Ok(NbtTagType::Long),
            5 => Ok(NbtTagType::Float),
            6 => Ok(NbtTagType::Double),
            7 => Ok(NbtTagType::ByteArray),
            8 => Ok(NbtTagType::String),
            9 => Ok(NbtTagType::List),
            10 => Ok(NbtTagType::Compound),
            11 => Ok(NbtTagType::IntArray),
            12 => Ok(NbtTagType::LongArray),
            _ => Err(McStreamError::NbtError("unknown tag type".to_string())),
        }
    }
}

/// Accepts empty metadata, or metadata whose first byte is a known tag type (0 to 12).
pub fn validate_nbt(data: &[u8]) -> (r: Result<(), McStreamError>)
    ensures
        r is Ok <==> data@.len() == 0 || data@[0] <= 12,
        r matches Err(e) ==> e is NbtError,
{
    if data.len() == 0 {
        return Ok(());
    }
    if data[0] <= 12 {
        Ok(())
    } else {
        Err(McStreamError::NbtError("unknown tag type".to_string()))
    }
}

/// The tag type of the metadata's first byte; empty metadata has none.
pub fn get_nbt_root_type(data: &[u8]) -> (r: Result<NbtTagType, McStreamError>)
    ensures
        data@.len() > 0 && data@[0] <= 12 ==> r == Ok::<NbtTagType, McStreamError>(
            NbtTagType::spec_of_id(data@[0]),
        ),
        !(data@.len() > 0 && data@[0] <= 12) ==> (r matches Err(e) && e is NbtError),
{
    if data.len() == 0 {
        return Err(McStreamError::NbtError("metadata is empty".to_string()));
    }
    NbtTagType::try_from(data[0])
}

} // verus!
