//! A block of typed values in its packed form.

use vstd::prelude::*;

use crate::storage::block_bool::{
    deserialize_bools, deserialize_floats, float_records, floats_of, packed, serialize_bools,
    serialize_floats, unpacked,
};
use crate::storage::field_block::BlockError;
use crate::wire_protocol::DataType;

verus! {

/// The values of a block, all of one type. Floats are given by their bits.
#[derive(Debug, PartialEq)]
pub enum StorageBlock {
    Bool(Vec<Option<bool>>),
    Float64(Vec<Option<u64>>),
}

/// The packed form of a block.
pub open spec fn block_form(block: StorageBlock) -> Seq<u8> {
    match block {
        StorageBlock::Bool(values) => packed(values@),
        StorageBlock::Float64(values) => float_records(values@, values@.len() as int),
    }
}

impl StorageBlock {
    /// The packed form of the block.
    pub fn serialize(&self) -> (buf: Vec<u8>)
        ensures
            buf@ == block_form(*self),
    {
        match self {
            StorageBlock::Bool(values) => serialize_bools(values),
            StorageBlock::Float64(values) => serialize_floats(values),
        }
    }

    /// Unpacks a block of the given type. There is no packed form for
    /// timestamps: that type is refused as a mismatch.
    pub fn deserialize_from(buffer: &[u8], data_type: DataType) -> (r: Result<
        StorageBlock,
        BlockError,
    >)
        ensures
            match data_type {
                DataType::Bool => r matches Ok(StorageBlock::Bool(values)) && values@ == unpacked(
                    buffer@,
                ),
                DataType::Float => r matches Ok(StorageBlock::Float64(values)) && values@
                    == floats_of(buffer@),
                DataType::Timestamp => r == Err::<StorageBlock, BlockError>(
                    BlockError::TypeMismatch,
                ),
            },
    {
        match data_type {
            DataType::Float => Ok(StorageBlock::Float64(deserialize_floats(buffer))),
            DataType::Bool => Ok(StorageBlock::Bool(deserialize_bools(buffer))),
            DataType::Timestamp => Err(BlockError::TypeMismatch),
        }
    }
}

} // verus!
