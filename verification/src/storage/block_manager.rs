//! The cache of a field's persisted blocks, addressed by block ordinal.

use vstd::prelude::*;

use crate::storage::field::FieldEntry;
use crate::storage::field_block::{decoded_as, FieldStorageBlock};
use crate::wire_protocol::DataType;

verus! {

/// The persisted blocks of a field that are in memory. Slot `i` stands for
/// the block with ordinal `i`; an empty slot is a block that has not been
/// read from disk yet.
#[derive(Debug)]
pub struct BlockManager {
    pub blocks: Vec<Option<FieldStorageBlock>>,
}

/// The entries of a slot, if it is filled.
pub open spec fn slot_entries(slot: Option<FieldStorageBlock>) -> Option<Seq<FieldEntry>> {
    match slot {
        Some(block) => Some(block.entries@),
        None => None,
    }
}

impl View for BlockManager {
    type V = Seq<Option<Seq<FieldEntry>>>;

    open spec fn view(&self) -> Seq<Option<Seq<FieldEntry>>> {
        Seq::new(self.blocks@.len(), |i: int| slot_entries(self.blocks@[i]))
    }
}

/// The cache after the bytes of the block with the given ordinal arrive from
/// disk, read for a field of the given type: an empty slot within the cache
/// takes the block, or an empty block where the bytes are refused; a filled
/// slot, and an ordinal past the cache, change nothing.
pub open spec fn after_load(
    cache: Seq<Option<Seq<FieldEntry>>>,
    ordinal: int,
    bytes: Seq<u8>,
    data_type: DataType,
) -> Seq<Option<Seq<FieldEntry>>> {
    if 0 <= ordinal < cache.len() && cache[ordinal] is None {
        cache.update(
            ordinal,
            Some(
                match decoded_as(bytes, data_type) {
                    Ok(entries) => entries,
                    Err(_) => Seq::empty(),
                },
            ),
        )
    } else {
        cache
    }
}

impl BlockManager {
    /// A cache of `slots` empty slots.
    pub fn new(slots: usize) -> (manager: BlockManager)
        ensures
            manager@.len() == slots,
            forall|i: int| 0 <= i < slots ==> (#[trigger] manager@[i]) is None,
    {
        let mut blocks: Vec<Option<FieldStorageBlock>> = Vec::new();
        let mut i: usize = 0;
        while i < slots
            invariant
                i <= slots,
                blocks@.len() == i,
                forall|j: int| 0 <= j < i ==> (#[trigger] blocks@[j]) is None,
            decreases slots - i,
        {
            blocks.push(None);
            i += 1;
        }
        BlockManager { blocks }
    }

    /// Whether the block with the given ordinal is in memory.
    pub fn is_cached(&self, block_offset: usize) -> (r: bool)
        ensures
            r == (block_offset < self@.len() && self@[block_offset as int] is Some),
    {
        block_offset < self.blocks.len() && self.blocks[block_offset].is_some()
    }

    /// Takes the bytes of the block with the given ordinal as they came from
    /// disk, unless the block is in memory already.
    pub fn load(&mut self, block_offset: usize, bytes: &[u8], data_type: DataType)
        ensures
            final(self)@ == after_load(old(self)@, block_offset as int, bytes@, data_type),
    {
        if block_offset < self.blocks.len() && self.blocks[block_offset].is_none() {
            let block = FieldStorageBlock::load(bytes, data_type);
            self.blocks.set(block_offset, Some(block));
            assert(self@ =~= after_load(old(self)@, block_offset as int, bytes@, data_type));
        } else {
            assert(self@ =~= old(self)@);
        }
    }

    /// Adds a slot that holds the block just written, which gets the next ordinal.
    pub fn push(&mut self, block: FieldStorageBlock)
        ensures
            final(self)@ == old(self)@.push(Some(block.entries@)),
    {
        self.blocks.push(Some(block));
        assert(self@ =~= old(self)@.push(Some(block.entries@)));
    }
}

} // verus!
