use vstd::prelude::*;

use std::sync::Arc;

use crate::block::iterator::{block_sorted, entry_key, entry_value, lower_bound, BlockIterator};
use crate::block::Block;
use crate::table::{block_index_of, SsTable};

verus! {

/// Walks the entries of a table block by block. The blocks live in the table's
/// file, so the iterator asks for them: `next` says which block to load, and
/// `enter_block` hands it over.
pub struct SsTableIterator {
    table: Arc<SsTable>,
    block_iterator: BlockIterator,
    block_idx: usize,
}

impl SsTableIterator {
    pub closed spec fn table(&self) -> SsTable {
        *self.table
    }

    /// The index of the block being walked.
    pub closed spec fn block_index(&self) -> int {
        self.block_idx as int
    }

    /// The block being walked.
    pub closed spec fn block(&self) -> Block {
        self.block_iterator.block()
    }

    /// The position of the current entry in the block being walked.
    pub closed spec fn entry_index(&self) -> int {
        self.block_iterator.index()
    }

    pub closed spec fn wf(&self) -> bool {
        self.block_iterator.wf()
    }

    /// Creates an iterator on the first entry of `first_block`, block `0` of `table`.
    pub fn create_and_seek_to_first(table: Arc<SsTable>, first_block: Arc<Block>) -> (it: Self)
        ensures
            it.wf(),
            it.table() == *table,
            it.block() == *first_block,
            it.block_index() == 0,
            it.entry_index() == 0,
    {
        let block_iterator = BlockIterator::create_and_seek_to_first(first_block);
        SsTableIterator { table, block_iterator, block_idx: 0 }
    }

    /// The block to load next: where the current block is used up and the
    /// table has a further block, that block's index.
    pub open spec fn pending(&self) -> Option<usize> {
        if entry_key(self.block(), self.entry_index()).len() == 0 && self.block_index() + 1 < self.table().metas().len() {
            Some((self.block_index() + 1) as usize)
        } else {
            None
        }
    }

    fn block_to_load(&self) -> (r: Option<usize>)
        requires
            self.wf(),
        ensures
            r == self.pending(),
    {
        let n = self.table.num_of_blocks();
        if !self.block_iterator.is_valid() && n > 0 && self.block_idx < n - 1 {
            Some(self.block_idx + 1)
        } else {
            None
        }
    }

    /// Creates an iterator on the first entry at or above `key` in `block`, the
    /// block of `table` that `find_block_idx(key)` names. Where every key of that
    /// block lies below `key` and a further block follows, also returns that
    /// block's index: the caller loads it and hands it to `enter_block`, whose
    /// first entry is then the one sought.
    pub fn create_and_seek_to_key(table: Arc<SsTable>, block: Arc<Block>, key: &[u8]) -> (r: (Self, Option<usize>))
        requires
            table.wf(),
        ensures
            r.0.wf(),
            r.0.table() == *table,
            r.0.block() == *block,
            r.0.block_index() == block_index_of(table.metas(), key@),
            block_sorted(*block) ==> lower_bound(*block, key@, r.0.entry_index()),
            r.1 == r.0.pending(),
    {
        let block_idx = table.find_block_idx(key);
        let block_iterator = BlockIterator::create_and_seek_to_key(block, key);
        let it = SsTableIterator { table, block_iterator, block_idx };
        let next = it.block_to_load();
        (it, next)
    }

    /// Moves back to the first entry of `first_block`, block `0`.
    pub fn seek_to_first(&mut self, first_block: Arc<Block>)
        ensures
            final(self).wf(),
            final(self).table() == old(self).table(),
            final(self).block() == *first_block,
            final(self).block_index() == 0,
            final(self).entry_index() == 0,
    {
        self.block_iterator = BlockIterator::create_and_seek_to_first(first_block);
        self.block_idx = 0;
    }

    /// Moves to the first entry at or above `key` in `block`, the block that
    /// `find_block_idx(key)` names. Returns the next block to load where that
    /// block holds no such entry, as `create_and_seek_to_key` does.
    pub fn seek_to_key(&mut self, block: Arc<Block>, key: &[u8]) -> (r: Option<usize>)
        requires
            old(self).table().wf(),
        ensures
            final(self).wf(),
            final(self).table() == old(self).table(),
            final(self).block() == *block,
            final(self).block_index() == block_index_of(old(self).table().metas(), key@),
            block_sorted(*block) ==> lower_bound(*block, key@, final(self).entry_index()),
            r == final(self).pending(),
    {
        let idx = self.table.find_block_idx(key);
        self.block_iterator = BlockIterator::create_and_seek_to_key(block, key);
        self.block_idx = idx;
        self.block_to_load()
    }

    pub fn key(&self) -> (r: &[u8])
        requires
            self.wf(),
        ensures
            r@ == entry_key(self.block(), self.entry_index()),
    {
        self.block_iterator.key()
    }

    pub fn value(&self) -> (r: &[u8])
        requires
            self.wf(),
        ensures
            r@ == entry_value(self.block(), self.entry_index()),
    {
        self.block_iterator.value()
    }

    pub fn is_valid(&self) -> (r: bool)
        requires
            self.wf(),
        ensures
            r == (entry_key(self.block(), self.entry_index()).len() > 0),
    {
        self.block_iterator.is_valid()
    }

    /// Moves to the next entry of the block. Where the block is used up and
    /// the table has a further block, returns that block's index: the caller
    /// loads it and hands it to `enter_block`.
    pub fn next(&mut self) -> (r: Option<usize>)
        requires
            old(self).wf(),
        ensures
            final(self).wf(),
            final(self).table() == old(self).table(),
            final(self).block() == old(self).block(),
            final(self).block_index() == old(self).block_index(),
            final(self).entry_index() == if old(self).entry_index() < old(self).block().offsets@.len() {
                old(self).entry_index() + 1
            } else {
                old(self).entry_index()
            },
            r == final(self).pending(),
    {
        self.block_iterator.next();
        self.block_to_load()
    }

    /// Continues on block `idx`, from its first entry.
    pub fn enter_block(&mut self, idx: usize, block: Arc<Block>)
        ensures
            final(self).wf(),
            final(self).table() == old(self).table(),
            final(self).block() == *block,
            final(self).block_index() == idx,
            final(self).entry_index() == 0,
    {
        self.block_iterator = BlockIterator::create_and_seek_to_first(block);
        self.block_idx = idx;
    }
}

} // verus!
