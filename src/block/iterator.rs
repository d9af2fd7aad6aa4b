use vstd::prelude::*;

use std::sync::Arc;

use crate::block::{read_be16, Block};
use crate::keys::{compare_bytes, copy_range, lex_lt};

verus! {

/// The entry whose encoding starts at `off` in `data`, if it lies wholly inside.
pub open spec fn parse_entry(data: Seq<u8>, off: int) -> Option<(Seq<u8>, Seq<u8>)> {
    if off < 0 || off + 2 > data.len() {
        None
    } else {
        let klen = read_be16(data, off);
        let voff = off + 2 + klen;
        if voff + 2 > data.len() {
            None
        } else {
            let vlen = read_be16(data, voff);
            if voff + 2 + vlen > data.len() {
                None
            } else {
                Some((data.subrange(off + 2, voff), data.subrange(voff + 2, voff + 2 + vlen)))
            }
        }
    }
}

/// The `i`-th entry of a block, if its offset leads to a whole entry.
pub open spec fn block_entry(b: Block, i: int) -> Option<(Seq<u8>, Seq<u8>)> {
    if 0 <= i < b.offsets@.len() {
        parse_entry(b.data@, b.offsets@[i] as int)
    } else {
        None
    }
}

/// The key of the `i`-th entry, or the empty key where there is none.
pub open spec fn entry_key(b: Block, i: int) -> Seq<u8> {
    match block_entry(b, i) {
        Some(e) => e.0,
        None => Seq::empty(),
    }
}

/// The value of the `i`-th entry, or the empty value where there is none.
pub open spec fn entry_value(b: Block, i: int) -> Seq<u8> {
    match block_entry(b, i) {
        Some(e) => e.1,
        None => Seq::empty(),
    }
}

/// Every entry of the block can be read, no key is empty, and the keys strictly increase.
pub open spec fn block_sorted(b: Block) -> bool {
    &&& forall|i: int| 0 <= i < b.offsets@.len() ==> #[trigger] block_entry(b, i).is_some()
    &&& forall|i: int| 0 <= i < b.offsets@.len() ==> #[trigger] entry_key(b, i).len() > 0
    &&& forall|i: int, j: int|
        0 <= i < j < b.offsets@.len() ==> lex_lt(#[trigger] entry_key(b, i), #[trigger] entry_key(b, j))
}

/// The number of entries whose key sorts before `key`.
pub open spec fn lower_bound(b: Block, key: Seq<u8>, n: int) -> bool {
    &&& 0 <= n <= b.offsets@.len()
    &&& forall|i: int| 0 <= i < n ==> lex_lt(#[trigger] entry_key(b, i), key)
    &&& forall|i: int| n <= i < b.offsets@.len() ==> !lex_lt(#[trigger] entry_key(b, i), key)
}

/// Iterates on a block.
pub struct BlockIterator {
    /// The block walked over.
    block: Arc<Block>,
    /// The current key; empty when the iterator is invalid.
    key: Vec<u8>,
    /// The current value.
    value: Vec<u8>,
    /// Index of the current entry.
    idx: usize,
}

impl BlockIterator {
    pub closed spec fn block(&self) -> Block {
        *self.block
    }

    /// Index of the current entry; the entry count once past the end.
    pub closed spec fn index(&self) -> int {
        self.idx as int
    }

    pub closed spec fn cur_key(&self) -> Seq<u8> {
        self.key@
    }

    pub closed spec fn cur_value(&self) -> Seq<u8> {
        self.value@
    }

    pub closed spec fn wf(&self) -> bool {
        &&& self.idx <= self.block.offsets@.len()
        &&& self.key@ == entry_key(*self.block, self.idx as int)
        &&& self.value@ == entry_value(*self.block, self.idx as int)
    }

    fn new(block: Arc<Block>) -> (it: Self)
        ensures
            it.block() == *block,
            it.index() == 0,
    {
        BlockIterator { block, key: Vec::new(), value: Vec::new(), idx: 0 }
    }

    /// Creates a block iterator and seeks to the first entry.
    pub fn create_and_seek_to_first(block: Arc<Block>) -> (it: Self)
        ensures
            it.wf(),
            it.block() == *block,
            it.index() == 0,
    {
        let mut it = Self::new(block);
        it.seek_to(0);
        it
    }

    /// Creates a block iterator and seeks to the first key that is `>= key`.
    pub fn create_and_seek_to_key(block: Arc<Block>, key: &[u8]) -> (it: Self)
        ensures
            it.wf(),
            it.block() == *block,
            block_sorted(*block) ==> lower_bound(*block, key@, it.index()),
    {
        let mut it = Self::new(block);
        it.search(key);
        it
    }

    /// The key of the current entry.
    pub fn key(&self) -> (r: &[u8])
        requires
            self.wf(),
        ensures
            r@ == self.cur_key(),
            r@ == entry_key(self.block(), self.index()),
    {
        self.key.as_slice()
    }

    /// The value of the current entry.
    pub fn value(&self) -> (r: &[u8])
        requires
            self.wf(),
        ensures
            r@ == self.cur_value(),
            r@ == entry_value(self.block(), self.index()),
    {
        self.value.as_slice()
    }

    /// Whether the iterator stands on an entry.
    pub fn is_valid(&self) -> (r: bool)
        requires
            self.wf(),
        ensures
            r == (entry_key(self.block(), self.index()).len() > 0),
    {
        self.key.len() > 0
    }

    /// A well-formed iterator stands on an entry or just past the last one.
    pub proof fn lemma_index_bound(&self)
        requires
            self.wf(),
        ensures
            0 <= self.index() <= self.block().offsets@.len(),
    {
    }

    /// Seeks to the first entry of the block.
    pub fn seek_to_first(&mut self)
        requires
            old(self).wf(),
        ensures
            final(self).wf(),
            final(self).block() == old(self).block(),
            final(self).index() == 0,
    {
        self.seek_to(0);
        assert(self.idx == 0);
    }

    /// Moves to the next entry; past the last one the iterator is invalid.
    pub fn next(&mut self)
        requires
            old(self).wf(),
        ensures
            final(self).wf(),
            final(self).block() == old(self).block(),
            final(self).index() == if old(self).index() < old(self).block().offsets@.len() {
                old(self).index() + 1
            } else {
                old(self).index()
            },
    {
        if self.idx < self.block.offsets.len() {
            self.idx = self.idx + 1;
        }
        self.seek_to(self.idx);
    }

    /// Seeks to the first key that is `>= key`, by binary search over the entries,
    /// which are taken to be sorted.
    pub fn seek_to_key(&mut self, key: &[u8])
        requires
            old(self).wf(),
        ensures
            final(self).wf(),
            final(self).block() == old(self).block(),
            block_sorted(old(self).block()) ==> lower_bound(old(self).block(), key@, final(self).index()),
    {
        self.search(key);
    }

    /// Binary search for the first key at or above `key`.
    fn search(&mut self, key: &[u8])
        requires
            old(self).index() <= old(self).block().offsets@.len(),
        ensures
            final(self).wf(),
            final(self).block() == old(self).block(),
            block_sorted(old(self).block()) ==> lower_bound(old(self).block(), key@, final(self).index()),
    {
        let ghost b = self.block();
        let mut low: usize = 0;
        let mut high: usize = self.block.offsets.len();
        while low < high
            invariant
                self.block() == b,
                b == old(self).block(),
                self.idx <= b.offsets@.len(),
                low <= high <= b.offsets@.len(),
                block_sorted(b) ==> forall|i: int| 0 <= i < low ==> lex_lt(#[trigger] entry_key(b, i), key@),
                block_sorted(b) ==> forall|i: int| high <= i < b.offsets@.len() ==> lex_lt(key@, #[trigger] entry_key(b, i)),
            decreases high - low,
        {
            let mid = low + (high - low) / 2;
            self.seek_to(mid);
            if !self.is_valid() {
                high = mid;
            } else {
                match compare_bytes(self.key.as_slice(), key) {
                    std::cmp::Ordering::Less => {
                        proof {
                            if block_sorted(b) {
                                assert forall|i: int| 0 <= i < mid + 1 implies lex_lt(#[trigger] entry_key(b, i), key@) by {
                                    if i < mid {
                                        crate::keys::lemma_lex_transitive(entry_key(b, i), entry_key(b, mid as int), key@);
                                    }
                                }
                            }
                        }
                        low = mid + 1;
                    },
                    std::cmp::Ordering::Greater => {
                        proof {
                            crate::keys::lemma_lex_trichotomy(entry_key(b, mid as int), key@);
                            if block_sorted(b) {
                                assert forall|i: int| mid <= i < b.offsets@.len() implies lex_lt(key@, #[trigger] entry_key(b, i)) by {
                                    if i > mid {
                                        crate::keys::lemma_lex_transitive(key@, entry_key(b, mid as int), entry_key(b, i));
                                    }
                                }
                            }
                        }
                        high = mid;
                    },
                    std::cmp::Ordering::Equal => {
                        proof {
                            if block_sorted(b) {
                                assert forall|i: int| mid <= i < b.offsets@.len() implies !lex_lt(#[trigger] entry_key(b, i), key@) by {
                                    crate::keys::lemma_lex_irreflexive(key@);
                                    if i > mid {
                                        crate::keys::lemma_lex_trichotomy(entry_key(b, i), key@);
                                    }
                                }
                            }
                        }
                        return;
                    },
                }
            }
        }
        proof {
            if block_sorted(b) {
                assert forall|i: int| low <= i < b.offsets@.len() implies !lex_lt(#[trigger] entry_key(b, i), key@) by {
                    crate::keys::lemma_lex_trichotomy(entry_key(b, i), key@);
                }
            }
        }
        self.seek_to(low);
    }

    /// Moves to entry `idx`; an index past the end leaves the iterator invalid.
    fn seek_to(&mut self, idx: usize)
        ensures
            final(self).wf(),
            final(self).block == old(self).block,
            final(self).idx == if idx < old(self).block.offsets@.len() { idx } else { old(self).block.offsets@.len() as usize },
    {
        if idx >= self.block.offsets.len() {
            self.key = Vec::new();
            self.value = Vec::new();
            self.idx = self.block.offsets.len();
            assert(block_entry(*self.block, self.idx as int).is_none());
            assert(self.key@ =~= entry_key(*self.block, self.idx as int));
            assert(self.value@ =~= entry_value(*self.block, self.idx as int));
            return;
        }
        let offset = self.block.offsets[idx] as usize;
        self.seek_to_offset(offset);
        self.idx = idx;
        assert(block_entry(*self.block, idx as int) == parse_entry(self.block.data@, offset as int));
        assert(self.key@ =~= entry_key(*self.block, self.idx as int));
        assert(self.value@ =~= entry_value(*self.block, self.idx as int));
    }

    /// Reads the entry that starts at `offset` into the current key and value.
    fn seek_to_offset(&mut self, offset: usize)
        ensures
            final(self).block == old(self).block,
            final(self).idx == old(self).idx,
            match parse_entry(old(self).block.data@, offset as int) {
                Some(e) => final(self).key@ == e.0 && final(self).value@ == e.1,
                None => final(self).key@.len() == 0 && final(self).value@.len() == 0,
            },
    {
        let data = &self.block.data;
        let len = data.len();
        if offset > len || len - offset < 2 {
            self.key = Vec::new();
            self.value = Vec::new();
            return;
        }
        let klen = data[offset] as usize * 256 + data[offset + 1] as usize;
        let voff = offset + 2;
        if len - voff < klen || len - voff - klen < 2 {
            self.key = Vec::new();
            self.value = Vec::new();
            return;
        }
        let vpos = voff + klen;
        let vlen = data[vpos] as usize * 256 + data[vpos + 1] as usize;
        if len - vpos - 2 < vlen {
            self.key = Vec::new();
            self.value = Vec::new();
            return;
        }
        let k = copy_range(data.as_slice(), voff, vpos);
        let v = copy_range(data.as_slice(), vpos + 2, vpos + 2 + vlen);
        self.key = k;
        self.value = v;
    }
}

} // verus!
