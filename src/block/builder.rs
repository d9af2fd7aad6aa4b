use vstd::prelude::*;

use crate::block::{be16, Block};

verus! {

/// Bytes of the entry-count footer of an encoded block.
pub const SIZE_OF_META: usize = 2;

/// The encoding of one entry: key length, key, value length, value.
pub open spec fn entry_bytes(key: Seq<u8>, value: Seq<u8>) -> Seq<u8> {
    be16(key.len() as int) + key + be16(value.len() as int) + value
}

/// The data segment holding `entries` in order.
pub open spec fn entries_data(entries: Seq<(Seq<u8>, Seq<u8>)>) -> Seq<u8>
    decreases entries.len(),
{
    if entries.len() == 0 {
        Seq::empty()
    } else {
        entries_data(entries.drop_last()) + entry_bytes(entries.last().0, entries.last().1)
    }
}

/// The start offset of each entry within `entries_data(entries)`.
pub open spec fn entries_offsets(entries: Seq<(Seq<u8>, Seq<u8>)>) -> Seq<u16>
    decreases entries.len(),
{
    if entries.len() == 0 {
        Seq::empty()
    } else {
        entries_offsets(entries.drop_last()).push(entries_data(entries.drop_last()).len() as u16)
    }
}

/// Whether the encoded size of a block of `entries` stays within `capacity`,
/// and every length and offset fits its 16-bit field.
pub open spec fn entries_fit(entries: Seq<(Seq<u8>, Seq<u8>)>, capacity: int) -> bool
    decreases entries.len(),
{
    if entries.len() == 0 {
        true
    } else {
        let prev = entries.drop_last();
        let (k, v) = entries.last();
        &&& entries_fit(prev, capacity)
        &&& k.len() > 0
        &&& k.len() <= 0xFFFF
        &&& v.len() <= 0xFFFF
        &&& entries_data(prev).len() <= 0xFFFF
        &&& entries_data(entries).len() + 2 * entries.len() + 2 <= capacity
    }
}

proof fn lemma_entries_shape(entries: Seq<(Seq<u8>, Seq<u8>)>, capacity: int)
    requires
        entries_fit(entries, capacity),
    ensures
        entries_offsets(entries).len() == entries.len(),
        5 * entries.len() <= entries_data(entries).len(),
        entries.len() > 0 ==> entries_data(entries).len() <= 0xFFFF + 4 + 2 * 0xFFFF,
    decreases entries.len(),
{
    if entries.len() > 0 {
        lemma_entries_shape(entries.drop_last(), capacity);
    }
}

/// Builds a block.
pub struct BlockBuilder {
    data: Vec<u8>,
    offsets: Vec<u16>,
    capacity: usize,
    entries: Ghost<Seq<(Seq<u8>, Seq<u8>)>>,
}

impl BlockBuilder {
    /// The entries added so far, in order.
    pub closed spec fn entries(&self) -> Seq<(Seq<u8>, Seq<u8>)> {
        self.entries@
    }

    pub closed spec fn capacity(&self) -> int {
        self.capacity as int
    }

    pub closed spec fn wf(&self) -> bool {
        &&& self.data@ == entries_data(self.entries@)
        &&& self.offsets@ == entries_offsets(self.entries@)
        &&& entries_fit(self.entries@, self.capacity as int)
    }

    /// The entries of a well-formed builder fit its capacity.
    pub proof fn lemma_fits(&self)
        requires
            self.wf(),
        ensures
            entries_fit(self.entries(), self.capacity()),
    {
    }

    /// Creates a builder for blocks of at most `block_size` encoded bytes.
    pub fn new(block_size: usize) -> (b: Self)
        ensures
            b.wf(),
            b.entries().len() == 0,
            b.capacity() == block_size,
    {
        BlockBuilder {
            data: Vec::new(),
            offsets: Vec::new(),
            capacity: block_size,
            entries: Ghost(Seq::empty()),
        }
    }

    /// Appends an entry unless the key is empty, a length or the entry's offset
    /// does not fit in 16 bits, or the block would outgrow its capacity.
    pub fn add(&mut self, key: &[u8], value: &[u8]) -> (ok: bool)
        requires
            old(self).wf(),
        ensures
            final(self).wf(),
            final(self).capacity() == old(self).capacity(),
            ok == entries_fit(old(self).entries().push((key@, value@)), old(self).capacity()),
            ok ==> final(self).entries() == old(self).entries().push((key@, value@)),
            !ok ==> final(self).entries() == old(self).entries(),
    {
        let ghost es = self.entries@;
        let ghost nes = es.push((key@, value@));
        proof {
            lemma_entries_shape(es, self.capacity as int);
            assert(nes.drop_last() =~= es);
        }
        if key.len() == 0 || key.len() > 0xFFFF || value.len() > 0xFFFF || self.data.len() > 0xFFFF {
            return false;
        }
        if self.cur_size() + key.len() + value.len() + 6 > self.capacity {
            return false;
        }
        let start = self.data.len() as u16;
        let ghost old_offsets = self.offsets@;
        self.offsets.push(start);
        assert(self.offsets@ == old_offsets.push(start));
        let klen = key.len();
        self.data.push((klen / 256) as u8);
        self.data.push((klen % 256) as u8);
        let mut i: usize = 0;
        while i < key.len()
            invariant
                i <= key@.len(),
                self.offsets@ == old_offsets.push(start),
                start == entries_data(es).len(),
                self.capacity == old(self).capacity,
                self.data@ == entries_data(es) + be16(key@.len() as int) + key@.subrange(0, i as int),
            decreases key@.len() - i,
        {
            self.data.push(key[i]);
            i = i + 1;
            assert(self.data@ =~= entries_data(es) + be16(key@.len() as int) + key@.subrange(0, i as int));
        }
        let vlen = value.len();
        self.data.push((vlen / 256) as u8);
        self.data.push((vlen % 256) as u8);
        let mut j: usize = 0;
        while j < value.len()
            invariant
                j <= value@.len(),
                self.offsets@ == old_offsets.push(start),
                start == entries_data(es).len(),
                self.capacity == old(self).capacity,
                self.data@ == entries_data(es) + be16(key@.len() as int) + key@ + be16(value@.len() as int)
                    + value@.subrange(0, j as int),
            decreases value@.len() - j,
        {
            self.data.push(value[j]);
            j = j + 1;
            assert(self.data@ =~= entries_data(es) + be16(key@.len() as int) + key@ + be16(value@.len() as int)
                + value@.subrange(0, j as int));
        }
        proof {
            self.entries = Ghost(nes);
            assert(key@.subrange(0, key@.len() as int) =~= key@);
            assert(value@.subrange(0, value@.len() as int) =~= value@);
            assert(self.data@ =~= entries_data(nes));
            assert(entries_offsets(nes) == entries_offsets(es).push(entries_data(es).len() as u16));
            assert(self.offsets@ =~= entries_offsets(nes));
            assert(entries_data(nes).len() == entries_data(es).len() + 4 + key@.len() + value@.len());
        }
        true
    }

    pub fn is_empty(&self) -> (r: bool)
        requires
            self.wf(),
        ensures
            r == (self.entries().len() == 0),
    {
        proof {
            lemma_entries_shape(self.entries@, self.capacity as int);
        }
        self.data.len() == 0
    }

    /// The encoded size of the block built so far.
    pub fn cur_size(&self) -> (n: usize)
        requires
            self.wf(),
        ensures
            n == entries_data(self.entries()).len() + 2 * self.entries().len() + SIZE_OF_META,
    {
        proof {
            lemma_entries_shape(self.entries@, self.capacity as int);
        }
        self.data.len() + self.offsets.len() * 2 + SIZE_OF_META
    }

    pub fn build(self) -> (b: Block)
        requires
            self.wf(),
        ensures
            b.data@ == entries_data(self.entries()),
            b.offsets@ == entries_offsets(self.entries()),
            b.offsets@.len() == self.entries().len(),
            b.offsets@.len() <= 0xFFFF,
            b.data@.len() <= 0xFFFF + 4 + 2 * 0xFFFF,
    {
        proof {
            lemma_entries_shape(self.entries@, self.capacity as int);
        }
        Block::new(self.data, self.offsets)
    }
}

} // verus!
