use vstd::prelude::*;

use crate::error::Error;
use crate::keys::{copy_range, KeyComparator};
use crate::skiplist::ordering::{inserted, lookup, Entries};
use crate::skiplist::{node_size, range_start, tail_index, BoundView, KeyBound, RangeRef, Skiplist, MAX_HEIGHT, NODE_ALIGN};

verus! {

/// The in-memory layer: a skiplist that owns copies of what is put in it.
pub struct MemTable<C: KeyComparator> {
    skl: Skiplist<C>,
    id: usize,
}

impl<C: KeyComparator> MemTable<C> {
    pub closed spec fn entries(&self) -> Entries {
        self.skl.entries()
    }

    pub closed spec fn comparator(&self) -> C {
        self.skl.comparator()
    }

    pub closed spec fn table_id(&self) -> usize {
        self.id
    }

    pub closed spec fn wf(&self) -> bool {
        self.skl.wf()
    }

    /// An empty memtable over an arena of `cap` bytes.
    pub fn new(cap: usize, c: C) -> (m: Self)
        requires
            cap < u32::MAX,
            cap >= NODE_ALIGN + node_size(MAX_HEIGHT - 1),
        ensures
            m.wf(),
            m.entries().len() == 0,
            m.comparator() == c,
            m.table_id() == 0,
            m.arena_cap() == cap + 1,
            m.used() == NODE_ALIGN + node_size(MAX_HEIGHT - 1),
    {
        MemTable { skl: Skiplist::with_capacity(c, cap as u32), id: 0 }
    }

    /// A memtable with the id that the caller assigns it.
    pub fn with_id(cap: usize, c: C, id: usize) -> (m: Self)
        requires
            cap < u32::MAX,
            cap >= NODE_ALIGN + node_size(MAX_HEIGHT - 1),
        ensures
            m.wf(),
            m.entries().len() == 0,
            m.comparator() == c,
            m.table_id() == id,
            m.arena_cap() == cap + 1,
            m.used() == NODE_ALIGN + node_size(MAX_HEIGHT - 1),
    {
        MemTable { skl: Skiplist::with_capacity(c, cap as u32), id }
    }

    pub fn id(&self) -> (r: usize)
        ensures
            r == self.table_id(),
    {
        self.id
    }

    /// A copy of the value stored under a key equal to `key`.
    pub fn get(&self, key: &[u8]) -> (r: Option<Vec<u8>>)
        requires
            self.wf(),
        ensures
            r is Some <==> lookup(self.comparator(), self.entries(), key@) is Some,
            r is Some ==> Some(r.unwrap()@) == lookup(self.comparator(), self.entries(), key@),
    {
        match self.skl.get(key) {
            Some(v) => Some(copy_range(v.as_slice(), 0, v.len())),
            None => None,
        }
    }

    /// Puts a copy of `(key, value)`. An empty key gives `EmptyKey`; an equal
    /// key that holds another value gives `PutConflict`. Either leaves the table
    /// as it was.
    pub fn put(&mut self, key: &[u8], value: &[u8]) -> (r: Result<(), Error>)
        requires
            old(self).wf(),
        ensures
            final(self).wf(),
            final(self).comparator() == old(self).comparator(),
            final(self).table_id() == old(self).table_id(),
            final(self).arena_cap() == old(self).arena_cap(),
            ({
                let found = lookup(old(self).comparator(), old(self).entries(), key@);
                &&& key@.len() == 0 ==> r == Err::<(), Error>(Error::EmptyKey) && final(self).entries() == old(self).entries()
                    && final(self).used() == old(self).used()
                &&& key@.len() > 0 && found == Some(value@) ==> r == Ok::<(), Error>(()) && final(self).entries() == old(
                    self,
                ).entries() && final(self).used() == old(self).used()
                &&& key@.len() > 0 && found is Some && found != Some(value@) ==> r == Err::<(), Error>(Error::PutConflict)
                    && final(self).entries() == old(self).entries() && final(self).used() == old(self).used()
                &&& key@.len() > 0 && found is None ==> match r {
                    Ok(()) => final(self).entries() == inserted(old(self).comparator(), old(self).entries(), key@, value@)
                        && old(self).used() < final(self).used() <= old(self).used() + NODE_ALIGN + node_size(MAX_HEIGHT - 1),
                    Err(e) => e == Error::ArenaOutOfSpace && final(self).entries() == old(self).entries()
                        && final(self).used() == old(self).used()
                        && old(self).used() + node_size(MAX_HEIGHT - 1) + NODE_ALIGN > old(self).arena_cap() + 1,
                }
            }),
    {
        let k = copy_range(key, 0, key.len());
        let v = copy_range(value, 0, value.len());
        proof {
            assert(key@.subrange(0, key@.len() as int) =~= key@);
            assert(value@.subrange(0, value@.len() as int) =~= value@);
        }
        match self.skl.put(k, v) {
            Ok(None) => Ok(()),
            Ok(Some(_)) => Err(Error::PutConflict),
            Err(e) => Err(e),
        }
    }

    /// An iterator over the entries within `lower` and `upper`, placed on the first.
    pub fn scan(&self, lower: KeyBound, upper: KeyBound) -> (it: MemTableIterator<'_, C>)
        requires
            self.wf(),
        ensures
            it.wf(),
            it.entries() == self.entries(),
            it.index() == range_start(self.comparator(), self.entries(), lower@, upper@),
            it.end() == tail_index(self.comparator(), self.entries(), upper@),
    {
        MemTableIterator::create(self, lower, upper)
    }

    /// Arena bytes in use.
    pub closed spec fn used(&self) -> int {
        self.skl.used()
    }

    /// Arena bytes in all.
    pub closed spec fn arena_cap(&self) -> int {
        self.skl.arena_cap()
    }

    /// Arena bytes in use, for the caller that decides when to flush.
    pub fn mem_size(&self) -> (r: u32)
        requires
            self.wf(),
        ensures
            r == self.used(),
    {
        self.skl.mem_size()
    }
}

/// Walks the entries of a memtable that lie within two bounds.
pub struct MemTableIterator<'a, C: KeyComparator> {
    iter: RangeRef<'a, C>,
}

impl<'a, C: KeyComparator> MemTableIterator<'a, C> {
    pub closed spec fn entries(&self) -> Entries {
        self.iter.list().entries()
    }

    /// Position of the current entry.
    pub closed spec fn index(&self) -> int {
        self.iter.head_index()
    }

    /// Position of the first entry past the range.
    pub closed spec fn end(&self) -> int {
        self.iter.tail_index()
    }

    pub closed spec fn wf(&self) -> bool {
        &&& self.iter.wf()
        &&& self.iter.head_index() <= self.iter.tail_index()
        &&& self.iter.tail_index() <= self.iter.list().entries().len()
    }

    pub fn create(mem_table: &'a MemTable<C>, lower: KeyBound, upper: KeyBound) -> (it: Self)
        requires
            mem_table.wf(),
        ensures
            it.wf(),
            it.entries() == mem_table.entries(),
            it.index() == range_start(mem_table.comparator(), mem_table.entries(), lower@, upper@),
            it.end() == tail_index(mem_table.comparator(), mem_table.entries(), upper@),
    {
        let mut iter = mem_table.skl.range_ref(lower, upper);
        iter.seek_to_first();
        proof {
            mem_table.skl.lemma_level0_sorted();
            crate::skiplist::lemma_range_bounds(mem_table.comparator(), mem_table.entries(), iter.lower(), iter.upper());
        }
        MemTableIterator { iter }
    }

    pub fn key(&self) -> (r: &[u8])
        requires
            self.wf(),
            self.index() < self.end(),
        ensures
            r@ == self.entries()[self.index()].0,
    {
        self.iter.key().as_slice()
    }

    pub fn value(&self) -> (r: &[u8])
        requires
            self.wf(),
            self.index() < self.end(),
        ensures
            r@ == self.entries()[self.index()].1,
    {
        self.iter.value().as_slice()
    }

    pub fn is_valid(&self) -> (r: bool)
        requires
            self.wf(),
        ensures
            r == (self.index() < self.end()),
    {
        self.iter.valid()
    }

    pub fn next(&mut self)
        requires
            old(self).wf(),
            old(self).index() < old(self).end(),
        ensures
            final(self).wf(),
            final(self).entries() == old(self).entries(),
            final(self).end() == old(self).end(),
            final(self).index() == old(self).index() + 1,
    {
        self.iter.next();
    }
}

} // verus!
