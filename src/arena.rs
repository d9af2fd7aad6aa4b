use vstd::prelude::*;

verus! {

/// Hands out aligned regions of a fixed-size byte space.
pub trait Allocator {
    /// Reserves `size` bytes at an offset that is a multiple of `align`; `0`,
    /// which never names a region, when the space is used up.
    fn allocate(&mut self, align: usize, size: usize) -> (offset: u32)
        requires
            align > 0,
    ;

    /// The number of bytes handed out so far, the reserved first byte included.
    fn len(&self) -> u32;

    /// The size of the whole space.
    fn capacity(&self) -> usize;
}

/// A bump allocator over a space of `cap` bytes. Offset `0` is reserved, so that
/// it can stand for "no region".
pub struct Arena {
    cursor: usize,
    cap: usize,
}

impl Arena {
    /// Bytes handed out so far, the reserved first byte included.
    pub closed spec fn used(&self) -> int {
        self.cursor as int
    }

    pub closed spec fn cap(&self) -> int {
        self.cap as int
    }

    pub closed spec fn wf(&self) -> bool {
        1 <= self.cursor <= self.cap <= u32::MAX
    }

    pub proof fn lemma_bounds(&self)
        requires
            self.wf(),
        ensures
            1 <= self.used() <= self.cap() <= u32::MAX,
    {
    }

    /// An arena of `n` usable bytes, plus the reserved byte at offset `0`.
    pub fn with_capacity(n: usize) -> (a: Self)
        requires
            n < u32::MAX,
        ensures
            a.wf(),
            a.used() == 1,
            a.cap() == n + 1,
    {
        Arena { cursor: 1, cap: n + 1 }
    }
}

impl Allocator for Arena {
    fn allocate(&mut self, align: usize, size: usize) -> (offset: u32)
        ensures
            old(self).wf() ==> final(self).wf(),
            final(self).cap() == old(self).cap(),
            offset == 0 ==> final(self).used() == old(self).used(),
            offset == 0 && old(self).wf() ==> old(self).used() + size + align > old(self).cap() + 1,
            offset != 0 ==> {
                &&& offset as int % align as int == 0
                &&& old(self).used() <= offset < old(self).used() + align
                &&& offset == old(self).used() + if old(self).used() % align as int == 0 {
                    0
                } else {
                    align - old(self).used() % align as int
                }
                &&& final(self).used() == offset + size
                &&& final(self).used() <= old(self).cap()
            },
    {
        if self.cursor > self.cap || self.cursor == 0 || self.cap > u32::MAX as usize {
            return 0;
        }
        let rem = self.cursor % align;
        let pad = if rem == 0 { 0 } else { align - rem };
        if pad > self.cap - self.cursor || size > self.cap - self.cursor - pad {
            return 0;
        }
        let start = self.cursor + pad;
        assert(start as int % align as int == 0) by (nonlinear_arith)
            requires
                rem == self.cursor as int % align as int,
                pad == if rem == 0 { 0 } else { align - rem },
                start == self.cursor + pad,
                align > 0,
        ;
        self.cursor = start + size;
        start as u32
    }

    fn len(&self) -> (n: u32)
        ensures
            self.wf() ==> n == self.used(),
    {
        if self.cursor > u32::MAX as usize {
            u32::MAX
        } else {
            self.cursor as u32
        }
    }

    fn capacity(&self) -> (n: usize)
        ensures
            n == self.cap(),
    {
        self.cap
    }
}

} // verus!
