use vstd::prelude::*;

pub mod builder;
pub mod iterator;

verus! {

/// The big-endian bytes of a 16-bit integer.
pub open spec fn be16(x: int) -> Seq<u8> {
    seq![(x / 256) as u8, (x % 256) as u8]
}

/// The 16-bit big-endian integer held in `b[at..at + 2]`.
pub open spec fn read_be16(b: Seq<u8>, at: int) -> int {
    b[at] as int * 256 + b[at + 1] as int
}

/// A sequence of 16-bit integers, each written big-endian.
pub open spec fn be16_all(xs: Seq<u16>) -> Seq<u8> {
    Seq::new(2 * xs.len(), |j: int| if j % 2 == 0 { (xs[j / 2] / 256) as u8 } else { (xs[j / 2] % 256) as u8 })
}

/// The encoding of a block: its data, its offsets and their count.
pub open spec fn block_bytes(data: Seq<u8>, offsets: Seq<u16>) -> Seq<u8> {
    data + be16_all(offsets) + be16(offsets.len() as int)
}

/// How many entries a block's footer declares.
pub open spec fn declared_count(buf: Seq<u8>) -> int {
    read_be16(buf, buf.len() - 2)
}

/// Whether `buf` holds at least the footer and the offsets the footer declares.
pub open spec fn decodable(buf: Seq<u8>) -> bool {
    buf.len() >= 2 && buf.len() >= 2 + 2 * declared_count(buf)
}

/// The data segment of a decodable buffer.
pub open spec fn decoded_data(buf: Seq<u8>) -> Seq<u8> {
    buf.subrange(0, buf.len() - 2 - 2 * declared_count(buf))
}

/// The offsets of a decodable buffer.
pub open spec fn decoded_offsets(buf: Seq<u8>) -> Seq<u16> {
    let start = buf.len() - 2 - 2 * declared_count(buf);
    Seq::new(declared_count(buf) as nat, |i: int| read_be16(buf, start + 2 * i) as u16)
}

/// A sorted run of key/value entries in one buffer, with the start offset of each.
#[derive(Debug)]
pub struct Block {
    pub data: Vec<u8>,
    pub offsets: Vec<u16>,
}

impl Block {
    pub fn new(data: Vec<u8>, offsets: Vec<u16>) -> (b: Self)
        ensures
            b.data@ == data@,
            b.offsets@ == offsets@,
    {
        Block { data, offsets }
    }

    /// A block with no entries.
    pub fn empty() -> (b: Self)
        ensures
            b.data@.len() == 0,
            b.offsets@.len() == 0,
    {
        Block { data: Vec::new(), offsets: Vec::new() }
    }

    /// Size in bytes of the encoded block.
    pub fn block_size(&self) -> (n: usize)
        requires
            self.data@.len() + 2 * self.offsets@.len() + 2 <= usize::MAX,
        ensures
            n == self.data@.len() + 2 * self.offsets@.len() + 2,
    {
        let mut size = self.data.len();
        size = size + self.offsets.len() * 2;
        size = size + 2;
        size
    }

    /// Writes the data, then each offset and finally the entry count, all big-endian.
    pub fn encode(&self) -> (r: Vec<u8>)
        requires
            self.offsets@.len() <= 0xFFFF,
            self.data@.len() + 2 * self.offsets@.len() + 2 <= usize::MAX,
        ensures
            r@ == block_bytes(self.data@, self.offsets@),
    {
        let mut out: Vec<u8> = Vec::with_capacity(self.block_size());
        let mut i: usize = 0;
        while i < self.data.len()
            invariant
                i <= self.data@.len(),
                out@ == self.data@.subrange(0, i as int),
            decreases self.data@.len() - i,
        {
            out.push(self.data[i]);
            i = i + 1;
            assert(out@ =~= self.data@.subrange(0, i as int));
        }
        let ghost d = self.data@;
        let mut k: usize = 0;
        while k < self.offsets.len()
            invariant
                k <= self.offsets@.len(),
                d == self.data@,
                out@ == d + be16_all(self.offsets@.subrange(0, k as int)),
            decreases self.offsets@.len() - k,
        {
            let off = self.offsets[k];
            out.push((off / 256) as u8);
            out.push((off % 256) as u8);
            k = k + 1;
            assert(out@ =~= d + be16_all(self.offsets@.subrange(0, k as int)));
        }
        assert(self.offsets@.subrange(0, k as int) =~= self.offsets@);
        let n = self.offsets.len() as u16;
        out.push((n / 256) as u8);
        out.push((n % 256) as u8);
        assert(out@ =~= block_bytes(self.data@, self.offsets@));
        out
    }

    /// Reads a block back from its encoding. A buffer too short for its footer, or
    /// for the offsets that the footer declares, gives an empty block.
    pub fn decode(buf: &[u8]) -> (b: Self)
        ensures
            decodable(buf@) ==> b.data@ == decoded_data(buf@) && b.offsets@ == decoded_offsets(buf@),
            !decodable(buf@) ==> b.data@.len() == 0 && b.offsets@.len() == 0,
    {
        let len = buf.len();
        if len < 2 {
            return Block::empty();
        }
        let num = buf[len - 2] as usize * 256 + buf[len - 1] as usize;
        if len - 2 < 2 * num {
            return Block::empty();
        }
        let data_end = len - 2 - 2 * num;
        let mut data: Vec<u8> = Vec::with_capacity(data_end);
        let mut i: usize = 0;
        while i < data_end
            invariant
                i <= data_end <= buf@.len(),
                data@ == buf@.subrange(0, i as int),
            decreases data_end - i,
        {
            data.push(buf[i]);
            i = i + 1;
            assert(data@ =~= buf@.subrange(0, i as int));
        }
        let mut offsets: Vec<u16> = Vec::with_capacity(num);
        let mut k: usize = 0;
        while k < num
            invariant
                num == declared_count(buf@),
                data_end == buf@.len() - 2 - 2 * num,
                len == buf@.len(),
                k <= num,
                offsets@ == decoded_offsets(buf@).subrange(0, k as int),
            decreases num - k,
        {
            let at = data_end + 2 * k;
            let off = (buf[at] as u16) * 256 + buf[at + 1] as u16;
            offsets.push(off);
            k = k + 1;
            assert(offsets@ =~= decoded_offsets(buf@).subrange(0, k as int));
        }
        assert(offsets@ =~= decoded_offsets(buf@));
        Block { data, offsets }
    }
}

/// Decoding the encoding of a block gives back its data and its offsets.
pub proof fn lemma_block_round_trip(data: Seq<u8>, offsets: Seq<u16>)
    requires
        offsets.len() <= 0xFFFF,
    ensures
        decodable(block_bytes(data, offsets)),
        decoded_data(block_bytes(data, offsets)) == data,
        decoded_offsets(block_bytes(data, offsets)) == offsets,
{
    let buf = block_bytes(data, offsets);
    let n = offsets.len() as int;
    assert(declared_count(buf) == n);
    assert(decoded_data(buf) =~= data);
    let start = buf.len() - 2 - 2 * n;
    assert(start == data.len());
    assert forall|i: int| 0 <= i < n implies decoded_offsets(buf)[i] == offsets[i] by {
        assert(buf[start + 2 * i] == be16_all(offsets)[2 * i]);
        assert(buf[start + 2 * i + 1] == be16_all(offsets)[2 * i + 1]);
        assert((2 * i) / 2 == i);
        assert((2 * i + 1) / 2 == i);
        assert((2 * i) % 2 == 0);
        assert((2 * i + 1) % 2 == 1);
    }
    assert(decoded_offsets(buf) =~= offsets);
}

} // verus!
