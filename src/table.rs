use vstd::prelude::*;

use crate::block::{be16, read_be16};
use crate::error::Error;
use crate::keys::{copy_range, lex_le, lex_lt};

pub mod builder;
pub mod iterator;

verus! {

/// The big-endian bytes of a 64-bit integer.
pub open spec fn be64(x: u64) -> Seq<u8> {
    seq![
        ((x >> 56u64) & 0xffu64) as u8,
        ((x >> 48u64) & 0xffu64) as u8,
        ((x >> 40u64) & 0xffu64) as u8,
        ((x >> 32u64) & 0xffu64) as u8,
        ((x >> 24u64) & 0xffu64) as u8,
        ((x >> 16u64) & 0xffu64) as u8,
        ((x >> 8u64) & 0xffu64) as u8,
        (x & 0xffu64) as u8,
    ]
}

/// The 64-bit big-endian integer held in `b[at..at + 8]`.
pub open spec fn read_be64(b: Seq<u8>, at: int) -> u64 {
    ((b[at] as u64) << 56u64) | ((b[at + 1] as u64) << 48u64) | ((b[at + 2] as u64) << 40u64) | ((b[at + 3] as u64) << 32u64)
        | ((b[at + 4] as u64) << 24u64) | ((b[at + 5] as u64) << 16u64) | ((b[at + 6] as u64) << 8u64) | (b[at + 7] as u64)
}

pub proof fn lemma_be64_round_trip(x: u64)
    ensures
        read_be64(be64(x), 0) == x,
{
    let b0 = ((x >> 56u64) & 0xffu64) as u8;
    let b1 = ((x >> 48u64) & 0xffu64) as u8;
    let b2 = ((x >> 40u64) & 0xffu64) as u8;
    let b3 = ((x >> 32u64) & 0xffu64) as u8;
    let b4 = ((x >> 24u64) & 0xffu64) as u8;
    let b5 = ((x >> 16u64) & 0xffu64) as u8;
    let b6 = ((x >> 8u64) & 0xffu64) as u8;
    let b7 = (x & 0xffu64) as u8;
    assert(((b0 as u64) << 56u64) | ((b1 as u64) << 48u64) | ((b2 as u64) << 40u64) | ((b3 as u64) << 32u64)
        | ((b4 as u64) << 24u64) | ((b5 as u64) << 16u64) | ((b6 as u64) << 8u64) | (b7 as u64) == x) by (bit_vector)
        requires
            b0 == ((x >> 56u64) & 0xffu64) as u8,
            b1 == ((x >> 48u64) & 0xffu64) as u8,
            b2 == ((x >> 40u64) & 0xffu64) as u8,
            b3 == ((x >> 32u64) & 0xffu64) as u8,
            b4 == ((x >> 24u64) & 0xffu64) as u8,
            b5 == ((x >> 16u64) & 0xffu64) as u8,
            b6 == ((x >> 8u64) & 0xffu64) as u8,
            b7 == (x & 0xffu64) as u8,
    ;
}

/// Appends the big-endian bytes of `x`.
pub fn put_u64(buf: &mut Vec<u8>, x: u64)
    ensures
        final(buf)@ == old(buf)@ + be64(x),
{
    buf.push(((x >> 56u64) & 0xffu64) as u8);
    buf.push(((x >> 48u64) & 0xffu64) as u8);
    buf.push(((x >> 40u64) & 0xffu64) as u8);
    buf.push(((x >> 32u64) & 0xffu64) as u8);
    buf.push(((x >> 24u64) & 0xffu64) as u8);
    buf.push(((x >> 16u64) & 0xffu64) as u8);
    buf.push(((x >> 8u64) & 0xffu64) as u8);
    buf.push((x & 0xffu64) as u8);
    assert(final(buf)@ =~= old(buf)@ + be64(x));
}

/// Reads the big-endian integer at `b[at..at + 8]`.
pub fn get_u64(b: &[u8], at: usize) -> (r: u64)
    requires
        at + 8 <= b@.len(),
    ensures
        r == read_be64(b@, at as int),
{
    ((b[at] as u64) << 56u64) | ((b[at + 1] as u64) << 48u64) | ((b[at + 2] as u64) << 40u64) | ((b[at + 3] as u64) << 32u64)
        | ((b[at + 4] as u64) << 24u64) | ((b[at + 5] as u64) << 16u64) | ((b[at + 6] as u64) << 8u64) | (b[at + 7] as u64)
}

/// Where a block begins in a table file, and the first key it holds.
#[derive(Debug)]
pub struct BlockMeta {
    /// Offset of the block in the file.
    pub offset: u64,
    /// The first key of the block.
    pub first_key: Vec<u8>,
}

/// A block meta as a value of specifications.
pub type MetaView = (u64, Seq<u8>);

impl View for BlockMeta {
    type V = MetaView;

    open spec fn view(&self) -> MetaView {
        (self.offset, self.first_key@)
    }
}

impl BlockMeta {
    /// Encoded size of this meta: offset, key length, key.
    pub fn size(&self) -> (r: usize)
        requires
            self.first_key@.len() + 10 <= usize::MAX,
        ensures
            r == meta_bytes(self@).len(),
    {
        8 + 2 + self.first_key.len()
    }

    /// Appends the encoding of each block meta to `buf`.
    pub fn encode_block_meta(block_meta: &Vec<BlockMeta>, buf: &mut Vec<u8>)
        requires
            metas_encodable(metas_view(block_meta@)),
        ensures
            final(buf)@ == old(buf)@ + metas_bytes(metas_view(block_meta@)),
    {
        let ghost ms = metas_view(block_meta@);
        let ghost start = buf@;
        let mut i: usize = 0;
        while i < block_meta.len()
            invariant
                ms == metas_view(block_meta@),
                metas_encodable(ms),
                i <= block_meta@.len(),
                buf@ == start + metas_bytes(ms.take(i as int)),
            decreases block_meta@.len() - i,
        {
            let m = &block_meta[i];
            put_u64(buf, m.offset);
            let klen = m.first_key.len();
            assert(ms[i as int].1.len() <= 0xFFFF);
            buf.push((klen / 256) as u8);
            buf.push((klen % 256) as u8);
            let mut j: usize = 0;
            let ghost mid = buf@;
            while j < klen
                invariant
                    j <= klen == m.first_key@.len(),
                    buf@ == mid + m.first_key@.take(j as int),
                decreases klen - j,
            {
                buf.push(m.first_key[j]);
                j = j + 1;
                assert(buf@ =~= mid + m.first_key@.take(j as int));
            }
            proof {
                assert(m.first_key@.take(klen as int) =~= m.first_key@);
                assert(ms.take(i + 1).drop_last() =~= ms.take(i as int));
                assert(ms.take(i + 1).last() == ms[i as int]);
                assert(buf@ =~= start + metas_bytes(ms.take(i + 1)));
            }
            i = i + 1;
        }
        assert(ms.take(i as int) =~= ms);
    }

    /// Reads block metas back from their encoding; `MalformedSst` where the buffer
    /// ends inside one.
    pub fn decode_block_meta(buf: &[u8]) -> (r: Result<Vec<BlockMeta>, Error>)
        ensures
            match parse_metas(buf@) {
                Some(ms) => r is Ok && metas_view(r.unwrap()@) == ms,
                None => r == Err::<Vec<BlockMeta>, Error>(Error::MalformedSst),
            },
    {
        let mut out: Vec<BlockMeta> = Vec::new();
        let mut pos: usize = 0;
        proof {
            assert(buf@.skip(0) =~= buf@);
            assert(metas_view(out@) =~= Seq::<MetaView>::empty());
            match parse_metas(buf@) {
                Some(rest) => {
                    assert(metas_view(out@) + rest =~= rest);
                },
                None => {},
            }
        }
        while pos < buf.len()
            invariant
                pos <= buf@.len(),
                parse_metas(buf@) == match parse_metas(buf@.skip(pos as int)) {
                    Some(rest) => Some(metas_view(out@) + rest),
                    None => None::<Seq<MetaView>>,
                },
            decreases buf@.len() - pos,
        {
            let ghost b = buf@.skip(pos as int);
            if buf.len() - pos < 10 {
                return Err(Error::MalformedSst);
            }
            let offset = get_u64(buf, pos);
            let klen = buf[pos + 8] as usize * 256 + buf[pos + 9] as usize;
            if buf.len() - pos - 10 < klen {
                return Err(Error::MalformedSst);
            }
            let first_key = copy_range(buf, pos + 10, pos + 10 + klen);
            proof {
                assert(read_be64(b, 0) == offset);
                assert(read_be16(b, 8) == klen);
                assert(b.subrange(10, 10 + klen as int) =~= first_key@);
                assert(b.skip(10 + klen as int) =~= buf@.skip(pos + 10 + klen));
            }
            let ghost before = metas_view(out@);
            out.push(BlockMeta { offset, first_key });
            proof {
                assert(metas_view(out@) =~= before.push((offset, first_key@)));
                match parse_metas(buf@.skip(pos + 10 + klen)) {
                    Some(rest) => {
                        assert(before + (seq![(offset, first_key@)] + rest) =~= before.push((offset, first_key@)) + rest);
                    },
                    None => {},
                }
            }
            pos = pos + 10 + klen;
        }
        proof {
            assert(buf@.skip(pos as int) =~= Seq::<u8>::empty());
            assert(metas_view(out@) + Seq::<MetaView>::empty() =~= metas_view(out@));
        }
        Ok(out)
    }
}

/// The views of a sequence of block metas.
pub open spec fn metas_view(ms: Seq<BlockMeta>) -> Seq<MetaView> {
    Seq::new(ms.len(), |i: int| ms[i]@)
}

/// The encoding of one block meta: offset, key length, key.
pub open spec fn meta_bytes(m: MetaView) -> Seq<u8> {
    be64(m.0) + be16(m.1.len() as int) + m.1
}

/// The encoding of a run of block metas, one after the other.
pub open spec fn metas_bytes(ms: Seq<MetaView>) -> Seq<u8>
    decreases ms.len(),
{
    if ms.len() == 0 {
        Seq::empty()
    } else {
        metas_bytes(ms.drop_last()) + meta_bytes(ms.last())
    }
}

/// Every first key fits the 16-bit length field.
pub open spec fn metas_encodable(ms: Seq<MetaView>) -> bool {
    forall|i: int| 0 <= i < ms.len() ==> (#[trigger] ms[i]).1.len() <= 0xFFFF
}

/// The block metas held in `b`, or `None` where `b` ends inside one.
pub open spec fn parse_metas(b: Seq<u8>) -> Option<Seq<MetaView>>
    decreases b.len(),
{
    if b.len() == 0 {
        Some(Seq::empty())
    } else if b.len() < 10 {
        None
    } else {
        let klen = read_be16(b, 8);
        if b.len() < 10 + klen {
            None
        } else {
            match parse_metas(b.skip(10 + klen)) {
                Some(rest) => Some(seq![(read_be64(b, 0), b.subrange(10, 10 + klen))] + rest),
                None => None,
            }
        }
    }
}

proof fn lemma_metas_bytes_front(ms: Seq<MetaView>)
    requires
        ms.len() > 0,
    ensures
        metas_bytes(ms) == meta_bytes(ms[0]) + metas_bytes(ms.drop_first()),
    decreases ms.len(),
{
    if ms.len() == 1 {
        assert(ms.drop_last() =~= Seq::<MetaView>::empty());
        assert(ms.drop_first() =~= Seq::<MetaView>::empty());
        assert(metas_bytes(ms) =~= meta_bytes(ms[0]) + metas_bytes(ms.drop_first()));
    } else {
        lemma_metas_bytes_front(ms.drop_last());
        assert(ms.drop_last().drop_first() =~= ms.drop_first().drop_last());
        assert(ms.drop_first().last() == ms.last());
        assert(metas_bytes(ms) =~= meta_bytes(ms[0]) + metas_bytes(ms.drop_first()));
    }
}

/// Parsing the encoding of block metas gives them back.
pub proof fn lemma_metas_round_trip(ms: Seq<MetaView>)
    requires
        metas_encodable(ms),
    ensures
        parse_metas(metas_bytes(ms)) == Some(ms),
    decreases ms.len(),
{
    if ms.len() == 0 {
        assert(ms =~= Seq::<MetaView>::empty());
    } else {
        lemma_metas_bytes_front(ms);
        let rest = ms.drop_first();
        assert(metas_encodable(rest)) by {
            assert forall|i: int| 0 <= i < rest.len() implies (#[trigger] rest[i]).1.len() <= 0xFFFF by {
                assert(rest[i] == ms[i + 1]);
            }
        }
        lemma_metas_round_trip(rest);
        let b = metas_bytes(ms);
        let m = ms[0];
        let klen = m.1.len() as int;
        assert(m.1.len() <= 0xFFFF);
        lemma_be64_round_trip(m.0);
        assert(b.subrange(0, 8) =~= be64(m.0));
        assert(read_be64(b, 0) == read_be64(be64(m.0), 0));
        assert(read_be16(b, 8) == klen);
        assert(b.subrange(10, 10 + klen) =~= m.1);
        assert(b.skip(10 + klen) =~= metas_bytes(rest));
        assert(seq![(read_be64(b, 0), b.subrange(10, 10 + klen))] + rest =~= ms);
    }
}

pub proof fn lemma_lex_le_transitive(a: Seq<u8>, b: Seq<u8>, c: Seq<u8>)
    requires
        lex_le(a, b),
        lex_le(b, c),
    ensures
        lex_le(a, c),
{
    if a != b && b != c {
        crate::keys::lemma_lex_transitive(a, b, c);
    }
}

/// First keys and offsets never decrease from one block to the next, and every
/// block starts before the meta region.
pub open spec fn metas_ordered(ms: Seq<MetaView>, meta_offset: u64) -> bool {
    &&& forall|i: int| 0 <= i < ms.len() - 1 ==> lex_le((#[trigger] ms[i]).1, ms[i + 1].1) && ms[i].0 <= ms[i + 1].0
    &&& forall|i: int| 0 <= i < ms.len() ==> (#[trigger] ms[i]).0 <= meta_offset
}

proof fn lemma_metas_chain(ms: Seq<MetaView>, meta_offset: u64, i: int, j: int)
    requires
        metas_ordered(ms, meta_offset),
        0 <= i <= j < ms.len(),
    ensures
        lex_le(ms[i].1, ms[j].1) && ms[i].0 <= ms[j].0,
    decreases j - i,
{
    if i < j {
        lemma_metas_chain(ms, meta_offset, i + 1, j);
        lemma_lex_le_transitive(ms[i].1, ms[i + 1].1, ms[j].1);
    }
}

pub proof fn lemma_metas_pairwise(ms: Seq<MetaView>, meta_offset: u64)
    requires
        metas_ordered(ms, meta_offset),
    ensures
        forall|i: int, j: int| 0 <= i <= j < ms.len() ==> lex_le((#[trigger] ms[i]).1, (#[trigger] ms[j]).1) && ms[i].0 <= ms[j].0,
{
    assert forall|i: int, j: int| 0 <= i <= j < ms.len() implies lex_le((#[trigger] ms[i]).1, (#[trigger] ms[j]).1) && ms[i].0 <= ms[j].0 by {
        lemma_metas_chain(ms, meta_offset, i, j);
    }
}

/// How many blocks have a first key at or below `key`.
pub open spec fn count_first_le(ms: Seq<MetaView>, key: Seq<u8>) -> int
    decreases ms.len(),
{
    if ms.len() == 0 {
        0
    } else {
        count_first_le(ms.drop_last(), key) + if lex_le(ms.last().1, key) { 1int } else { 0int }
    }
}

/// The block that may hold `key`: the last one whose first key is at or below
/// it, or the first block where there is none.
pub open spec fn block_index_of(ms: Seq<MetaView>, key: Seq<u8>) -> int {
    let p = count_first_le(ms, key);
    if p > 0 { p - 1 } else { 0 }
}

pub proof fn lemma_count_first_le_char(ms: Seq<MetaView>, meta_offset: u64, key: Seq<u8>)
    requires
        metas_ordered(ms, meta_offset),
    ensures
        0 <= count_first_le(ms, key) <= ms.len(),
        forall|i: int| 0 <= i < ms.len() ==> (i < count_first_le(ms, key) <==> lex_le((#[trigger] ms[i]).1, key)),
    decreases ms.len(),
{
    lemma_metas_pairwise(ms, meta_offset);
    if ms.len() > 0 {
        let pre = ms.drop_last();
        assert(metas_ordered(pre, meta_offset)) by {
            assert forall|i: int| 0 <= i < pre.len() - 1 implies lex_le((#[trigger] pre[i]).1, pre[i + 1].1) && pre[i].0 <= pre[i + 1].0 by {
                assert(pre[i] == ms[i] && pre[i + 1] == ms[i + 1]);
            }
            assert forall|i: int| 0 <= i < pre.len() implies (#[trigger] pre[i]).0 <= meta_offset by {
                assert(pre[i] == ms[i]);
            }
        }
        lemma_count_first_le_char(pre, meta_offset, key);
        let n = ms.len() - 1;
        if lex_le(ms[n].1, key) {
            assert forall|i: int| 0 <= i < n implies lex_le((#[trigger] pre[i]).1, key) by {
                assert(pre[i] == ms[i]);
                assert(lex_le(ms[i].1, ms[n].1));
                lemma_lex_le_transitive(ms[i].1, ms[n].1, key);
            }
        } else {
            assert forall|i: int| 0 <= i < n implies !lex_le((#[trigger] pre[i]).1, key) || i < count_first_le(pre, key) by {
                assert(pre[i] == ms[i]);
            }
        }
        assert forall|i: int| 0 <= i < ms.len() implies (i < count_first_le(ms, key) <==> lex_le((#[trigger] ms[i]).1, key)) by {
            if i < n {
                assert(pre[i] == ms[i]);
            }
        }
    }
}

/// A key that lies in block `i` (at or above its first key, below the next
/// block's first key) is looked for in block `i`.
pub proof fn lemma_block_index_exact(ms: Seq<MetaView>, meta_offset: u64, key: Seq<u8>, i: int)
    requires
        metas_ordered(ms, meta_offset),
        0 <= i < ms.len(),
        lex_le(ms[i].1, key),
        i + 1 == ms.len() || lex_lt(key, ms[i + 1].1),
    ensures
        block_index_of(ms, key) == i,
{
    lemma_count_first_le_char(ms, meta_offset, key);
    lemma_metas_pairwise(ms, meta_offset);
    if i + 1 < ms.len() {
        crate::keys::lemma_lex_trichotomy(key, ms[i + 1].1);
        assert(!lex_le(ms[i + 1].1, key));
    }
}

/// The file a builder writes holds its blocks, then their metas, then where the
/// metas start: reading the footer and the meta region of such a file gives the
/// metas back, in order.
pub proof fn lemma_table_round_trip(data: Seq<u8>, ms: Seq<MetaView>)
    requires
        metas_encodable(ms),
        metas_ordered(ms, data.len() as u64),
        data.len() + metas_bytes(ms).len() + 8 <= u64::MAX,
    ensures
        ({
            let file = data + metas_bytes(ms) + be64(data.len() as u64);
            let footer = file.subrange(file.len() - 8, file.len() as int);
            &&& file.len() >= 8
            &&& read_be64(footer, 0) == data.len()
            &&& read_be64(footer, 0) <= file.len() - 8
            &&& parse_metas(file.subrange(data.len() as int, file.len() - 8)) == Some(ms)
            &&& metas_ordered(ms, read_be64(footer, 0))
        }),
{
    let file = data + metas_bytes(ms) + be64(data.len() as u64);
    let footer = file.subrange(file.len() - 8, file.len() as int);
    assert(footer =~= be64(data.len() as u64));
    lemma_be64_round_trip(data.len() as u64);
    assert(file.subrange(data.len() as int, file.len() - 8) =~= metas_bytes(ms));
    lemma_metas_round_trip(ms);
}

/// An immutable sorted table, as far as its index: where each block starts, its
/// first key, and where the index itself starts. The bytes stay in the file.
pub struct SsTable {
    block_metas: Vec<BlockMeta>,
    block_meta_offset: u64,
    sst_id: usize,
}

impl SsTable {
    pub closed spec fn metas(&self) -> Seq<MetaView> {
        metas_view(self.block_metas@)
    }

    pub closed spec fn meta_offset(&self) -> u64 {
        self.block_meta_offset
    }

    pub closed spec fn table_id(&self) -> usize {
        self.sst_id
    }

    /// The metas are in order and start before the meta region.
    pub open spec fn wf(&self) -> bool {
        metas_ordered(self.metas(), self.meta_offset())
    }

    /// Reads where the meta region starts from the last 8 bytes of a file of
    /// `file_size` bytes. The file must hold the footer, and the region must
    /// start within the file.
    pub fn meta_offset_of(file_size: u64, footer: &[u8]) -> (r: Result<u64, Error>)
        ensures
            (file_size >= 8 && footer@.len() == 8 && read_be64(footer@, 0) <= file_size - 8) ==> r == Ok::<u64, Error>(
                read_be64(footer@, 0),
            ),
            !(file_size >= 8 && footer@.len() == 8 && read_be64(footer@, 0) <= file_size - 8) ==> r == Err::<u64, Error>(
                Error::MalformedSst,
            ),
    {
        if file_size < 8 || footer.len() != 8 {
            return Err(Error::MalformedSst);
        }
        let off = get_u64(footer, 0);
        if off > file_size - 8 {
            return Err(Error::MalformedSst);
        }
        Ok(off)
    }

    /// Opens a table from its meta region, which starts at `meta_offset` in the
    /// file. A region that ends inside a meta, or whose metas are out of order or
    /// point past the region, gives `MalformedSst`.
    pub fn open(id: usize, meta_offset: u64, raw_meta: &[u8]) -> (r: Result<SsTable, Error>)
        ensures
            match parse_metas(raw_meta@) {
                Some(ms) => if metas_ordered(ms, meta_offset) {
                    r is Ok && r.unwrap().wf() && r.unwrap().metas() == ms && r.unwrap().meta_offset() == meta_offset
                        && r.unwrap().table_id() == id
                } else {
                    r == Err::<SsTable, Error>(Error::MalformedSst)
                },
                None => r == Err::<SsTable, Error>(Error::MalformedSst),
            },
    {
        let metas = match BlockMeta::decode_block_meta(raw_meta) {
            Ok(m) => m,
            Err(e) => {
                return Err(e);
            },
        };
        let ghost ms = metas_view(metas@);
        let mut i: usize = 0;
        while i < metas.len()
            invariant
                ms == metas_view(metas@),
                parse_metas(raw_meta@) == Some(ms),
                i <= metas@.len(),
                forall|k: int| 0 <= k < i ==> (#[trigger] ms[k]).0 <= meta_offset,
                forall|k: int| 0 <= k < i && k + 1 < ms.len() ==> lex_le((#[trigger] ms[k]).1, ms[k + 1].1) && ms[k].0 <= ms[k + 1].0,
            decreases metas@.len() - i,
        {
            proof {
                assert(ms[i as int] == metas@[i as int]@);
                if i + 1 < metas@.len() {
                    assert(ms[i + 1] == metas@[i + 1]@);
                }
            }
            if metas[i].offset > meta_offset {
                return Err(Error::MalformedSst);
            }
            if i < metas.len() - 1 {
                if metas[i].offset > metas[i + 1].offset {
                    return Err(Error::MalformedSst);
                }
                let o = crate::keys::compare_bytes(metas[i].first_key.as_slice(), metas[i + 1].first_key.as_slice());
                match o {
                    std::cmp::Ordering::Greater => {
                        proof {
                            crate::keys::lemma_lex_trichotomy(ms[i as int].1, ms[i + 1].1);
                        }
                        return Err(Error::MalformedSst);
                    },
                    _ => {},
                }
            }
            i = i + 1;
        }
        Ok(SsTable { block_metas: metas, block_meta_offset: meta_offset, sst_id: id })
    }

    /// A table over metas known to be in order.
    pub(crate) fn from_parts(id: usize, block_metas: Vec<BlockMeta>, meta_offset: u64) -> (t: SsTable)
        requires
            metas_ordered(metas_view(block_metas@), meta_offset),
        ensures
            t.wf(),
            t.metas() == metas_view(block_metas@),
            t.meta_offset() == meta_offset,
            t.table_id() == id,
    {
        SsTable { block_metas, block_meta_offset: meta_offset, sst_id: id }
    }

    pub fn num_of_blocks(&self) -> (r: usize)
        ensures
            r == self.metas().len(),
    {
        self.block_metas.len()
    }

    pub fn id(&self) -> (r: usize)
        ensures
            r == self.table_id(),
    {
        self.sst_id
    }

    pub fn block_meta_offset(&self) -> (r: u64)
        ensures
            r == self.meta_offset(),
    {
        self.block_meta_offset
    }

    pub fn block_metas(&self) -> (r: &Vec<BlockMeta>)
        ensures
            metas_view(r@) == self.metas(),
    {
        &self.block_metas
    }

    /// Where block `idx` lies in the file: its offset and its length, up to the
    /// next block or to the meta region.
    pub fn block_range(&self, idx: usize) -> (r: (u64, u64))
        requires
            self.wf(),
            idx < self.metas().len(),
        ensures
            r.0 == self.metas()[idx as int].0,
            r.0 + r.1 == if idx + 1 < self.metas().len() { self.metas()[idx + 1].0 } else { self.meta_offset() },
    {
        let start = self.block_metas[idx].offset;
        let end = if idx < self.block_metas.len() - 1 {
            self.block_metas[idx + 1].offset
        } else {
            self.block_meta_offset
        };
        proof {
            assert(self.metas()[idx as int] == self.block_metas@[idx as int]@);
            if idx + 1 < self.metas().len() {
                assert(self.metas()[idx + 1] == self.block_metas@[idx + 1]@);
            }
        }
        (start, end - start)
    }

    /// The block that may hold `key`: the last one whose first key is at or
    /// below `key`, found by binary search; block `0` where there is none.
    pub fn find_block_idx(&self, key: &[u8]) -> (r: usize)
        requires
            self.wf(),
        ensures
            r == block_index_of(self.metas(), key@),
    {
        let ghost ms = self.metas();
        proof {
            lemma_count_first_le_char(ms, self.block_meta_offset, key@);
        }
        let mut lo: usize = 0;
        let mut hi: usize = self.block_metas.len();
        while lo < hi
            invariant
                ms == self.metas(),
                self.wf(),
                0 <= count_first_le(ms, key@) <= ms.len(),
                forall|i: int| 0 <= i < ms.len() ==> (i < count_first_le(ms, key@) <==> lex_le((#[trigger] ms[i]).1, key@)),
                lo <= hi <= ms.len(),
                lo <= count_first_le(ms, key@) <= hi,
            decreases hi - lo,
        {
            let mid = lo + (hi - lo) / 2;
            let o = crate::keys::compare_bytes(self.block_metas[mid].first_key.as_slice(), key);
            proof {
                assert(ms[mid as int] == self.block_metas@[mid as int]@);
            }
            match o {
                std::cmp::Ordering::Greater => {
                    hi = mid;
                },
                _ => {
                    lo = mid + 1;
                },
            }
        }
        if lo > 0 {
            lo - 1
        } else {
            0
        }
    }
}

} // verus!
