use vstd::prelude::*;

use crate::block::iterator::parse_entry;
use crate::block::{block_bytes, decodable, decoded_data, decoded_offsets, lemma_block_round_trip};
use crate::block::builder::{entries_data, entries_fit, entries_offsets, BlockBuilder};
use crate::keys::{compare_bytes, copy_range, lemma_lex_trichotomy, lex_le};
use crate::skiplist::ordering::Entries;
use crate::table::{metas_bytes, metas_encodable, metas_ordered, metas_view, put_u64, be64, BlockMeta, MetaView, SsTable};

verus! {

/// The encoding of a block holding `es`.
pub open spec fn block_image(es: Entries) -> Seq<u8> {
    block_bytes(entries_data(es), entries_offsets(es))
}

/// The encodings of finished blocks, one after the other.
pub open spec fn blocks_data(bs: Seq<Entries>) -> Seq<u8>
    decreases bs.len(),
{
    if bs.len() == 0 {
        Seq::empty()
    } else {
        blocks_data(bs.drop_last()) + block_image(bs.last())
    }
}

/// All the entries of a run of blocks, in order.
pub open spec fn flatten(bs: Seq<Entries>) -> Entries
    decreases bs.len(),
{
    if bs.len() == 0 {
        Seq::empty()
    } else {
        flatten(bs.drop_last()) + bs.last()
    }
}

/// The metas of a run of finished blocks: where each starts, and its first key.
pub open spec fn blocks_metas(bs: Seq<Entries>) -> Seq<MetaView> {
    Seq::new(bs.len(), |i: int| (blocks_data(bs.take(i)).len() as u64, bs[i][0].0))
}

/// Keys never decrease along `es`.
pub open spec fn keys_nondecreasing(es: Entries) -> bool {
    forall|i: int, j: int| 0 <= i < j < es.len() ==> lex_le(#[trigger] es[i].0, #[trigger] es[j].0)
}

proof fn lemma_blocks_data_prefix(bs: Seq<Entries>, i: int)
    requires
        0 <= i <= bs.len(),
    ensures
        blocks_data(bs.take(i)).len() <= blocks_data(bs).len(),
    decreases bs.len() - i,
{
    if i < bs.len() {
        lemma_blocks_data_prefix(bs, i + 1);
        assert(bs.take(i + 1).drop_last() =~= bs.take(i));
    } else {
        assert(bs.take(i) =~= bs);
    }
}

/// Builds a sorted table from key/value pairs given in non-decreasing key order.
pub struct SsTableBuilder {
    data: Vec<u8>,
    meta: Vec<BlockMeta>,
    block_builder: BlockBuilder,
    start_key: Vec<u8>,
    last_key: Vec<u8>,
    block_size: usize,
    blocks: Ghost<Seq<Entries>>,
}

impl SsTableBuilder {
    /// Every pair added so far, in order.
    pub closed spec fn entries(&self) -> Entries {
        flatten(self.blocks@) + self.block_builder.entries()
    }

    pub closed spec fn target_block_size(&self) -> int {
        self.block_size as int
    }

    pub closed spec fn wf(&self) -> bool {
        let bs = self.blocks@;
        let cur = self.block_builder.entries();
        &&& self.block_builder.wf()
        &&& self.block_builder.capacity() == self.block_size
        &&& self.data@ == blocks_data(bs)
        &&& metas_view(self.meta@) == blocks_metas(bs)
        &&& forall|i: int| 0 <= i < bs.len() ==> (#[trigger] bs[i]).len() > 0 && entries_fit(bs[i], self.block_size as int)
        &&& self.start_key@ == (if cur.len() > 0 { cur[0].0 } else { Seq::empty() })
        &&& keys_nondecreasing(self.entries())
        &&& self.entries().len() > 0 ==> self.last_key@ == self.entries().last().0
        &&& (self.entries().len() > 0 <==> self.last_key@.len() > 0)
        &&& forall|i: int| 0 <= i < bs.len() - 1 ==> lex_le((#[trigger] bs[i])[0].0, bs[i + 1][0].0)
        &&& bs.len() > 0 ==> lex_le(bs.last()[0].0, self.last_key@)
        &&& bs.len() > 0 && cur.len() > 0 ==> lex_le(bs.last()[0].0, cur[0].0)
    }

    /// The blocks sealed so far, in order.
    pub closed spec fn finished_blocks(&self) -> Seq<Entries> {
        self.blocks@
    }

    /// The entries of the block being filled.
    pub closed spec fn current_block(&self) -> Entries {
        self.block_builder.entries()
    }

    /// How a well-formed builder lays out what it holds: the sealed blocks and
    /// their metas, then the block being filled.
    pub proof fn lemma_layout(&self)
        requires
            self.wf(),
        ensures
            self.entries() == flatten(self.finished_blocks()) + self.current_block(),
            self.data() == blocks_data(self.finished_blocks()),
            self.metas() == blocks_metas(self.finished_blocks()),
            forall|i: int| 0 <= i < self.finished_blocks().len() ==> (#[trigger] self.finished_blocks()[i]).len() > 0
                && entries_fit(self.finished_blocks()[i], self.target_block_size()),
            entries_fit(self.current_block(), self.target_block_size()),
    {
        self.block_builder.lemma_fits();
    }

    /// The blocks the table has once the current block is sealed.
    pub closed spec fn sealed_blocks(&self) -> Seq<Entries> {
        if self.block_builder.entries().len() > 0 {
            self.blocks@.push(self.block_builder.entries())
        } else {
            self.blocks@
        }
    }

    /// The metas of the finished blocks.
    pub closed spec fn metas(&self) -> Seq<MetaView> {
        metas_view(self.meta@)
    }

    /// The bytes of the finished blocks.
    pub closed spec fn data(&self) -> Seq<u8> {
        self.data@
    }

    /// Seals the current block: encodes it after the finished ones and records
    /// its meta.
    #[verifier::rlimit(100)]
    fn finish_block(&mut self)
        requires
            old(self).wf(),
            old(self).block_builder.entries().len() > 0,
        ensures
            final(self).wf(),
            final(self).entries() == old(self).entries(),
            final(self).block_size == old(self).block_size,
            final(self).block_builder.entries().len() == 0,
            final(self).blocks@ == old(self).blocks@.push(old(self).block_builder.entries()),
            final(self).last_key@ == old(self).last_key@,
    {
        let ghost bs = self.blocks@;
        let ghost es = self.entries();
        let mut fresh = BlockBuilder::new(self.block_size);
        core::mem::swap(&mut self.block_builder, &mut fresh);
        let ghost cur = fresh.entries();
        proof {
            fresh.lemma_fits();
        }
        let block = fresh.build();
        let bytes = block.encode();
        let offset = self.data.len() as u64;
        let mut first_key: Vec<u8> = Vec::new();
        core::mem::swap(&mut first_key, &mut self.start_key);
        let ghost d0 = self.data@;
        append_bytes(&mut self.data, &bytes);
        let ghost m0 = metas_view(self.meta@);
        let ghost meta0 = self.meta@;
        let ghost fk = first_key@;
        self.meta.push(BlockMeta { offset, first_key });
        self.blocks = Ghost(bs.push(cur));
        proof {
            let nbs = bs.push(cur);
            assert(nbs.drop_last() =~= bs);
            assert(nbs.last() == cur);
            assert(bytes@ == block_image(cur));
            assert(d0 == blocks_data(bs));
            assert(blocks_data(nbs) == blocks_data(bs) + block_image(cur));
            assert(self.data@ =~= blocks_data(nbs));
            assert(self.meta@ == meta0.push(self.meta@.last()));
            assert(metas_view(self.meta@) =~= m0.push((offset, fk)));
            lemma_blocks_metas_push(bs, cur);
            assert(flatten(nbs) =~= flatten(bs) + cur);
            assert(self.block_builder.entries().len() == 0);
            assert(self.entries() =~= flatten(nbs));
            assert(self.entries() =~= es);
            let fl = flatten(bs);
            assert(es[fl.len() as int] == cur[0]);
            assert(es.last() == es[es.len() - 1]);
            if fl.len() < es.len() - 1 {
                assert(lex_le(es[fl.len() as int].0, es[es.len() - 1].0));
            }
            assert forall|k: int| 0 <= k < nbs.len() - 1 implies lex_le((#[trigger] nbs[k])[0].0, nbs[k + 1][0].0) by {
                if k < bs.len() - 1 {
                    assert(nbs[k] == bs[k] && nbs[k + 1] == bs[k + 1]);
                }
            }
            assert forall|k: int| 0 <= k < nbs.len() implies (#[trigger] nbs[k]).len() > 0 && entries_fit(nbs[k], self.block_size as int) by {
                if k < bs.len() {
                    assert(nbs[k] == bs[k]);
                }
            }
        }
    }

    /// Adds a pair. It is refused where it cannot fit an empty block (see
    /// `BlockBuilder::add`), or where its key sorts below the last key added;
    /// nothing changes then. A pair that fits the current block joins it; else
    /// the current block is sealed, with its meta, and the pair starts a new one.
    #[verifier::rlimit(100)]
    pub fn add(&mut self, key: &[u8], value: &[u8]) -> (ok: bool)
        requires
            old(self).wf(),
        ensures
            final(self).wf(),
            final(self).target_block_size() == old(self).target_block_size(),
            ok == (entries_fit(seq![(key@, value@)], old(self).target_block_size()) && (old(self).entries().len() == 0
                || lex_le(old(self).entries().last().0, key@))),
            ok ==> final(self).entries() == old(self).entries().push((key@, value@)),
            !ok ==> final(self).entries() == old(self).entries(),
            ok ==> if entries_fit(old(self).current_block().push((key@, value@)), old(self).target_block_size()) {
                &&& final(self).finished_blocks() == old(self).finished_blocks()
                &&& final(self).current_block() == old(self).current_block().push((key@, value@))
            } else {
                &&& old(self).current_block().len() > 0
                &&& final(self).finished_blocks() == old(self).finished_blocks().push(old(self).current_block())
                &&& final(self).current_block() == seq![(key@, value@)]
            },
            !ok ==> final(self).finished_blocks() == old(self).finished_blocks() && final(self).current_block() == old(
                self,
            ).current_block(),
    {
        let ghost es = self.entries();
        let ghost old_last = self.last_key@;
        proof {
            lemma_fit_single(self.block_builder.entries(), key@, value@, self.block_size as int);
        }
        if self.last_key.len() > 0 {
            match compare_bytes(self.last_key.as_slice(), key) {
                std::cmp::Ordering::Greater => {
                    proof {
                        lemma_lex_trichotomy(self.last_key@, key@);
                    }
                    return false;
                },
                _ => {},
            }
        }
        let ghost in_order = es.len() == 0 || lex_le(es.last().0, key@);
        proof {
            lemma_lex_trichotomy(self.last_key@, key@);
            assert(in_order);
            assert(key@.subrange(0, key@.len() as int) =~= key@);
            assert(Seq::<(Seq<u8>, Seq<u8>)>::empty().push((key@, value@)) =~= seq![(key@, value@)]);
        }
        let was_empty = self.block_builder.is_empty();
        let ghost cur0 = self.block_builder.entries();
        proof {
            if was_empty {
                assert(cur0.push((key@, value@)) =~= seq![(key@, value@)]);
            }
        }
        if self.block_builder.add(key, value) {
            if was_empty {
                self.start_key = copy_range(key, 0, key.len());
            }
            self.last_key = copy_range(key, 0, key.len());
            proof {
                assert(entries_fit(cur0.push((key@, value@)), self.block_size as int));
                assert(entries_fit(seq![(key@, value@)], self.block_size as int));
                if self.blocks@.len() > 0 {
                    crate::table::lemma_lex_le_transitive(self.blocks@.last()[0].0, old_last, key@);
                }
                self.lemma_after_push(es, key@, value@);
            }
            return true;
        }
        if was_empty {
            return false;
        }
        let mut probe = BlockBuilder::new(self.block_size);
        proof {
            assert(probe.entries().push((key@, value@)) =~= seq![(key@, value@)]);
        }
        if !probe.add(key, value) {
            return false;
        }
        self.finish_block();
        proof {
            assert(self.block_builder.entries().push((key@, value@)) =~= seq![(key@, value@)]);
        }
        if !self.block_builder.add(key, value) {
            return false;
        }
        self.start_key = copy_range(key, 0, key.len());
        self.last_key = copy_range(key, 0, key.len());
        proof {
            assert(self.block_builder.entries() =~= seq![(key@, value@)]);
            crate::table::lemma_lex_le_transitive(self.blocks@.last()[0].0, old_last, key@);
            self.lemma_after_push(es, key@, value@);
        }
        true
    }

    proof fn lemma_after_push(&self, es: Entries, key: Seq<u8>, value: Seq<u8>)
        requires
            self.block_builder.wf(),
            self.block_builder.capacity() == self.block_size,
            self.data@ == blocks_data(self.blocks@),
            metas_view(self.meta@) == blocks_metas(self.blocks@),
            forall|i: int| 0 <= i < self.blocks@.len() ==> (#[trigger] self.blocks@[i]).len() > 0 && entries_fit(self.blocks@[i], self.block_size as int),
            forall|i: int| 0 <= i < self.blocks@.len() - 1 ==> lex_le((#[trigger] self.blocks@[i])[0].0, self.blocks@[i + 1][0].0),
            self.entries() == es.push((key, value)),
            self.block_builder.entries().len() > 0,
            self.block_builder.entries().last() == (key, value),
            key.len() > 0,
            self.last_key@ == key,
            self.start_key@ == self.block_builder.entries()[0].0,
            keys_nondecreasing(es),
            es.len() > 0 ==> lex_le(es.last().0, key),
            self.blocks@.len() > 0 ==> lex_le(self.blocks@.last()[0].0, key),
            self.blocks@.len() > 0 && self.block_builder.entries().len() > 1 ==> lex_le(self.blocks@.last()[0].0, self.block_builder.entries()[0].0),
        ensures
            self.wf(),
    {
        let ns = es.push((key, value));
        assert forall|i: int, j: int| 0 <= i < j < ns.len() implies lex_le(#[trigger] ns[i].0, #[trigger] ns[j].0) by {
            if j == ns.len() - 1 {
                if i < es.len() - 1 {
                    assert(lex_le(es[i].0, es[es.len() - 1].0));
                }
                crate::table::lemma_lex_le_transitive(es[i].0, es[es.len() - 1].0, key);
            } else {
                assert(ns[i] == es[i] && ns[j] == es[j]);
            }
        }
        let cur = self.block_builder.entries();
        if self.blocks@.len() > 0 && cur.len() == 1 {
            assert(cur[0] == (key, value));
        }
    }

    /// The size of the table if it were built now: finished blocks, their
    /// metas, and the footer (at most `usize::MAX`).
    pub fn estimated_size(&self) -> (r: usize)
        requires
            self.wf(),
        ensures
            r == if self.data().len() + metas_bytes(self.metas()).len() + 8 <= usize::MAX {
                (self.data().len() + metas_bytes(self.metas()).len() + 8) as int
            } else {
                usize::MAX as int
            },
    {
        let ghost ms = self.metas();
        let mut size: usize = self.data.len();
        let mut i: usize = 0;
        while i < self.meta.len()
            invariant
                ms == metas_view(self.meta@),
                i <= self.meta@.len(),
                size == if self.data@.len() + metas_bytes(ms.take(i as int)).len() <= usize::MAX {
                    (self.data@.len() + metas_bytes(ms.take(i as int)).len()) as int
                } else {
                    usize::MAX as int
                },
            decreases self.meta@.len() - i,
        {
            size = size.saturating_add(10);
            size = size.saturating_add(self.meta[i].first_key.len());
            proof {
                assert(ms.take(i + 1).drop_last() =~= ms.take(i as int));
                assert(ms.take(i + 1).last() == ms[i as int]);
            }
            i = i + 1;
        }
        assert(ms.take(i as int) =~= ms);
        size.saturating_add(8)
    }

    /// Seals the last block and lays the table out: blocks, then their metas,
    /// then where the metas start. Returns the table and the bytes of its file.
    #[verifier::rlimit(100)]
    pub fn build(self, id: usize) -> (r: (SsTable, Vec<u8>))
        requires
            self.wf(),
        ensures
            r.0.wf(),
            metas_ordered(r.0.metas(), r.0.meta_offset()),
            r.0.table_id() == id,
            r.0.meta_offset() as int == r.1@.len() - 8 - metas_bytes(r.0.metas()).len(),
            metas_encodable(r.0.metas()),
            r.1@ == r.1@.subrange(0, r.0.meta_offset() as int) + metas_bytes(r.0.metas()) + be64(r.0.meta_offset()),
            r.1@.subrange(0, r.0.meta_offset() as int) == blocks_data(self.sealed_blocks()),
            r.0.metas() == blocks_metas(self.sealed_blocks()),
            flatten(self.sealed_blocks()) == self.entries(),
            forall|i: int| 0 <= i < self.sealed_blocks().len() ==> (#[trigger] self.sealed_blocks()[i]).len() > 0
                && entries_fit(self.sealed_blocks()[i], self.target_block_size()),
    {
        let mut b = self;
        if !b.block_builder.is_empty() {
            b.finish_block();
        }
        let ghost bs = b.blocks@;
        let ghost data = b.data@;
        let meta_off = b.data.len() as u64;
        proof {
            lemma_built_metas(bs, b.block_size as int, meta_off);
        }
        BlockMeta::encode_block_meta(&b.meta, &mut b.data);
        put_u64(&mut b.data, meta_off);
        let ghost metas = metas_view(b.meta@);
        let t = SsTable::from_parts(id, b.meta, meta_off);
        proof {
            assert(b.data@.subrange(0, meta_off as int) =~= data);
            assert(flatten(bs) =~= flatten(bs) + Seq::<(Seq<u8>, Seq<u8>)>::empty());
        }
        (t, b.data)
    }

    /// A builder that cuts blocks of at most `block_size` encoded bytes.
    pub fn new(block_size: usize) -> (b: Self)
        ensures
            b.wf(),
            b.entries().len() == 0,
            b.finished_blocks().len() == 0,
            b.current_block().len() == 0,
            b.target_block_size() == block_size,
    {
        let b = SsTableBuilder {
            data: Vec::new(),
            meta: Vec::new(),
            block_builder: BlockBuilder::new(block_size),
            start_key: Vec::new(),
            last_key: Vec::new(),
            block_size,
            blocks: Ghost(Seq::empty()),
        };
        assert(b.entries() =~= Seq::empty());
        assert(metas_view(b.meta@) =~= blocks_metas(Seq::empty()));
        b
    }
}

/// A pair that fits after others fits an empty block too.
proof fn lemma_fit_single(es: Entries, key: Seq<u8>, value: Seq<u8>, cap: int)
    ensures
        entries_fit(es.push((key, value)), cap) ==> entries_fit(seq![(key, value)], cap),
        entries_fit(es.push((key, value)), cap) ==> key.len() > 0,
{
    let one = seq![(key, value)];
    let ns = es.push((key, value));
    let e = Seq::<(Seq<u8>, Seq<u8>)>::empty();
    assert(one.drop_last() =~= e);
    assert(one.last() == (key, value));
    assert(ns.drop_last() =~= es);
    assert(ns.last() == (key, value));
    assert(entries_data(e) == Seq::<u8>::empty());
    assert(entries_fit(e, cap));
    assert(entries_data(one) == entries_data(e) + crate::block::builder::entry_bytes(key, value));
    assert(entries_data(ns) == entries_data(es) + crate::block::builder::entry_bytes(key, value));
    assert(entries_data(one).len() <= entries_data(ns).len());
}

/// The first key of a block that fits its 16-bit length field.
proof fn lemma_first_key_fits(es: Entries, cap: int)
    requires
        es.len() > 0,
        entries_fit(es, cap),
    ensures
        es[0].0.len() <= 0xFFFF,
    decreases es.len(),
{
    if es.len() > 1 {
        lemma_first_key_fits(es.drop_last(), cap);
    }
}


proof fn lemma_blocks_metas_push(bs: Seq<Entries>, cur: Entries)
    ensures
        blocks_metas(bs.push(cur)) == blocks_metas(bs).push((blocks_data(bs).len() as u64, cur[0].0)),
{
    let nbs = bs.push(cur);
    assert forall|k: int| 0 <= k < nbs.len() implies #[trigger] blocks_metas(nbs)[k] == blocks_metas(bs).push(
        (blocks_data(bs).len() as u64, cur[0].0),
    )[k] by {
        if k < bs.len() {
            assert(nbs.take(k) =~= bs.take(k));
            assert(nbs[k] == bs[k]);
        } else {
            assert(nbs.take(k) =~= bs);
        }
    }
    assert(blocks_metas(nbs) =~= blocks_metas(bs).push((blocks_data(bs).len() as u64, cur[0].0)));
}

/// Appends `src` to `dst`.
fn append_bytes(dst: &mut Vec<u8>, src: &Vec<u8>)
    ensures
        final(dst)@ == old(dst)@ + src@,
{
    let ghost d0 = dst@;
    let mut i: usize = 0;
    while i < src.len()
        invariant
            i <= src@.len(),
            dst@ == d0 + src@.take(i as int),
        decreases src@.len() - i,
    {
        dst.push(src[i]);
        i = i + 1;
        assert(dst@ =~= d0 + src@.take(i as int));
    }
    assert(src@.take(i as int) =~= src@);
}

/// The metas of blocks built in key order are encodable and in order.
proof fn lemma_built_metas(bs: Seq<Entries>, cap: int, meta_off: u64)
    requires
        blocks_data(bs).len() == meta_off,
        forall|i: int| 0 <= i < bs.len() ==> (#[trigger] bs[i]).len() > 0 && entries_fit(bs[i], cap),
        forall|i: int| 0 <= i < bs.len() - 1 ==> lex_le((#[trigger] bs[i])[0].0, bs[i + 1][0].0),
    ensures
        metas_encodable(blocks_metas(bs)),
        metas_ordered(blocks_metas(bs), meta_off),
{
    let ms = blocks_metas(bs);
    assert forall|i: int| 0 <= i < ms.len() implies (#[trigger] ms[i]).1.len() <= 0xFFFF by {
        lemma_first_key_fits(bs[i], cap);
    }
    assert forall|i: int| 0 <= i < ms.len() - 1 implies lex_le((#[trigger] ms[i]).1, ms[i + 1].1) && ms[i].0 <= ms[i + 1].0 by {
        lemma_blocks_data_prefix(bs.take(i + 1), i);
        lemma_blocks_data_prefix(bs, i + 1);
        assert(bs.take(i + 1).take(i) =~= bs.take(i));
        assert(ms[i].0 == blocks_data(bs.take(i)).len() as u64);
        assert(ms[i + 1].0 == blocks_data(bs.take(i + 1)).len() as u64);
    }
    assert forall|i: int| 0 <= i < ms.len() implies (#[trigger] ms[i]).0 <= meta_off by {
        lemma_blocks_data_prefix(bs, i);
    }
}

/// An entry that lies wholly inside `d` reads the same once more bytes follow.
proof fn lemma_parse_entry_extend(d: Seq<u8>, e: Seq<u8>, off: int)
    requires
        parse_entry(d, off) is Some,
    ensures
        parse_entry(d + e, off) == parse_entry(d, off),
{
    let de = d + e;
    let klen = crate::block::read_be16(d, off);
    let voff = off + 2 + klen;
    let vlen = crate::block::read_be16(d, voff);
    assert(de.subrange(off + 2, voff) =~= d.subrange(off + 2, voff));
    assert(de.subrange(voff + 2, voff + 2 + vlen) =~= d.subrange(voff + 2, voff + 2 + vlen));
}

/// Each offset of a block that fits leads to its entry.
#[verifier::spinoff_prover]
#[verifier::rlimit(100)]
proof fn lemma_entries_parse(es: Entries, cap: int, j: int)
    requires
        entries_fit(es, cap),
        0 <= j < es.len(),
    ensures
        entries_offsets(es).len() == es.len(),
        parse_entry(entries_data(es), entries_offsets(es)[j] as int) == Some(es[j]),
    decreases es.len(),
{
    let pre = es.drop_last();
    let n = es.len() - 1;
    lemma_offsets_len(es, cap);
    if j < n {
        lemma_entries_parse(pre, cap, j);
        assert(pre[j] == es[j]);
        lemma_parse_entry_extend(entries_data(pre), entry_bytes_of(es.last()), entries_offsets(pre)[j] as int);
    } else {
        let d = entries_data(pre);
        let (k, v) = es.last();
        let off = d.len() as int;
        assert(d.len() <= 0xFFFF);
        assert(entries_offsets(es)[j] as int == off);
        let all = entries_data(es);
        assert(all == d + crate::block::builder::entry_bytes(k, v));
        let kl = k.len() as int;
        let vl = v.len() as int;
        assert(all[off] == (kl / 256) as u8);
        assert(all[off + 1] == (kl % 256) as u8);
        assert(crate::block::read_be16(all, off) == kl);
        assert(all[off + 2 + kl] == (vl / 256) as u8);
        assert(all[off + 3 + kl] == (vl % 256) as u8);
        assert(crate::block::read_be16(all, off + 2 + kl) == vl);
        assert(all.subrange(off + 2, off + 2 + kl) =~= k);
        assert(all.subrange(off + 4 + kl, off + 4 + kl + vl) =~= v);
    }
}

spec fn entry_bytes_of(e: (Seq<u8>, Seq<u8>)) -> Seq<u8> {
    crate::block::builder::entry_bytes(e.0, e.1)
}

proof fn lemma_offsets_len(es: Entries, cap: int)
    requires
        entries_fit(es, cap),
    ensures
        entries_offsets(es).len() == es.len(),
        es.len() <= 0xFFFF,
    decreases es.len(),
{
    if es.len() > 0 {
        lemma_offsets_len(es.drop_last(), cap);
        lemma_data_len(es, cap);
    }
}

proof fn lemma_data_len(es: Entries, cap: int)
    requires
        entries_fit(es, cap),
    ensures
        5 * es.len() <= entries_data(es).len(),
        es.len() > 0 ==> entries_data(es.drop_last()).len() <= 0xFFFF,
    decreases es.len(),
{
    if es.len() > 0 {
        lemma_data_len(es.drop_last(), cap);
    }
}

/// The blocks laid out before block `k` form a prefix of all of them.
proof fn lemma_blocks_data_is_prefix(bs: Seq<Entries>, k: int)
    requires
        0 <= k <= bs.len(),
    ensures
        blocks_data(bs.take(k)).len() <= blocks_data(bs).len(),
        blocks_data(bs).subrange(0, blocks_data(bs.take(k)).len() as int) == blocks_data(bs.take(k)),
    decreases bs.len() - k,
{
    if k == bs.len() {
        assert(bs.take(k) =~= bs);
        assert(blocks_data(bs).subrange(0, blocks_data(bs).len() as int) =~= blocks_data(bs));
    } else {
        lemma_blocks_data_is_prefix(bs, k + 1);
        let t = bs.take(k + 1);
        assert(t.drop_last() =~= bs.take(k));
        let small = blocks_data(bs.take(k));
        let big = blocks_data(t);
        assert(big == small + block_image(t.last()));
        assert(blocks_data(bs).subrange(0, small.len() as int) =~= big.subrange(0, small.len() as int));
        assert(big.subrange(0, small.len() as int) =~= small);
    }
}

/// Reading back block `i` of a built table, from its offset up to the next
/// block's (or to the metas), gives exactly the entries added to that block,
/// in order.
pub proof fn lemma_built_block_entries(bs: Seq<Entries>, cap: int, i: int, j: int)
    requires
        forall|k: int| 0 <= k < bs.len() ==> (#[trigger] bs[k]).len() > 0 && entries_fit(bs[k], cap),
        blocks_data(bs).len() <= u64::MAX,
        0 <= i < bs.len(),
        0 <= j < bs[i].len(),
    ensures
        ({
            let start = blocks_metas(bs)[i].0 as int;
            let end = if i + 1 < bs.len() { blocks_metas(bs)[i + 1].0 as int } else { blocks_data(bs).len() as int };
            let region = blocks_data(bs).subrange(start, end);
            &&& decodable(region)
            &&& decoded_offsets(region).len() == bs[i].len()
            &&& parse_entry(decoded_data(region), decoded_offsets(region)[j] as int) == Some(bs[i][j])
        }),
{
    lemma_blocks_data_is_prefix(bs, i);
    lemma_blocks_data_is_prefix(bs, i + 1);
    let t = bs.take(i + 1);
    assert(t.drop_last() =~= bs.take(i));
    assert(t.last() == bs[i]);
    let start = blocks_data(bs.take(i)).len() as int;
    let mid = blocks_data(t).len() as int;
    assert(blocks_data(t) == blocks_data(bs.take(i)) + block_image(bs[i]));
    assert(blocks_metas(bs)[i].0 as int == start);
    if i + 1 < bs.len() {
        assert(blocks_metas(bs)[i + 1].0 as int == mid);
    } else {
        assert(t =~= bs);
    }
    let region = blocks_data(bs).subrange(start, mid);
    assert(region =~= block_image(bs[i])) by {
        assert(blocks_data(bs).subrange(0, mid) == blocks_data(t));
        assert(region =~= blocks_data(t).subrange(start, mid));
    }
    lemma_offsets_len(bs[i], cap);
    lemma_block_round_trip(entries_data(bs[i]), entries_offsets(bs[i]));
    lemma_entries_parse(bs[i], cap, j);
}

} // verus!
