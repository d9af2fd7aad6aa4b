use std::sync::Arc;

use lsmkv::block::Block;
use lsmkv::error::Error;
use lsmkv::table::builder::SsTableBuilder;
use lsmkv::table::iterator::SsTableIterator;
use lsmkv::table::{BlockMeta, SsTable};

#[test]
fn test() {
    let v = vec![1, 2, 3];
    let r = v.partition_point(|e| *e < 0).saturating_sub(1);
    println!("{}", r);
    let r = v.partition_point(|e| *e <= 1);
    println!("{}", r);
    let r = v.partition_point(|e| *e <= 2);
    println!("{}", r);
    let r = v.partition_point(|e| *e > 2);
    println!("{}", r);
}

fn build_table(block_size: usize, n: usize) -> (SsTable, Vec<u8>) {
    let mut b = SsTableBuilder::new(block_size);
    for i in 1..=n {
        assert!(b.add(format!("k{:03}", i).as_bytes(), b"v"));
    }
    b.build(1)
}

fn reopen(file: &[u8]) -> SsTable {
    let len = file.len() as u64;
    let off = SsTable::meta_offset_of(len, &file[file.len() - 8..]).unwrap();
    SsTable::open(1, off, &file[off as usize..file.len() - 8]).unwrap()
}

fn load(table: &SsTable, file: &[u8], idx: usize) -> Arc<Block> {
    let (start, len) = table.block_range(idx);
    Arc::new(Block::decode(&file[start as usize..(start + len) as usize]))
}

fn collect(table: &Arc<SsTable>, file: &[u8], mut it: SsTableIterator) -> Vec<String> {
    let mut out = vec![];
    loop {
        while it.is_valid() {
            out.push(String::from_utf8(it.key().to_vec()).unwrap());
            if let Some(idx) = it.next() {
                it.enter_block(idx, load(table, file, idx));
            }
        }
        break;
    }
    out
}

#[test]
fn sstable_point_search() {
    let (table, file) = build_table(64, 100);
    assert!(table.num_of_blocks() > 1);
    let i = table.find_block_idx(b"k050");
    let metas = table.block_metas();
    assert!(metas[i].first_key.as_slice() <= b"k050".as_slice());
    if i + 1 < metas.len() {
        assert!(b"k050".as_slice() < metas[i + 1].first_key.as_slice());
    }
    assert_eq!(i, 9);
    assert_eq!(metas[9].first_key, b"k046".to_vec());
    let table = Arc::new(table);
    let block = load(&table, &file, i);
    let (mut it, pending) = SsTableIterator::create_and_seek_to_key(table.clone(), block, b"k050");
    assert_eq!(pending, None);
    if let Some(idx) = pending {
        it.enter_block(idx, load(&table, &file, idx));
    }
    let keys = collect(&table, &file, it);
    let expected: Vec<String> = (50..=100).map(|i| format!("k{:03}", i)).collect();
    assert_eq!(keys, expected);
}

#[test]
fn sstable_round_trip() {
    let (table, file) = build_table(64, 100);
    let opened = reopen(&file);
    assert_eq!(opened.num_of_blocks(), table.num_of_blocks());
    assert_eq!(opened.block_meta_offset(), table.block_meta_offset());
    for (a, b) in opened.block_metas().iter().zip(table.block_metas().iter()) {
        assert_eq!(a.offset, b.offset);
        assert_eq!(a.first_key, b.first_key);
    }
    let opened = Arc::new(opened);
    let first = load(&opened, &file, 0);
    let it = SsTableIterator::create_and_seek_to_first(opened.clone(), first);
    let keys = collect(&opened, &file, it);
    let expected: Vec<String> = (1..=100).map(|i| format!("k{:03}", i)).collect();
    assert_eq!(keys, expected);
}

#[test]
fn sstable_block_index_bound() {
    let (table, file) = build_table(64, 100);
    let table = Arc::new(table);
    for idx in 0..table.num_of_blocks() {
        let block = load(&table, &file, idx);
        let mut it = lsmkv::block::iterator::BlockIterator::create_and_seek_to_first(block);
        while it.is_valid() {
            assert_eq!(table.find_block_idx(it.key()), idx);
            it.next();
        }
    }
    assert_eq!(table.find_block_idx(b"a"), 0);
    assert_eq!(table.find_block_idx(b"z"), table.num_of_blocks() - 1);
}

#[test]
fn sstable_builder_refuses_out_of_order() {
    let mut b = SsTableBuilder::new(64);
    assert!(b.add(b"k2", b"v"));
    assert!(!b.add(b"k1", b"v"));
    assert!(b.add(b"k2", b"w"));
    assert!(!b.add(&[b'x'; 100], b"v"));
}

#[test]
fn sstable_estimated_size() {
    let mut b = SsTableBuilder::new(64);
    assert_eq!(b.estimated_size(), 8);
    for i in 1..=20 {
        assert!(b.add(format!("k{:03}", i).as_bytes(), b"v"));
    }
    let est = b.estimated_size();
    assert!(est > 8);
    let (table, file) = b.build(3);
    assert_eq!(table.id(), 3);
    assert!(file.len() >= est);
}

#[test]
fn sstable_malformed_files() {
    assert_eq!(SsTable::meta_offset_of(4, &[0, 0, 0, 0]), Err(Error::MalformedSst));
    assert_eq!(SsTable::meta_offset_of(8, &[0, 0, 0, 0, 0, 0, 0, 9]), Err(Error::MalformedSst));
    assert_eq!(SsTable::meta_offset_of(16, &[0, 0, 0, 0, 0, 0, 0, 8]), Ok(8));
    assert!(matches!(SsTable::open(0, 0, &[0, 0, 0]), Err(Error::MalformedSst)));
    assert!(matches!(BlockMeta::decode_block_meta(&[0, 0, 0, 0, 0, 0, 0, 1, 0, 5, b'a']), Err(Error::MalformedSst)));
}

#[test]
fn block_meta_round_trip() {
    let metas = vec![
        BlockMeta { offset: 0, first_key: b"a".to_vec() },
        BlockMeta { offset: 300, first_key: b"bc".to_vec() },
    ];
    let mut buf = vec![];
    BlockMeta::encode_block_meta(&metas, &mut buf);
    assert_eq!(buf.len(), 10 + 1 + 10 + 2);
    assert_eq!(metas[0].size() + metas[1].size(), buf.len());
    assert_eq!(&buf[..11], &[0, 0, 0, 0, 0, 0, 0, 0, 0, 1, b'a']);
    assert_eq!(&buf[11..21], &[0, 0, 0, 0, 0, 0, 1, 44, 0, 2]);
    let back = BlockMeta::decode_block_meta(&buf).unwrap();
    assert_eq!(back.len(), 2);
    assert_eq!(back[1].offset, 300);
    assert_eq!(back[1].first_key, b"bc".to_vec());
    let t = SsTable::open(5, 400, &buf).unwrap();
    assert_eq!(t.block_range(0), (0, 300));
    assert_eq!(t.block_range(1), (300, 100));
    assert!(matches!(SsTable::open(5, 200, &buf), Err(Error::MalformedSst)));
}

#[test]
fn sstable_seek_past_block_end() {
    let (table, file) = build_table(64, 100);
    let firsts: Vec<Vec<u8>> = table.block_metas().iter().map(|m| m.first_key.clone()).collect();
    let table = Arc::new(table);
    for i in 1..firsts.len() {
        let n: usize = String::from_utf8(firsts[i][1..].to_vec()).unwrap().parse().unwrap();
        let key = format!("k{:03}9", n - 1);
        let idx = table.find_block_idx(key.as_bytes());
        assert_eq!(idx, i - 1);
        let (mut it, pending) = SsTableIterator::create_and_seek_to_key(table.clone(), load(&table, &file, idx), key.as_bytes());
        assert!(!it.is_valid());
        assert_eq!(pending, Some(i));
        it.enter_block(i, load(&table, &file, i));
        assert_eq!(it.key(), firsts[i].as_slice());
        let again = it.seek_to_key(load(&table, &file, idx), key.as_bytes());
        assert_eq!(again, Some(i));
    }
    let last = format!("k{:03}9", 100);
    let idx = table.find_block_idx(last.as_bytes());
    let (it, pending) = SsTableIterator::create_and_seek_to_key(table.clone(), load(&table, &file, idx), last.as_bytes());
    assert!(!it.is_valid());
    assert_eq!(pending, None);
}

#[test]
fn sstable_builder_cuts_blocks_of_five() {
    let (table, _file) = build_table(64, 100);
    assert_eq!(table.num_of_blocks(), 20);
    for (i, m) in table.block_metas().iter().enumerate() {
        assert_eq!(m.first_key, format!("k{:03}", 5 * i + 1).into_bytes());
    }
}
