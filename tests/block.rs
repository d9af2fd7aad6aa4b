use std::sync::Arc;

use lsmkv::block::builder::BlockBuilder;
use lsmkv::block::iterator::BlockIterator;
use lsmkv::block::Block;

#[test]
fn block_round_trip() {
    let mut b = BlockBuilder::new(4096);
    assert!(b.is_empty());
    assert!(b.add(b"k1", b"v1"));
    assert!(b.add(b"k2", b"v2"));
    assert_eq!(b.cur_size(), 16 + 4 + 2);
    let block = b.build();
    let bytes = block.encode();
    assert_eq!(bytes.len(), block.block_size());
    let decoded = Block::decode(&bytes);
    assert_eq!(decoded.offsets, vec![0, 8]);
    assert_eq!(decoded.data, block.data);
    assert_eq!(decoded.data, vec![0, 2, b'k', b'1', 0, 2, b'v', b'1', 0, 2, b'k', b'2', 0, 2, b'v', b'2']);
    assert_eq!(&bytes[bytes.len() - 6..], &[0, 0, 0, 8, 0, 2]);
}

#[test]
fn block_builder_refusals() {
    let mut b = BlockBuilder::new(20);
    assert!(!b.add(b"", b"v"));
    assert!(b.add(b"k1", b"v1"));
    assert!(!b.add(b"k2", b"v2"));
    assert!(!b.is_empty());
}

#[test]
fn block_decode_short_buffers() {
    let d = Block::decode(&[1]);
    assert!(d.data.is_empty() && d.offsets.is_empty());
    let d = Block::decode(&[0, 5]);
    assert!(d.data.is_empty() && d.offsets.is_empty());
    let d = Block::decode(&[0, 0]);
    assert!(d.data.is_empty() && d.offsets.is_empty());
}

#[test]
fn block_iterator_seeks() {
    let mut b = BlockBuilder::new(4096);
    for k in ["b", "d", "f"] {
        assert!(b.add(k.as_bytes(), format!("v{}", k).as_bytes()));
    }
    let block = Arc::new(Block::decode(&b.build().encode()));
    let mut it = BlockIterator::create_and_seek_to_first(block.clone());
    let mut seen = vec![];
    while it.is_valid() {
        seen.push((it.key().to_vec(), it.value().to_vec()));
        it.next();
    }
    assert_eq!(seen, vec![(b"b".to_vec(), b"vb".to_vec()), (b"d".to_vec(), b"vd".to_vec()), (b"f".to_vec(), b"vf".to_vec())]);
    let it = BlockIterator::create_and_seek_to_key(block.clone(), b"c");
    assert_eq!(it.key(), b"d");
    let it = BlockIterator::create_and_seek_to_key(block.clone(), b"d");
    assert_eq!(it.key(), b"d");
    let it = BlockIterator::create_and_seek_to_key(block.clone(), b"a");
    assert_eq!(it.key(), b"b");
    let it = BlockIterator::create_and_seek_to_key(block, b"g");
    assert!(!it.is_valid());
}
