use lsmkv::error::Error;
use lsmkv::keys::FixedLengthSuffixComparator;
use lsmkv::memtable::MemTable;
use lsmkv::skiplist::KeyBound;

#[test]
fn test_new() {
    let _mem = MemTable::new(1024, FixedLengthSuffixComparator::new(8));
}

#[test]
fn memtable_put_get() {
    let mut mem = MemTable::new(1 << 16, FixedLengthSuffixComparator::new(8));
    assert_eq!(mem.put(b"a", b"1"), Ok(()));
    assert_eq!(mem.put(b"a", b"1"), Ok(()));
    assert_eq!(mem.get(b"a"), Some(b"1".to_vec()));
    assert_eq!(mem.put(b"a", b"2"), Err(Error::PutConflict));
    assert_eq!(mem.get(b"a"), Some(b"1".to_vec()));
    assert_eq!(mem.get(b"b"), None);
    assert_eq!(mem.id(), 0);
    assert!(mem.mem_size() > 0);
}

#[test]
fn memtable_full_arena() {
    let mut mem = MemTable::with_id(200, FixedLengthSuffixComparator::new(8), 7);
    assert_eq!(mem.id(), 7);
    assert_eq!(mem.put(b"a", b"1"), Err(Error::ArenaOutOfSpace));
    assert_eq!(mem.get(b"a"), None);
}

#[test]
fn memtable_scan_exclusive_bounds() {
    let mut mem = MemTable::new(1 << 20, FixedLengthSuffixComparator::new(8));
    for i in 0..10 {
        mem.put(format!("{}", i).as_bytes(), i.to_string().as_bytes()).unwrap();
    }
    for i in 20..30 {
        mem.put(format!("{}", i).as_bytes(), i.to_string().as_bytes()).unwrap();
    }
    let mut it = mem.scan(KeyBound::Excluded(b"1".to_vec()), KeyBound::Excluded(b"3".to_vec()));
    let mut keys = vec![];
    while it.is_valid() {
        assert_eq!(it.key(), it.value());
        keys.push(String::from_utf8(it.key().to_vec()).unwrap());
        it.next();
    }
    assert_eq!(keys, vec!["2", "20", "21", "22", "23", "24", "25", "26", "27", "28", "29"]);
}

#[test]
fn memtable_scan_unbounded() {
    let mut mem = MemTable::new(1 << 16, FixedLengthSuffixComparator::new(8));
    for k in ["c", "a", "b"] {
        mem.put(k.as_bytes(), b"v").unwrap();
    }
    let mut it = mem.scan(KeyBound::Unbounded, KeyBound::Unbounded);
    let mut keys = vec![];
    while it.is_valid() {
        keys.push(it.key().to_vec());
        it.next();
    }
    assert_eq!(keys, vec![b"a".to_vec(), b"b".to_vec(), b"c".to_vec()]);
}

#[test]
fn memtable_rejects_empty_key() {
    let mut mem = MemTable::new(1 << 16, FixedLengthSuffixComparator::new(8));
    assert_eq!(mem.put(b"", b"1"), Err(Error::EmptyKey));
    assert_eq!(mem.get(b""), None);
    assert_eq!(mem.mem_size(), 160);
}
