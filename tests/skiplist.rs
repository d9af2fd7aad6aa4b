use std::alloc::Layout;
use std::collections::BTreeMap;
use std::mem;

use lsmkv::add;
use lsmkv::error::Error;
use lsmkv::keys::{FixedLengthSuffixComparator, KeyComparator};
use lsmkv::skiplist::{KeyBound, Skiplist};
use rand::Rng;

fn print_list(skl: &Skiplist<FixedLengthSuffixComparator>) {
    for level in (0..20).rev() {
        let keys = skl.level_keys(level);
        let shown: Vec<String> = keys.iter().map(|k| String::from_utf8_lossy(k).into_owned()).collect();
        println!("level {} {}", level, shown.join(" "));
    }
}

#[test]
fn it_works() {
    let result = add(2, 2);
    assert_eq!(result, 4);
}

#[test]
fn test_find_near() {
    let comp = FixedLengthSuffixComparator::new(8);
    let mut list = Skiplist::with_capacity(comp, 1 << 20);
    for i in 0..1000 {
        let key = format!("{:05}{:08}", i * 10 + 5, 0).into_bytes();
        let value = format!("{:05}", i).into_bytes();
        let _r = list.put(key, value);
    }
    let mut cases = vec![
        ("00001", false, false, Some("00005")),
        ("00001", false, true, Some("00005")),
        ("00001", true, false, None),
        ("00001", true, true, None),
        ("00005", false, false, Some("00015")),
        ("00005", false, true, Some("00005")),
        ("00005", true, false, None),
        ("00005", true, true, Some("00005")),
        ("05555", false, false, Some("05565")),
        ("05555", false, true, Some("05555")),
        ("05555", true, false, Some("05545")),
        ("05555", true, true, Some("05555")),
        ("05558", false, false, Some("05565")),
        ("05558", false, true, Some("05565")),
        ("05558", true, false, Some("05555")),
        ("05558", true, true, Some("05555")),
        ("09995", false, false, None),
        ("09995", false, true, Some("09995")),
        ("09995", true, false, Some("09985")),
        ("09995", true, true, Some("09995")),
        ("59995", false, false, None),
        ("59995", false, true, None),
        ("59995", true, false, Some("09995")),
        ("59995", true, true, Some("09995")),
    ];
    for (i, (key, less, allow_equal, exp)) in cases.drain(..).enumerate() {
        let seek_key = format!("{}{:08}", key, 0).into_bytes();
        let res = list.find_near(&seek_key, less, allow_equal);
        if exp.is_none() {
            assert!(res.is_none(), "{}", i);
            continue;
        }
        let e = format!("{}{:08}", exp.unwrap(), 0);
        assert_eq!(&res.unwrap().key[..], e.as_bytes(), "{}", i);
    }
}

#[test]
fn test_skl() {
    let comp = FixedLengthSuffixComparator::new(8);
    let mut skl = Skiplist::with_capacity(comp, 1024 * 1024);
    let mut rng = rand::thread_rng();
    for _ in 0..1000 {
        let _ = skl.put(format!("{}", rng.gen_range(0..10000)).into_bytes(), b"a".to_vec());
    }
    print_list(&skl);
}

#[test]
fn test_skl_res() {
    let comp = FixedLengthSuffixComparator::new(8);
    let mut skl = Skiplist::with_capacity(comp, 1024 * 1024);
    let mut rng = rand::thread_rng();
    let r = skl.put(format!("{}", rng.gen_range(0..10000)).into_bytes(), b"a".to_vec());

    assert!(matches!(r, Ok(None)))
}

#[test]
fn test_skl_iter() {
    let comp = FixedLengthSuffixComparator::new(8);
    let mut skl = Skiplist::with_capacity(comp, 1024 * 1024);
    let mut rng = rand::thread_rng();
    let _r = skl.put(format!("{}", rng.gen_range(0..10000)).into_bytes(), b"a".to_vec());
    print_list(&skl);
    let mut it = skl.iter_ref();
    it.seek_to_first();
    println!("{:?}, {:?}", it.key(), it.value());
    it.next();
    assert!(!it.valid())
}

#[test]
fn test_skl_rang_iter() {
    let comp = FixedLengthSuffixComparator::new(8);
    let mut skl = Skiplist::with_capacity(comp, 1024 * 1024);

    for i in 0..10 {
        let _r = skl.put(format!("{}", i).into_bytes(), i.to_string().into_bytes());
    }
    for i in 20..30 {
        let _r = skl.put(format!("{}", i).into_bytes(), i.to_string().into_bytes());
    }
    print_list(&skl);

    let start = KeyBound::Excluded(b"1".to_vec());
    let end = KeyBound::Excluded(b"3".to_vec());
    let mut it = skl.range_ref(start, end);
    it.seek_to_first();
    let mut seen = vec![];
    while it.valid() {
        println!("{:?}, {:?}", it.key(), it.value());
        seen.push(String::from_utf8(it.key().clone()).unwrap());
        it.next();
    }
    let expected: Vec<String> = ["2", "20", "21", "22", "23", "24", "25", "26", "27", "28", "29"].iter().map(|s| s.to_string()).collect();
    assert_eq!(seen, expected);
}

#[test]
fn test_anena_align() {
    println!("{}", mem::align_of::<Vec<u64>>());
    println!("{}", mem::align_of::<u8>());
    let mut res = vec![];
    for _ in 0..100000 {
        let v: Vec<u8> = Vec::with_capacity(1);
        let p = v.as_ptr();
        assert_eq!(p as usize % 8, 0);
        res.push(v);
    }
    let _: Vec<u8> = Vec::with_capacity(1);
    let lay = Layout::array::<u8>(1);
    println!("{:?}", lay);
}

#[test]
fn test_const_fn() {
    let c1 = FixedLengthSuffixComparator::new(1);
    let c2 = FixedLengthSuffixComparator::new(2);
    println!("{:p}, {:p}", &c1, &c2)
}

#[test]
fn test_option() {
    let mut map = BTreeMap::new();
    for i in 0..10 {
        map.insert(i, i);
    }
    let r = map.range(3..3);

    for i in r {
        println!("{:?}", i)
    }
}

#[test]
fn skiplist_idempotent_put() {
    let mut skl = Skiplist::with_capacity(FixedLengthSuffixComparator::new(8), 4096);
    assert!(matches!(skl.put(b"a".to_vec(), b"1".to_vec()), Ok(None)));
    assert!(matches!(skl.put(b"a".to_vec(), b"1".to_vec()), Ok(None)));
    assert_eq!(skl.get(b"a").map(|v| v.clone()), Some(b"1".to_vec()));
    assert_eq!(skl.len(), 1);
}

#[test]
fn skiplist_conflicting_put() {
    let mut skl = Skiplist::with_capacity(FixedLengthSuffixComparator::new(8), 4096);
    assert!(matches!(skl.put(b"a".to_vec(), b"1".to_vec()), Ok(None)));
    match skl.put(b"a".to_vec(), b"2".to_vec()) {
        Ok(Some((k, v))) => {
            assert_eq!(k, b"a".to_vec());
            assert_eq!(v, b"2".to_vec());
        }
        _ => panic!("expected a conflict"),
    }
    assert_eq!(skl.get(b"a").map(|v| v.clone()), Some(b"1".to_vec()));
    assert_eq!(skl.len(), 1);
}

#[test]
fn skiplist_order_after_random_puts() {
    let mut skl = Skiplist::with_capacity(FixedLengthSuffixComparator::new(8), 1 << 20);
    let mut rng = rand::thread_rng();
    let mut model = BTreeMap::new();
    for _ in 0..2000 {
        let k = format!("{}", rng.gen_range(0..5000));
        let v = format!("v{}", rng.gen_range(0..3));
        let r = skl.put(k.clone().into_bytes(), v.clone().into_bytes()).unwrap();
        match model.get(&k) {
            None => {
                assert!(r.is_none());
                model.insert(k, v);
            }
            Some(old) if *old == v => assert!(r.is_none()),
            Some(_) => assert!(r.is_some()),
        }
    }
    let keys = skl.level_keys(0);
    assert_eq!(keys.len(), model.len());
    assert_eq!(skl.len(), model.len());
    for w in keys.windows(2) {
        assert!(w[0] < w[1]);
    }
    for (k, v) in &model {
        assert_eq!(skl.get(k.as_bytes()).map(|x| x.clone()), Some(v.clone().into_bytes()));
    }
    assert_eq!(skl.get(b"absent"), None);
}

#[test]
fn skiplist_iterator_walks_both_ways() {
    let mut skl = Skiplist::with_capacity(FixedLengthSuffixComparator::new(8), 1 << 16);
    for k in ["b", "d", "f"] {
        skl.put(k.as_bytes().to_vec(), k.as_bytes().to_vec()).unwrap();
    }
    let mut it = skl.iter_ref();
    assert!(!it.valid());
    it.seek_to_last();
    assert_eq!(it.key(), &b"f".to_vec());
    it.prev();
    assert_eq!(it.key(), &b"d".to_vec());
    it.seek(b"c");
    assert_eq!(it.key(), &b"d".to_vec());
    it.seek_for_prev(b"c");
    assert_eq!(it.key(), &b"b".to_vec());
    it.prev();
    assert!(!it.valid());
    it.seek(b"g");
    assert!(!it.valid());
    assert!(!skl.is_empty());
    assert_eq!(skl.find_near_value(b"c", false, true).map(|v| v.clone()), Some(b"d".to_vec()));
}

#[test]
fn skiplist_range_bounds() {
    let mut skl = Skiplist::with_capacity(FixedLengthSuffixComparator::new(8), 1 << 16);
    for k in ["a", "b", "c", "d", "e"] {
        skl.put(k.as_bytes().to_vec(), b"x".to_vec()).unwrap();
    }
    let collect = |lo: KeyBound, hi: KeyBound| {
        let mut it = skl.range_ref(lo, hi);
        it.seek_to_first();
        let mut out = vec![];
        while it.valid() {
            out.push(String::from_utf8(it.key().clone()).unwrap());
            it.next();
        }
        out
    };
    assert_eq!(collect(KeyBound::Included(b"b".to_vec()), KeyBound::Included(b"d".to_vec())), vec!["b", "c", "d"]);
    assert_eq!(collect(KeyBound::Excluded(b"b".to_vec()), KeyBound::Excluded(b"d".to_vec())), vec!["c"]);
    assert_eq!(collect(KeyBound::Unbounded, KeyBound::Excluded(b"c".to_vec())), vec!["a", "b"]);
    assert_eq!(collect(KeyBound::Included(b"d".to_vec()), KeyBound::Unbounded), vec!["d", "e"]);
    assert_eq!(collect(KeyBound::Included(b"d".to_vec()), KeyBound::Included(b"b".to_vec())), Vec::<String>::new());
}

#[test]
fn skiplist_arena_out_of_space() {
    let mut skl = Skiplist::with_capacity(FixedLengthSuffixComparator::new(8), 160);
    assert_eq!(skl.put(b"a".to_vec(), b"1".to_vec()), Err(Error::ArenaOutOfSpace));
    assert!(skl.is_empty());
    assert!(skl.mem_size() <= 161);
}

#[test]
fn comparator_strips_suffix() {
    let c = FixedLengthSuffixComparator::new(8);
    assert!(c.same_key(b"00005aaaaaaaa", b"00005bbbbbbbb"));
    assert_eq!(c.compare_key(b"00005aaaaaaaa", b"00015aaaaaaaa"), std::cmp::Ordering::Less);
    assert_eq!(c.compare_key(b"2", b"19"), std::cmp::Ordering::Greater);
}

#[test]
fn skiplist_rejects_empty_key() {
    let mut skl = Skiplist::with_capacity(FixedLengthSuffixComparator::new(8), 4096);
    assert_eq!(skl.put(Vec::new(), b"1".to_vec()), Err(Error::EmptyKey));
    assert!(skl.is_empty());
    assert_eq!(skl.mem_size(), 160);
}
