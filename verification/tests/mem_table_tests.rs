use mini_lsm::iterators::StorageIterator;
use mini_lsm::mem_table::{KeyBound, MemTable};

#[test]
fn test_memtable_get() {
    let mut mem_table = MemTable::create(0);
    let _ = mem_table.put(b"key1", b"value1");
    let _ = mem_table.put(b"key2", b"value2");
    let _ = mem_table.put(b"key1", b"value1`");
    assert_eq!(mem_table.get(b"key1"), Some(b"value1`".to_vec()));
}

#[test]
fn test_memtable_scan() {
    let mut mem_table = MemTable::create(0);
    let _ = mem_table.put(b"key1", b"value1");
    let _ = mem_table.put(b"key2", b"value2");
    let _ = mem_table.put(b"key3", b"value3");
    let _ = mem_table.put(b"key4", b"value4");
    let _ = mem_table.put(b"key5", b"value5");
    let _ = mem_table.put(b"key6", b"value6");

    let mut iter = mem_table.scan(
        KeyBound::Included(b"key2".to_vec()),
        KeyBound::Excluded(b"key5".to_vec()),
    );
    assert_eq!(iter.key(), b"key2".as_slice());
    assert_eq!(iter.value(), b"value2".as_slice());
    assert_eq!(iter.is_valid(), true);
    let _ = iter.next();
    assert_eq!(iter.key(), b"key3".as_slice());
    assert_eq!(iter.value(), b"value3".as_slice());
    assert_eq!(iter.is_valid(), true);
    let _ = iter.next();
    assert_eq!(iter.key(), b"key4".as_slice());
    assert_eq!(iter.value(), b"value4".as_slice());
    assert_eq!(iter.is_valid(), true);
    let _ = iter.next();
    assert_eq!(iter.is_valid(), false);
    assert_eq!(iter.num_active_iterators(), 1);
}

#[test]
fn test_memtable_scan_unbounded() {
    let mut mem_table = MemTable::create(3);
    let _ = mem_table.put(b"b", b"2");
    let _ = mem_table.put(b"a", b"1");
    let _ = mem_table.put(b"c", b"3");
    let mut iter = mem_table.scan(KeyBound::Unbounded, KeyBound::Unbounded);
    let mut seen: Vec<(Vec<u8>, Vec<u8>)> = Vec::new();
    while iter.is_valid() {
        seen.push((iter.key().to_vec(), iter.value().to_vec()));
        let _ = iter.next();
    }
    assert_eq!(
        seen,
        vec![
            (b"a".to_vec(), b"1".to_vec()),
            (b"b".to_vec(), b"2".to_vec()),
            (b"c".to_vec(), b"3".to_vec()),
        ]
    );
}

#[test]
fn test_memtable_scan_empty_range() {
    let mut mem_table = MemTable::create(4);
    let _ = mem_table.put(b"a", b"1");
    let iter = mem_table.scan(
        KeyBound::Excluded(b"a".to_vec()),
        KeyBound::Excluded(b"b".to_vec()),
    );
    assert!(!iter.is_valid());
}

#[test]
fn test_memtable_size_monotone() {
    let mut mem_table = MemTable::create(1);
    assert_eq!(mem_table.approximate_size(), 0);
    let _ = mem_table.put(b"key", b"value");
    let after_first = mem_table.approximate_size();
    assert_eq!(after_first, 8);
    // An overwrite still grows the hint: it is a freeze trigger, not an exact
    // accounting.
    let _ = mem_table.put(b"key", b"v");
    let after_second = mem_table.approximate_size();
    assert_eq!(after_second, 12);
    assert!(after_second >= after_first);
}

#[test]
fn test_memtable_tombstone_entry_visible() {
    // The table itself stores the empty tombstone value; only the engine maps
    // it to "not found".
    let mut mem_table = MemTable::create(2);
    let _ = mem_table.put(b"k", b"v");
    let _ = mem_table.put(b"k", b"");
    assert_eq!(mem_table.get(b"k"), Some(Vec::new()));
}
