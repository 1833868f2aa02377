use mini_lsm::key::{key_compare, KeyOrdering};
use mini_lsm::lsm_storage::{LsmStorageOptions, MiniLsm, WriteBatchRecord};
use mini_lsm::LsmError;

#[test]
fn test_engine_put_overwrite_get() {
    let mut lsm = MiniLsm::create(LsmStorageOptions::basic_defaults());
    lsm.put(b"key1", b"value1").unwrap();
    lsm.put(b"key2", b"value2").unwrap();
    lsm.put(b"key1", b"value1`").unwrap();
    assert_eq!(lsm.get(b"key1").unwrap(), Some(b"value1`".to_vec()));
    assert_eq!(lsm.get(b"key2").unwrap(), Some(b"value2".to_vec()));
    assert_eq!(lsm.get(b"key3").unwrap(), None);
}

#[test]
fn test_engine_delete_reads_not_found() {
    let mut lsm = MiniLsm::create(LsmStorageOptions::basic_defaults());
    lsm.put(b"k", b"v").unwrap();
    assert_eq!(lsm.get(b"k").unwrap(), Some(b"v".to_vec()));
    lsm.delete(b"k").unwrap();
    assert_eq!(lsm.get(b"k").unwrap(), None);
}

#[test]
fn test_engine_rejects_empty_key() {
    let mut lsm = MiniLsm::create(LsmStorageOptions::basic_defaults());
    assert_eq!(lsm.put(b"", b"v"), Err(LsmError::EmptyKey));
    assert_eq!(lsm.delete(b""), Err(LsmError::EmptyKey));
}

#[test]
fn test_engine_rejects_empty_value_on_put() {
    let mut lsm = MiniLsm::create(LsmStorageOptions::basic_defaults());
    assert_eq!(lsm.put(b"k", b""), Err(LsmError::EmptyValueOnPut));
    // The rejected write left no tombstone behind.
    assert_eq!(lsm.get(b"k").unwrap(), None);
}

#[test]
fn test_engine_write_batch() {
    let mut lsm = MiniLsm::create(LsmStorageOptions::basic_defaults());
    let batch = vec![
        WriteBatchRecord::Put(b"a".to_vec(), b"1".to_vec()),
        WriteBatchRecord::Put(b"b".to_vec(), b"2".to_vec()),
        WriteBatchRecord::Del(b"a".to_vec()),
    ];
    lsm.write_batch(&batch).unwrap();
    assert_eq!(lsm.get(b"a").unwrap(), None);
    assert_eq!(lsm.get(b"b").unwrap(), Some(b"2".to_vec()));
}

#[test]
fn test_engine_write_batch_stops_at_offender() {
    let mut lsm = MiniLsm::create(LsmStorageOptions::basic_defaults());
    let batch = vec![
        WriteBatchRecord::Put(b"a".to_vec(), b"1".to_vec()),
        WriteBatchRecord::Put(b"b".to_vec(), b"".to_vec()),
        WriteBatchRecord::Put(b"c".to_vec(), b"3".to_vec()),
    ];
    assert_eq!(lsm.write_batch(&batch), Err(LsmError::EmptyValueOnPut));
    // The records before the offending one stay applied; the rest do not run.
    assert_eq!(lsm.get(b"a").unwrap(), Some(b"1".to_vec()));
    assert_eq!(lsm.get(b"b").unwrap(), None);
    assert_eq!(lsm.get(b"c").unwrap(), None);
}

#[test]
fn test_engine_freeze_under_pressure() {
    // A tiny threshold makes the first sufficiently large write freeze the
    // writable table; the frozen entries are no longer served by the core's
    // point read, which consults only the writable table.
    let options = LsmStorageOptions {
        block_size: 4096,
        target_sst_size: 8,
        num_memtable_limit: 50,
        wal_enabled: false,
        serializable: false,
    };
    let mut lsm = MiniLsm::create(options);
    lsm.put(b"key1", b"value1").unwrap();
    assert_eq!(lsm.get(b"key1").unwrap(), None);
    // The fresh writable table serves writes as usual.
    lsm.put(b"k2", b"v2").unwrap();
    assert_eq!(lsm.get(b"k2").unwrap(), Some(b"v2".to_vec()));
}

#[test]
fn test_engine_no_freeze_below_threshold() {
    let options = LsmStorageOptions {
        block_size: 4096,
        target_sst_size: 1000,
        num_memtable_limit: 50,
        wal_enabled: false,
        serializable: false,
    };
    let mut lsm = MiniLsm::create(options);
    lsm.put(b"key1", b"value1").unwrap();
    assert_eq!(lsm.get(b"key1").unwrap(), Some(b"value1".to_vec()));
}

#[test]
fn test_basic_defaults() {
    let options = LsmStorageOptions::basic_defaults();
    assert_eq!(options.block_size, 4096);
    assert_eq!(options.target_sst_size, 2 << 20);
    assert_eq!(options.num_memtable_limit, 50);
    assert!(!options.wal_enabled);
    assert!(!options.serializable);
}

#[test]
fn test_key_compare_is_lexicographic() {
    assert_eq!(key_compare(b"abc", b"abd"), KeyOrdering::Less);
    assert_eq!(key_compare(b"abd", b"abc"), KeyOrdering::Greater);
    assert_eq!(key_compare(b"abc", b"abc"), KeyOrdering::Equal);
    // A proper prefix sorts first.
    assert_eq!(key_compare(b"ab", b"abc"), KeyOrdering::Less);
    assert_eq!(key_compare(b"abc", b"ab"), KeyOrdering::Greater);
    assert_eq!(key_compare(b"", b"a"), KeyOrdering::Less);
}
