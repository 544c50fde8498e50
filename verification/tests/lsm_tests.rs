//! End-to-end tests of the engine: the log, the memtable, every table
//! manager variant, the coordinator, and recovery through the emitted file
//! ops applied to an in-memory directory model.

use std::collections::BTreeMap;

use lsm_forest::log::{Log, LogEntry};
use lsm_forest::lsm_forest::LSMTree;
use lsm_forest::memtable::Memtable;
use lsm_forest::table_manager::bcat_table_manager::BCATTableManager;
use lsm_forest::table_manager::{load_tables, parse_entries, FileOp, TableFile, TableManager};
use rand::seq::SliceRandom;
use rand::Rng;

const TEST_N: i64 = 4096;

fn key_bytes(i: i64) -> Vec<u8> {
    format!("key{}", i).into_bytes()
}

fn value_bytes(i: i64) -> Vec<u8> {
    format!("value{}", i).into_bytes()
}

/// An in-memory model of the engine's directory: the log file's bytes and
/// one byte string per table file.
#[derive(Default)]
struct Dir {
    wal: Vec<u8>,
    files: BTreeMap<(u8, u64), Vec<u8>>,
}

fn apply_ops(dir: &mut Dir, ops: Vec<FileOp>) {
    for op in ops {
        match op {
            FileOp::WalAppend(bytes) => dir.wal.extend_from_slice(&bytes),
            FileOp::WalWrite(bytes) => dir.wal = bytes,
            FileOp::WalTruncate => dir.wal.clear(),
            FileOp::TableWrite { level, id, data } => {
                dir.files.insert((level, id), data);
            }
            FileOp::TableRemove { level, id } => {
                dir.files.remove(&(level, id));
            }
        }
    }
}

fn listing(dir: &Dir) -> Vec<TableFile> {
    dir.files
        .iter()
        .map(|((level, id), data)| TableFile { level: *level, id: *id, data: data.clone() })
        .collect()
}

fn open_bcat(dir: &mut Dir) -> LSMTree<BCATTableManager> {
    let files = listing(dir);
    let l1 = load_tables(&files, 1);
    let l2 = load_tables(&files, 2);
    let mut l3s = load_tables(&files, 3);
    let l3 = l3s.pop();
    let tm = BCATTableManager::new(l1, l2, l3);
    let (t, ops) = LSMTree::new(dir.wal.clone(), tm);
    apply_ops(dir, ops);
    t
}

#[test]
fn test_log_new() {
    let log = Log::new(Vec::new());
    assert_eq!(log.len(), 0);
}

#[test]
fn test_log_append_recovery() {
    let mut log = Log::new(Vec::new());
    let mut memtable: BTreeMap<Vec<u8>, Option<Vec<u8>>> = BTreeMap::new();

    for i in 0..TEST_N {
        let key = key_bytes(i);
        let value_opt = Some(value_bytes(i));
        memtable.insert(key.clone(), value_opt.clone());

        let mut entry = LogEntry { crc: 0, key, value: value_opt };
        entry.set_crc();
        let _ = log.append(&entry);
    }

    let mut other_log = Log::new(log.bytes().clone());
    let recovered = other_log.recovery();

    for (k, v) in memtable.iter() {
        assert_eq!(recovered.get(k), Some(v.clone()));
    }
}

#[test]
fn test_crc_detects_tampering() {
    let mut entry = LogEntry { crc: 0, key: key_bytes(1), value: Some(value_bytes(1)) };
    entry.set_crc();
    assert!(entry.check_crc());
    entry.crc = entry.crc.wrapping_add(1);
    assert!(!entry.check_crc());
}

#[test]
fn test_corrupt_record_ends_replay() {
    let mut log = Log::new(Vec::new());
    let mut good = LogEntry { crc: 0, key: key_bytes(1), value: Some(value_bytes(1)) };
    good.set_crc();
    let _ = log.append(&good);
    // A record whose stored checksum does not match is treated as a torn
    // tail: replay ends there, and records behind it are not applied.
    let bad = LogEntry { crc: good.crc.wrapping_add(7), key: key_bytes(2), value: Some(value_bytes(2)) };
    let _ = log.append(&bad);
    let mut later = LogEntry { crc: 0, key: key_bytes(3), value: Some(value_bytes(3)) };
    later.set_crc();
    let _ = log.append(&later);

    let mut other_log = Log::new(log.bytes().clone());
    let recovered = other_log.recovery();
    assert_eq!(recovered.get(&key_bytes(1)), Some(Some(value_bytes(1))));
    assert_eq!(recovered.get(&key_bytes(2)), None);
    assert_eq!(recovered.get(&key_bytes(3)), None);
    // The log is normalized to the valid prefix.
    assert!(other_log.len() < log.len());
}

#[test]
fn test_torn_tail_ends_replay() {
    let mut log = Log::new(Vec::new());
    let mut entry = LogEntry { crc: 0, key: key_bytes(1), value: Some(value_bytes(1)) };
    entry.set_crc();
    let _ = log.append(&entry);
    let mut bytes = log.bytes().clone();
    // A write torn mid-record leaves a partial encoding at the tail.
    bytes.truncate(bytes.len() - 1);

    let mut torn = Log::new(bytes);
    let recovered = torn.recovery();
    assert_eq!(recovered.get(&key_bytes(1)), None);
    assert_eq!(recovered.len(), 0);
}

#[test]
fn test_simple_tm_new() {
    let mut files = Vec::new();
    for i in 0..TEST_N {
        files.push(TableFile { level: 1, id: i as u64, data: Vec::new() });
    }
    let tables = load_tables(&files, 1);
    let tm: BCATTableManager = BCATTableManager::new(tables, Vec::new(), None);

    for i in 0..TEST_N {
        assert_eq!(tm.tm.tm.sstables[i as usize].id, i as u64);
    }
}

#[test]
fn test_tm_add_table() {
    let mut tm = BCATTableManager::new(Vec::new(), Vec::new(), None);
    let mut expected: BTreeMap<Vec<u8>, Option<Vec<u8>>> = BTreeMap::new();
    let mut memtable = Memtable::new();

    for i in 0..TEST_N {
        let key = key_bytes(i);
        let value_opt = Some(value_bytes(i));
        expected.insert(key.clone(), value_opt.clone());
        memtable.insert(key, value_opt);
    }

    let ops = tm.add_table(&memtable);
    let mut wrote = None;
    for op in ops {
        if let FileOp::TableWrite { level, data, .. } = op {
            assert_eq!(level, 1);
            wrote = Some(data);
        }
    }
    let data = wrote.expect("flush writes one table");
    let entries = parse_entries(&data);
    assert_eq!(entries.len(), expected.len());
    for entry in entries {
        assert_eq!(Some(&entry.value), expected.get(&entry.key));
    }
}

#[test]
fn test_simple_tm_should_flush() {
    let tm = BCATTableManager::new(Vec::new(), Vec::new(), None);
    let mut memtable = Memtable::new();
    let dummy_wal = Log::new(Vec::new());

    assert_eq!(tm.should_flush(&dummy_wal, &memtable), false);

    for i in 0..255 {
        memtable.insert(key_bytes(i), Some(value_bytes(i)));
        assert_eq!(tm.should_flush(&dummy_wal, &memtable), false);
    }

    for i in 256..400 {
        memtable.insert(key_bytes(i), Some(value_bytes(i)));
        assert_eq!(tm.should_flush(&dummy_wal, &memtable), true);
    }
}

#[test]
fn test_tm_read() {
    let n: i64 = 512;
    let mut tm = BCATTableManager::new(Vec::new(), Vec::new(), None);
    let mut expected: BTreeMap<Vec<u8>, Option<Vec<u8>>> = BTreeMap::new();
    let mut copy: BTreeMap<Vec<u8>, Option<Vec<u8>>> = BTreeMap::new();

    for i in 0..n {
        let key = key_bytes(i);
        let value_opt = Some(value_bytes(i));
        expected.insert(key.clone(), value_opt.clone());
        copy.insert(key, value_opt);
    }

    for i in 0..n {
        let key = key_bytes(i);
        let mut value = copy.get(&key).unwrap().clone().unwrap();
        value.extend_from_slice(b"actual");
        copy.insert(key.clone(), Some(value.clone()));
        expected.insert(key.clone(), Some(value));

        let mut memtable = Memtable::new();
        for (k, v) in copy.iter() {
            memtable.insert(k.clone(), v.clone());
        }
        tm.add_table(&memtable);
        copy.remove(&key);
    }

    for i in 0..n {
        let key = key_bytes(i);
        assert_eq!(tm.read(&key), expected.get(&key).unwrap().clone());
    }
}

#[test]
fn test_lsm_tree_new() {
    let tm = BCATTableManager::new(Vec::new(), Vec::new(), None);
    let (mut lsm, _ops) = LSMTree::new(Vec::new(), tm);
    assert_eq!(lsm.get(&key_bytes(0)), None);
    assert_eq!(lsm.memtable_len(), 0);
    assert_eq!(lsm.wal_len(), 0);
}

#[test]
fn test_lsm_put_get() {
    let tm = BCATTableManager::new(Vec::new(), Vec::new(), None);
    let (mut lsm, _ops) = LSMTree::new(Vec::new(), tm);
    let mut memtable: BTreeMap<Vec<u8>, Vec<u8>> = BTreeMap::new();

    for i in 0..TEST_N {
        let key = key_bytes(i);
        let value = value_bytes(i);
        memtable.insert(key.clone(), value.clone());
        lsm.put(key.clone(), value.clone());
        assert_eq!(lsm.get(&key), Some(value));
    }

    for (k, v) in memtable.iter() {
        assert_eq!(lsm.get(k), Some(v.clone()));
    }
}

#[test]
fn test_lsm_put_get_random() {
    let tm = BCATTableManager::new(Vec::new(), Vec::new(), None);
    let (mut lsm, _ops) = LSMTree::new(Vec::new(), tm);
    let mut memtable: BTreeMap<Vec<u8>, Vec<u8>> = BTreeMap::new();
    let mut rng = rand::thread_rng();

    for _i in 0..TEST_N {
        let key = format!("{}", rng.gen::<i32>()).into_bytes();
        let value = format!("{}", rng.gen::<i32>()).into_bytes();
        memtable.insert(key.clone(), value.clone());
        lsm.put(key.clone(), value.clone());
        assert_eq!(lsm.get(&key), Some(value));
    }

    for (k, v) in memtable.iter() {
        assert_eq!(lsm.get(k), Some(v.clone()));
    }
}

#[test]
fn test_lsm_remove() {
    let tm = BCATTableManager::new(Vec::new(), Vec::new(), None);
    let (mut lsm, _ops) = LSMTree::new(Vec::new(), tm);

    for i in 0..TEST_N {
        lsm.put(key_bytes(i), value_bytes(i));
    }

    for i in 0..TEST_N {
        let key = key_bytes(i);
        lsm.remove(&key);
        assert_eq!(lsm.get(&key), None);
    }
}

#[test]
fn test_lsm_remove_random() {
    let tm = BCATTableManager::new(Vec::new(), Vec::new(), None);
    let (mut lsm, _ops) = LSMTree::new(Vec::new(), tm);
    let mut rng = rand::thread_rng();

    for i in 0..TEST_N {
        lsm.put(key_bytes(i), value_bytes(i));
    }

    let mut keys: Vec<i64> = (0..TEST_N).collect();
    keys.shuffle(&mut rng);

    for i in keys {
        let key = key_bytes(i);
        lsm.remove(&key);
        assert_eq!(lsm.get(&key), None);
    }
}

#[test]
fn test_lsm_flush() {
    fn num_bytes(i: i64) -> Vec<u8> {
        format!("{}", i).into_bytes()
    }
    let tm = BCATTableManager::new(Vec::new(), Vec::new(), None);
    let (mut lsm, _ops) = LSMTree::new(Vec::new(), tm);

    for i in 0..255 {
        lsm.put(num_bytes(i), num_bytes(i));
    }

    assert_ne!(lsm.memtable_len(), 0);
    lsm.put(num_bytes(256), num_bytes(256));
    assert_eq!(lsm.memtable_len(), 0);
    assert_eq!(lsm.wal_len(), 0);
    assert_eq!(lsm.table_manager.tm.tm.sstables.len(), 1);

    for i in 0..255 {
        assert_eq!(lsm.table_manager.read(&num_bytes(i)), Some(num_bytes(i)));
        assert_eq!(lsm.get(&num_bytes(i)), Some(num_bytes(i)));
    }

    for i in 256..511 {
        lsm.put(num_bytes(i), num_bytes(i));
    }

    assert_ne!(lsm.memtable_len(), 0);
    lsm.put(num_bytes(255), num_bytes(255));
    assert_eq!(lsm.memtable_len(), 0);
    assert_eq!(lsm.wal_len(), 0);
    assert_eq!(lsm.table_manager.tm.tm.sstables.len(), 2);

    for i in 0..256 {
        assert_eq!(lsm.table_manager.read(&num_bytes(i)), Some(num_bytes(i)));
        assert_eq!(lsm.get(&num_bytes(i)), Some(num_bytes(i)));
    }
}

#[test]
fn test_lsm_recovery() {
    fn num_bytes(i: i64) -> Vec<u8> {
        format!("{}", i).into_bytes()
    }
    let mut dir = Dir::default();
    let mut lsm = open_bcat(&mut dir);

    for i in 0..63 {
        let ops = lsm.put(num_bytes(i), num_bytes(i));
        apply_ops(&mut dir, ops);
    }

    // Drop the first handle without flushing and reopen the directory.
    let first_len = lsm.memtable_len();
    drop(lsm);
    let mut lsm2 = open_bcat(&mut dir);

    assert_eq!(lsm2.memtable_len(), first_len);
    for i in 0..63 {
        assert_eq!(lsm2.get(&num_bytes(i)), Some(num_bytes(i)));
    }
}
