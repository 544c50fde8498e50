//! Scenario tests: the end-to-end behaviors the engine promises, exercised
//! over each table-manager variant, plus longer mixed workloads.

use std::collections::BTreeMap;

use lsm_forest::filter::bloom_check;
use lsm_forest::lsm_forest::{reopen, reopen_bcat, LSMTree};
use lsm_forest::table_manager::bcat_table_manager::BCATTableManager;
use lsm_forest::table_manager::simple_bloom_table_manager::SimpleBloomTableManager;
use lsm_forest::table_manager::simple_cache_table_manager::SimpleCacheTableManager;
use lsm_forest::table_manager::simple_compact_table_manager::SimpleCompactTableManager;
use lsm_forest::table_manager::simple_table_manager::SimpleTableManager;
use lsm_forest::table_manager::tiered_compact_table_manager::TieredCompactTableManager;
use lsm_forest::table_manager::{FileOp, TableManager};
use rand::seq::SliceRandom;
use rand::Rng;

fn nb(i: i64) -> Vec<u8> {
    format!("{}", i).into_bytes()
}

fn open_simple() -> LSMTree<SimpleTableManager> {
    let (t, _ops) = LSMTree::new(Vec::new(), SimpleTableManager::new(Vec::new()));
    t
}

fn open_compact() -> LSMTree<SimpleCompactTableManager> {
    let (t, _ops) = LSMTree::new(Vec::new(), SimpleCompactTableManager::new(Vec::new()));
    t
}

fn open_tiered() -> LSMTree<TieredCompactTableManager> {
    let tm = TieredCompactTableManager::new(Vec::new(), Vec::new(), None);
    let (t, _ops) = LSMTree::new(Vec::new(), tm);
    t
}

#[test]
fn sequential_fill_and_read() {
    let tm = BCATTableManager::new(Vec::new(), Vec::new(), None);
    let (mut lsm, _ops) = LSMTree::new(Vec::new(), tm);
    for i in 0..4096 {
        lsm.put(format!("key{}", i).into_bytes(), format!("value{}", i).into_bytes());
    }
    for i in [0i64, 255, 256, 1000, 4095] {
        assert_eq!(
            lsm.get(&format!("key{}", i).into_bytes()),
            Some(format!("value{}", i).into_bytes())
        );
    }
    assert_eq!(lsm.get(&b"missing".to_vec()), None);
}

#[test]
fn flush_boundary() {
    let mut files: BTreeMap<(u8, u64), Vec<u8>> = BTreeMap::new();
    let tm = SimpleTableManager::new(Vec::new());
    let (mut lsm, _ops) = LSMTree::new(Vec::new(), tm);

    for i in 0..255 {
        let ops = lsm.put(nb(i), nb(i));
        for op in ops {
            if let FileOp::TableWrite { level, id, data } = op {
                files.insert((level, id), data);
            }
        }
    }
    assert!(lsm.memtable_len() > 0);
    assert!(lsm.wal_len() > 0);

    let ops = lsm.put(nb(255), nb(255));
    let mut truncated = false;
    for op in ops {
        match op {
            FileOp::TableWrite { level, id, data } => {
                files.insert((level, id), data);
            }
            FileOp::WalTruncate => truncated = true,
            _ => {}
        }
    }
    assert!(truncated);
    assert_eq!(lsm.memtable_len(), 0);
    assert_eq!(lsm.wal_len(), 0);
    assert_eq!(files.len(), 1);

    for i in 0..256 {
        assert_eq!(lsm.get(&nb(i)), Some(nb(i)));
    }
}

#[test]
fn tombstone_shadowing() {
    let tm = BCATTableManager::new(Vec::new(), Vec::new(), None);
    let (mut lsm, _ops) = LSMTree::new(Vec::new(), tm);

    lsm.put(b"k".to_vec(), b"v1".to_vec());
    lsm.put(b"k".to_vec(), b"v2".to_vec());
    assert_eq!(lsm.get(&b"k".to_vec()), Some(b"v2".to_vec()));

    lsm.flush_memtable();
    lsm.remove(&b"k".to_vec());
    assert_eq!(lsm.get(&b"k".to_vec()), None);

    lsm.flush_memtable();
    assert_eq!(lsm.get(&b"k".to_vec()), None);
}

#[test]
fn random_overwrite() {
    let n: i64 = 10_000;
    let mut lsm = open_compact();
    let mut rng = rand::thread_rng();

    let mut keys: Vec<i64> = (0..n).collect();
    keys.shuffle(&mut rng);
    for i in &keys {
        lsm.put(nb(*i), nb(*i));
    }

    keys.shuffle(&mut rng);
    for i in &keys {
        let mut value = nb(*i);
        value.extend_from_slice(b"bis");
        lsm.put(nb(*i), value);
    }

    for i in 0..n {
        let mut value = nb(i);
        value.extend_from_slice(b"bis");
        assert_eq!(lsm.get(&nb(i)), Some(value));
    }
}

#[test]
fn reopen_preserves_observations() {
    let mut lsm = open_simple();
    for i in 0..300 {
        lsm.put(nb(i), nb(i));
    }
    lsm.remove(&nb(7));

    let (mut lsm2, _ops) = reopen(&lsm);
    for i in 0..300 {
        let expected = if i == 7 { None } else { Some(nb(i)) };
        assert_eq!(lsm2.get(&nb(i)), expected);
    }
}

#[test]
fn reopen_bcat_preserves_observations() {
    let tm = BCATTableManager::new(Vec::new(), Vec::new(), None);
    let (mut lsm, _ops) = LSMTree::new(Vec::new(), tm);
    // Enough writes to populate all three levels, plus unflushed tail
    // writes and a tombstone that must survive the restart.
    for i in 0..7000 {
        lsm.put(nb(i), nb(i));
    }
    lsm.remove(&nb(11));
    let (mut lsm2, _ops2) = reopen_bcat(&lsm);
    assert_eq!(lsm2.get(&nb(0)), Some(nb(0)));
    assert_eq!(lsm2.get(&nb(11)), None);
    assert_eq!(lsm2.get(&nb(6999)), Some(nb(6999)));
    assert_eq!(lsm2.get(&nb(7000)), None);
}

#[test]
fn filter_never_misses_live_key() {
    let tm = SimpleBloomTableManager::new(Vec::new());
    let (mut lsm, _ops) = LSMTree::new(Vec::new(), tm);
    for i in 0..600 {
        lsm.put(nb(i), nb(i));
    }
    lsm.flush_memtable();
    // Every key that was live-written and flushed must check positive.
    for i in 0..600 {
        assert!(bloom_check(&lsm.table_manager.bloom, &nb(i)));
        assert_eq!(lsm.get(&nb(i)), Some(nb(i)));
    }
}

#[test]
fn cached_reads_stay_fresh() {
    let tm = SimpleCacheTableManager::new(Vec::new());
    let (mut lsm, _ops) = LSMTree::new(Vec::new(), tm);
    for i in 0..64 {
        lsm.put(nb(i), nb(i));
    }
    lsm.flush_memtable();
    // First read installs the value in the cache; the second is served from
    // it and must agree.
    for i in 0..64 {
        assert_eq!(lsm.get(&nb(i)), Some(nb(i)));
        assert_eq!(lsm.get(&nb(i)), Some(nb(i)));
    }
    // Overwriting a cached key through a flush refreshes the cached value.
    for i in 0..64 {
        let mut value = nb(i);
        value.extend_from_slice(b"bis");
        lsm.put(nb(i), value);
    }
    lsm.flush_memtable();
    for i in 0..64 {
        let mut value = nb(i);
        value.extend_from_slice(b"bis");
        assert_eq!(lsm.get(&nb(i)), Some(value));
    }
}

#[test]
fn tiered_levels_cascade() {
    let mut lsm = open_tiered();
    // Enough flushes to drive level-1 merges into level 2 and a cascade
    // into level 3.
    for i in 0..8000 {
        lsm.put(nb(i), nb(i));
    }
    assert!(lsm.table_manager.level3.is_some() || !lsm.table_manager.level2.is_empty());
    assert_eq!(lsm.get(&nb(0)), Some(nb(0)));
    assert_eq!(lsm.get(&nb(4321)), Some(nb(4321)));
    assert_eq!(lsm.get(&nb(7999)), Some(nb(7999)));
    assert_eq!(lsm.get(&nb(8000)), None);
}

#[test]
fn empty_key_round_trip() {
    let mut lsm = open_simple();
    lsm.put(Vec::new(), b"v".to_vec());
    assert_eq!(lsm.get(&Vec::new()), Some(b"v".to_vec()));
    lsm.flush_memtable();
    assert_eq!(lsm.get(&Vec::new()), Some(b"v".to_vec()));
    lsm.remove(&Vec::new());
    assert_eq!(lsm.get(&Vec::new()), None);
}

fn fillseq<TM: TableManager>(lsm: &mut LSMTree<TM>, n: i64) {
    for i in 0..n {
        lsm.put(nb(i), nb(i));
    }
}

fn readseq<TM: TableManager>(lsm: &mut LSMTree<TM>, n: i64) {
    for i in 0..n {
        assert_eq!(lsm.get(&nb(i)), Some(nb(i)));
    }
}

fn deleteseq<TM: TableManager>(lsm: &mut LSMTree<TM>, n: i64) {
    for i in 0..n {
        lsm.remove(&nb(i));
        assert_eq!(lsm.get(&nb(i)), None);
    }
}

fn fillrand<TM: TableManager>(lsm: &mut LSMTree<TM>, n: i64) {
    let mut rng = rand::thread_rng();
    let mut keys: Vec<i64> = (0..n).collect();
    keys.shuffle(&mut rng);
    for i in keys {
        lsm.put(nb(i), nb(i));
    }
}

fn deleterand<TM: TableManager>(lsm: &mut LSMTree<TM>, n: i64) {
    let mut rng = rand::thread_rng();
    let mut keys: Vec<i64> = (0..n).collect();
    keys.shuffle(&mut rng);
    for i in keys {
        lsm.remove(&nb(i));
        assert_eq!(lsm.get(&nb(i)), None);
    }
}

fn overwrite<TM: TableManager>(lsm: &mut LSMTree<TM>, n: i64) {
    let mut rng = rand::thread_rng();
    let mut keys: Vec<i64> = (0..n).collect();
    keys.shuffle(&mut rng);
    for i in keys {
        lsm.put(nb(i), nb(i));
    }
}

fn readhot<TM: TableManager>(lsm: &mut LSMTree<TM>, n: i64) {
    let mut rng = rand::thread_rng();
    let mut keys: Vec<i64> = (0..n).collect();
    keys.shuffle(&mut rng);
    keys.truncate((n / 100) as usize);
    for _ in 0..n {
        let index = keys[rng.gen_range(0..(n / 100) as usize)];
        assert_eq!(lsm.get(&nb(index)), Some(nb(index)));
    }
}

fn readmissing<TM: TableManager>(lsm: &mut LSMTree<TM>, n: i64) {
    for i in n..n * 2 {
        assert_eq!(lsm.get(&nb(i)), None);
    }
}

#[test]
fn test_lsm_fillseq_readseq() {
    let n: i64 = 10_000;
    let mut lsm = open_simple();
    fillseq(&mut lsm, n);
    readseq(&mut lsm, n);

    let mut lsm = open_compact();
    fillseq(&mut lsm, n);
    readseq(&mut lsm, n);
}

#[test]
fn test_lsm_fillseq_deleteseq() {
    let n: i64 = 10_000;
    let mut lsm = open_simple();
    fillseq(&mut lsm, n);
    deleteseq(&mut lsm, n);

    let mut lsm = open_compact();
    fillseq(&mut lsm, n);
    deleteseq(&mut lsm, n);
}

#[test]
fn test_lsm_fillrand_readrand() {
    let n: i64 = 10_000;
    let mut lsm = open_simple();
    fillrand(&mut lsm, n);
    readseq(&mut lsm, n);

    let mut lsm = open_compact();
    fillrand(&mut lsm, n);
    readseq(&mut lsm, n);
}

#[test]
fn test_lsm_readmissing() {
    let n: i64 = 10_000;
    let mut lsm = open_simple();
    fillseq(&mut lsm, n);
    readmissing(&mut lsm, n);

    let mut lsm = open_compact();
    fillseq(&mut lsm, n);
    readmissing(&mut lsm, n);
}

#[test]
fn test_lsm_fillrand_deleterand() {
    let n: i64 = 10_000;
    let mut lsm = open_simple();
    fillrand(&mut lsm, n);
    deleterand(&mut lsm, n);

    let mut lsm = open_compact();
    fillrand(&mut lsm, n);
    deleterand(&mut lsm, n);
}

#[test]
fn test_lsm_overwrite() {
    let n: i64 = 10_000;
    let mut lsm = open_simple();
    fillseq(&mut lsm, n);
    overwrite(&mut lsm, n);
    readseq(&mut lsm, n);

    let mut lsm = open_compact();
    fillseq(&mut lsm, n);
    overwrite(&mut lsm, n);
    readseq(&mut lsm, n);
}

#[test]
fn test_lsm_readhot() {
    let n: i64 = 10_000;
    let mut lsm = open_simple();
    fillseq(&mut lsm, n);
    readhot(&mut lsm, n);

    let mut lsm = open_compact();
    fillseq(&mut lsm, n);
    readhot(&mut lsm, n);
}
